//! Calories carried by elves: the totals of the groups of a list, and the
//! sum of the largest totals.

use crate::ranking::at_most;
use crate::ranking::descending;
use crate::ranking::k_largest;
use crate::ranking::total;
use crate::ranking::total_of;
use crate::text::chars_of;
use crate::text::lines;
use crate::text::parse_u32;
use crate::text::parse_unsigned;
use crate::text::rows;
use crate::text::split_lines;
use vstd::prelude::*;

verus! {

/// The number that a line holds, if it holds one that a `u32` can hold.
pub open spec fn line_calories(line: Seq<char>) -> Option<int> {
    parse_unsigned(line, u32::MAX as int)
}

/// The first line at or after `from` that holds no number, or the number of
/// lines where every line from there on holds one.
pub open spec fn group_end(ls: Seq<Seq<char>>, from: int) -> int
    decreases ls.len() - from,
{
    if 0 <= from < ls.len() && line_calories(ls[from]) is Some {
        group_end(ls, from + 1)
    } else {
        from
    }
}

/// The sum of the numbers of the lines `ls[from..to]`.
pub open spec fn group_total(ls: Seq<Seq<char>>, from: int, to: int) -> int
    decreases to - from,
{
    if from >= to {
        0
    } else {
        group_total(ls, from, to - 1) + line_calories(ls[to - 1])->0
    }
}

/// The totals of the groups from line `from` on. A group is a run of lines
/// that hold a number; the line after it separates it from the next group.
/// The list ends at the first place where a group is due and none begins.
pub open spec fn group_totals_from(ls: Seq<Seq<char>>, from: int) -> Seq<int>
    decreases ls.len() + 1 - from,
{
    let end = group_end(ls, from);
    if 0 <= from < end <= ls.len() {
        seq![group_total(ls, from, end)] + group_totals_from(ls, end + 1)
    } else {
        Seq::empty()
    }
}

/// The totals of the groups of a text.
pub open spec fn elf_totals(input: Seq<char>) -> Seq<int> {
    group_totals_from(lines(input), 0)
}

/// `group_end` stays within the lines and passes lines with numbers only.
pub proof fn lemma_group_end(ls: Seq<Seq<char>>, from: int)
    requires
        0 <= from <= ls.len(),
    ensures
        from <= group_end(ls, from) <= ls.len(),
        forall|j: int| from <= j < group_end(ls, from) ==> line_calories(#[trigger] ls[j]) is Some,
        group_end(ls, from) < ls.len() ==> line_calories(ls[group_end(ls, from)]) is None,
    decreases ls.len() - from,
{
    if from < ls.len() && line_calories(ls[from]) is Some {
        lemma_group_end(ls, from + 1);
    }
}

/// The sum of a group grows with the group and is never negative.
pub proof fn lemma_group_total_grows(ls: Seq<Seq<char>>, from: int, mid: int, to: int)
    requires
        0 <= from <= mid <= to <= ls.len(),
        forall|j: int| from <= j < to ==> line_calories(#[trigger] ls[j]) is Some,
    ensures
        0 <= group_total(ls, from, mid) <= group_total(ls, from, to),
    decreases to - from,
{
    if from < to {
        assert(line_calories(ls[to - 1]) is Some);
        let digits = crate::text::unsigned_digits(ls[to - 1]);
        crate::text::lemma_decimal_value_prefix(digits, 0);
        if mid < to {
            lemma_group_total_grows(ls, from, mid, to - 1);
        } else {
            lemma_group_total_grows(ls, from, to - 1, to - 1);
        }
    }
}

/// Whether every total of a text is one that a `u32` can hold.
pub open spec fn totals_fit(input: Seq<char>) -> bool {
    forall|i: int| 0 <= i < elf_totals(input).len() ==> #[trigger] elf_totals(input)[i] <= u32::MAX
}

/// Whether `out` holds the totals of `input`.
pub open spec fn holds_totals(out: Seq<u32>, input: Seq<char>) -> bool {
    &&& out.len() == elf_totals(input).len()
    &&& forall|i: int| 0 <= i < out.len() ==> #[trigger] out[i] as int == elf_totals(input)[i]
}

/// The total of each group of lines of `input` that hold a number each, or
/// `None` where a total is more than a `u32` can hold.
pub fn checked_elf_totals(input: &str) -> (r: Option<Vec<u32>>)
    ensures
        match r {
            Some(out) => totals_fit(input@) && holds_totals(out@, input@),
            None => !totals_fit(input@),
        },
{
    let chars = chars_of(input);
    let ls = split_lines(chars.as_slice());
    let ghost all = rows(ls@);
    let ghost totals = elf_totals(input@);
    let mut out: Vec<u32> = Vec::new();
    let mut from: usize = 0;
    let ghost mut done: Seq<int> = Seq::empty();
    loop
        invariant
            from <= ls@.len(),
            all == rows(ls@),
            totals == elf_totals(input@),
            totals == done + group_totals_from(all, from as int),
            out@.len() == done.len(),
            forall|i: int| 0 <= i < out@.len() ==> #[trigger] out@[i] as int == done[i],
        decreases ls@.len() - from,
    {
        proof {
            lemma_group_end(all, from as int);
        }
        let ghost end = group_end(all, from as int);
        let ghost group = group_total(all, from as int, end);
        proof {
            if from < end {
                assert(totals[done.len() as int] == group);
            }
        }
        let mut sum: u32 = 0;
        let mut i: usize = from;
        loop
            invariant_except_break
                from <= i <= end,
                sum == group_total(all, from as int, i as int),
            invariant
                all == rows(ls@),
                totals == elf_totals(input@),
                end == group_end(all, from as int),
                from <= end <= ls@.len(),
                forall|j: int| from <= j < end ==> line_calories(#[trigger] all[j]) is Some,
                end < all.len() ==> line_calories(all[end]) is None,
                group == group_total(all, from as int, end),
                from < end ==> 0 <= done.len() < totals.len() && totals[done.len() as int] == group,
            ensures
                i == end,
                sum == group,
            decreases ls@.len() - i,
        {
            if i >= ls.len() {
                break;
            }
            assert(all[i as int] == ls@[i as int]@);
            match parse_u32(ls[i].as_slice()) {
                Some(v) => {
                    proof {
                        lemma_group_total_grows(all, from as int, i + 1, end);
                    }
                    if v > 0xffff_ffff - sum {
                        assert(totals[done.len() as int] > u32::MAX);
                        return None;
                    }
                    sum = sum + v;
                    i += 1;
                },
                None => {
                    break;
                },
            }
        }
        if i == from {
            proof {
                assert(group_totals_from(all, from as int) == Seq::<int>::empty());
                assert(done + Seq::<int>::empty() == done);
                assert forall|i: int| 0 <= i < totals.len() implies #[trigger] totals[i]
                    <= u32::MAX by {
                    assert(out@[i] as int == done[i]);
                }
            }
            return Some(out);
        }
        proof {
            assert(done + (seq![group] + group_totals_from(all, end + 1)) == done.push(group)
                + group_totals_from(all, end + 1));
            done = done.push(group);
        }
        out.push(sum);
        if i >= ls.len() {
            proof {
                assert(group_totals_from(all, end + 1) == Seq::<int>::empty());
                assert(done + Seq::<int>::empty() == done);
                assert forall|i: int| 0 <= i < totals.len() implies #[trigger] totals[i]
                    <= u32::MAX by {
                    assert(out@[i] as int == done[i]);
                }
            }
            return Some(out);
        }
        from = i + 1;
    }
}

/// The total of each group of lines of `input` that hold a number each. A
/// line without a number ends a group; the list of totals ends where two
/// such lines follow each other, or at the end of the text. Every total
/// must be one that a `u32` can hold.
pub fn parse_string_to_elves(input: &str) -> (out: Vec<u32>)
    requires
        totals_fit(input@),
    ensures
        holds_totals(out@, input@),
{
    match checked_elf_totals(input) {
        Some(out) => out,
        None => Vec::new(),
    }
}

/// The sum of the `top_n` largest numbers of `input`, or of all of them
/// where there are fewer. The sum must be one that an `i32` can hold.
pub fn get_sum_of_top_n(input: Vec<i32>, top_n: usize) -> (sum: i32)
    requires
        i32::MIN <= total(descending(input@).take(at_most(top_n, input@))) <= i32::MAX,
    ensures
        sum == total(descending(input@).take(at_most(top_n, input@))),
{
    let largest = k_largest(input, top_n);
    let sum = total_of(&largest, 0, largest.len());
    assert(largest@.subrange(0, largest@.len() as int) == largest@);
    sum as i32
}

} // verus!
