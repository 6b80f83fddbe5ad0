//! Calories carried by elves, with signed numbers: the total of every group
//! that an empty line closes, and the sum of the largest totals.

use crate::ranking::ascending;
use crate::ranking::at_most;
use crate::ranking::sort_ascending;
use crate::ranking::total;
use crate::ranking::total_of;
use crate::text::chars_of;
use crate::text::lines;
use crate::text::parse_i32;
use crate::text::parse_signed;
use crate::text::rows;
use crate::text::split_lines;
use vstd::prelude::*;

verus! {

/// Why a text has no totals.
#[derive(Debug, PartialEq, Eq, Clone, Copy, Structural)]
pub enum ElvesError {
    /// The line with this index, counted from 0, is neither empty nor a
    /// number that an `i32` can hold.
    InvalidLine { line: usize },
    /// The empty line with this index closes a group whose total no `i32`
    /// can hold.
    TotalTooLarge { line: usize },
}

/// The number that a line holds, if it holds one that an `i32` can hold.
pub open spec fn line_calories(line: Seq<char>) -> Option<int> {
    parse_signed(line, i32::MIN as int, i32::MAX as int)
}

/// The totals of the groups that are closed from line `from` on, after the
/// totals `done`, where `open` is the sum of the group that is open at that
/// line. An empty line closes a group; a group that no empty line closes
/// gives no total. The first line that is neither empty nor a number, or
/// that closes a group with too large a total, ends the reading.
pub open spec fn totals_from(ls: Seq<Seq<char>>, from: int, open: int, done: Seq<int>) -> Result<
    Seq<int>,
    ElvesError,
>
    decreases ls.len() - from,
{
    if 0 <= from < ls.len() {
        if ls[from].len() == 0 {
            if i32::MIN <= open <= i32::MAX {
                totals_from(ls, from + 1, 0, done.push(open))
            } else {
                Err(ElvesError::TotalTooLarge { line: from as usize })
            }
        } else {
            match line_calories(ls[from]) {
                Some(n) => totals_from(ls, from + 1, open + n, done),
                None => Err(ElvesError::InvalidLine { line: from as usize }),
            }
        }
    } else {
        Ok(done)
    }
}

/// The totals of the closed groups of a text, or what is wrong with it.
pub open spec fn elf_totals(input: Seq<char>) -> Result<Seq<int>, ElvesError> {
    totals_from(lines(input), 0, 0, Seq::empty())
}

/// The numbers of a list of totals.
pub open spec fn totals_view(totals: Seq<i32>) -> Seq<int> {
    Seq::new(totals.len(), |i: int| totals[i] as int)
}

/// The total of each group of lines of `input` that an empty line closes.
/// Every line is empty or holds a number.
pub fn parse_string_to_elves(input: &str) -> (r: Result<Vec<i32>, ElvesError>)
    ensures
        match r {
            Ok(out) => elf_totals(input@) == Ok::<Seq<int>, ElvesError>(totals_view(out@)),
            Err(e) => elf_totals(input@) == Err::<Seq<int>, ElvesError>(e),
        },
{
    let chars = chars_of(input);
    let ls = split_lines(chars.as_slice());
    let ghost all = rows(ls@);
    let mut elf_cals: Vec<i32> = Vec::new();
    let mut cur_cals: Vec<i32> = Vec::new();
    let mut i: usize = 0;
    assert(totals_view(elf_cals@) =~= Seq::<int>::empty());
    while i < ls.len()
        invariant
            i <= ls@.len(),
            all == rows(ls@),
            all == lines(input@),
            elf_totals(input@) == totals_from(
                all,
                i as int,
                total(cur_cals@),
                totals_view(elf_cals@),
            ),
        decreases ls@.len() - i,
    {
        assert(all[i as int] == ls@[i as int]@);
        if ls[i].len() == 0 {
            let sum = total_of(&cur_cals, 0, cur_cals.len());
            assert(cur_cals@.subrange(0, cur_cals@.len() as int) == cur_cals@);
            if sum < -2147483648 || sum > 2147483647 {
                return Err(ElvesError::TotalTooLarge { line: i });
            }
            let ghost before = elf_cals@;
            elf_cals.push(sum as i32);
            assert(totals_view(elf_cals@) =~= totals_view(before).push(sum as int));
            cur_cals.clear();
        } else {
            match parse_i32(ls[i].as_slice()) {
                Some(n) => {
                    let ghost before = cur_cals@;
                    cur_cals.push(n);
                    assert(cur_cals@.drop_last() == before);
                },
                None => {
                    return Err(ElvesError::InvalidLine { line: i });
                },
            }
        }
        i += 1;
    }
    Ok(elf_cals)
}

/// Sorts `input` from the smallest number to the largest and returns the
/// sum of its `top_n` largest numbers, or of all of them where there are
/// fewer. The sum must be one that an `i32` can hold.
pub fn get_sum_of_top_n(input: &mut Vec<i32>, top_n: usize) -> (sum: i32)
    requires
        i32::MIN <= total(
            ascending(old(input)@).skip(old(input)@.len() - at_most(top_n, old(input)@)),
        ) <= i32::MAX,
    ensures
        final(input)@ == ascending(old(input)@),
        sum == total(ascending(old(input)@).skip(old(input)@.len() - at_most(top_n, old(input)@))),
{
    let ghost before = input@;
    let count = input.len();
    sort_ascending(input);
    proof {
        before.lemma_sort_by_ensures(|a: i32, b: i32| a <= b);
        vstd::seq_lib::to_multiset_len(before);
        vstd::seq_lib::to_multiset_len(input@);
    }
    let taken = if top_n <= count {
        top_n
    } else {
        count
    };
    let sum = total_of(input, count - taken, count);
    assert(input@.subrange(count - taken, count as int) == input@.skip(count - taken));
    sum as i32
}

} // verus!
