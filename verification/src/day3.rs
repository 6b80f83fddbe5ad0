//! Rucksacks: the two compartments of a rucksack, the items that a group of
//! elves share, and the priority of an item.

use crate::text::chars_of;
use crate::text::line_ranges;
use crate::text::lines;
use crate::text::ranges_cut;
use vstd::prelude::*;
use vstd::string::StrSliceExecFns;
use vstd::string::StringSliceAdditionalSpecFns;
use vstd::utf8::decode_utf8;
use vstd::utf8::is_char_boundary;

verus! {

/// Whether `c` is one of the 52 letters of the ASCII alphabet.
pub open spec fn is_letter(c: char) -> bool {
    ('a' <= c && c <= 'z') || ('A' <= c && c <= 'Z')
}

/// The priority of an item: 1 to 26 for `a` to `z`, 27 to 52 for `A` to
/// `Z`.
pub open spec fn priority(c: char) -> int {
    if 'a' <= c && c <= 'z' {
        c as int - 'a' as int + 1
    } else {
        c as int - 'A' as int + 27
    }
}

/// The priority of the item `char`, which must be a letter.
pub fn get_char_priority(char: char) -> (p: u32)
    requires
        is_letter(char),
    ensures
        p == priority(char),
        1 <= p <= 52,
{
    if 'A' <= char && char <= 'Z' {
        (char as u32 - 'A' as u32) + 1 + 26
    } else {
        (char as u32 - 'a' as u32) + 1
    }
}

/// The lines of a text in groups of three, in order; one or two lines that
/// are left at the end belong to no group.
pub open spec fn groups_of_three(ls: Seq<Seq<char>>) -> Seq<Seq<Seq<char>>> {
    Seq::new((ls.len() / 3) as nat, |g: int| ls.subrange(3 * g, 3 * g + 3))
}

/// The views of groups of strings.
pub open spec fn groups_view(groups: Seq<Vec<&str>>) -> Seq<Seq<Seq<char>>> {
    Seq::new(groups.len(), |g: int| strs_view(groups[g]@))
}

/// The views of a list of strings.
pub open spec fn strs_view(strs: Seq<&str>) -> Seq<Seq<char>> {
    Seq::new(strs.len(), |i: int| strs[i]@)
}

/// The lines of `input` in groups of three.
pub fn parse_input_to_groups<'a>(input: &'a str) -> (groups: Vec<Vec<&'a str>>)
    ensures
        groups_view(groups@) == groups_of_three(lines(input@)),
{
    let chars = chars_of(input);
    let ranges = line_ranges(chars.as_slice());
    let ghost all = lines(input@);
    let count = ranges.len() / 3;
    let mut groups: Vec<Vec<&'a str>> = Vec::new();
    let mut g: usize = 0;
    while g < count
        invariant
            g <= count == ranges@.len() / 3,
            ranges@.len() <= usize::MAX,
            chars@ == input@,
            all == lines(input@),
            ranges_cut(chars@, ranges@, all),
            groups@.len() == g,
            forall|k: int| 0 <= k < g ==> strs_view((#[trigger] groups@[k])@) == all.subrange(3 * k, 3 * k + 3),
        decreases count - g,
    {
        let mut group: Vec<&'a str> = Vec::new();
        let mut j: usize = 0;
        while j < 3
            invariant
                j <= 3,
                g < count == ranges@.len() / 3,
                ranges@.len() <= usize::MAX,
                chars@ == input@,
                ranges_cut(chars@, ranges@, all),
                group@.len() == j,
                forall|i: int| 0 <= i < j ==> (#[trigger] group@[i])@ == all[3 * g + i],
            decreases 3 - j,
        {
            let (from, to) = ranges[3 * g + j];
            let line = input.substring_char(from, to);
            assert(line@ == all[3 * g + j]);
            group.push(line);
            j += 1;
        }
        assert(strs_view(group@) =~= all.subrange(3 * g, 3 * g + 3));
        groups.push(group);
        g += 1;
    }
    assert(groups_view(groups@) =~= groups_of_three(all));
    groups
}

/// Whether every string holds the character `c`.
pub open spec fn in_all(strs: Seq<Seq<char>>, c: char) -> bool {
    forall|i: int| 0 <= i < strs.len() ==> (#[trigger] strs[i]).contains(c)
}

/// The characters of `first` that every string of `strs` holds, each once,
/// in the order in which they first occur in `first`.
pub open spec fn shared_chars(first: Seq<char>, strs: Seq<Seq<char>>) -> Seq<char>
    decreases first.len(),
{
    if first.len() == 0 {
        Seq::empty()
    } else {
        let before = shared_chars(first.drop_last(), strs);
        if in_all(strs, first.last()) && !before.contains(first.last()) {
            before.push(first.last())
        } else {
            before
        }
    }
}

/// The shared characters hold no character twice, and they are exactly the
/// characters of `first` that every string holds.
pub proof fn lemma_shared_chars(first: Seq<char>, strs: Seq<Seq<char>>)
    ensures
        shared_chars(first, strs).no_duplicates(),
        forall|c: char|
            #![trigger shared_chars(first, strs).contains(c)]
            shared_chars(first, strs).contains(c) <==> first.contains(c) && in_all(strs, c),
    decreases first.len(),
{
    let found = shared_chars(first, strs);
    if first.len() > 0 {
        let shorter = first.drop_last();
        let before = shared_chars(shorter, strs);
        let last = first.last();
        lemma_shared_chars(shorter, strs);
        assert forall|c: char| #![trigger found.contains(c)]
            found.contains(c) <==> first.contains(c) && in_all(strs, c) by {
            assert(before.contains(c) <==> shorter.contains(c) && in_all(strs, c));
            if found.contains(c) {
                let i = choose|i: int| 0 <= i < found.len() && found[i] == c;
                if i < before.len() {
                    assert(before.contains(c));
                    let j = choose|j: int| 0 <= j < shorter.len() && shorter[j] == c;
                    assert(first[j] == c);
                } else {
                    assert(first[first.len() - 1] == c);
                }
            }
            if first.contains(c) && in_all(strs, c) {
                let j = choose|j: int| 0 <= j < first.len() && first[j] == c;
                if j < shorter.len() {
                    assert(shorter[j] == c);
                    assert(before.contains(c));
                }
                if before.contains(c) {
                    let i = choose|i: int| 0 <= i < before.len() && before[i] == c;
                    assert(found[i] == c);
                } else {
                    assert(found[found.len() - 1] == c);
                }
            }
        }
    }
}

fn holds(s: &Vec<char>, c: char) -> (b: bool)
    ensures
        b == s@.contains(c),
{
    let mut i: usize = 0;
    while i < s.len()
        invariant
            i <= s@.len(),
            forall|j: int| 0 <= j < i ==> s@[j] != c,
        decreases s@.len() - i,
    {
        if s[i] == c {
            return true;
        }
        i += 1;
    }
    false
}

fn all_hold(sets: &Vec<Vec<char>>, c: char) -> (b: bool)
    ensures
        b == in_all(crate::text::rows(sets@), c),
{
    let ghost strs = crate::text::rows(sets@);
    let mut i: usize = 0;
    while i < sets.len()
        invariant
            i <= sets@.len(),
            strs == crate::text::rows(sets@),
            forall|j: int| 0 <= j < i ==> (#[trigger] strs[j]).contains(c),
        decreases sets@.len() - i,
    {
        assert(strs[i as int] == sets@[i as int]@);
        if !holds(&sets[i], c) {
            return false;
        }
        i += 1;
    }
    true
}

/// The characters that all the strings share, each once, in the order in
/// which they first occur in the first string. There must be a string.
pub fn get_shared_chars(input_strs: Vec<&str>) -> (out: Vec<char>)
    requires
        input_strs@.len() >= 1,
    ensures
        out@ == shared_chars(input_strs@[0]@, strs_view(input_strs@)),
        out@.no_duplicates(),
        forall|c: char| #![trigger out@.contains(c)]
            out@.contains(c) <==> in_all(strs_view(input_strs@), c),
{
    let ghost strs = strs_view(input_strs@);
    let mut sets: Vec<Vec<char>> = Vec::new();
    let mut i: usize = 0;
    while i < input_strs.len()
        invariant
            i <= input_strs@.len(),
            sets@.len() == i,
            forall|j: int| 0 <= j < i ==> (#[trigger] sets@[j])@ == input_strs@[j]@,
        decreases input_strs@.len() - i,
    {
        sets.push(chars_of(input_strs[i]));
        i += 1;
    }
    assert(crate::text::rows(sets@) =~= strs);
    let first = &sets[0];
    let mut out: Vec<char> = Vec::new();
    let mut k: usize = 0;
    assert(first@.take(0) == Seq::<char>::empty());
    while k < first.len()
        invariant
            k <= first@.len(),
            crate::text::rows(sets@) == strs,
            out@ == shared_chars(first@.take(k as int), strs),
        decreases first@.len() - k,
    {
        let c = first[k];
        proof {
            assert(first@.take(k + 1).drop_last() == first@.take(k as int));
            assert(first@.take(k + 1).last() == c);
        }
        if all_hold(&sets, c) && !holds(&out, c) {
            out.push(c);
        }
        k += 1;
    }
    proof {
        assert(first@.take(k as int) == first@);
        lemma_shared_chars(first@, strs);
        assert(strs[0] == first@);
        assert forall|c: char| in_all(strs, c) implies first@.contains(c) by {
            assert(strs[0].contains(c));
        }
    }
    out
}

/// A rucksack: the items of its first and of its second compartment.
#[derive(Debug, Clone, Copy)]
pub struct Rucksack<'a> {
    pub compartment_one: &'a str,
    pub compartment_two: &'a str,
}

/// Why a string is no rucksack.
#[derive(Debug, PartialEq, Eq, Clone, Copy, Structural)]
pub enum RucksackError {
    /// The string has an odd number of bytes.
    OddLength,
    /// The middle of the string lies inside a character.
    SplitCharacter,
}

impl RucksackError {
    /// The sentence for the user, as characters.
    pub open spec fn sentence(self) -> Seq<char> {
        match self {
            RucksackError::OddLength => "Input string must be of even length"@,
            RucksackError::SplitCharacter => "The middle of the input lies inside a character"@,
        }
    }

    /// A sentence for the user.
    pub fn message(&self) -> (text: &'static str)
        ensures
            text@ == self.sentence(),
    {
        match self {
            RucksackError::OddLength => "Input string must be of even length",
            RucksackError::SplitCharacter => "The middle of the input lies inside a character",
        }
    }
}

/// The two halves of `input`, which must have an even number of bytes and a
/// character boundary in its middle.
pub fn split_str_to_compartments(input: &str) -> (r: Result<Rucksack, RucksackError>)
    ensures
        match r {
            Ok(sack) => {
                let bytes = input.spec_bytes();
                &&& bytes.len() % 2 == 0
                &&& is_char_boundary(bytes, bytes.len() as int / 2)
                &&& sack.compartment_one.spec_bytes() == bytes.subrange(0, bytes.len() as int / 2)
                &&& sack.compartment_two.spec_bytes() == bytes.subrange(
                    bytes.len() as int / 2,
                    bytes.len() as int,
                )
                &&& sack.compartment_one@ + sack.compartment_two@ == input@
            },
            Err(RucksackError::OddLength) => input.spec_bytes().len() % 2 != 0,
            Err(RucksackError::SplitCharacter) => input.spec_bytes().len() % 2 == 0 && !is_char_boundary(
                input.spec_bytes(),
                input.spec_bytes().len() as int / 2,
            ),
        },
{
    let str_length = input.as_bytes().len();
    if str_length % 2 != 0 {
        return Err(RucksackError::OddLength);
    }
    let half_length = str_length / 2;
    if !input.is_char_boundary(half_length) {
        return Err(RucksackError::SplitCharacter);
    }
    let (first_half, second_half) = input.split_at(half_length);
    proof {
        let bytes = input.spec_bytes();
        vstd::utf8::encode_utf8_valid_utf8(input@);
        vstd::utf8::decode_utf8_split(bytes, half_length as int);
        vstd::utf8::encode_utf8_decode_utf8(input@);
        vstd::utf8::encode_utf8_decode_utf8(first_half@);
        vstd::utf8::encode_utf8_decode_utf8(second_half@);
        assert(decode_utf8(bytes.subrange(0, half_length as int)) == first_half@);
        assert(decode_utf8(bytes.subrange(half_length as int, bytes.len() as int)) == second_half@);
    }
    Ok(Rucksack { compartment_one: first_half, compartment_two: second_half })
}

/// Why a text has no sum of badge priorities.
#[derive(Debug, PartialEq, Eq, Clone, Copy, Structural)]
pub enum BadgeError {
    /// The three elves of a group do not share exactly one item.
    NotOneSharedItem,
    /// The shared item of a group is no letter.
    NotALetter,
    /// The sum of the priorities is more than a `u32` can hold.
    TooLarge,
}

/// The priority of the item that the three lines of a group share.
pub open spec fn group_priority(group: Seq<Seq<char>>) -> Result<int, BadgeError> {
    let shared = shared_chars(group[0], group);
    if shared.len() != 1 {
        Err(BadgeError::NotOneSharedItem)
    } else if !is_letter(shared[0]) {
        Err(BadgeError::NotALetter)
    } else {
        Ok(priority(shared[0]))
    }
}

/// The sum of the priorities of the groups, or the error of the first group
/// that has no priority.
pub open spec fn groups_priority(groups: Seq<Seq<Seq<char>>>) -> Result<int, BadgeError>
    decreases groups.len(),
{
    if groups.len() == 0 {
        Ok(0)
    } else {
        match groups_priority(groups.drop_last()) {
            Err(e) => Err(e),
            Ok(before) => match group_priority(groups.last()) {
                Err(e) => Err(e),
                Ok(p) => Ok(before + p),
            },
        }
    }
}

/// A group among the first `k` without a priority makes the whole list
/// fail.
proof fn lemma_priority_failure_stays(groups: Seq<Seq<Seq<char>>>, k: int)
    requires
        0 <= k <= groups.len(),
        groups_priority(groups.take(k)) is Err,
    ensures
        groups_priority(groups) == groups_priority(groups.take(k)),
    decreases groups.len(),
{
    if k == groups.len() {
        assert(groups.take(k) == groups);
    } else {
        assert(groups.drop_last().take(k) == groups.take(k));
        lemma_priority_failure_stays(groups.drop_last(), k);
    }
}

/// The sum of the priorities of the first `k` groups is at most 52 times
/// `k`.
proof fn lemma_priority_bound(groups: Seq<Seq<Seq<char>>>)
    ensures
        groups_priority(groups) matches Ok(sum) ==> 0 <= sum <= 52 * groups.len(),
    decreases groups.len(),
{
    if groups.len() > 0 {
        lemma_priority_bound(groups.drop_last());
    }
}

/// The sum of the priorities of the badges of a text: of the items that
/// the groups of three lines share. An error where a group has no priority,
/// or where the sum is more than a `u32` can hold.
pub open spec fn badge_sum(input: Seq<char>) -> Result<int, BadgeError> {
    match groups_priority(groups_of_three(lines(input))) {
        Err(e) => Err(e),
        Ok(sum) => if sum > u32::MAX {
            Err(BadgeError::TooLarge)
        } else {
            Ok(sum)
        },
    }
}

/// The sum of the priorities of the items that the groups of three lines of
/// `input` share.
pub fn sum_of_group_priorities(input: &str) -> (r: Result<u32, BadgeError>)
    ensures
        match r {
            Ok(sum) => badge_sum(input@) == Ok::<int, BadgeError>(sum as int),
            Err(e) => badge_sum(input@) == Err::<int, BadgeError>(e),
        },
{
    let chars = chars_of(input);
    let ranges = line_ranges(chars.as_slice());
    let ghost ls = lines(input@);
    let ghost all = groups_of_three(ls);
    let count = ranges.len() / 3;
    let mut sum: u128 = 0;
    let mut g: usize = 0;
    assert(all.take(0) == Seq::<Seq<Seq<char>>>::empty());
    while g < count
        invariant
            g <= count == ranges@.len() / 3,
            ranges@.len() <= usize::MAX,
            count == all.len(),
            chars@ == input@,
            ls == lines(input@),
            all == groups_of_three(ls),
            ranges_cut(chars@, ranges@, ls),
            groups_priority(all.take(g as int)) == Ok::<int, BadgeError>(sum as int),
        decreases count - g,
    {
        let (a0, a1) = ranges[3 * g];
        let (b0, b1) = ranges[3 * g + 1];
        let (c0, c1) = ranges[3 * g + 2];
        let mut group: Vec<&str> = Vec::new();
        group.push(input.substring_char(a0, a1));
        group.push(input.substring_char(b0, b1));
        group.push(input.substring_char(c0, c1));
        proof {
            assert(strs_view(group@) =~= all[g as int]);
            assert(all.take(g + 1).drop_last() == all.take(g as int));
            assert(all.take(g + 1).last() == all[g as int]);
            lemma_priority_bound(all.take(g as int));
        }
        let shared = get_shared_chars(group);
        if shared.len() != 1 {
            proof {
                lemma_priority_failure_stays(all, g + 1);
            }
            return Err(BadgeError::NotOneSharedItem);
        }
        let item = shared[0];
        if !(('a' <= item && item <= 'z') || ('A' <= item && item <= 'Z')) {
            proof {
                lemma_priority_failure_stays(all, g + 1);
            }
            return Err(BadgeError::NotALetter);
        }
        sum = sum + get_char_priority(item) as u128;
        g += 1;
    }
    assert(all.take(g as int) == all);
    if sum > 0xffff_ffff {
        return Err(BadgeError::TooLarge);
    }
    Ok(sum as u32)
}

} // verus!
