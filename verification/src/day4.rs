//! Zones that elves are assigned to clean: ranges of section numbers, read
//! from text such as `2-4,6-8`, and whether two of them overlap.

use crate::text::chars_of;
use crate::text::parse_u32;
use crate::text::parse_unsigned;
use crate::text::ranges_cut;
use crate::text::split;
use crate::text::split_ranges;
use std::ops::RangeInclusive;
use vstd::prelude::*;
use vstd::slice::slice_subrange;

verus! {

/// The first number of a range that no iteration has used up.
///
/// Trusted: `RangeInclusive::start` of the standard library.
pub assume_specification<Idx>[ RangeInclusive::<Idx>::start ](range: &RangeInclusive<Idx>) -> (start:
    &Idx)
    ensures
        !range@.exhausted ==> *start == range@.start,
;

/// The last number of a range that no iteration has used up.
///
/// Trusted: `RangeInclusive::end` of the standard library.
pub assume_specification<Idx>[ RangeInclusive::<Idx>::end ](range: &RangeInclusive<Idx>) -> (end:
    &Idx)
    ensures
        !range@.exhausted ==> *end == range@.end,
;

/// A copy of a range. Nothing is stated of it here: no verified function
/// clones a range.
///
/// Trusted: `clone` of `RangeInclusive`, which the standard library
/// derives.
pub assume_specification<Idx: Clone>[ <RangeInclusive<Idx> as Clone>::clone ](
    range: &RangeInclusive<Idx>,
) -> (copy: RangeInclusive<Idx>)
;

/// The sections from `range.start()` to `range.end()`, both included.
#[derive(PartialEq, Debug, Clone)]
pub struct ZoneAssignment {
    pub range: RangeInclusive<u32>,
}

impl View for ZoneAssignment {
    type V = (int, int);

    open spec fn view(&self) -> (int, int) {
        (self.range@.start as int, self.range@.end as int)
    }
}

/// Why a text is no zone.
#[derive(Debug, PartialEq, Eq, Clone, Copy, Structural)]
pub enum ZoneError {
    /// A piece between two hyphens is no number that a `u32` can hold.
    InvalidNumber,
}

impl ZoneError {
    /// The sentence for the user, as characters.
    pub open spec fn sentence(self) -> Seq<char> {
        "Invalid input"@
    }

    /// A sentence for the user.
    pub fn message(&self) -> (text: &'static str)
        ensures
            text@ == self.sentence(),
    {
        "Invalid input"
    }
}

/// Whether neither zone ends before the other starts.
pub open spec fn zones_meet(a: (int, int), b: (int, int)) -> bool {
    !(a.0 > b.1 || a.1 < b.0)
}

/// Whether section `n` lies in the zone.
pub open spec fn in_zone(zone: (int, int), n: int) -> bool {
    zone.0 <= n <= zone.1
}

/// Two zones that both hold a section meet exactly when they share one.
pub proof fn lemma_zones_meet(a: (int, int), b: (int, int))
    requires
        a.0 <= a.1,
        b.0 <= b.1,
    ensures
        zones_meet(a, b) <==> exists|n: int| #[trigger] in_zone(a, n) && in_zone(b, n),
{
    if zones_meet(a, b) {
        let n = if a.0 >= b.0 {
            a.0
        } else {
            b.0
        };
        assert(in_zone(a, n) && in_zone(b, n));
    }
}

/// The least of the numbers `s`, which must not be empty.
pub open spec fn least(s: Seq<int>) -> int
    decreases s.len(),
{
    if s.len() <= 1 {
        s[0]
    } else if s.last() < least(s.drop_last()) {
        s.last()
    } else {
        least(s.drop_last())
    }
}

/// The largest of the numbers `s`, which must not be empty.
pub open spec fn largest(s: Seq<int>) -> int
    decreases s.len(),
{
    if s.len() <= 1 {
        s[0]
    } else if s.last() > largest(s.drop_last()) {
        s.last()
    } else {
        largest(s.drop_last())
    }
}

/// The numbers that the pieces hold, or `None` where a piece holds none.
pub open spec fn pieces_numbers(pieces: Seq<Seq<char>>) -> Option<Seq<int>>
    decreases pieces.len(),
{
    if pieces.len() == 0 {
        Some(Seq::empty())
    } else {
        match (pieces_numbers(pieces.drop_last()), parse_unsigned(pieces.last(), u32::MAX as int)) {
            (Some(before), Some(n)) => Some(before.push(n)),
            _ => None,
        }
    }
}

/// The zone that a text stands for: from the least to the largest of the
/// numbers that hyphens part in it.
pub open spec fn text_zone(value: Seq<char>) -> Result<(int, int), ZoneError> {
    match pieces_numbers(split(value, '-')) {
        Some(numbers) => Ok((least(numbers), largest(numbers))),
        None => Err(ZoneError::InvalidNumber),
    }
}

/// The zones that the pieces stand for, or the error of the first piece
/// that is no zone.
pub open spec fn pieces_zones(pieces: Seq<Seq<char>>) -> Result<Seq<(int, int)>, ZoneError>
    decreases pieces.len(),
{
    if pieces.len() == 0 {
        Ok(Seq::empty())
    } else {
        match pieces_zones(pieces.drop_last()) {
            Err(e) => Err(e),
            Ok(before) => match text_zone(pieces.last()) {
                Err(e) => Err(e),
                Ok(zone) => Ok(before.push(zone)),
            },
        }
    }
}

/// The views of a list of zones.
pub open spec fn zones_view(zones: Seq<ZoneAssignment>) -> Seq<(int, int)> {
    Seq::new(zones.len(), |i: int| zones[i]@)
}

/// A piece among the first `k` without a number leaves the whole list
/// without numbers.
proof fn lemma_numbers_failure_stays(pieces: Seq<Seq<char>>, k: int)
    requires
        0 <= k <= pieces.len(),
        pieces_numbers(pieces.take(k)) is None,
    ensures
        pieces_numbers(pieces) is None,
    decreases pieces.len(),
{
    if k == pieces.len() {
        assert(pieces.take(k) == pieces);
    } else {
        assert(pieces.drop_last().take(k) == pieces.take(k));
        lemma_numbers_failure_stays(pieces.drop_last(), k);
    }
}

/// A piece among the first `k` that is no zone makes the whole list fail.
proof fn lemma_zones_failure_stays(pieces: Seq<Seq<char>>, k: int)
    requires
        0 <= k <= pieces.len(),
        pieces_zones(pieces.take(k)) is Err,
    ensures
        pieces_zones(pieces) == pieces_zones(pieces.take(k)),
    decreases pieces.len(),
{
    if k == pieces.len() {
        assert(pieces.take(k) == pieces);
    } else {
        assert(pieces.drop_last().take(k) == pieces.take(k));
        lemma_zones_failure_stays(pieces.drop_last(), k);
    }
}

impl ZoneAssignment {
    /// The range of a zone has not been used up by an iteration.
    pub open spec fn wf(&self) -> bool {
        !self.range@.exhausted
    }

    /// The zone from `start` to `end`.
    pub fn new(start: u32, end: u32) -> (zone: ZoneAssignment)
        ensures
            zone@ == (start as int, end as int),
            zone.wf(),
    {
        ZoneAssignment { range: RangeInclusive::new(start, end) }
    }

    /// Whether the two zones meet: neither ends before the other starts.
    pub fn has_overlap(&self, other: ZoneAssignment) -> (b: bool)
        requires
            self.wf(),
            other.wf(),
        ensures
            b == zones_meet(self@, other@),
    {
        !(*self.range.start() > *other.range.end() || *self.range.end() < *other.range.start())
    }

    /// Reads a zone given as characters.
    pub fn from_chars(value: &[char]) -> (r: Result<ZoneAssignment, ZoneError>)
        ensures
            match r {
                Ok(zone) => zone.wf() && text_zone(value@) == Ok::<(int, int), ZoneError>(zone@),
                Err(e) => text_zone(value@) == Err::<(int, int), ZoneError>(e),
            },
    {
        let ranges = split_ranges(value, '-');
        let ghost pieces = split(value@, '-');
        let mut min: u32 = 0;
        let mut max: u32 = 0;
        let ghost mut numbers: Seq<int> = Seq::empty();
        let mut i: usize = 0;
        assert(pieces.take(0) == Seq::<Seq<char>>::empty());
        while i < ranges.len()
            invariant
                i <= ranges@.len(),
                ranges@.len() >= 1,
                pieces == split(value@, '-'),
                ranges_cut(value@, ranges@, pieces),
                pieces_numbers(pieces.take(i as int)) == Some(numbers),
                numbers.len() == i,
                i > 0 ==> min == least(numbers) && max == largest(numbers),
            decreases ranges@.len() - i,
        {
            let (from, to) = ranges[i];
            let piece = slice_subrange(value, from, to);
            proof {
                assert(piece@ == pieces[i as int]);
                assert(pieces.take(i + 1).drop_last() == pieces.take(i as int));
                assert(pieces.take(i + 1).last() == pieces[i as int]);
            }
            let n = match parse_u32(piece) {
                Some(n) => n,
                None => {
                    proof {
                        lemma_numbers_failure_stays(pieces, i + 1);
                    }
                    return Err(ZoneError::InvalidNumber);
                },
            };
            proof {
                let longer = numbers.push(n as int);
                assert(longer.drop_last() == numbers);
                numbers = longer;
            }
            if i == 0 || n < min {
                min = n;
            }
            if i == 0 || n > max {
                max = n;
            }
            i += 1;
        }
        assert(pieces.take(i as int) == pieces);
        Ok(ZoneAssignment::new(min, max))
    }

    /// Reads a zone such as `2-4`: the numbers between the hyphens give its
    /// first and its last section, whatever their order.
    pub fn try_from(value: &str) -> (r: Result<ZoneAssignment, ZoneError>)
        ensures
            match r {
                Ok(zone) => zone.wf() && text_zone(value@) == Ok::<(int, int), ZoneError>(zone@),
                Err(e) => text_zone(value@) == Err::<(int, int), ZoneError>(e),
            },
    {
        let chars = chars_of(value);
        ZoneAssignment::from_chars(chars.as_slice())
    }
}

/// Reads the zones that commas part in `input`, such as `2-4,6-8`.
pub fn parse_elf_pairs(input: &str) -> (r: Result<Vec<ZoneAssignment>, ZoneError>)
    ensures
        match r {
            Ok(zones) => pieces_zones(split(input@, ',')) == Ok::<Seq<(int, int)>, ZoneError>(
                zones_view(zones@),
            ) && forall|i: int| 0 <= i < zones@.len() ==> (#[trigger] zones@[i]).wf(),
            Err(e) => pieces_zones(split(input@, ',')) == Err::<Seq<(int, int)>, ZoneError>(e),
        },
{
    let chars = chars_of(input);
    let ranges = split_ranges(chars.as_slice(), ',');
    let ghost pieces = split(input@, ',');
    let mut zones: Vec<ZoneAssignment> = Vec::new();
    let mut i: usize = 0;
    assert(pieces.take(0) == Seq::<Seq<char>>::empty());
    assert(zones_view(zones@) =~= Seq::<(int, int)>::empty());
    while i < ranges.len()
        invariant
            i <= ranges@.len(),
            chars@ == input@,
            pieces == split(input@, ','),
            ranges_cut(chars@, ranges@, pieces),
            pieces_zones(pieces.take(i as int)) == Ok::<Seq<(int, int)>, ZoneError>(
                zones_view(zones@),
            ),
            forall|i: int| 0 <= i < zones@.len() ==> (#[trigger] zones@[i]).wf(),
        decreases ranges@.len() - i,
    {
        let (from, to) = ranges[i];
        let piece = slice_subrange(chars.as_slice(), from, to);
        proof {
            assert(piece@ == pieces[i as int]);
            assert(pieces.take(i + 1).drop_last() == pieces.take(i as int));
            assert(pieces.take(i + 1).last() == pieces[i as int]);
        }
        match ZoneAssignment::from_chars(piece) {
            Ok(zone) => {
                let ghost before = zones@;
                zones.push(zone);
                assert(zones_view(zones@) =~= zones_view(before).push(zone@));
            },
            Err(e) => {
                proof {
                    lemma_zones_failure_stays(pieces, i + 1);
                }
                return Err(e);
            },
        }
        i += 1;
    }
    assert(pieces.take(i as int) == pieces);
    Ok(zones)
}

} // verus!
