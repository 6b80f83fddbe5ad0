//! Dropping repeated items from a sequence.

use itertools::Itertools;
use vstd::prelude::*;

verus! {

/// The items of `s` in the order in which they first occur, each once.
pub open spec fn first_occurrences<T>(s: Seq<T>) -> Seq<T>
    decreases s.len(),
{
    if s.len() == 0 {
        Seq::empty()
    } else {
        let earlier = first_occurrences(s.drop_last());
        if earlier.contains(s.last()) {
            earlier
        } else {
            earlier.push(s.last())
        }
    }
}

/// The first occurrences hold no item twice and hold exactly the items of
/// the sequence, so there are as many of them as the sequence has distinct
/// items.
pub proof fn lemma_first_occurrences<T>(s: Seq<T>)
    ensures
        first_occurrences(s).no_duplicates(),
        first_occurrences(s).to_set() == s.to_set(),
        first_occurrences(s).len() == s.to_set().len(),
        first_occurrences(s).len() <= s.len(),
    decreases s.len(),
{
    let found = first_occurrences(s);
    if s.len() == 0 {
        assert(found.to_set() =~= s.to_set());
    } else {
        let earlier = first_occurrences(s.drop_last());
        lemma_first_occurrences(s.drop_last());
        assert forall|x: T| found.to_set().contains(x) <==> s.to_set().contains(x) by {
            if s.to_set().contains(x) {
                let i = choose|i: int| 0 <= i < s.len() && s[i] == x;
                if i < s.len() - 1 {
                    assert(s.drop_last()[i] == x);
                    assert(s.drop_last().to_set().contains(x));
                    assert(earlier.to_set().contains(x));
                }
                if earlier.contains(x) {
                    let w = choose|w: int| 0 <= w < earlier.len() && earlier[w] == x;
                    assert(found[w] == x);
                } else {
                    assert(found[found.len() - 1] == x);
                }
                assert(found.contains(x));
            }
            if found.to_set().contains(x) {
                let i = choose|i: int| 0 <= i < found.len() && found[i] == x;
                if i < earlier.len() {
                    assert(earlier.contains(x));
                    assert(s.drop_last().to_set().contains(x));
                    let j = choose|j: int| 0 <= j < s.drop_last().len() && s.drop_last()[j] == x;
                    assert(s[j] == x);
                } else {
                    assert(s[s.len() - 1] == x);
                }
            }
        }
        assert(found.to_set() =~= s.to_set());
    }
    found.unique_seq_to_set();
}

/// The distinct points of `points`, in the order of their first occurrence.
///
/// Trusted: calls `Itertools::unique` of the itertools crate on the points,
/// which yields each item the first time it comes and drops it afterwards.
/// The items are pairs of integers, so that equality and hashing are those
/// of the standard library.
#[verifier::external_body]
pub(crate) fn unique_points(points: &Vec<(i32, i32)>) -> (out: Vec<(i32, i32)>)
    ensures
        out@ == first_occurrences(points@),
{
    points.iter().unique().copied().collect()
}

/// The number of distinct bytes of `window`.
///
/// Trusted: calls `Itertools::unique` of the itertools crate on the bytes
/// and counts what it yields: each byte the first time it comes.
#[verifier::external_body]
pub(crate) fn count_unique_bytes(window: &[u8]) -> (count: usize)
    ensures
        count == first_occurrences(window@).len(),
{
    window.iter().unique().count()
}

/// A sequence holds no item twice exactly when it has as many first
/// occurrences as items.
pub proof fn lemma_all_distinct<T>(s: Seq<T>)
    ensures
        s.no_duplicates() <==> first_occurrences(s).len() == s.len(),
{
    lemma_first_occurrences(s);
    if s.no_duplicates() {
        s.unique_seq_to_set();
    }
    if first_occurrences(s).len() == s.len() {
        s.lemma_no_dup_set_cardinality();
    }
}

} // verus!
