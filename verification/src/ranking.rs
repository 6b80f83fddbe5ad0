//! Sorting numbers and adding up the largest of them.

use itertools::Itertools;
use std::cmp::Reverse;
use vstd::prelude::*;

verus! {

/// `s` sorted from the largest number to the smallest.
pub open spec fn descending(s: Seq<i32>) -> Seq<i32> {
    s.sort_by(|a: i32, b: i32| a >= b)
}

/// `s` sorted from the smallest number to the largest.
pub open spec fn ascending(s: Seq<i32>) -> Seq<i32> {
    s.sort_by(|a: i32, b: i32| a <= b)
}

/// `n`, or the length of `s` where `s` is shorter.
pub open spec fn at_most(n: usize, s: Seq<i32>) -> int {
    if n <= s.len() {
        n as int
    } else {
        s.len() as int
    }
}

/// The sum of the numbers of `s`.
pub open spec fn total(s: Seq<i32>) -> int
    decreases s.len(),
{
    if s.len() == 0 {
        0
    } else {
        total(s.drop_last()) + s.last()
    }
}

/// The `k` largest numbers of `input`, the largest first; all of them where
/// `input` holds fewer than `k`.
///
/// Trusted: calls `Itertools::k_smallest` of the itertools crate on the
/// numbers wrapped in `std::cmp::Reverse`. That method returns the `k`
/// smallest items in ascending order, as sorting and then taking `k` would;
/// under `Reverse` the smallest items are the largest numbers and ascending
/// is descending.
#[verifier::external_body]
pub(crate) fn k_largest(input: Vec<i32>, k: usize) -> (out: Vec<i32>)
    ensures
        out@ == descending(input@).take(at_most(k, input@)),
{
    input.into_iter().map(Reverse).k_smallest(k).map(|v| v.0).collect()
}

/// Sorts `v` from the smallest number to the largest.
///
/// Trusted: calls `sort` of the standard library's slices, which sorts in
/// ascending order.
#[verifier::external_body]
pub(crate) fn sort_ascending(v: &mut Vec<i32>)
    ensures
        final(v)@ == ascending(old(v)@),
{
    v.sort();
}

/// The sum of `k` numbers lies between `k` times the least `i32` and `k`
/// times the largest.
pub proof fn lemma_total_bounds(s: Seq<i32>)
    ensures
        s.len() * (i32::MIN as int) <= total(s) <= s.len() * (i32::MAX as int),
    decreases s.len(),
{
    if s.len() > 0 {
        lemma_total_bounds(s.drop_last());
        let k = s.len() as int;
        assert((k - 1) * (i32::MIN as int) + (i32::MIN as int) == k * (i32::MIN as int))
            by (nonlinear_arith);
        assert((k - 1) * (i32::MAX as int) + (i32::MAX as int) == k * (i32::MAX as int))
            by (nonlinear_arith);
    }
}

/// The sum of the numbers `v[from..to]`.
pub fn total_of(v: &Vec<i32>, from: usize, to: usize) -> (sum: i128)
    requires
        from <= to <= v@.len(),
    ensures
        sum == total(v@.subrange(from as int, to as int)),
{
    let mut sum: i128 = 0;
    let mut i: usize = from;
    assert(v@.subrange(from as int, from as int) == Seq::<i32>::empty());
    while i < to
        invariant
            from <= i <= to <= v@.len(),
            sum == total(v@.subrange(from as int, i as int)),
        decreases to - i,
    {
        proof {
            let longer = v@.subrange(from as int, i + 1);
            assert(longer.drop_last() == v@.subrange(from as int, i as int));
            assert(longer.last() == v@[i as int]);
            lemma_total_bounds(v@.subrange(from as int, i as int));
            assert((i - from) * (i32::MAX as int) <= usize::MAX * (i32::MAX as int))
                by (nonlinear_arith)
                requires
                    0 <= i - from <= usize::MAX,
            ;
            assert((i - from) * (i32::MIN as int) >= usize::MAX * (i32::MIN as int))
                by (nonlinear_arith)
                requires
                    0 <= i - from <= usize::MAX,
            ;
        }
        sum = sum + v[i] as i128;
        i += 1;
    }
    sum
}

} // verus!
