//! Trusted boundary to the `rand` crate: every draw of randomness the engine
//! makes goes through one of the wrappers below. Each wrapper's contract
//! states only what holds of every possible outcome.

use rand::distr::Distribution;
use rand::seq::SliceRandom;
use rand::Rng;
use vstd::prelude::*;

verus! {

/// Sum of a sequence of weights, as an unbounded integer.
pub open spec fn weight_sum(s: Seq<u64>) -> int
    decreases s.len(),
{
    if s.len() == 0 {
        0
    } else {
        s[0] + weight_sum(s.drop_first())
    }
}

pub proof fn lemma_weight_sum_bound(s: Seq<u64>, b: int)
    requires
        b >= 0,
        forall|i: int| 0 <= i < s.len() ==> s[i] <= b,
    ensures
        0 <= weight_sum(s) <= s.len() * b,
    decreases s.len(),
{
    if s.len() > 0 {
        lemma_weight_sum_bound(s.drop_first(), b);
        assert(s.len() * b == b + (s.len() - 1) * b) by (nonlinear_arith);
    }
}

pub proof fn lemma_weight_sum_pos(s: Seq<u64>, i: int)
    requires
        0 <= i < s.len(),
        s[i] > 0,
    ensures
        weight_sum(s) > 0,
    decreases s.len(),
{
    lemma_weight_sum_bound(s.drop_first(), u64::MAX as int);
    if i == 0 {
    } else {
        lemma_weight_sum_pos(s.drop_first(), i - 1);
    }
}

/// Relies on `rand::Rng::random_range` over `0..n`: returns a uniformly
/// drawn value of the range, and panics only when the range is empty.
#[verifier::external_body]
pub(crate) fn rand_index(n: usize) -> (r: usize)
    requires
        n > 0,
    ensures
        r < n,
{
    rand::rng().random_range(0..n)
}

/// Relies on `rand::Rng::random_ratio`: returns `true` with probability
/// `num / den`; the result is guaranteed `true` when `num == den`, and the
/// call panics only when `den == 0` or `num > den`.
#[verifier::external_body]
pub(crate) fn rand_chance(num: u32, den: u32) -> (r: bool)
    requires
        1 <= num,
        num <= den,
    ensures
        num == den ==> r,
{
    rand::rng().random_ratio(num, den)
}

/// Relies on `rand::seq::SliceRandom::shuffle`: permutes the slice in place
/// (a Fisher-Yates shuffle built from swaps), so the multiset of elements is
/// unchanged.
#[verifier::external_body]
pub(crate) fn shuffle_indices(v: &mut Vec<usize>)
    ensures
        final(v)@.to_multiset() == old(v)@.to_multiset(),
{
    v.shuffle(&mut rand::rng());
}

/// Relies on `rand::distr::weighted::WeightedIndex::new` and
/// `Distribution::sample`: draws one index with probability proportional to
/// its weight. A zero-weight index is never drawn. `new` returns an error —
/// never a panic — exactly when the weights are empty, all zero, or their
/// sum overflows; otherwise a sample is returned.
#[verifier::external_body]
pub(crate) fn weighted_pick(weights: &Vec<u64>) -> (r: Option<usize>)
    ensures
        r matches Some(i) ==> i < weights.len() && weights[i as int] > 0,
        weights.len() > 0 && 0 < weight_sum(weights@) <= u64::MAX ==> r is Some,
{
    match rand::distr::weighted::WeightedIndex::new(weights.iter()) {
        Ok(dist) => Some(dist.sample(&mut rand::rng())),
        Err(_) => None,
    }
}

} // verus!
