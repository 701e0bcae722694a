//! Random numbers for the generator and the AI, drawn from the thread-local
//! generator of `rand`.
use vstd::prelude::*;
use rand::Rng;
use rand::distributions::IndependentSample;

verus! {

/// Total of a list of weights.
pub open spec fn weight_sum(w: Seq<u32>) -> int
    decreases w.len(),
{
    if w.len() == 0 {
        0
    } else {
        weight_sum(w.drop_last()) + w.last()
    }
}

/// A total is at least each of its weights.
pub proof fn lemma_weight_sum_at_least(w: Seq<u32>, i: int)
    requires
        0 <= i < w.len(),
    ensures
        weight_sum(w) >= w[i],
    decreases w.len(),
{
    lemma_weight_sum_nonneg(w.drop_last());
    if i < w.len() - 1 {
        lemma_weight_sum_at_least(w.drop_last(), i);
    }
}

pub proof fn lemma_weight_sum_nonneg(w: Seq<u32>)
    ensures
        weight_sum(w) >= 0,
    decreases w.len(),
{
    if w.len() > 0 {
        lemma_weight_sum_nonneg(w.drop_last());
    }
}

/// A total of weights that are each at most `b` is at most `b` times their
/// number.
pub proof fn lemma_weight_sum_at_most(w: Seq<u32>, b: int)
    requires
        forall|i: int| 0 <= i < w.len() ==> #[trigger] w[i] <= b,
    ensures
        weight_sum(w) <= w.len() * b,
    decreases w.len(),
{
    if w.len() > 0 {
        assert forall|i: int| 0 <= i < w.len() - 1 implies #[trigger] w.drop_last()[i] <= b by {
            assert(w[i] <= b);
        }
        lemma_weight_sum_at_most(w.drop_last(), b);
        assert(w.last() <= b);
        assert(weight_sum(w) <= (w.len() - 1) * b + b);
        assert((w.len() - 1) * b + b == w.len() * b) by (nonlinear_arith);
    }
}

/// Relies on `rand::Rng::gen_range` (rand 0.4) on `rand::thread_rng()`: a
/// value in `[low, high)`; it panics unless `low < high`.
#[verifier::external_body]
pub(crate) fn random_range(low: i32, high: i32) -> (r: i32)
    requires
        low < high,
    ensures
        low <= r < high,
{
    rand::thread_rng().gen_range(low, high)
}

/// Relies on `rand::random::<bool>` (rand 0.4): a fair coin.
#[verifier::external_body]
pub(crate) fn random_bool() -> (r: bool) {
    rand::random::<bool>()
}

/// Relies on `rand::distributions::WeightedChoice` (rand 0.4): `new` panics on
/// an empty list or a total weight that is 0 or beyond `u32`; `ind_sample`
/// then returns the item of an interval of positive width, so an entry whose
/// weight is not 0.
#[verifier::external_body]
pub(crate) fn random_weighted_index(weights: &Vec<u32>) -> (r: usize)
    requires
        weights@.len() > 0,
        0 < weight_sum(weights@) <= u32::MAX,
    ensures
        r < weights@.len(),
        weights@[r as int] > 0,
{
    let mut items: Vec<rand::distributions::Weighted<usize>> = weights
        .iter()
        .enumerate()
        .map(|(i, w)| rand::distributions::Weighted { weight: *w, item: i })
        .collect();
    rand::distributions::WeightedChoice::new(&mut items).ind_sample(&mut rand::thread_rng())
}

} // verus!
