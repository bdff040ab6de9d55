//! The draws that the solver takes from a random number generator.

use crate::state::State;
use rand::distributions::{Distribution, WeightedError, WeightedIndex};
use rand::rngs::StdRng;
use rand::seq::IteratorRandom;
use rand::Rng;
use vstd::prelude::*;

verus! {

/// `rand::rngs::StdRng`, the generator that the solver draws from. Nothing
/// is known of its state.
#[verifier::external_type_specification]
#[verifier::external_body]
pub struct ExStdRng(StdRng);

/// `rand::distributions::WeightedError`, the reason for which no
/// distribution was made of some weights.
#[verifier::external_type_specification]
#[verifier::external_body]
pub struct ExWeightedError(WeightedError);

/// A `WeightedIndex` over `u32` weights: a distribution over the indices of
/// the weights that it was made of.
#[verifier::external_body]
pub struct Weighted {
    inner: WeightedIndex<u32>,
}

/// The weights that a distribution was made of.
pub uninterp spec fn weights_in(distribution: Weighted) -> Seq<u32>;

/// Sum of `weights`.
pub open spec fn total_weight(weights: Seq<u32>) -> nat
    decreases weights.len(),
{
    if weights.len() == 0 {
        0
    } else {
        total_weight(weights.drop_last()) + weights.last() as nat
    }
}

/// `IteratorRandom::choose` on the items of `states`: one of them, and
/// `None` only where there is none to choose from.
#[verifier::external_body]
pub(crate) fn choose_state(states: &Vec<State>, rng: &mut StdRng) -> (r: Option<State>)
    ensures
        r is None <==> states@.len() == 0,
        r matches Some(s) ==> states@.contains(s),
{
    states.iter().copied().choose(rng)
}

/// `Rng::gen_range` over `0..len`, which must not be empty: a number below
/// `len`.
#[verifier::external_body]
pub(crate) fn random_index(len: usize, rng: &mut StdRng) -> (r: usize)
    requires
        len > 0,
    ensures
        r < len,
{
    rng.gen_range(0..len)
}

/// `WeightedIndex::new`: a distribution over the indices of `weights`, or
/// an error where there is no weight or all of them are zero. The weights
/// must add up within `u32`, in which `new` adds them.
#[verifier::external_body]
pub(crate) fn weighted_index(weights: &Vec<u32>) -> (r: Result<Weighted, WeightedError>)
    requires
        total_weight(weights@) <= u32::MAX,
    ensures
        r is Err <==> total_weight(weights@) == 0,
        r matches Ok(distribution) ==> weights_in(distribution) == weights@,
{
    WeightedIndex::new(weights).map(|inner| Weighted { inner })
}

/// `Distribution::sample` on a `WeightedIndex`: the index of a weight other
/// than zero.
#[verifier::external_body]
pub(crate) fn sample_index(distribution: &Weighted, rng: &mut StdRng) -> (r: usize)
    ensures
        r < weights_in(*distribution).len(),
        weights_in(*distribution)[r as int] > 0,
{
    distribution.inner.sample(rng)
}

} // verus!
