//! Random choices, drawn from the standard generator of `rand`.
//!
//! Nothing is said of which element is chosen or in which order a list comes
//! out: the contracts state what holds of every outcome.

use rand::rngs::StdRng;
use rand::seq::SliceRandom;
use rand::SeedableRng;
use vstd::prelude::*;

verus! {

/// `rand::rngs::StdRng`: the standard generator of random numbers.
#[verifier::external_type_specification]
#[verifier::external_body]
pub struct ExStdRng(StdRng);

/// `SeedableRng::seed_from_u64` for the standard generator: a generator
/// whose output is fixed by the seed.
#[verifier::external_body]
pub(crate) fn seeded_rng(seed: u64) -> (rng: StdRng) {
    StdRng::seed_from_u64(seed)
}

/// `SliceRandom::choose`: one element of the slice, or `None` if the slice
/// is empty.
#[verifier::external_body]
pub(crate) fn choose_one<T: Copy>(items: &[T], rng: &mut StdRng) -> (r: Option<T>)
    ensures
        match r {
            Some(item) => items@.contains(item),
            None => items@.len() == 0,
        },
{
    items.choose(rng).copied()
}

/// `SliceRandom::shuffle`: puts the elements in a random order.
#[verifier::external_body]
pub(crate) fn shuffle(items: &mut Vec<usize>, rng: &mut StdRng)
    ensures
        final(items)@.to_multiset() == old(items)@.to_multiset(),
{
    items.shuffle(rng)
}

} // verus!
