//! Seeded random shuffling, by the `rand` crate.
use vstd::prelude::*;
use rand::seq::SliceRandom;
use rand::{rngs::SmallRng, SeedableRng};

verus! {

/// Shuffles `items` with `rand`'s `SliceRandom::shuffle`, driven by a
/// `SmallRng` seeded with `seed` (`SeedableRng::seed_from_u64`).
///
/// Claimed: the result holds the same elements as `items`. Which permutation
/// comes out depends on the generator, whose algorithm differs between
/// platforms, so nothing more is stated.
#[verifier::external_body]
pub(crate) fn shuffle_with_seed(items: Vec<usize>, seed: u64) -> (r: Vec<usize>)
    ensures
        r@.to_multiset() == items@.to_multiset(),
{
    let mut items = items;
    let mut rng = SmallRng::seed_from_u64(seed);
    items.shuffle(&mut rng);
    items
}

} // verus!
