//! The random draws that the operators consume. Each draw comes from an
//! outside generator; nothing here is proved, so the contracts state only
//! what holds of every outcome.

use vstd::prelude::*;

verus! {

/// A uniform draw from `0..bound`, by `rand::Rng::gen_range` on the operating
/// system's generator. The call panics on an empty range, so `bound` must be
/// positive; the draw is below `bound`.
#[verifier::external_body]
pub(crate) fn random_below(bound: u128) -> (r: u128)
    requires
        bound > 0,
    ensures
        r < bound,
{
    rand::Rng::gen_range(&mut rand::rngs::OsRng, 0..bound)
}

/// Reorders `v` in place by `rand::seq::SliceRandom::shuffle`. The shuffle
/// only swaps elements, so `v` holds the same values as before, each as often
/// as before.
#[verifier::external_body]
pub(crate) fn shuffle_in_place(v: &mut Vec<usize>)
    ensures
        final(v)@.to_multiset() == old(v)@.to_multiset(),
{
    rand::seq::SliceRandom::shuffle(v.as_mut_slice(), &mut rand::rngs::OsRng);
}

/// Two cut points for a genome of `length` cities, by
/// `genevo::random::random_cut_points`. That function asserts a length of at
/// least four. It returns two distinct indices below `length`, the smaller
/// first, less than `length - 2` apart.
#[verifier::external_body]
pub(crate) fn random_cut_points(length: usize) -> (cut: (usize, usize))
    requires
        length >= 4,
    ensures
        cut.0 < cut.1 < length,
        cut.1 - cut.0 < length - 2,
{
    genevo::random::random_cut_points(&mut rand::rngs::OsRng, length)
}

} // verus!
