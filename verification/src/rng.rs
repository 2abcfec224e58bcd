//! The random numbers the generator draws, all from the thread-local
//! generator of the `fastrand` crate.

use vstd::prelude::*;

verus! {

/// Calls `fastrand::seed`, which resets the thread-local generator so that
/// the numbers drawn after it depend only on `seed`. Nothing about the
/// numbers drawn later is stated here.
#[verifier::external_body]
pub(crate) fn seed_rng(seed: u64) {
    fastrand::seed(seed)
}

/// Calls `fastrand::u32(..bound)`. That function panics on an empty range,
/// hence `bound > 0`; otherwise it returns a number of the range, which is
/// all that is claimed: which number comes back is left to chance.
#[verifier::external_body]
pub(crate) fn random_u32_below(bound: u32) -> (r: u32)
    requires
        bound > 0,
    ensures
        r < bound,
{
    fastrand::u32(..bound)
}

/// Calls `fastrand::usize(..bound)`, with the same contract as
/// `random_u32_below`: `bound > 0`, and the result lies below `bound`.
#[verifier::external_body]
pub(crate) fn random_usize_below(bound: usize) -> (r: usize)
    requires
        bound > 0,
    ensures
        r < bound,
{
    fastrand::usize(..bound)
}

} // verus!
