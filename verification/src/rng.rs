//! The engine's source of randomness.

use vstd::prelude::*;

verus! {

/// Draws an index uniformly at random from `0..n`.
///
/// Trusted: calls `rand::thread_rng` and `rand::Rng::gen_range` with the half-open range
/// `0..n`. `gen_range` panics on an empty range, which `n > 0` rules out, and returns a
/// value inside the range. Which value comes back differs from call to call.
/// `thread_rng` panics if the operating system gives it no seed; no argument causes or
/// prevents that.
#[verifier::external_body]
pub(crate) fn random_index(n: usize) -> (index: usize)
    requires
        n > 0,
    ensures
        index < n,
{
    rand::Rng::gen_range(&mut rand::thread_rng(), 0..n)
}

} // verus!
