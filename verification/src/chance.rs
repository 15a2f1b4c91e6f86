//! Random draws, from the `rand` crate's generator of the current thread.

use rand::rngs::ThreadRng;
use rand::Rng;
use vstd::prelude::*;

verus! {

/// `rand::rngs::ThreadRng`, a handle to the current thread's generator.
/// Nothing is known of what it holds.
#[verifier::external_type_specification]
#[verifier::external_body]
pub struct ExThreadRng(ThreadRng);

/// `rand::rng()`: the handle to the current thread's generator. Nothing is
/// claimed of it. The generator is seeded from the operating system at the
/// thread's first use, and the call panics where that has no randomness to
/// give; no input decides that.
#[verifier::external_body]
pub(crate) fn thread_rng() -> (rng: ThreadRng) {
    rand::rng()
}

/// `rand::Rng::random_range` on the range `low..high`: a number drawn from
/// `low, low + 1, .., high - 1`. The claim is that the number lies in that
/// range, and nothing of which one it is. `random_range` panics on an empty
/// range, which `low < high` excludes. The generator seeds itself anew from
/// the operating system from time to time, and a draw panics where that has
/// no randomness to give; no input decides that.
#[verifier::external_body]
pub(crate) fn random_between(rng: &mut ThreadRng, low: usize, high: usize) -> (r: usize)
    requires
        low < high,
    ensures
        low <= r < high,
{
    rng.random_range(low..high)
}

} // verus!
