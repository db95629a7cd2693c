use rand::rngs::ThreadRng;
use rand::Rng;
use vstd::prelude::*;

verus! {

/// The handle of the `rand` crate to the generator of the current thread.
/// Nothing of its state is visible to proofs.
#[verifier::external_type_specification]
#[verifier::external_body]
pub struct ExThreadRng(ThreadRng);

/// The generator of the current thread, by `rand::thread_rng`.
///
/// Trusted, not proved: the call returns. Nothing is claimed of the handle.
#[verifier::external_body]
pub(crate) fn thread_generator() -> (rng: ThreadRng) {
    rand::thread_rng()
}

/// One draw from a generator of the `rand` crate, by
/// `Rng::gen_range(low, high)`.
///
/// Trusted, not proved: the value returned lies in the half-open range
/// `low <= r < high`. Which value of the range comes is left open, and two
/// draws on the same bounds may differ. `gen_range` panics on an empty range,
/// which the precondition excludes.
#[verifier::external_body]
pub(crate) fn draw_from(rng: &mut ThreadRng, low: u64, high: u64) -> (r: u64)
    requires
        low < high,
    ensures
        low <= r < high,
{
    rng.gen_range(low, high)
}

/// A random number in `low <= r < high`, from the generator of the current
/// thread.
pub fn draw_between(low: u64, high: u64) -> (r: u64)
    requires
        low < high,
    ensures
        low <= r < high,
{
    let mut rng = thread_generator();
    draw_from(&mut rng, low, high)
}

/// A random index in `low <= r < high`, from the generator of the current
/// thread.
pub fn index_between(low: usize, high: usize) -> (r: usize)
    requires
        low < high,
    ensures
        low <= r < high,
{
    let r: u64 = draw_between(low as u64, high as u64);
    r as usize
}

} // verus!
