//! The random source: the thread-local generator of the `rand` crate.

use vstd::prelude::*;
use rand::Rng;

verus! {

/// `rand::rngs::ThreadRng`, a handle to the generator of the calling thread.
/// Nothing inside it is visible here.
#[verifier::external_type_specification]
#[verifier::external_body]
pub struct ExThreadRng(rand::rngs::ThreadRng);

/// `rand::thread_rng` returns the handle to the calling thread's generator.
/// The first call in a thread seeds the generator from the operating
/// system, and fails where the system has no random source to give.
/// Nothing is claimed of the handle.
#[verifier::external_body]
pub(crate) fn thread_rng_handle() -> (rng: rand::rngs::ThreadRng) {
    rand::thread_rng()
}

/// `Rng::gen_range` on the half-open range `low..high`. It refuses an
/// empty range, so `low` is below `high`; what it returns lies in the
/// range. Which value it is depends on the generator, and nothing more is
/// claimed.
#[verifier::external_body]
pub(crate) fn draw_between(rng: &mut rand::rngs::ThreadRng, low: i32, high: i32) -> (drawn: i32)
    requires
        low < high,
    ensures
        low <= drawn < high,
{
    rng.gen_range(low..high)
}

} // verus!
