//! The source of randomness: the thread-local generator of the `rand` crate.

use rand::rngs::ThreadRng;
use rand::Rng;
use vstd::prelude::*;

verus! {

/// `rand::rngs::ThreadRng`, a handle to the thread-local, operating-system seeded,
/// cryptographically secure generator. Nothing is known of its state.
#[verifier::external_type_specification]
#[verifier::external_body]
pub struct ExThreadRng(ThreadRng);

/// `rand::thread_rng`: hands out the handle to the calling thread's generator, which
/// is seeded from the operating system when the thread first asks for it. Nothing is
/// claimed of the handle.
pub assume_specification[ rand::thread_rng ]() -> (rng: ThreadRng);

/// `rand::Rng::gen::<u8>` on the thread-local generator: one byte drawn uniformly.
/// Nothing is claimed of the byte: every value can come out.
#[verifier::external_body]
pub(crate) fn random_byte(rng: &mut ThreadRng) -> (byte: u8) {
    rng.gen()
}

} // verus!
