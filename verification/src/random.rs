//! Random numbers, drawn from the generator of the `rand` crate.
//!
//! Everything in this file is trusted: Verus takes the contracts as they are
//! written and does not look into the bodies.

use rand::rngs::ThreadRng;
use rand::Rng;
use vstd::prelude::*;

verus! {

/// The handle to the random number generator of the current thread.
#[verifier::external_type_specification]
#[verifier::external_body]
pub struct ExThreadRng(rand::rngs::ThreadRng);

/// Calls `rand::thread_rng`, which hands out the generator of the current
/// thread. Nothing is claimed of it. The call panics only where the system
/// has no randomness to seed a generator from.
#[verifier::external_body]
pub(crate) fn thread_rng() -> ThreadRng {
    rand::thread_rng()
}

/// Calls `Rng::gen` for a `u8`. Any byte may come back, so nothing is
/// claimed of the result.
#[verifier::external_body]
pub(crate) fn random_byte(rng: &mut ThreadRng) -> u8 {
    rng.gen()
}

/// Calls `Rng::gen_range` on the range from `low` up to, but not including,
/// `high`. Trusted: the number lies in that range. The call panics on an
/// empty range, which the precondition rules out.
#[verifier::external_body]
pub(crate) fn random_between(rng: &mut ThreadRng, low: u8, high: u8) -> (number: u8)
    requires
        low < high,
    ensures
        low <= number < high,
{
    rng.gen_range(low..high)
}

} // verus!
