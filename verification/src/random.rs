//! Random numbers.

use rand::Rng;
use vstd::prelude::*;

verus! {

/// Calls `rand::Rng::random` on the thread's generator, for a `u64`. Any value
/// may come back, so nothing is claimed of it. The call itself panics only
/// where the operating system cannot seed the generator.
#[verifier::external_body]
pub(crate) fn random_u64() -> (value: u64)
{
    rand::rng().random()
}

/// Calls `rand::Rng::random` on the thread's generator, for a `u8`. Any value
/// may come back, so nothing is claimed of it. The call itself panics only
/// where the operating system cannot seed the generator.
#[verifier::external_body]
pub(crate) fn random_u8() -> (value: u8)
{
    rand::rng().random()
}

/// Calls `rand::Rng::random_range` on the thread's generator, for a `u64` in
/// `0..bound`: the value lies in that range, and nothing more is claimed of
/// it. The outside function panics on an empty range, which `bound > 0` rules
/// out; it also panics where the operating system cannot seed the generator.
#[verifier::external_body]
pub(crate) fn random_below(bound: u64) -> (value: u64)
    requires
        bound > 0,
    ensures
        value < bound,
{
    rand::rng().random_range(0..bound)
}

} // verus!
