//! Randomness for peer sampling and connection-id generation, supplied by
//! the `rand` crate behind trusted wrappers.

use vstd::prelude::*;

verus! {

/// `rand::rngs::SmallRng`, the per-worker random number generator.
/// Opaque here: nothing is assumed about the values it produces.
#[verifier::external_type_specification]
#[verifier::external_body]
pub struct ExSmallRng(rand::rngs::SmallRng);

/// Relies on rand's `Rng::gen_range` over `0..n`: it panics only on an
/// empty range and returns a value of the range.
#[verifier::external_body]
pub(crate) fn gen_index(rng: &mut rand::rngs::SmallRng, n: usize) -> (r: usize)
    requires
        n >= 1,
    ensures
        r < n,
{
    rand::Rng::gen_range(rng, 0..n)
}

/// Relies on rand's `RngCore::next_u64`. Nothing is promised of the value:
/// callers must be correct whatever comes back.
#[verifier::external_body]
pub(crate) fn gen_u64(rng: &mut rand::rngs::SmallRng) -> u64 {
    rand::RngCore::next_u64(rng)
}

} // verus!
