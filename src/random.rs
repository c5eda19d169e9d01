//! Random draws, from the `rand` crate's thread-local generator.
use rand::rngs::ThreadRng;
use rand::Rng;
use vstd::prelude::*;

verus! {

#[verifier::external_type_specification]
#[verifier::external_body]
pub struct ExThreadRng(rand::rngs::ThreadRng);

/// Relies on `rand::rng`: a handle on the generator of the current thread.
/// Nothing is known of the values it will produce.
pub assume_specification[ rand::rng ]() -> ThreadRng;

/// Relies on `rand::Rng::random_ratio`: `true` with probability
/// `numerator / denominator`. Its documentation guarantees `true` when the
/// two are equal and `false` when `numerator` is zero, and it panics when
/// `denominator` is zero or smaller than `numerator`.
#[verifier::external_body]
pub(crate) fn random_ratio(rng: &mut ThreadRng, numerator: u32, denominator: u32) -> (r: bool)
    requires
        0 < denominator,
        numerator <= denominator,
    ensures
        numerator == 0 ==> !r,
        numerator == denominator ==> r,
{
    rng.random_ratio(numerator, denominator)
}

} // verus!
