//! Trusted boundary to the `rand` crate.
//!
//! Random graph generation needs a seedable source of randomness.  The source
//! itself is supplied by the caller as a `rand::rngs::StdRng`; everything the
//! verified code learns about a draw is stated here.

use vstd::prelude::*;

verus! {

#[verifier::external_type_specification]
#[verifier::external_body]
pub struct ExStdRng(rand::rngs::StdRng);

/// Relies on `rand::Rng::gen_range`: a draw from the integer range
/// `0..bound` lies in that range; the range is non-empty, so the call
/// does not panic.  Nothing else is promised of the draw.
#[verifier::external_body]
pub(crate) fn rand_below(rng: &mut rand::rngs::StdRng, bound: u64) -> (r: u64)
    requires
        bound >= 1,
    ensures
        r < bound,
{
    rand::Rng::gen_range(rng, 0..bound)
}

} // verus!
