//! The source of uniformly distributed random integers used for sprite
//! placement, supplied by the `rand` crate behind a trusted boundary.

use vstd::prelude::*;

verus! {

#[verifier::external_type_specification]
#[verifier::external_body]
pub struct ExThreadRng(rand::rngs::ThreadRng);

/// Relies on rand::RngExt::random_range over the inclusive range
/// `lo..=hi`: the sample lies within the given bounds (it panics only on an
/// empty range, which `lo <= hi` rules out).
#[verifier::external_body]
pub(crate) fn random_in_range(rng: &mut rand::rngs::ThreadRng, lo: u32, hi: u32) -> (r: u32)
    requires
        lo <= hi,
    ensures
        lo <= r <= hi,
{
    rand::RngExt::random_range(rng, lo..=hi)
}

} // verus!
