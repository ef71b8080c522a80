//! The random source: rand's standard generator, seeded by the caller.

use vstd::prelude::*;
use rand::Rng;
use rand::rngs::StdRng;

verus! {

#[verifier::external_type_specification]
#[verifier::external_body]
pub struct ExStdRng(StdRng);

/// Relies on rand::Rng::gen_range: a value drawn from `[low, high)`; it
/// panics on an empty range.
#[verifier::external_body]
pub(crate) fn random_in(rng: &mut StdRng, low: usize, high: usize) -> (r: usize)
    requires
        low < high,
    ensures
        low <= r < high,
{
    rng.gen_range(low..high)
}

} // verus!
