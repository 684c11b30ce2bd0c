//! The random source: a thin trusted boundary around the `rand` crate.
//! Only uniformity of selection is assumed; no determinism is claimed.

use rand::Rng;
use vstd::prelude::*;

verus! {

#[verifier::external_type_specification]
#[verifier::external_body]
pub struct ExThreadRng(rand::rngs::ThreadRng);

/// Relies on rand::Rng::gen_range over the range `0..n`: it returns a value
/// drawn uniformly from that range, and panics only when the range is empty,
/// which `n >= 1` rules out.
#[verifier::external_body]
pub(crate) fn random_below(rng: &mut rand::rngs::ThreadRng, n: usize) -> (r: usize)
    requires
        n >= 1,
    ensures
        r < n,
{
    rng.gen_range(0..n)
}

} // verus!
