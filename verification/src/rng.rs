//! Randomness, behind a single trusted call.
//!
//! The library consumes randomness only as uniform draws below a bound; the
//! generator itself is opaque.  Nothing is assumed of a draw beyond its
//! range, so every result that depends on it is proved for all draws.
use vstd::prelude::*;

verus! {

/// The standard random number generator of the rand crate, opaque here.
#[verifier::external_type_specification]
#[verifier::external_body]
pub struct ExStdRng(rand::rngs::StdRng);

/// Relies on rand's `Rng::gen_range` over `0..n`: it returns a value of the
/// range, uniformly at random, and panics only when the range is empty.
#[verifier::external_body]
pub(crate) fn rng_below(rng: &mut rand::rngs::StdRng, n: usize) -> (r: usize)
    requires
        n >= 1,
    ensures
        r < n,
{
    rand::Rng::gen_range(rng, 0..n)
}

} // verus!
