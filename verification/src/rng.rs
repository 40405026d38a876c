//! Trusted boundary to the `fastrand` crate, the injected seedable source of
//! randomness. Nothing is assumed about which values come out beyond their
//! range, so everything proved about the engine holds for every outcome.

use vstd::prelude::*;

verus! {

#[verifier::external_type_specification]
#[verifier::external_body]
pub struct ExRng(fastrand::Rng);

/// Relies on fastrand::Rng::usize over the range `0..n`: it panics only on an
/// empty range (ruled out here) and otherwise returns a value below `n`.
#[verifier::external_body]
pub(crate) fn rng_below(rng: &mut fastrand::Rng, n: usize) -> (r: usize)
    requires
        n >= 1,
    ensures
        r < n,
{
    rng.usize(0..n)
}

} // verus!
