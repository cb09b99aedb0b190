//! Random draws used by fleet placement, behind trusted wrappers.

use rand::RngExt;
use vstd::prelude::*;

verus! {

/// Relies on `RngExt::random_range` on `rand::rng()`: returns a value
/// uniformly drawn from `0..n`; it panics only on an empty range,
/// which `n > 0` rules out.
#[verifier::external_body]
pub(crate) fn random_below(n: usize) -> (r: usize)
    requires
        n > 0,
    ensures
        r < n,
{
    rand::rng().random_range(0..n)
}

/// Relies on `RngExt::random` on `rand::rng()` with the standard
/// distribution on `bool`: a fair coin. Nothing can be promised of
/// the value drawn.
#[verifier::external_body]
pub(crate) fn random_coin() -> bool {
    rand::rng().random::<bool>()
}

} // verus!
