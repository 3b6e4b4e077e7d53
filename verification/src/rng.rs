//! Random draws, taken from the `rand` crate behind trusted wrappers. Nothing
//! is promised of a random value beyond its range.

use vstd::prelude::*;

verus! {

/// Relies on `rand::random`: a uniformly random 64-bit seed. Nothing is
/// promised of the value.
#[verifier::external_body]
pub fn rand_u64() -> (r: u64) {
    rand::random::<u64>()
}

/// Relies on `rand::Rng::random_range` over `0..n`: the draw is uniform and
/// below `n`; which value comes back is not promised.
#[verifier::external_body]
pub fn rand_below(n: u64) -> (r: u64)
    requires
        n >= 1,
    ensures
        r < n,
{
    rand::random_range(0..n)
}

} // verus!
