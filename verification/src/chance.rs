//! The calls whose results the verifier takes on trust: random sampling.

use vstd::prelude::*;
use rand::Rng;

verus! {

/// Draws an index below `n` from `rand::thread_rng()` with
/// `rand::Rng::gen_range(0..n)`.
///
/// Believed, not proved: for a non-empty range the sample lies inside the
/// range. The empty range, on which `gen_range` panics, is excluded. What
/// no contract can exclude: `thread_rng` panics where the operating system
/// gives it no seed.
#[verifier::external_body]
pub(crate) fn random_index(n: usize) -> (i: usize)
    requires
        n > 0,
    ensures
        i < n,
{
    rand::thread_rng().gen_range(0..n)
}

/// Draws a fresh 64-bit value from `rand::thread_rng()` with
/// `rand::Rng::gen`. Nothing is claimed of the value; as above,
/// `thread_rng` panics where the operating system gives it no seed.
#[verifier::external_body]
pub(crate) fn random_u64() -> u64 {
    rand::thread_rng().gen::<u64>()
}

} // verus!
