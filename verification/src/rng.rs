//! Randomness source for the simulator: rand's small-state generator,
//! behind trusted declarations.

use vstd::prelude::*;

verus! {

#[verifier::external_type_specification]
#[verifier::external_body]
pub struct ExSmallRng(rand::rngs::SmallRng);

/// Relies on rand's `SmallRng::from_entropy`: a generator freshly seeded
/// from the system entropy source.  Nothing can be promised of its draws.
#[verifier::external_body]
pub fn rng_from_entropy() -> rand::rngs::SmallRng {
    <rand::rngs::SmallRng as rand::SeedableRng>::from_entropy()
}

/// Relies on rand's `Rng::gen_range`: a draw in `[lo, hi)`; the call
/// panics on an empty range, so `lo < hi` is required.
#[verifier::external_body]
pub fn gen_range_u64(rng: &mut rand::rngs::SmallRng, lo: u64, hi: u64) -> (r: u64)
    requires
        lo < hi,
    ensures
        lo <= r < hi,
{
    rand::Rng::gen_range(rng, lo..hi)
}

/// A uniform index below `n`.
pub fn gen_index(rng: &mut rand::rngs::SmallRng, n: usize) -> (r: usize)
    requires
        n > 0,
    ensures
        r < n,
{
    let r = gen_range_u64(rng, 0, n as u64);
    r as usize
}

/// A uniform draw in `[lo, hi)` over `u32`.
pub fn gen_range_u32(rng: &mut rand::rngs::SmallRng, lo: u32, hi: u32) -> (r: u32)
    requires
        lo < hi,
    ensures
        lo <= r < hi,
{
    let r = gen_range_u64(rng, lo as u64, hi as u64);
    r as u32
}

} // verus!
