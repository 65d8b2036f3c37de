use rand::{Rng, SeedableRng};
use rand::rngs::StdRng;
use vstd::prelude::*;

verus! {

#[verifier::external_type_specification]
#[verifier::external_body]
pub struct ExStdRng(StdRng);

/// Relies on rand's `SeedableRng::from_entropy` for `StdRng`: a generator
/// seeded from the operating system. Nothing is known of the seed.
#[verifier::external_body]
fn rng_from_entropy() -> (r: StdRng) {
    StdRng::from_entropy()
}

/// Relies on rand's `SeedableRng::seed_from_u64` for `StdRng`: a generator
/// whose stream depends on `seed` alone.
#[verifier::external_body]
fn rng_from_seed(seed: u64) -> (r: StdRng) {
    StdRng::seed_from_u64(seed)
}

/// Relies on rand's `Rng::gen_range` over `lo..hi` of `u32`: a value in
/// the half-open range, which must not be empty (it panics on an empty one).
#[verifier::external_body]
fn draw_in_range(rng: &mut StdRng, lo: u32, hi: u32) -> (r: u32)
    requires
        lo < hi,
    ensures
        lo <= r < hi,
{
    rng.gen_range(lo..hi)
}

/// Relies on rand's `Rng::gen` for `u32`: any value may come.
#[verifier::external_body]
fn draw_u32(rng: &mut StdRng) -> (r: u32) {
    rng.gen::<u32>()
}

/// Random number generation state, and the services built on it.
pub struct RandomNumberGenerator {
    pub rng: StdRng,
}

impl RandomNumberGenerator {
    /// A generator with a starting seed taken from the operating system.
    pub fn new() -> (r: Self) {
        RandomNumberGenerator { rng: rng_from_entropy() }
    }

    /// A generator with the given seed: the same requests give the same
    /// results for the same seed.
    pub fn seeded(seed: u64) -> (r: Self) {
        RandomNumberGenerator { rng: rng_from_seed(seed) }
    }

    /// A number drawn from the half-open range `range`, which must not be empty.
    pub fn range(&mut self, range: std::ops::Range<u32>) -> (r: u32)
        requires
            range.start < range.end,
        ensures
            range.start <= r < range.end,
    {
        draw_in_range(&mut self.rng, range.start, range.end)
    }

    /// A number drawn from the whole range of `u32`.
    pub fn next(&mut self) -> (r: u32) {
        draw_u32(&mut self.rng)
    }
}

/// Marker for hosts that keep one shared `RandomNumberGenerator`.
pub struct RandomPlugin;

} // verus!
