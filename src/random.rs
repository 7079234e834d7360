//! The seeded source of random draws used to place new agents.

use vstd::prelude::*;

verus! {

#[verifier::external_type_specification]
#[verifier::external_body]
pub struct ExStdRng(rand::rngs::StdRng);

/// A random number generator fixed by a seed: equal seeds give equal draws.
pub struct SimRng {
    rng: rand::rngs::StdRng,
}

impl SimRng {
    /// A generator started from `seed`.
    pub fn seeded(seed: u64) -> (r: SimRng) {
        SimRng { rng: std_rng_from_seed(seed) }
    }

    /// A value drawn from `lo..=hi`.
    pub fn draw(&mut self, lo: i64, hi: i64) -> (r: i64)
        requires
            lo <= hi,
        ensures
            lo <= r <= hi,
    {
        draw_inclusive(&mut self.rng, lo, hi)
    }
}

/// Relies on rand's `SeedableRng::seed_from_u64` for `StdRng`: a generator
/// whose draws are fixed by the seed.
#[verifier::external_body]
fn std_rng_from_seed(seed: u64) -> (r: rand::rngs::StdRng) {
    <rand::rngs::StdRng as rand::SeedableRng>::seed_from_u64(seed)
}

/// Relies on rand's `Rng::random_range` over `lo..=hi`: a value of that
/// range, which is never empty here (it panics only on an empty range).
#[verifier::external_body]
fn draw_inclusive(rng: &mut rand::rngs::StdRng, lo: i64, hi: i64) -> (r: i64)
    requires
        lo <= hi,
    ensures
        lo <= r <= hi,
{
    rand::Rng::random_range(rng, lo..=hi)
}

} // verus!
