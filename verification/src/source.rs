//! The default randomness source: retention trials drawn from a small,
//! seedable pseudo-random generator, so that runs are reproducible from
//! a 64-bit seed.

use vstd::prelude::*;

use crate::estimator::RandomSource;

verus! {

#[verifier::external_type_specification]
#[verifier::external_body]
pub struct ExSmallRng(rand::rngs::SmallRng);

/// Relies on rand::SeedableRng::seed_from_u64 to build the generator
/// from a 64-bit seed.
#[verifier::external_body]
fn rng_from_seed(seed: u64) -> (r: rand::rngs::SmallRng) {
    <rand::rngs::SmallRng as rand::SeedableRng>::seed_from_u64(seed)
}

/// Relies on rand::RngCore::next_u64: one 64-bit draw from the
/// generator.  Nothing is assumed of the value.
#[verifier::external_body]
fn rng_next_u64(rng: &mut rand::rngs::SmallRng) -> (r: u64) {
    rand::RngCore::next_u64(rng)
}

/// A randomness source seeded from a 64-bit value; two sources built
/// from the same seed answer identical runs of trials.
pub struct SeededSource {
    rng: rand::rngs::SmallRng,
}

impl SeededSource {
    /// Build a source from a seed.
    pub fn from_seed(seed: u64) -> (r: Self) {
        SeededSource { rng: rng_from_seed(seed) }
    }
}

impl RandomSource for SeededSource {
    /// True with probability `2^-round`: a uniform 64-bit draw is
    /// compared against `2^(64-round)`, with one extra draw per further
    /// 64 bits of the exponent, each of which must come up zero.
    fn keep(&mut self, round: usize) -> bool {
        let mut remaining = round;
        while remaining > 64
            decreases remaining,
        {
            if rng_next_u64(&mut self.rng) != 0 {
                return false;
            }
            remaining = remaining - 64;
        }
        if remaining == 0 {
            true
        } else {
            let shift: u64 = (64 - remaining) as u64;
            let threshold: u64 = 1u64 << shift;
            rng_next_u64(&mut self.rng) < threshold
        }
    }
}

} // verus!
