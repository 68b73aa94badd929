//! The injected randomness source for generation: a small, seedable PRNG
//! from the rand crate behind trusted wrappers.

use vstd::prelude::*;

use rand::Rng as _;
use rand::SeedableRng as _;

verus! {

#[verifier::external_type_specification]
#[verifier::external_body]
pub struct ExSmallRng(rand::rngs::SmallRng);

/// A randomness source. Generation takes one as a parameter so callers can
/// supply a seeded generator.
pub struct Rand {
    rng: rand::rngs::SmallRng,
}

impl Rand {
    /// Relies on rand's `SmallRng::seed_from_u64`: builds a generator from a
    /// 64-bit seed.
    #[verifier::external_body]
    pub fn from_seed(seed: u64) -> (r: Rand) {
        Rand { rng: rand::rngs::SmallRng::seed_from_u64(seed) }
    }

    /// Relies on rand's `SeedableRng::try_from_os_rng`: a generator from
    /// operating-system entropy, or nothing when the system refuses any.
    #[verifier::external_body]
    pub fn from_entropy() -> (r: Option<Rand>) {
        match rand::rngs::SmallRng::try_from_os_rng() {
            Ok(rng) => Some(Rand { rng }),
            Err(_) => None,
        }
    }

    /// Relies on rand's `Rng::random_range` over `0..n`: some value below
    /// `n`. Nothing is promised about which one.
    #[verifier::external_body]
    pub fn below(&mut self, n: usize) -> (r: usize)
        requires
            n >= 1,
        ensures
            r < n,
    {
        self.rng.random_range(0..n)
    }
}

} // verus!
