//! The simulator's injected randomness capability: an abstract "uniform
//! integer in a range" source, plus an implementation backed by the `rand`
//! crate's standard generator, seeded for reproducible runs.

use vstd::prelude::*;

verus! {

/// A source of integers drawn from caller-supplied ranges. The simulator
/// owns one and consults it for every probabilistic decision, so a fixed
/// implementation and seed make whole runs replayable.
pub trait RandomSource {
    /// Returns an integer from the inclusive range `[lo, hi]`.
    fn gen_index(&mut self, lo: usize, hi: usize) -> (r: usize)
        requires
            lo <= hi,
        ensures
            lo <= r <= hi,
    ;
}

#[verifier::external_type_specification]
#[verifier::external_body]
pub struct ExStdRng(rand::rngs::StdRng);

/// A [`RandomSource`] driven by `rand`'s standard generator.
pub struct StdRandomSource {
    rng: rand::rngs::StdRng,
}

impl StdRandomSource {
    /// Relies on `rand::SeedableRng::seed_from_u64`: builds a generator
    /// whose sequence of draws is a function of the seed alone.
    #[verifier::external_body]
    pub fn from_seed(seed: u64) -> (source: StdRandomSource) {
        StdRandomSource { rng: <rand::rngs::StdRng as rand::SeedableRng>::seed_from_u64(seed) }
    }

    /// Relies on `rand::Rng::gen_range` on an inclusive range: it returns a
    /// value within the range, and panics only on an empty range, which
    /// `lo <= hi` rules out.
    #[verifier::external_body]
    fn draw(&mut self, lo: usize, hi: usize) -> (r: usize)
        requires
            lo <= hi,
        ensures
            lo <= r <= hi,
    {
        rand::Rng::gen_range(&mut self.rng, lo..=hi)
    }
}

impl RandomSource for StdRandomSource {
    fn gen_index(&mut self, lo: usize, hi: usize) -> (r: usize) {
        self.draw(lo, hi)
    }
}

} // verus!
