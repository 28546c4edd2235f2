//! The source of randomness: a generator of the `rand` crate, handed from
//! draw to draw, so that a source made from a seed gives the same draws
//! whenever the same program makes it from that seed. Nothing is proved of
//! the calls into `rand`; their contracts state what `rand` documents of
//! every outcome and nothing of which outcome comes. That holds of a seeded
//! source too: `rand` describes its standard generator as deterministic but
//! not portable, so which draws follow from a seed is for no contract to say.

use rand::rngs::StdRng;
use rand::{Rng, SeedableRng};
use vstd::prelude::*;

verus! {

/// The standard generator of `rand`. Nothing is known of what it holds.
#[verifier::external_type_specification]
#[verifier::external_body]
pub struct ExStdRng(StdRng);

/// A source of random draws.
pub struct Source {
    generator: StdRng,
}

impl Source {
    /// The source that a seed stands for: in one program, two sources made
    /// from one seed give the same draws, one after the other.
    pub fn seeded(seed: u64) -> (source: Source) {
        Source { generator: generator_of(seed) }
    }

    /// A source that no seed stands for: it starts where chance has it.
    pub fn fresh() -> (source: Source) {
        Source { generator: generator_by_chance() }
    }

    /// Draws `true` with a chance of `numerator` in `denominator`: always
    /// when the two are the same, and never when `numerator` is zero.
    pub fn ratio(&mut self, numerator: u32, denominator: u32) -> (r: bool)
        requires
            denominator > 0,
            numerator <= denominator,
        ensures
            numerator == denominator ==> r,
            numerator == 0 ==> !r,
    {
        draw_ratio(&mut self.generator, numerator, denominator)
    }

    /// Draws a number below `n`.
    pub fn below(&mut self, n: u32) -> (r: u32)
        requires
            n > 0,
        ensures
            r < n,
    {
        draw_below(&mut self.generator, n)
    }

    /// Tosses a coin.
    pub fn coin(&mut self) -> (r: bool) {
        draw_bool(&mut self.generator)
    }
}

/// Calls `SeedableRng::seed_from_u64` of `rand` for its standard generator,
/// which makes the generator that the seed stands for. Nothing is claimed of
/// the generator.
#[verifier::external_body]
fn generator_of(seed: u64) -> (generator: StdRng) {
    StdRng::seed_from_u64(seed)
}

/// Calls `SeedableRng::from_rng` of `rand` for its standard generator, on the
/// generator of the running thread that `rand::rng` hands out: the new
/// generator is seeded from that one. Nothing is claimed of the generator.
#[verifier::external_body]
fn generator_by_chance() -> (generator: StdRng) {
    StdRng::from_rng(&mut rand::rng())
}

/// Calls `Rng::random_ratio` of `rand`, which returns `true` with a chance of
/// `numerator` in `denominator` and panics when `denominator` is zero or
/// `numerator` exceeds it. Of the result the contract claims the two certain
/// cases that `rand` documents: it is `true` when `numerator` is
/// `denominator`, and `false` when `numerator` is zero.
#[verifier::external_body]
fn draw_ratio(generator: &mut StdRng, numerator: u32, denominator: u32) -> (r: bool)
    requires
        denominator > 0,
        numerator <= denominator,
    ensures
        numerator == denominator ==> r,
        numerator == 0 ==> !r,
{
    generator.random_ratio(numerator, denominator)
}

/// Calls `Rng::random_range` of `rand` on the range from zero up to, not
/// including, `n`. It panics on an empty range; the value it returns lies in
/// the range.
#[verifier::external_body]
fn draw_below(generator: &mut StdRng, n: u32) -> (r: u32)
    requires
        n > 0,
    ensures
        r < n,
{
    generator.random_range(0..n)
}

/// Calls `Rng::random` of `rand` for a `bool`. Nothing is claimed of the
/// result.
#[verifier::external_body]
fn draw_bool(generator: &mut StdRng) -> (r: bool) {
    generator.random::<bool>()
}

} // verus!
