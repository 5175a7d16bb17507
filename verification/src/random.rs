//! The source of random choices.
use rand::Rng;
use rand::SeedableRng;
use rand::rngs::StdRng;
use vstd::prelude::*;

verus! {

/// `rand::rngs::StdRng`, the generator of the `rand` crate. Nothing is said
/// of what it holds.
#[verifier::external_type_specification]
#[verifier::external_body]
pub struct ExStdRng(StdRng);

/// The source of the engine's random choices. It is handed to every
/// operation that draws, so that a seed fixes a whole game.
#[derive(Debug)]
pub struct RandomSource {
    rng: StdRng,
}

/// `rand::SeedableRng::seed_from_u64` for `rand::rngs::StdRng`: a generator
/// whose state is derived from the seed. Nothing is claimed of it.
#[verifier::external_body]
fn seeded(seed: u64) -> StdRng {
    StdRng::seed_from_u64(seed)
}

/// `rand::Rng::gen_range` on the half-open range from 0 to `bound`: the
/// number drawn lies in that range. The range must not be empty, else the
/// call panics.
#[verifier::external_body]
fn draw_below(rng: &mut StdRng, bound: usize) -> (r: usize)
    requires
        bound > 0,
    ensures
        r < bound,
{
    rng.gen_range(0..bound)
}

impl RandomSource {
    /// A source seeded with `seed`.
    pub fn from_seed(seed: u64) -> RandomSource {
        RandomSource { rng: seeded(seed) }
    }

    /// A number drawn uniformly from 0 up to, and without, `bound`.
    pub fn below(&mut self, bound: usize) -> (r: usize)
        requires
            bound > 0,
        ensures
            r < bound,
    {
        draw_below(&mut self.rng, bound)
    }

    /// A number drawn uniformly from `low` to `high`, both included.
    pub fn between(&mut self, low: u8, high: u8) -> (r: u8)
        requires
            low <= high,
        ensures
            low <= r <= high,
    {
        let drawn = draw_below(&mut self.rng, count_between(low, high));
        nth_from(low, drawn)
    }
}

/// How many numbers lie from `low` to `high`, both included.
pub fn count_between(low: u8, high: u8) -> (r: usize)
    requires
        low <= high,
    ensures
        r == high - low + 1,
{
    (high - low) as usize + 1
}

/// The number that stands `drawn` places behind `low`.
pub fn nth_from(low: u8, drawn: usize) -> (r: u8)
    requires
        low + drawn <= u8::MAX,
    ensures
        r == low + drawn,
{
    low + drawn as u8
}

} // verus!
