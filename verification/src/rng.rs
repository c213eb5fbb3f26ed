//! The one source of chance.
//!
//! Everything random is drawn from a generator that the caller seeds. A second source would mean
//! findings that cannot be replayed from their seed.

use vstd::prelude::*;

use rand::rngs::StdRng;
use rand::RngExt;
use rand::SeedableRng;

verus! {

/// `rand::rngs::StdRng`, a pseudo-random generator. Its state is not looked into.
#[verifier::external_type_specification]
#[verifier::external_body]
pub struct ExStdRng(rand::rngs::StdRng);

/// `rand::SeedableRng::seed_from_u64` on [`StdRng`]: a generator in the state that the seed stands
/// for. Nothing is claimed of what it will produce: `rand` calls that output not portable even with
/// a fixed seed. That one seed gives one stream on one machine is therefore left unsaid.
#[verifier::external_body]
fn seeded(seed: u64) -> (r: StdRng) {
    StdRng::seed_from_u64(seed)
}

/// `rand::RngExt::random_range` over an inclusive range of `i64`: some number of the range. An
/// empty range makes the call panic, so it is left out. Which number comes out is chance.
#[verifier::external_body]
fn draw_between(rng: &mut StdRng, low: i64, high: i64) -> (r: i64)
    requires
        low <= high,
    ensures
        low <= r <= high,
{
    rng.random_range(low..=high)
}

/// `rand::RngExt::random_ratio`: true with a chance of `part` in `whole`, which makes it certain
/// at one and impossible at zero. A ratio above one, or of zero, makes the call panic, so these
/// are left out. In between, the answer is chance.
#[verifier::external_body]
fn draw_ratio(rng: &mut StdRng, part: u32, whole: u32) -> (r: bool)
    requires
        0 < whole,
        part <= whole,
    ensures
        part == whole ==> r,
        part == 0 ==> !r,
{
    rng.random_ratio(part, whole)
}

/// A seeded generator.
#[derive(Debug)]
pub struct SeededRng {
    inner: StdRng,
}

impl SeededRng {
    /// The generator that a seed stands for.
    pub fn from_seed(seed: u64) -> (r: Self) {
        SeededRng { inner: seeded(seed) }
    }

    /// Some number of an inclusive range.
    pub fn between(&mut self, low: i64, high: i64) -> (r: i64)
        requires
            low <= high,
        ensures
            low <= r <= high,
    {
        draw_between(&mut self.inner, low, high)
    }

    /// Some position in a list of the given length.
    pub fn index(&mut self, len: usize) -> (r: usize)
        requires
            0 < len <= i64::MAX,
        ensures
            r < len,
    {
        self.between(0, len as i64 - 1) as usize
    }

    /// True that many times in a hundred.
    pub fn percent(&mut self, rate: u32) -> (r: bool)
        requires
            rate <= 100,
        ensures
            rate == 100 ==> r,
            rate == 0 ==> !r,
    {
        draw_ratio(&mut self.inner, rate, 100)
    }
}

} // verus!
