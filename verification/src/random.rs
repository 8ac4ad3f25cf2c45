//! The library's source of randomness: a generator that is made from a
//! seed, or seeded afresh, and handed to whatever draws from it.

use rand::rngs::StdRng;
use rand::{Rng, RngCore, SeedableRng};
use vstd::prelude::*;

verus! {

/// The generator `rand::rngs::StdRng`, of which nothing is known here.
#[verifier::external_type_specification]
#[verifier::external_body]
pub struct ExStdRng(StdRng);

/// `rand::SeedableRng::seed_from_u64` for `StdRng`: the generator that the
/// seed determines. Nothing is claimed of it.
#[verifier::external_body]
fn seeded(seed: u64) -> (rng: StdRng) {
    StdRng::seed_from_u64(seed)
}

/// `rand::RngCore::next_u64` on the thread-local generator
/// `rand::thread_rng()`: a word that is different from run to run. Nothing
/// is claimed of it.
#[verifier::external_body]
fn fresh_seed() -> (seed: u64) {
    rand::thread_rng().next_u64()
}

/// `rand::Rng::gen_range(lo..hi)`. All that is claimed is that the value
/// lies in the half-open range; the call panics on an empty range, which the
/// precondition rules out.
#[verifier::external_body]
fn draw_in_range(rng: &mut StdRng, lo: u64, hi: u64) -> (r: u64)
    requires
        lo < hi,
    ensures
        lo <= r < hi,
{
    rng.gen_range(lo..hi)
}

/// `rand::Rng::fill` on a fresh vector of `n` words. Only the length is
/// claimed.
#[verifier::external_body]
fn draw_words(rng: &mut StdRng, n: usize) -> (v: Vec<u64>)
    ensures
        v@.len() == n,
{
    let mut v: Vec<u64> = vec![0; n];
    rng.fill(&mut v[..]);
    v
}

/// A generator of random numbers. What it gives depends on how it was
/// seeded and on what was drawn from it before, and on nothing else.
pub struct Generator {
    rng: StdRng,
}

impl Generator {
    /// The generator that `seed` determines.
    pub fn from_seed(seed: u64) -> (g: Generator) {
        Generator { rng: seeded(seed) }
    }

    /// A generator with a seed drawn from the thread-local generator.
    pub fn new() -> (g: Generator) {
        Generator { rng: seeded(fresh_seed()) }
    }

    /// A number drawn from `[lo, hi)`.
    pub fn in_range(&mut self, lo: u64, hi: u64) -> (r: u64)
        requires
            lo < hi,
        ensures
            lo <= r < hi,
    {
        draw_in_range(&mut self.rng, lo, hi)
    }

    /// `n` words drawn at random.
    pub fn words(&mut self, n: usize) -> (v: Vec<u64>)
        ensures
            v@.len() == n,
    {
        draw_words(&mut self.rng, n)
    }
}

} // verus!
