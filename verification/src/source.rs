//! The source of randomness that the sampler draws from.
//!
//! The generators are those of the `rand` crate. Nothing is assumed of the
//! numbers that they give: every function that uses a draw is proved for all
//! values of it.

use vstd::prelude::*;
use rand::rngs::{StdRng, ThreadRng};
use rand::{Rng, SeedableRng};

verus! {

/// `rand::rngs::ThreadRng`, the handle to the generator that `rand` keeps for
/// each thread. Opaque here.
#[verifier::external_type_specification]
#[verifier::external_body]
pub struct ExThreadRng(ThreadRng);

/// `rand::rngs::StdRng`, the generator of `rand` that can be made from a seed.
/// Opaque here.
#[verifier::external_type_specification]
#[verifier::external_body]
pub struct ExStdRng(StdRng);

/// Calls `rand::thread_rng`, which hands out the calling thread's generator.
/// Nothing is claimed of it. (`rand` seeds that generator from the operating
/// system at its first use in a thread, and panics if no entropy is to be
/// had there.)
#[verifier::external_body]
fn thread_generator() -> ThreadRng {
    rand::thread_rng()
}

/// Calls `SeedableRng::seed_from_u64` of `StdRng`, which makes a generator
/// from the seed and cannot fail. Nothing is claimed of the generator.
#[verifier::external_body]
fn seeded_generator(seed: u64) -> StdRng {
    StdRng::seed_from_u64(seed)
}

/// Calls `Rng::gen::<usize>` on the thread's generator, which returns the
/// next machine word of its stream. Nothing is claimed of the word.
#[verifier::external_body]
fn thread_word(generator: &mut ThreadRng) -> usize {
    generator.gen::<usize>()
}

/// Calls `Rng::gen::<usize>` on a seeded generator, which returns the next
/// machine word of its stream. Nothing is claimed of the word.
#[verifier::external_body]
fn seeded_word(generator: &mut StdRng) -> usize {
    generator.gen::<usize>()
}

enum Generator {
    Thread(ThreadRng),
    Seeded(StdRng),
}

/// A source of random machine words, handed to the sort by its caller.
pub struct RandomSource {
    generator: Generator,
}

/// The index in `[0, n)` that a random machine word stands for: its remainder
/// by `n`.
pub open spec fn index_of_word(word: usize, n: nat) -> int {
    word as int % n as int
}

/// Reduces a random machine word to an index in `[0, n)`.
pub fn index_from_word(word: usize, n: usize) -> (index: usize)
    requires
        n > 0,
    ensures
        index == index_of_word(word, n as nat),
        index < n,
{
    word % n
}

impl RandomSource {
    /// The source that draws from the calling thread's own generator, which
    /// the operating system seeds.
    pub fn ambient() -> (source: Self) {
        RandomSource { generator: Generator::Thread(thread_generator()) }
    }

    /// A source that draws from a generator made from `seed`.
    pub fn seeded(seed: u64) -> (source: Self) {
        RandomSource { generator: Generator::Seeded(seeded_generator(seed)) }
    }

    /// Draws the next random machine word.
    pub fn next_word(&mut self) -> (word: usize) {
        match &mut self.generator {
            Generator::Thread(generator) => thread_word(generator),
            Generator::Seeded(generator) => seeded_word(generator),
        }
    }

    /// Draws `count` random machine words.
    pub fn words(&mut self, count: usize) -> (words: Vec<usize>)
        ensures
            words@.len() == count,
    {
        let mut words: Vec<usize> = Vec::new();
        let mut drawn: usize = 0;
        while drawn < count
            invariant
                drawn <= count,
                words@.len() == drawn,
            decreases count - drawn,
        {
            let word: usize = self.next_word();
            words.push(word);
            drawn = drawn + 1;
        }
        words
    }
}

} // verus!
