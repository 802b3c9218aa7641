//! Randomness: one generator per phase, seeded or fresh.
//!
//! The generator itself comes from the `rand` crate. Nothing is proved of the
//! values it yields beyond what holds of every one of them: an index lies
//! below its bound, a shuffle permutes.

use crate::text::texts;
use rand::rngs::{StdRng, ThreadRng};
use rand::seq::SliceRandom;
use rand::Rng;
use rand::SeedableRng;
use vstd::prelude::*;

verus! {

/// `rand::rngs::StdRng`, the standard generator of the `rand` crate. Its
/// state is not looked into.
#[verifier::external_type_specification]
#[verifier::external_body]
pub struct ExStdRng(StdRng);

/// `StdRng::seed_from_u64`: a generator whose stream is fixed by `seed`.
/// Nothing is claimed of the generator.
#[verifier::external_body]
fn seeded_generator(seed: u64) -> StdRng {
    StdRng::seed_from_u64(seed)
}

/// `rand::rngs::ThreadRng`, the handle to the generator that `rand` keeps
/// for every thread and seeds from the operating system. Its state is not
/// looked into.
#[verifier::external_type_specification]
#[verifier::external_body]
pub struct ExThreadRng(ThreadRng);

/// `rand::rng`: the handle to the generator of this thread. Nothing is
/// claimed of it.
#[verifier::external_body]
fn thread_generator() -> ThreadRng {
    rand::rng()
}

/// `StdRng::from_rng`: a generator seeded with values drawn from `source`.
/// Nothing is claimed of the generator.
#[verifier::external_body]
fn generator_from(source: &mut ThreadRng) -> StdRng {
    StdRng::from_rng(source)
}

/// `Rng::random_range` on `0..bound`: the value lies in the range. The call
/// panics on an empty range, which `requires` leaves out.
#[verifier::external_body]
fn draw_below(rng: &mut StdRng, bound: usize) -> (index: usize)
    requires
        bound > 0,
    ensures
        index < bound,
{
    rng.random_range(0..bound)
}

/// `SliceRandom::shuffle`: the slice is rearranged by swaps of its own
/// elements, so it holds the same lines as before, each as often as before.
#[verifier::external_body]
fn shuffle_in_place(rng: &mut StdRng, lines: &mut Vec<String>)
    ensures
        texts(final(lines)@).to_multiset() == texts(old(lines)@).to_multiset(),
{
    lines.shuffle(rng)
}

/// The seed of the second phase: one more than the configured seed, wrapping
/// at the top of the range.
pub open spec fn next_seed(seed: u64) -> u64 {
    if seed == u64::MAX {
        0
    } else {
        (seed + 1) as u64
    }
}

/// The random source of one phase, with the seed it was made from.
pub struct Generator {
    rng: StdRng,
    seed: Option<u64>,
}

impl Generator {
    /// The seed this generator was made from; `None` for fresh entropy.
    pub closed spec fn seed_used(&self) -> Option<u64> {
        self.seed
    }

    /// A generator for `seed`, or one from fresh entropy where there is none.
    fn from_seed(seed: Option<u64>) -> (g: Generator)
        ensures
            g.seed_used() == seed,
    {
        let rng: StdRng = match seed {
            Some(s) => seeded_generator(s),
            None => {
                let mut source: ThreadRng = thread_generator();
                generator_from(&mut source)
            },
        };
        Generator { rng, seed }
    }

    /// The generator of the distribution phase: seeded with the configured
    /// seed itself.
    pub fn for_distribution(seed: Option<u64>) -> (g: Generator)
        ensures
            g.seed_used() == seed,
    {
        Generator::from_seed(seed)
    }

    /// The generator of the emission phase: seeded with the successor of the
    /// configured seed, so that the two phases never share a stream.
    pub fn for_emission(seed: Option<u64>) -> (g: Generator)
        ensures
            g.seed_used() == match seed {
                Some(s) => Some(next_seed(s)),
                None => None,
            },
    {
        match seed {
            Some(s) => Generator::from_seed(Some(s.wrapping_add(1))),
            None => Generator::from_seed(None),
        }
    }

    /// The seed this generator was made from.
    pub fn seed(&self) -> (seed: Option<u64>)
        ensures
            seed == self.seed_used(),
    {
        self.seed
    }

    /// Draws an index below `bound`.
    pub fn draw(&mut self, bound: usize) -> (index: usize)
        requires
            bound > 0,
        ensures
            index < bound,
            final(self).seed_used() == old(self).seed_used(),
    {
        draw_below(&mut self.rng, bound)
    }

    /// Permutes `lines` in place.
    pub fn shuffle(&mut self, lines: &mut Vec<String>)
        ensures
            texts(final(lines)@).to_multiset() == texts(old(lines)@).to_multiset(),
            final(self).seed_used() == old(self).seed_used(),
    {
        shuffle_in_place(&mut self.rng, lines)
    }
}

} // verus!
