//! The random draws that the simulation makes, each through `rand`'s seeded
//! standard generator. A generator remembers, as ghost state, the seed it
//! started from and the draws made from it so far; each draw's outcome is
//! named as a function of those, since the seeded stream is fixed.
use vstd::prelude::*;

use rand::rngs::StdRng;
use rand::seq::SliceRandom;
use rand::{Rng, RngCore, SeedableRng};

verus! {

/// `rand::rngs::StdRng`, the seeded generator that every random draw of a run uses.
#[verifier::external_type_specification]
#[verifier::external_body]
pub struct ExStdRng(StdRng);

/// One draw made from a generator: what it asked for.
#[derive(Debug, Clone, Copy)]
pub enum Draw {
    /// A 64-bit word.
    Word,
    /// A value in `low..=high`.
    Between { low: u64, high: u64 },
    /// A shuffle of `len` ids.
    Shuffle { len: usize },
}

/// The word that a generator seeded with `seed` hands out after the draws `history`.
pub uninterp spec fn word_drawn(seed: u64, history: Seq<Draw>) -> u64;

/// The value in `low..=high` that a generator seeded with `seed` hands out
/// after the draws `history`.
pub uninterp spec fn value_drawn(seed: u64, history: Seq<Draw>, low: u64, high: u64) -> u64;

/// The order into which a generator seeded with `seed` shuffles `ids` after
/// the draws `history`.
pub uninterp spec fn order_drawn(seed: u64, history: Seq<Draw>, ids: Seq<u64>) -> Seq<u64>;

/// A seeded generator, with the seed it started from and the draws made from it.
pub struct Generator {
    rng: StdRng,
    seed: Ghost<u64>,
    history: Ghost<Seq<Draw>>,
}

/// Calls `StdRng::seed_from_u64`: a generator whose stream is fixed by `seed`.
/// Nothing is stated of the generator itself: `Generator` records the seed.
#[verifier::external_body]
fn seeded_rng(seed: u64) -> StdRng {
    StdRng::seed_from_u64(seed)
}

/// Calls `StdRng::clone`: a second generator that continues the same stream.
/// Nothing is stated of the copy itself: `Generator` records where it stands.
#[verifier::external_body]
fn clone_rng(rng: &StdRng) -> StdRng {
    rng.clone()
}

/// Calls `RngCore::next_u64` on the generator: the word is the one that the
/// generator's seed and past draws fix. The recorded draws are left for the
/// caller to extend.
#[verifier::external_body]
fn next_word(g: &mut Generator) -> (r: u64)
    ensures
        r == word_drawn(old(g).seed(), old(g).history()),
        final(g).seed() == old(g).seed(),
        final(g).history() == old(g).history(),
{
    g.rng.next_u64()
}

/// Calls `Rng::gen_range` on the inclusive range `low..=high`, which `rand`
/// refuses when it is empty; the result lies in the range and is the one that
/// the generator's seed and past draws fix. The recorded draws are left for
/// the caller to extend.
#[verifier::external_body]
fn draw_between(g: &mut Generator, low: u64, high: u64) -> (r: u64)
    requires
        low <= high,
    ensures
        low <= r <= high,
        r == value_drawn(old(g).seed(), old(g).history(), low, high),
        final(g).seed() == old(g).seed(),
        final(g).history() == old(g).history(),
{
    g.rng.gen_range(low..=high)
}

/// Calls `SliceRandom::shuffle` on the ids: a permutation of them, in the
/// order that the generator's seed and past draws fix. The recorded draws are
/// left for the caller to extend.
#[verifier::external_body]
fn shuffle_ids(ids: &mut Vec<u64>, g: &mut Generator)
    ensures
        final(ids)@.to_multiset() == old(ids)@.to_multiset(),
        final(ids)@ == order_drawn(old(g).seed(), old(g).history(), old(ids)@),
        final(g).seed() == old(g).seed(),
        final(g).history() == old(g).history(),
{
    ids.shuffle(&mut g.rng)
}

impl Generator {
    /// The seed the generator started from.
    pub closed spec fn seed(&self) -> u64 {
        self.seed@
    }

    /// The draws made from the generator so far, in order.
    pub closed spec fn history(&self) -> Seq<Draw> {
        self.history@
    }

    /// A generator seeded with `seed`, with no draws made yet.
    pub fn new(seed: u64) -> (g: Self)
        ensures
            g.seed() == seed,
            g.history() == Seq::<Draw>::empty(),
    {
        Generator { rng: seeded_rng(seed), seed: Ghost(seed), history: Ghost(Seq::empty()) }
    }

    /// A second generator that continues from where this one stands.
    pub fn duplicate(&self) -> (g: Self)
        ensures
            g.seed() == self.seed(),
            g.history() == self.history(),
    {
        Generator { rng: clone_rng(&self.rng), seed: Ghost(self.seed@), history: Ghost(self.history@) }
    }

    /// Draws a 64-bit word.
    pub fn word(&mut self) -> (r: u64)
        ensures
            r == word_drawn(old(self).seed(), old(self).history()),
            final(self).seed() == old(self).seed(),
            final(self).history() == old(self).history().push(Draw::Word),
    {
        let r = next_word(self);
        self.history = Ghost(self.history@.push(Draw::Word));
        r
    }

    /// Draws a value in `low..=high`.
    pub fn between(&mut self, low: u64, high: u64) -> (r: u64)
        requires
            low <= high,
        ensures
            low <= r <= high,
            r == value_drawn(old(self).seed(), old(self).history(), low, high),
            final(self).seed() == old(self).seed(),
            final(self).history() == old(self).history().push(Draw::Between { low, high }),
    {
        let r = draw_between(self, low, high);
        self.history = Ghost(self.history@.push(Draw::Between { low, high }));
        r
    }

    /// Shuffles `ids`.
    pub fn shuffle(&mut self, ids: &mut Vec<u64>)
        ensures
            final(ids)@.to_multiset() == old(ids)@.to_multiset(),
            final(ids)@ == order_drawn(old(self).seed(), old(self).history(), old(ids)@),
            final(self).seed() == old(self).seed(),
            final(self).history() == old(self).history().push(Draw::Shuffle { len: old(ids)@.len() as usize }),
    {
        let len = ids.len();
        shuffle_ids(ids, self);
        self.history = Ghost(self.history@.push(Draw::Shuffle { len }));
    }
}

} // verus!
