//! The source of the random choices that shape a maze.
//!
//! The choices are drawn from the standard generator of the `rand` crate.
//! Which choice a draw makes is not described here. What is used of the
//! generator is that it is deterministic: a draw, and the state in which it
//! leaves the generator, are fixed by what is drawn from and by the state of
//! the generator before the draw.

use vstd::prelude::*;
use rand::rngs::StdRng;
use rand::seq::SliceRandom;
use rand::SeedableRng;
use crate::cell::CellIndex;

verus! {

#[verifier::external_type_specification]
#[verifier::external_body]
pub struct ExStdRng(StdRng);

/// What a generator holds: its internal state, as bytes.
pub uninterp spec fn generator_state(rng: StdRng) -> Seq<u8>;

/// The state of the generator that `StdRng::seed_from_u64` makes from a
/// seed.
pub uninterp spec fn seeded_state(seed: u64) -> Seq<u8>;

/// What `SliceRandom::choose` does on a slice of `count` items, `count`
/// above zero, with a generator in the given state: the index of the item
/// it chooses, and the state in which it leaves the generator.
pub uninterp spec fn choice_outcome(count: nat, state: Seq<u8>) -> (nat, Seq<u8>);

/// What `SliceRandom::shuffle` does on the given cells with a generator in
/// the given state: the cells in their new order, and the state in which it
/// leaves the generator.
pub uninterp spec fn shuffle_outcome(cells: Seq<CellIndex>, state: Seq<u8>) -> (
    Seq<CellIndex>,
    Seq<u8>,
);

/// The index chosen among `count` items by a generator in the given state.
pub open spec fn chosen_index(count: nat, state: Seq<u8>) -> nat {
    choice_outcome(count, state).0
}

/// The state of a generator after it has chosen among `count` items. Where
/// there is nothing to choose from, the generator is not used.
pub open spec fn state_after_choice(count: nat, state: Seq<u8>) -> Seq<u8> {
    if count == 0 {
        state
    } else {
        choice_outcome(count, state).1
    }
}

/// A stream of random choices.
pub struct RandomSource {
    rng: StdRng,
}

/// `StdRng::seed_from_u64`: a generator started from the given seed. Its
/// state is fixed by the seed.
#[verifier::external_body]
fn seeded_generator(seed: u64) -> (rng: StdRng)
    ensures
        generator_state(rng) == seeded_state(seed),
{
    StdRng::seed_from_u64(seed)
}

/// `StdRng::from_entropy`: a generator started from the entropy of the
/// operating system. Nothing is known of its state. On a system that has no
/// entropy to give the call does not return.
#[verifier::external_body]
fn entropy_generator() -> StdRng {
    StdRng::from_entropy()
}

/// `SliceRandom::choose` on the candidates: nothing if there is no
/// candidate, and the generator is then left as it was; else the candidate
/// at an index below their number. The index and the state in which the
/// generator is left are fixed by the number of candidates and by the state
/// of the generator before the call.
#[verifier::external_body]
fn choose_step(candidates: &Vec<[CellIndex; 2]>, rng: &mut StdRng) -> (step: Option<
    [CellIndex; 2],
>)
    ensures
        step is None <==> candidates@.len() == 0,
        candidates@.len() == 0 ==> generator_state(*final(rng)) == generator_state(*old(rng)),
        candidates@.len() > 0 ==> step == Some(
            candidates@[choice_outcome(candidates@.len(), generator_state(*old(rng))).0 as int],
        ) && choice_outcome(candidates@.len(), generator_state(*old(rng))).0 < candidates@.len(),
        candidates@.len() > 0 ==> generator_state(*final(rng)) == choice_outcome(
            candidates@.len(),
            generator_state(*old(rng)),
        ).1,
{
    candidates.choose(rng).copied()
}

/// `SliceRandom::shuffle` on the cells: the same cells, each as often as
/// before, in a new order. The order and the state in which the generator is
/// left are fixed by the cells and by the state of the generator before the
/// call.
#[verifier::external_body]
fn shuffle_cells(cells: &mut Vec<CellIndex>, rng: &mut StdRng)
    ensures
        final(cells)@.to_multiset() == old(cells)@.to_multiset(),
        final(cells)@ == shuffle_outcome(old(cells)@, generator_state(*old(rng))).0,
        generator_state(*final(rng)) == shuffle_outcome(old(cells)@, generator_state(*old(rng))).1,
{
    cells.shuffle(rng)
}

impl RandomSource {
    /// The state of the generator behind the source.
    pub closed spec fn state(&self) -> Seq<u8> {
        generator_state(self.rng)
    }

    /// A source that makes the same choices whenever it is started from the
    /// same seed.
    pub fn from_seed(seed: u64) -> (source: RandomSource)
        ensures
            source.state() == seeded_state(seed),
    {
        RandomSource { rng: seeded_generator(seed) }
    }

    /// A source started from the entropy of the operating system, which
    /// must have some to give.
    pub fn from_entropy() -> RandomSource {
        RandomSource { rng: entropy_generator() }
    }

    /// Picks one of the candidate moves, or nothing where there is none.
    pub fn pick(&mut self, candidates: &Vec<[CellIndex; 2]>) -> (step: Option<[CellIndex; 2]>)
        ensures
            step is None <==> candidates@.len() == 0,
            step matches Some(s) ==> candidates@.contains(s),
            candidates@.len() > 0 ==> {
                &&& chosen_index(candidates@.len(), old(self).state()) < candidates@.len()
                &&& step == Some(
                    candidates@[chosen_index(candidates@.len(), old(self).state()) as int],
                )
            },
            final(self).state() == state_after_choice(candidates@.len(), old(self).state()),
    {
        choose_step(candidates, &mut self.rng)
    }

    /// Puts the cells in a random order.
    pub fn shuffle(&mut self, cells: &mut Vec<CellIndex>)
        ensures
            final(cells)@.to_multiset() == old(cells)@.to_multiset(),
            final(cells)@ == shuffle_outcome(old(cells)@, old(self).state()).0,
            final(self).state() == shuffle_outcome(old(cells)@, old(self).state()).1,
    {
        shuffle_cells(cells, &mut self.rng)
    }
}

} // verus!
