//! The generator that a collapse draws from.
//!
//! The generator is `rand`'s `StdRng`. Nothing of it is proved here:
//! `fresh_seed`, `seeded` and `draw_below` say what is taken on trust from
//! it, in terms of three names that stand for what it computes.

use rand::rngs::StdRng;
use rand::{Rng, SeedableRng};
use vstd::prelude::*;

verus! {

/// `rand::rngs::StdRng`, of which nothing is seen but through the names below.
#[verifier::external_type_specification]
#[verifier::external_body]
pub struct ExStdRng(StdRng);

/// All that a generator's later output depends on, as a sequence of bytes.
pub uninterp spec fn state_of(rng: StdRng) -> Seq<u8>;

/// The state of the generator that `StdRng::seed_from_u64` makes from a seed.
pub uninterp spec fn seeded_state(seed: u64) -> Seq<u8>;

/// What `gen_range(0..bound)` gives on a generator in a given state: the
/// number drawn, and the state that the generator is left in.
pub uninterp spec fn drawn(state: Seq<u8>, bound: u64) -> (u64, Seq<u8>);

/// `rand::random::<u64>()`: a number from the thread's own generator, which
/// the system seeds. Nothing is known of it.
#[verifier::external_body]
pub(crate) fn fresh_seed() -> u64 {
    rand::random()
}

/// `StdRng::seed_from_u64`: the generator made from `seed`. Its state depends
/// on the seed alone.
#[verifier::external_body]
pub(crate) fn seeded(seed: u64) -> (rng: StdRng)
    ensures
        state_of(rng) == seeded_state(seed),
{
    StdRng::seed_from_u64(seed)
}

/// `Rng::gen_range(0..bound)` on a `StdRng`: a number below `bound`. The number
/// and the state afterwards depend on the state before and on `bound` alone.
/// An empty range makes `gen_range` panic, so `bound` is positive.
#[verifier::external_body]
pub(crate) fn draw_below(rng: &mut StdRng, bound: u64) -> (n: u64)
    requires
        bound > 0,
    ensures
        n < bound,
        n == drawn(state_of(*old(rng)), bound).0,
        state_of(*final(rng)) == drawn(state_of(*old(rng)), bound).1,
{
    rng.gen_range(0..bound)
}

/// A number below `bound`, drawn from `rng`, as an index.
pub(crate) fn draw_index(rng: &mut StdRng, bound: usize) -> (n: usize)
    requires
        bound > 0,
    ensures
        n < bound,
        n == drawn(state_of(*old(rng)), bound as u64).0,
        state_of(*final(rng)) == drawn(state_of(*old(rng)), bound as u64).1,
{
    draw_below(rng, bound as u64) as usize
}

} // verus!
