//! The seeded generator that drives a fill, and what is taken on trust about it.

use rand::rngs::StdRng;
use rand::RngCore;
use rand::SeedableRng;
use crate::fill::pick_spec;
use vstd::prelude::*;

verus! {

/// rand's `StdRng`, carried through as an opaque value.
#[verifier::external_type_specification]
#[verifier::external_body]
pub struct ExStdRng(StdRng);

/// What a generator holds: the word that `next_u64` hands out on the draw
/// after `k` earlier draws from the state `rng`. A generator's state alone
/// determines every word it will hand out.
pub uninterp spec fn upcoming(rng: StdRng, k: nat) -> u64;

/// The `k`-th word, counted from zero, that a generator made by
/// `seed_from_u64(seed)` hands out. It depends on the seed and on `k` alone.
pub uninterp spec fn seeded_word(seed: u64, k: nat) -> u64;

/// `StdRng::seed_from_u64` of rand. Trusted: the generator it returns hands out,
/// draw after draw, the stream that the seed alone determines.
#[verifier::external_body]
pub(crate) fn seeded_rng(seed: u64) -> (rng: StdRng)
    ensures
        forall|k: nat| upcoming(rng, k) == seeded_word(seed, k),
{
    StdRng::seed_from_u64(seed)
}

/// `RngCore::next_u64` on rand's `StdRng`. Trusted: it returns the next word of
/// the generator's stream and moves the generator past that word, so that what
/// was due after `k + 1` draws is now due after `k`. (Where `usize` has 64
/// bits, this word is also what `Rng::gen::<usize>()` returns.)
#[verifier::external_body]
pub(crate) fn next_word(rng: &mut StdRng) -> (word: u64)
    ensures
        word == upcoming(*old(rng), 0),
        forall|k: nat| upcoming(*final(rng), k) == upcoming(*old(rng), k + 1),
{
    rng.next_u64()
}

/// The choice that `word` makes among `count` options: its remainder.
pub fn pick(word: u64, count: usize) -> (r: usize)
    requires
        count > 0,
    ensures
        r == pick_spec(word, count as nat),
        r < count,
{
    (word % (count as u64)) as usize
}

} // verus!
