//! The random draws of the sampler and the sequencer, taken from `rand`'s thread-local
//! generator. Nothing is promised of a draw beyond the range it lies in.
use crate::audio::AudioBuffer;
use rand::distributions::{Distribution, Uniform};
use rand::rngs::ThreadRng;
use rand::seq::SliceRandom;
use vstd::prelude::*;

verus! {

#[verifier::external_type_specification]
#[verifier::external_body]
pub struct ExThreadRng(rand::rngs::ThreadRng);

/// Relies on rand::thread_rng: a handle to the lazily seeded generator of this thread.
pub assume_specification[ rand::thread_rng ]() -> rand::rngs::ThreadRng;

/// Relies on rand's `Uniform::new(low, high)` (which panics unless `low < high`) and its
/// `sample`: a value of the half-open range `[low, high)`.
#[verifier::external_body]
pub(crate) fn draw_index(rng: &mut ThreadRng, low: usize, high: usize) -> (r: usize)
    requires
        low < high,
    ensures
        low <= r < high,
{
    Uniform::new(low, high).sample(rng)
}

/// Relies on rand's `Uniform::new(low, high)` (which panics unless `low < high`) and its
/// `sample`: a value of the half-open range `[low, high)`.
#[verifier::external_body]
pub(crate) fn draw_offset(rng: &mut ThreadRng, low: i64, high: i64) -> (r: i64)
    requires
        low < high,
    ensures
        low <= r < high,
{
    Uniform::new(low, high).sample(rng)
}

/// Relies on rand's `SliceRandom::shuffle`: a permutation of the grains, made by swaps.
#[verifier::external_body]
pub(crate) fn shuffle_grains(rng: &mut ThreadRng, grains: &mut Vec<AudioBuffer>)
    ensures
        final(grains)@.to_multiset() == old(grains)@.to_multiset(),
        final(grains)@.len() == old(grains)@.len(),
{
    grains.shuffle(rng)
}

/// Relies on rand's `SliceRandom::choose_multiple`: `min(amount, len)` elements taken at
/// distinct positions (drawn by `rand::seq::index::sample`), in no particular order.
#[verifier::external_body]
pub(crate) fn choose_positions(rng: &mut ThreadRng, positions: &Vec<usize>, amount: usize) -> (r:
    Vec<usize>)
    ensures
        r@.len() == if amount <= positions@.len() {
            amount as int
        } else {
            positions@.len() as int
        },
        r@.to_multiset().subset_of(positions@.to_multiset()),
{
    positions.choose_multiple(rng, amount).cloned().collect()
}

} // verus!
