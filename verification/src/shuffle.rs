//! Trusted interface to the `rand` crate, used only to reorder candidate
//! lists.

use vstd::prelude::*;
use rand::seq::SliceRandom;
use rand::SeedableRng;

verus! {

/// The order a seeded shuffle leaves a sequence in. A generator freshly
/// seeded from `seed` is deterministic, so the result depends on the
/// sequence and the seed alone.
pub uninterp spec fn shuffled(s: Seq<usize>, seed: u64) -> Seq<usize>;

/// Relies on `SliceRandom::shuffle` driven by `StdRng::seed_from_u64`:
/// reorders the elements in place, into the order determined by the seed.
#[verifier::external_body]
pub fn shuffle_seeded(v: &mut Vec<usize>, seed: u64)
    ensures
        final(v)@ == shuffled(old(v)@, seed),
        final(v)@.to_multiset() == old(v)@.to_multiset(),
        final(v)@.len() == old(v)@.len(),
{
    v.shuffle(&mut rand::rngs::StdRng::seed_from_u64(seed));
}

/// Relies on `SliceRandom::shuffle` driven by `rand::thread_rng`: reorders
/// the elements in place; the order depends on the thread-local generator,
/// so only the permutation itself is known.
#[verifier::external_body]
pub fn shuffle_random(v: &mut Vec<usize>)
    ensures
        final(v)@.to_multiset() == old(v)@.to_multiset(),
        final(v)@.len() == old(v)@.len(),
{
    v.shuffle(&mut rand::thread_rng());
}

} // verus!
