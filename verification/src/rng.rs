use vstd::prelude::*;
use rand::SeedableRng;
use rand::seq::SliceRandom;
use rand::seq::IndexedRandom;
use rand_distr::Distribution;
use rand_distr::Uniform;

verus! {

/// The permuted congruential generator that every generator draws from.
#[verifier::external_type_specification]
#[verifier::external_body]
pub struct ExPcg64(rand_pcg::Lcg128Xsl64);

/// The generator that `Pcg64::seed_from_u64` makes from `seed`: its state is
/// a fixed function of the seed alone, the same in every process and on
/// every machine.
pub uninterp spec fn seeded_pcg64(seed: u64) -> rand_pcg::Lcg128Xsl64;

/// Calls `Pcg64::seed_from_u64`: the generator whose state the seed fixes.
#[verifier::external_body]
fn rng_from_seed(seed: u64) -> (rng: rand_pcg::Lcg128Xsl64)
    ensures
        rng == seeded_pcg64(seed),
{
    rand_pcg::Lcg128Xsl64::seed_from_u64(seed)
}

/// Calls `Pcg64::from_os_rng`: a generator seeded from the operating system
/// (which panics when the operating system cannot supply a seed). Nothing is
/// stated of the result: it depends on the machine.
#[verifier::external_body]
fn rng_from_os() -> (rng: rand_pcg::Lcg128Xsl64) {
    rand_pcg::Lcg128Xsl64::from_os_rng()
}

/// The generator for an optional seed: reproducible with a seed, seeded from
/// the operating system without one.
pub fn make_rng(seed: Option<u64>) -> (rng: rand_pcg::Lcg128Xsl64)
    ensures
        seed matches Some(s) ==> rng == seeded_pcg64(s),
{
    match seed {
        Some(s) => rng_from_seed(s),
        None => rng_from_os(),
    }
}

/// The items after `SliceRandom::shuffle` and the generator's state after
/// it: the swaps the shuffle makes are drawn from the generator, so both are
/// fixed by the items and the generator's state before the call.
pub uninterp spec fn shuffle_outcome(items: Seq<usize>, rng: rand_pcg::Lcg128Xsl64) -> (
    Seq<usize>,
    rand_pcg::Lcg128Xsl64,
);

/// The index drawn by `Uniform::new(0, bound)` sampled once, and the
/// generator's state after the draw: both fixed by `bound` and the state
/// before.
pub uninterp spec fn uniform_outcome(bound: usize, rng: rand_pcg::Lcg128Xsl64) -> (
    usize,
    rand_pcg::Lcg128Xsl64,
);

/// The item that `IndexedRandom::choose` returns and the generator's state
/// after the draw: both fixed by the items and the state before.
pub uninterp spec fn choose_outcome(items: Seq<usize>, rng: rand_pcg::Lcg128Xsl64) -> (
    usize,
    rand_pcg::Lcg128Xsl64,
);

/// Calls `SliceRandom::shuffle` on the vector: it is left a permutation of
/// what it held (same multiset of items), in the order that the generator's
/// state picks (`shuffle_outcome`).
#[verifier::external_body]
pub(crate) fn shuffle_usize(v: &mut Vec<usize>, rng: &mut rand_pcg::Lcg128Xsl64)
    ensures
        final(v)@.to_multiset() == old(v)@.to_multiset(),
        (final(v)@, *final(rng)) == shuffle_outcome(old(v)@, *old(rng)),
{
    v.shuffle(rng)
}

/// Calls `Uniform::new(0, bound)`, which succeeds for a nonempty range and
/// draws nothing, then `Distribution::sample` once: some index below `bound`.
#[verifier::external_body]
pub(crate) fn random_below(bound: usize, rng: &mut rand_pcg::Lcg128Xsl64) -> (r: usize)
    requires
        bound > 0,
    ensures
        r < bound,
        (r, *final(rng)) == uniform_outcome(bound, *old(rng)),
{
    Uniform::new(0, bound).unwrap().sample(rng)
}

/// Calls `IndexedRandom::choose` on a nonempty vector: one of its items,
/// the one that the generator's state picks (`choose_outcome`).
#[verifier::external_body]
pub(crate) fn choose_item(v: &Vec<usize>, rng: &mut rand_pcg::Lcg128Xsl64) -> (r: usize)
    requires
        v.len() > 0,
    ensures
        v@.contains(r),
        (r, *final(rng)) == choose_outcome(v@, *old(rng)),
{
    *v.choose(rng).unwrap()
}

} // verus!
