//! The deterministic random source behind every algorithm: a PCG-32
//! generator (`rand_pcg::Lcg64Xsh32`), built once per generation call
//! from an optional seed and threaded through the carving as a handle.
//!
//! The generator is a pure function of its state: drawing a value and
//! advancing the state depend on nothing but the state itself (and the
//! bounds asked for), which is what makes a seeded run reproducible.

use vstd::prelude::*;
use rand::Rng;
use rand::SeedableRng;
use rand_pcg::Lcg64Xsh32;

verus! {

#[verifier::external_type_specification]
#[verifier::external_body]
pub struct ExLcg64Xsh32(Lcg64Xsh32);

/// The generator that `Lcg64Xsh32::seed_from_u64` builds from a seed:
/// a pure function of the seed alone.
pub uninterp spec fn seeded_rng(seed: u64) -> Lcg64Xsh32;

/// The fair coin that `Rng::gen::<bool>` draws from a generator state:
/// the drawn bit and the advanced state, both pure functions of the
/// state alone.
pub uninterp spec fn coin_flip(rng: Lcg64Xsh32) -> (bool, Lcg64Xsh32);

/// The bounded draw that `Rng::gen_range(lo..hi)` makes from a generator
/// state: the drawn index and the advanced state, both computed from the
/// state and the two bounds alone (the arithmetic is done at the width
/// of `usize`, so the mapping is the one of this build's pointer width).
pub uninterp spec fn range_draw(rng: Lcg64Xsh32, lo: usize, hi: usize) -> (usize, Lcg64Xsh32);

/// Relies on rand's `SeedableRng::seed_from_u64` for `Lcg64Xsh32`:
/// the generator is computed from the seed alone, and rand documents
/// the mapping as value-stable.
#[verifier::external_body]
fn rng_from_seed(seed: u64) -> (r: Lcg64Xsh32)
    ensures
        r == seeded_rng(seed),
{
    Lcg64Xsh32::seed_from_u64(seed)
}

/// Relies on rand's `SeedableRng::from_entropy`: a generator seeded from
/// the operating system's entropy source. Nothing is promised of the
/// result; it aborts only if the operating system cannot supply entropy.
#[verifier::external_body]
fn rng_from_entropy() -> Lcg64Xsh32 {
    Lcg64Xsh32::from_entropy()
}

/// Relies on rand's `Rng::gen::<bool>`: one fair bit, read off the top
/// bit of the next 32-bit output, a pure function of the generator state.
#[verifier::external_body]
pub(crate) fn rng_coin(rng: &mut Lcg64Xsh32) -> (r: bool)
    ensures
        r == coin_flip(*old(rng)).0,
        *final(rng) == coin_flip(*old(rng)).1,
{
    rng.gen()
}

/// Relies on rand's `Rng::gen_range` on a half-open `usize` range: a
/// uniform draw in `[lo, hi)`, a pure function of the generator state and
/// the bounds. It panics on an empty range, so that range is excluded.
#[verifier::external_body]
pub(crate) fn rng_range(rng: &mut Lcg64Xsh32, lo: usize, hi: usize) -> (r: usize)
    requires
        lo < hi,
    ensures
        r == range_draw(*old(rng), lo, hi).0,
        *final(rng) == range_draw(*old(rng), lo, hi).1,
        lo <= r < hi,
{
    rng.gen_range(lo..hi)
}

/// Builds the generator for one generation call: seeded and reproducible
/// when a seed is given, seeded from fresh entropy when none is.
pub(crate) fn get_rng(seed: Option<u64>) -> (r: Lcg64Xsh32)
    ensures
        seed matches Some(s) ==> r == seeded_rng(s),
{
    match seed {
        Some(s) => rng_from_seed(s),
        None => rng_from_entropy(),
    }
}

} // verus!
