//! The injectable random source that seeds the clusterer: a u64 seed stands
//! for the whole stream, so fixed-seed runs are reproducible.

use vstd::prelude::*;

verus! {

/// The value drawn below `n` by a u64-seeded xoshiro256+ generator. The draw
/// is a function of the seed and the bound alone, so the same seed and bound
/// always pick the same value.
pub uninterp spec fn seeded_pick(seed: u64, n: u64) -> u64;

/// Relies on `rand_xoshiro::Xoshiro256Plus::seed_from_u64` and
/// `rand::Rng::gen_range`: the generator state is a function of the seed
/// alone, uniform sampling over `0..n` is deterministic arithmetic on that
/// state, and the sample lies below the bound. `gen_range` panics only on an
/// empty range, which `n > 0` rules out.
#[verifier::external_body]
pub(crate) fn draw_uniform(seed: u64, n: u64) -> (r: u64)
    requires
        n > 0,
    ensures
        r < n,
        r == seeded_pick(seed, n),
{
    let mut generator = <rand_xoshiro::Xoshiro256Plus as rand::SeedableRng>::seed_from_u64(seed);
    rand::Rng::gen_range(&mut generator, 0..n)
}

} // verus!
