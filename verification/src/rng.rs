//! Seeded randomness, through `rand`'s standard generator.
//!
//! The graph build draws waypoint candidates from a generator seeded
//! with a fixed constant; the next-hop choice draws one value from a
//! generator seeded per agent and tick.  The standard generator is a
//! fixed deterministic cipher, so both kinds of draw are pure functions
//! of the seed and of the draws made before them — which is what makes
//! the sampled layout reproducible and the hop choice a function of its
//! seed.  Both named results are tied to the generator of the `rand`
//! version this crate is built against; a future major version of
//! `rand` may replace the algorithm, and with it the values the names
//! stand for.

use vstd::prelude::*;

use rand::Rng;
use rand::SeedableRng;

verus! {

#[verifier::external_type_specification]
#[verifier::external_body]
pub struct ExStdRng(rand::rngs::StdRng);

/// The value in `0..100` that `rand`'s standard generator, freshly seeded
/// with `seed`, yields on its first draw.  The generator is the ChaCha
/// block cipher with 12 rounds, a fixed deterministic algorithm, so this
/// is a function of the seed alone.
pub uninterp spec fn seeded_roll(seed: u64) -> u64;

/// The value a generator seeded with `seed` yields when it has already
/// drawn once for each half-open range in `history`, in that order, and
/// now draws from `lo..hi`.  Seeding and drawing are deterministic, so
/// the value is a function of these arguments alone.
pub uninterp spec fn ranged_stream(seed: u64, history: Seq<(i64, i64)>, lo: i64, hi: i64) -> i64;

/// Relies on `rand::rngs::StdRng::seed_from_u64`: deterministically
/// expands a 64-bit seed into a generator state.
#[verifier::external_body]
pub fn rng_from_seed(seed: u64) -> (rng: rand::rngs::StdRng) {
    rand::rngs::StdRng::seed_from_u64(seed)
}

/// A seeded generator together with the record of every range it has
/// drawn from, so each successive draw is pinned to [`ranged_stream`].
pub struct SeededSampler {
    inner: rand::rngs::StdRng,
    seed: Ghost<u64>,
    history: Ghost<Seq<(i64, i64)>>,
}

impl SeededSampler {
    /// The seed this sampler was created from.
    pub closed spec fn spec_seed(&self) -> u64 {
        self.seed@
    }

    /// The ranges drawn from so far, in order.
    pub closed spec fn spec_history(&self) -> Seq<(i64, i64)> {
        self.history@
    }

    /// A fresh sampler that has drawn nothing yet.
    pub fn new(seed: u64) -> (r: SeededSampler)
        ensures
            r.spec_seed() == seed,
            r.spec_history() == Seq::<(i64, i64)>::empty(),
    {
        SeededSampler {
            inner: rng_from_seed(seed),
            seed: Ghost(seed),
            history: Ghost(Seq::empty()),
        }
    }

    /// Relies on `rand::Rng::gen_range` over a half-open integer range:
    /// the result lies in the range and, the generator being
    /// deterministic, equals [`ranged_stream`] of the seed and the draw
    /// history; the call panics only on an empty range, which the
    /// precondition rules out.
    #[verifier::external_body]
    pub fn draw(&mut self, lo: i64, hi: i64) -> (v: i64)
        requires
            lo < hi,
        ensures
            final(self).spec_seed() == old(self).spec_seed(),
            final(self).spec_history() == old(self).spec_history().push((lo, hi)),
            v == ranged_stream(old(self).spec_seed(), old(self).spec_history(), lo, hi),
            lo <= v < hi,
    {
        self.inner.gen_range(lo..hi)
    }
}

/// Relies on `StdRng::seed_from_u64` and `Rng::gen_range`: seeding the
/// deterministic standard generator and drawing once in `0..100` returns
/// [`seeded_roll`] of the seed, always below 100.
#[verifier::external_body]
pub fn roll_percent(seed: u64) -> (r: u64)
    ensures
        r == seeded_roll(seed),
        r < 100,
{
    let mut rng = rand::rngs::StdRng::seed_from_u64(seed);
    rng.gen_range(0u64..100u64)
}

} // verus!
