//! Deterministic pseudo-random source.
//!
//! The generator state is held as plain integers, so every draw is a
//! pure function of the state before the call.  That purity is what
//! the terrain laws build on: generating a map twice from one seed
//! walks the same sequence of draws.
use vstd::prelude::*;

verus! {

/// Result of advancing the PCG-32 generator once from the pair of
/// state and increment: the drawn value and the state after the draw.
pub uninterp spec fn pcg_next(state: u64, inc: u64) -> (u32, u64);

/// Generator state freshly seeded from `seed`.
pub uninterp spec fn pcg_seed_state(seed: u64) -> (u64, u64);

/// Result of drawing a value in `[lo, hi)` from the given state: the
/// drawn value and the state after the draw.
pub uninterp spec fn pcg_in_range(state: u64, inc: u64, lo: u32, hi: u32) -> (u32, u64);

/// A pseudo-random number generator with its state held as plain
/// values, so that two generators with equal fields draw equal values.
pub struct Pcg32 {
    pub state: u64,
    pub inc: u64,
}

impl Pcg32 {
    /// Relies on oorandom::Rand32::new and Rand32::state: seeding
    /// computes the initial state from the seed alone.
    #[verifier::external_body]
    pub fn new(seed: u64) -> (r: Pcg32)
        ensures
            r.state == pcg_seed_state(seed).0,
            r.inc == pcg_seed_state(seed).1,
    {
        let rng = oorandom::Rand32::new(seed);
        let (state, inc) = rng.state();
        Pcg32 { state, inc }
    }

    /// Relies on oorandom::Rand32::rand_u32: the drawn value and the
    /// state after the call are computed from the state before it.
    #[verifier::external_body]
    pub fn next_u32(&mut self) -> (r: u32)
        ensures
            r == pcg_next(old(self).state, old(self).inc).0,
            final(self).state == pcg_next(old(self).state, old(self).inc).1,
            final(self).inc == old(self).inc,
    {
        let mut rng = oorandom::Rand32::from_state((self.state, self.inc));
        let v = rng.rand_u32();
        let (state, _) = rng.state();
        self.state = state;
        v
    }

    /// Relies on oorandom::Rand32::rand_range: the result lies in
    /// `[lo, hi)` and, with the state after the call, is computed from
    /// the state before it.  The range must be non-empty.
    #[verifier::external_body]
    pub fn next_in_range(&mut self, lo: u32, hi: u32) -> (r: u32)
        requires
            lo < hi,
        ensures
            r == pcg_in_range(old(self).state, old(self).inc, lo, hi).0,
            final(self).state == pcg_in_range(old(self).state, old(self).inc, lo, hi).1,
            final(self).inc == old(self).inc,
            lo <= r < hi,
    {
        let mut rng = oorandom::Rand32::from_state((self.state, self.inc));
        let v = rng.rand_range(lo..hi);
        let (state, _) = rng.state();
        self.state = state;
        v
    }
}

} // verus!
