//! Seedable random source, threaded explicitly through generation and
//! behaviour so that a fixed seed reproduces a run exactly.
//!
//! The generator is a 64-bit linear congruential step whose outputs are
//! pinned down completely by the contracts: every draw is a function of the
//! state alone, which is what makes seeded generation deterministic.

use vstd::prelude::*;

verus! {

/// Multiplier of the congruential step.
pub const RNG_MUL: u64 = 6364136223846793005;

/// Increment of the congruential step.
pub const RNG_INC: u64 = 1442695040888963407;

/// The state that follows `s`.
pub open spec fn next_state(s: u64) -> u64 {
    s.wrapping_mul(RNG_MUL).wrapping_add(RNG_INC)
}

/// The value a state yields: its upper bits, which vary the most.
pub open spec fn state_output(s: u64) -> u64 {
    s >> 33
}

/// The number in `[lo, hi)` that a state yields.
pub open spec fn ranged(s: u64, lo: int, hi: int) -> int {
    lo + (state_output(s) % ((hi - lo) as u64)) as int
}

/// An explicit, seedable random source.
#[derive(Clone, Copy, Debug, PartialEq, Eq, Structural)]
pub struct Rng {
    pub state: u64,
}

impl Rng {
    pub fn new(seed: u64) -> (r: Rng)
        ensures
            r.state == next_state(seed),
    {
        Rng { state: seed.wrapping_mul(RNG_MUL).wrapping_add(RNG_INC) }
    }

    /// Advance the state once and return it.
    pub fn next(&mut self) -> (r: u64)
        ensures
            final(self).state == next_state(old(self).state),
            r == final(self).state,
    {
        self.state = self.state.wrapping_mul(RNG_MUL).wrapping_add(RNG_INC);
        self.state
    }

    /// A number in `[lo, hi)`, pinned down by the state.
    pub fn range_i32(&mut self, lo: i32, hi: i32) -> (r: i32)
        requires
            lo < hi,
        ensures
            final(self).state == next_state(old(self).state),
            r == ranged(final(self).state, lo as int, hi as int),
            lo <= r < hi,
    {
        let s = self.next();
        let span = (hi as i64 - lo as i64) as u64;
        let m = (s >> 33) % span;
        let r = (lo as i64 + m as i64) as i32;
        r
    }

    /// A number in `[lo, hi)`, pinned down by the state.
    pub fn range_u32(&mut self, lo: u32, hi: u32) -> (r: u32)
        requires
            lo < hi,
        ensures
            final(self).state == next_state(old(self).state),
            r == ranged(final(self).state, lo as int, hi as int),
            lo <= r < hi,
    {
        let s = self.next();
        let span = (hi - lo) as u64;
        let m = (s >> 33) % span;
        let r = lo + m as u32;
        r
    }

    /// An even-odds coin toss, pinned down by the state.
    pub fn coin(&mut self) -> (r: bool)
        ensures
            final(self).state == next_state(old(self).state),
            r == (state_output(final(self).state) % 2 == 0),
    {
        let s = self.next();
        (s >> 33) % 2 == 0
    }
}

} // verus!
