//! Deterministic pseudo-random numbers for bomb placement.

use vstd::prelude::*;

verus! {

/// A small linear congruential generator over 64-bit state.
///
/// The source of randomness is injected into field generation as an
/// explicit seed, so identical seeds reproduce identical fields. Nothing
/// is promised about the values drawn beyond their range: the placement
/// contracts hold for every draw.
pub struct SeededRng {
    state: u64,
}

/// Multiplier of the linear congruential step.
pub const LCG_MULTIPLIER: u64 = 6364136223846793005;

/// Increment of the linear congruential step.
pub const LCG_INCREMENT: u64 = 1442695040888963407;

impl SeededRng {
    /// Starts a generator from a caller-chosen seed.
    pub fn new(seed: u64) -> SeededRng {
        SeededRng { state: seed }
    }

    /// Draws the next 64-bit value.
    pub fn next_u64(&mut self) -> u64 {
        self.state = self.state.wrapping_mul(LCG_MULTIPLIER).wrapping_add(LCG_INCREMENT);
        self.state
    }

    /// Draws a value below `bound`.
    pub fn next_below(&mut self, bound: u64) -> (r: u64)
        requires
            bound > 0,
        ensures
            r < bound,
    {
        self.next_u64() % bound
    }
}

} // verus!
