//! A small seeded generator, so that a collapse can be replayed.

use vstd::prelude::*;

verus! {

/// Increment of the generator's state at each draw.
pub const GOLDEN_GAMMA: u64 = 0x9e37_79b9_7f4a_7c15;

/// First multiplier of the output mix.
pub const MIX_A: u64 = 0xbf58_476d_1ce4_e5b9;

/// Second multiplier of the output mix.
pub const MIX_B: u64 = 0x94d0_49bb_1331_11eb;

/// State of the generator after one draw from state `s`.
pub open spec fn next_state(s: u64) -> u64 {
    s.wrapping_add(GOLDEN_GAMMA)
}

/// The number drawn when the generator moves to state `s`.
pub open spec fn mix(s: u64) -> u64 {
    let z1 = (s ^ (s >> 30u64)).wrapping_mul(MIX_A);
    let z2 = (z1 ^ (z1 >> 27u64)).wrapping_mul(MIX_B);
    z2 ^ (z2 >> 31u64)
}

/// A seeded source of pseudo-random numbers (SplitMix64). The same seed
/// always gives the same numbers, in the same order.
pub struct SeededRng {
    state: u64,
}

impl View for SeededRng {
    type V = u64;

    closed spec fn view(&self) -> u64 {
        self.state
    }
}

impl SeededRng {
    /// A generator that starts from `seed`.
    pub fn new(seed: u64) -> (r: SeededRng)
        ensures
            r@ == seed,
    {
        SeededRng { state: seed }
    }

    /// The next number of the sequence.
    pub fn next_u64(&mut self) -> (r: u64)
        ensures
            final(self)@ == next_state(old(self)@),
            r == mix(next_state(old(self)@)),
    {
        self.state = self.state.wrapping_add(GOLDEN_GAMMA);
        let s = self.state;
        let z1 = (s ^ (s >> 30u64)).wrapping_mul(MIX_A);
        let z2 = (z1 ^ (z1 >> 27u64)).wrapping_mul(MIX_B);
        z2 ^ (z2 >> 31u64)
    }
}

} // verus!
