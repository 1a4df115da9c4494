//! A small deterministic pseudo-random number generator (SplitMix64).
use vstd::prelude::*;

verus! {

/// A seeded pseudo-random number generator; the same seed always yields the
/// same sequence of draws.
pub struct Random {
    state: u64,
}

/// The state after one draw.
pub open spec fn advance(state: u64) -> u64 {
    state.wrapping_add(0x9E37_79B9_7F4A_7C15u64)
}

/// The 64 output bits produced from a state.
pub open spec fn mix(state: u64) -> u64 {
    let z1 = (state ^ (state >> 30u64)).wrapping_mul(0xBF58_476D_1CE4_E5B9u64);
    let z2 = (z1 ^ (z1 >> 27u64)).wrapping_mul(0x94D0_49BB_1331_11EBu64);
    z2 ^ (z2 >> 31u64)
}

/// The integer in `[low, high]` drawn from `state`.
pub open spec fn draw(state: u64, low: i32, high: i32) -> int {
    low + (mix(advance(state)) as int) % (high - low + 1)
}

impl View for Random {
    type V = u64;

    closed spec fn view(&self) -> u64 {
        self.state
    }
}

impl Random {
    /// A generator seeded with `seed`.
    pub fn new(seed: u64) -> (r: Self)
        ensures
            r@ == seed,
    {
        Random { state: seed }
    }

    /// A pseudo-random integer uniformly picked in `[low, high]`.
    pub fn next_int(&mut self, low: i32, high: i32) -> (v: i32)
        requires
            low <= high,
        ensures
            final(self)@ == advance(old(self)@),
            v == draw(old(self)@, low, high),
            low <= v <= high,
    {
        self.state = self.state.wrapping_add(0x9E37_79B9_7F4A_7C15u64);
        let z = self.state;
        let z1 = (z ^ (z >> 30u64)).wrapping_mul(0xBF58_476D_1CE4_E5B9u64);
        let z2 = (z1 ^ (z1 >> 27u64)).wrapping_mul(0x94D0_49BB_1331_11EBu64);
        let bits = z2 ^ (z2 >> 31u64);
        let width = (high as i64 - low as i64 + 1) as u64;
        let offset = bits % width;
        (low as i64 + offset as i64) as i32
    }
}

} // verus!
