//! A small deterministic pseudo-random generator (an additive-state,
//! multiply-xorshift mixer). Its exact step function is part of the
//! contracts, so every consumer is a pure function of its seed.

use vstd::prelude::*;

verus! {

pub const GOLD: u64 = 0x9E3779B97F4A7C15;

pub const MIX1: u64 = 0xBF58476D1CE4E5B9;

pub const MIX2: u64 = 0x94D049BB133111EB;

/// The state after one step.
pub open spec fn next_state(s: u64) -> u64 {
    vstd::wrapping::u64_specs::wrapping_add(s, GOLD)
}

/// The output drawn from a state.
pub open spec fn mix(s: u64) -> u64 {
    let z1 = vstd::wrapping::u64_specs::wrapping_mul(s ^ (s >> 30), MIX1);
    let z2 = vstd::wrapping::u64_specs::wrapping_mul(z1 ^ (z1 >> 27), MIX2);
    z2 ^ (z2 >> 31)
}

/// A seeded generator; equal seeds give equal output streams.
pub struct Prng {
    pub state: u64,
}

impl Prng {
    pub fn new(seed: u64) -> (r: Prng)
        ensures
            r.state == seed,
    {
        Prng { state: seed }
    }

    pub fn next_value(&mut self) -> (r: u64)
        ensures
            final (self).state == next_state(old(self).state),
            r == mix(final (self).state),
    {
        self.state = self.state.wrapping_add(GOLD);
        let z0 = self.state;
        let z1 = (z0 ^ (z0 >> 30)).wrapping_mul(MIX1);
        let z2 = (z1 ^ (z1 >> 27)).wrapping_mul(MIX2);
        z2 ^ (z2 >> 31)
    }

    /// A value drawn uniformly-at-implementation below `bound`.
    pub fn next_below(&mut self, bound: u64) -> (r: u64)
        requires
            bound > 0,
        ensures
            final (self).state == next_state(old(self).state),
            r == mix(final (self).state) % bound,
            r < bound,
    {
        let v = self.next_value();
        v % bound
    }
}

} // verus!
