//! A deterministic, seedable pseudo-random source. It is used only for
//! small evaluation jitter and for seeding search instances, never for
//! correctness-critical decisions, and every value it produces is pinned
//! exactly by the contracts below.

use vstd::prelude::*;

verus! {

/// The multiplier of the mixing function, shared with position hashing.
pub const RNG_MULT: u64 = 0x243f6a8885a308d3;

/// One mixing round: fold the high bits down, then multiply.
pub open spec fn spec_mix_round(x: u64) -> u64 {
    vstd::wrapping::u64_specs::wrapping_mul(x ^ (x >> 37), RNG_MULT)
}

/// The value drawn from counter state `s`: a multiply followed by three
/// xor-shift-multiply rounds.
pub open spec fn spec_mix(s: u64) -> u64 {
    spec_mix_round(spec_mix_round(spec_mix_round(
        vstd::wrapping::u64_specs::wrapping_mul(s, RNG_MULT),
    )))
}

pub struct Rng {
    state: u64,
}

impl Rng {
    /// The current counter, visible to contracts only.
    pub closed spec fn spec_state(self) -> u64 {
        self.state
    }

    pub fn new(seed: u64) -> (r: Rng)
        ensures
            r.spec_state() == seed,
    {
        Rng { state: seed }
    }

    /// Generate a uniformly random u64: advance the counter and mix it.
    pub fn next_random(&mut self) -> (r: u64)
        ensures
            final(self).spec_state() == vstd::wrapping::u64_specs::wrapping_add(
                old(self).spec_state(),
                1,
            ),
            r == spec_mix(final(self).spec_state()),
    {
        let state = self.state.wrapping_add(1);
        self.state = state;
        let mut x = state.wrapping_mul(RNG_MULT);
        x = (x ^ (x >> 37)).wrapping_mul(RNG_MULT);
        x = (x ^ (x >> 37)).wrapping_mul(RNG_MULT);
        x = (x ^ (x >> 37)).wrapping_mul(RNG_MULT);
        x
    }

    /// Generate an approximately uniformly random u32 in `[0, max)`.
    pub fn generate_range(&mut self, max: u32) -> (r: u32)
        requires
            max > 0,
        ensures
            final(self).spec_state() == vstd::wrapping::u64_specs::wrapping_add(
                old(self).spec_state(),
                1,
            ),
            r == spec_mix(final(self).spec_state()) % (max as u64),
            r < max,
    {
        let v = self.next_random() % max as u64;
        proof {
            assert(v < 0x1_0000_0000 ==> v as u32 == v) by (bit_vector);
        }
        v as u32
    }
}

} // verus!
