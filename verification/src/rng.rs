//! The simulator's seeded generator.
//!
//! SplitMix64: tiny, fast, well-distributed, and the same seed produces the
//! same stream on every machine, forever.

use vstd::prelude::*;

verus! {

/// A deterministic, seedable generator (SplitMix64).
#[derive(Debug, Clone)]
pub struct Rng {
    state: u64,
}

/// The state behind `state`.
pub open spec fn next_state(state: u64) -> u64 {
    state.wrapping_add(0x9E37_79B9_7F4A_7C15)
}

/// The output of a state: two multiply-xorshift rounds and a final xorshift.
pub open spec fn mix(z: u64) -> u64 {
    let a = (z ^ (z >> 30)).wrapping_mul(0xBF58_476D_1CE4_E5B9);
    let b = (a ^ (a >> 27)).wrapping_mul(0x94D0_49BB_1331_11EB);
    b ^ (b >> 31)
}

/// The number drawn from a generator in `state`.
pub open spec fn draw(state: u64) -> u64 {
    mix(next_state(state))
}

impl Rng {
    /// The generator's state: it decides everything drawn from here on.
    pub closed spec fn state(&self) -> u64 {
        self.state
    }

    pub fn new(seed: u64) -> (r: Self)
        ensures
            r.state() == seed,
    {
        Rng { state: seed }
    }

    pub fn next_u64(&mut self) -> (r: u64)
        ensures
            r == draw(old(self).state()),
            final(self).state() == next_state(old(self).state()),
    {
        self.state = self.state.wrapping_add(0x9E37_79B9_7F4A_7C15);
        let z: u64 = self.state;
        let a: u64 = (z ^ (z >> 30)).wrapping_mul(0xBF58_476D_1CE4_E5B9);
        let b: u64 = (a ^ (a >> 27)).wrapping_mul(0x94D0_49BB_1331_11EB);
        b ^ (b >> 31)
    }

    /// Uniform-ish in `[0, n)`.
    pub fn below(&mut self, n: u64) -> (r: u64)
        requires
            n > 0,
        ensures
            r == draw(old(self).state()) % n,
            r < n,
            final(self).state() == next_state(old(self).state()),
    {
        self.next_u64() % n
    }

    /// True with probability `num`/`den`.
    pub fn chance(&mut self, num: u64, den: u64) -> (r: bool)
        requires
            den > 0,
        ensures
            r == (draw(old(self).state()) % den < num),
            final(self).state() == next_state(old(self).state()),
    {
        self.below(den) < num
    }
}

/// The generator steps through its states by a fixed odd number, so that no two
/// states lead to the same one.
pub proof fn law_states_do_not_meet(a: u64, b: u64)
    ensures
        a != b ==> next_state(a) != next_state(b),
        next_state(a) != a,
        next_state(0) == 0x9E37_79B9_7F4A_7C15,
{
}

/// A draw is the next state with its high bits folded into its low ones twice, by
/// 30 and by 27 bits with a multiplication behind each, and by 31 bits at the end.
pub proof fn law_draw_mixes_the_next_state(state: u64)
    ensures
        ({
            let z = state.wrapping_add(0x9E37_79B9_7F4A_7C15);
            let a = (z ^ (z >> 30)).wrapping_mul(0xBF58_476D_1CE4_E5B9);
            let b = (a ^ (a >> 27)).wrapping_mul(0x94D0_49BB_1331_11EB);
            draw(state) == b ^ (b >> 31)
        }),
{
}

} // verus!
