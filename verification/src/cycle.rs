//! The scheduling cycle's source of random numbers, chosen before the cycle
//! begins and handed in, so that a decision can be repeated from its inputs.

use vstd::prelude::*;

verus! {

/// A sequence of numbers determined by its seed.
#[derive(Clone, Debug)]
pub struct Rng {
    pub state: u64,
}

/// The state after one draw.
pub open spec fn stepped(state: u64) -> u64 {
    vstd::wrapping::u64_specs::wrapping_add(state, 0x9e37_79b9_7f4a_7c15)
}

/// The number drawn in a state.
pub open spec fn drawn(state: u64) -> u64 {
    let a = vstd::wrapping::u64_specs::wrapping_mul(state ^ (state >> 30), 0xbf58_476d_1ce4_e5b9);
    let b = vstd::wrapping::u64_specs::wrapping_mul(a ^ (a >> 27), 0x94d0_49bb_1331_11eb);
    b ^ (b >> 31)
}

impl Rng {
    pub fn new(seed: u64) -> (r: Self)
        ensures
            r.state == seed,
    {
        Rng { state: seed }
    }

    /// A number below `bound`.
    pub fn below(&mut self, bound: u64) -> (r: u64)
        requires
            bound > 0,
        ensures
            r < bound,
            final(self).state == stepped(old(self).state),
            r == drawn(stepped(old(self).state)) % bound,
    {
        self.state = self.state.wrapping_add(0x9e37_79b9_7f4a_7c15);
        let z: u64 = self.state;
        let a: u64 = (z ^ (z >> 30)).wrapping_mul(0xbf58_476d_1ce4_e5b9);
        let b: u64 = (a ^ (a >> 27)).wrapping_mul(0x94d0_49bb_1331_11eb);
        (b ^ (b >> 31)) % bound
    }
}

} // verus!
