//! Numbers drawn from a seed.

use vstd::prelude::*;

verus! {

/// The generator after a step.
pub open spec fn stepped(state: u64) -> u64 {
    state.wrapping_add(0x9e37_79b9_7f4a_7c15)
}

/// The generator after some steps.
pub open spec fn spun(state: u64, n: nat) -> u64
    decreases n,
{
    if n == 0 {
        state
    } else {
        stepped(spun(state, (n - 1) as nat))
    }
}

/// The number that a state stands for.
pub open spec fn mixed(state: u64) -> u64 {
    let first = (state ^ (state >> 30u64)).wrapping_mul(0xbf58_476d_1ce4_e5b9);
    let second = (first ^ (first >> 27u64)).wrapping_mul(0x94d0_49bb_1331_11eb);
    second ^ (second >> 31u64)
}

/// The `n`th number drawn from a state.
pub open spec fn drawn(state: u64, n: nat) -> u64 {
    mixed(spun(state, n))
}

/// Two numbers side by side.
pub open spec fn wide(high: u64, low: u64) -> u128 {
    ((high as u128) << 64u128) | (low as u128)
}

/// Steps add up.
pub proof fn lemma_spun(state: u64, a: nat, b: nat)
    ensures
        spun(spun(state, a), b) == spun(state, a + b),
    decreases b,
{
    if b > 0 {
        lemma_spun(state, a, (b - 1) as nat);
    }
}

pub struct SplitMix64 {
    pub state: u64,
}

impl SplitMix64 {
    pub fn new(seed: u64) -> (random: SplitMix64)
        ensures
            random.state == seed,
    {
        SplitMix64 { state: seed }
    }

    pub fn next_u64(&mut self) -> (value: u64)
        ensures
            final(self).state == spun(old(self).state, 1),
            value == drawn(old(self).state, 1),
    {
        proof {
            reveal_with_fuel(spun, 2);
        }
        self.state = self.state.wrapping_add(0x9e37_79b9_7f4a_7c15);
        let mut value: u64 = self.state;
        value = (value ^ (value >> 30u64)).wrapping_mul(0xbf58_476d_1ce4_e5b9);
        value = (value ^ (value >> 27u64)).wrapping_mul(0x94d0_49bb_1331_11eb);
        value ^ (value >> 31u64)
    }

    pub fn next_u128(&mut self) -> (value: u128)
        ensures
            final(self).state == spun(old(self).state, 2),
            value == wide(drawn(old(self).state, 1), drawn(old(self).state, 2)),
    {
        let ghost start = self.state;
        let high: u64 = self.next_u64();
        let low: u64 = self.next_u64();
        proof {
            lemma_spun(start, 1, 1);
        }
        ((high as u128) << 64u128) | (low as u128)
    }
}

} // verus!
