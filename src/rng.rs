use vstd::arithmetic::div_mod::lemma_add_mod_noop;
use vstd::prelude::*;

verus! {

pub const LCG_MULTIPLIER: u64 = 1664525;

pub const LCG_INCREMENT: u64 = 1013904223;

/// One step of the linear congruential generator, modulo 2^64.
pub open spec fn lcg_step(s: u64) -> u64 {
    ((s as int * LCG_MULTIPLIER as int + LCG_INCREMENT as int) % 0x1_0000_0000_0000_0000) as u64
}

/// The state after `n` steps from `s`.
pub open spec fn lcg_iter(s: u64, n: nat) -> u64
    decreases n,
{
    if n == 0 {
        s
    } else {
        lcg_step(lcg_iter(s, (n - 1) as nat))
    }
}

/// The state that follows `state`.
pub fn lcg_next(state: u64) -> (r: u64)
    ensures
        r == lcg_step(state),
{
    proof {
        lemma_add_mod_noop(
            state as int * LCG_MULTIPLIER as int,
            LCG_INCREMENT as int,
            0x1_0000_0000_0000_0000,
        );
    }
    state.wrapping_mul(LCG_MULTIPLIER).wrapping_add(LCG_INCREMENT)
}

/// Advances the state by one step and returns the new state reduced into `[0, max)`.
pub fn seeded_random(state: &mut u64, max: usize) -> (r: usize)
    requires
        max > 0,
    ensures
        *final(state) == lcg_step(*old(state)),
        r == *final(state) as int % max as int,
{
    *state = lcg_next(*state);
    (*state % (max as u64)) as usize
}

} // verus!
