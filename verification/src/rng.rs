//! A small deterministic pseudo-random generator (splitmix64).
//!
//! Every random choice the forest makes — cut selection and reservoir
//! priorities — is drawn from one explicitly-threaded state word seeded at
//! construction, never from ambient entropy, so identical seeds give
//! identical forests.

use vstd::prelude::*;

verus! {

/// The state word after one generator step.
pub open spec fn rng_next_state(s: u64) -> u64 {
    ((s + 0x9E3779B97F4A7C15) % 0x1_0000_0000_0000_0000) as u64
}

/// First mixing round of the output function.
pub open spec fn rng_mix1(z: u64) -> u64 {
    (((z ^ (z >> 30)) * 0xBF58476D1CE4E5B9) % 0x1_0000_0000_0000_0000) as u64
}

/// Second mixing round of the output function.
pub open spec fn rng_mix2(z: u64) -> u64 {
    (((z ^ (z >> 27)) * 0x94D049BB133111EB) % 0x1_0000_0000_0000_0000) as u64
}

/// The value one generator step emits from state `s`.
pub open spec fn rng_output(s: u64) -> u64 {
    let z = rng_mix2(rng_mix1(rng_next_state(s)));
    z ^ (z >> 31)
}

/// Advances the generator and returns the emitted word; both the new state
/// and the output are pinned, so every draw is a function of the seed.
pub fn rng_next(state: &mut u64) -> (r: u64)
    ensures
        *final(state) == rng_next_state(*old(state)),
        r == rng_output(*old(state)),
{
    let s2: u64 = ((*state as u128 + 0x9E3779B97F4A7C15u128)
        % 0x1_0000_0000_0000_0000u128) as u64;
    *state = s2;
    let z1: u64 = ((((s2 ^ (s2 >> 30)) as u128) * 0xBF58476D1CE4E5B9u128)
        % 0x1_0000_0000_0000_0000u128) as u64;
    let z2: u64 = ((((z1 ^ (z1 >> 27)) as u128) * 0x94D049BB133111EBu128)
        % 0x1_0000_0000_0000_0000u128) as u64;
    z2 ^ (z2 >> 31)
}

/// The wide word two consecutive draws from state `s` form.
pub open spec fn rng_wide_output(s: u64) -> u128 {
    ((rng_output(s) as u128) << 64) | (rng_output(rng_next_state(s)) as u128)
}

/// Draws a wide word from two generator steps and reduces it below `bound`.
pub fn rng_below128(state: &mut u64, bound: u128) -> (r: u128)
    requires
        bound > 0,
    ensures
        *final(state) == rng_next_state(rng_next_state(*old(state))),
        r == rng_wide_output(*old(state)) % bound,
        r < bound,
{
    let a = rng_next(state);
    let b = rng_next(state);
    let wide: u128 = ((a as u128) << 64) | (b as u128);
    wide % bound
}

} // verus!
