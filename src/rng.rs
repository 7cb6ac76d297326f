//! A seedable xorshift generator of uniform 32-bit draws.
use vstd::prelude::*;

verus! {

/// The state that a zero seed is replaced with; a zero state would never change.
pub const FALLBACK_SEED: u64 = 0x9E3779B97F4A7C15;

/// One xorshift64 step (shifts 13, 7, 17).
pub open spec fn xorshift(s: u64) -> u64 {
    let a = s ^ (s << 13u64);
    let b = a ^ (a >> 7u64);
    b ^ (b << 17u64)
}

/// The state after `k` steps from `s`.
pub open spec fn state_after(s: u64, k: nat) -> u64
    decreases k,
{
    if k == 0 {
        s
    } else {
        xorshift(state_after(s, (k - 1) as nat))
    }
}

/// The draw made from state `s`: the upper half of the next state.
pub open spec fn draw_from(s: u64) -> u32 {
    (xorshift(s) >> 32u64) as u32
}

/// The starting state for a seed.
pub open spec fn seed_state(seed: u64) -> u64 {
    if seed == 0 {
        FALLBACK_SEED
    } else {
        seed
    }
}

/// A deterministic generator: the same seed gives the same draws.
pub struct Rng {
    state: u64,
}

impl View for Rng {
    type V = u64;

    closed spec fn view(&self) -> u64 {
        self.state
    }
}

impl Rng {
    /// A generator started from `seed` (a zero seed starts from `FALLBACK_SEED`).
    pub fn new(seed: u64) -> (r: Rng)
        ensures
            r@ == seed_state(seed),
    {
        let state = if seed == 0 {
            FALLBACK_SEED
        } else {
            seed
        };
        Rng { state }
    }

    /// The current state.
    pub fn state(&self) -> (r: u64)
        ensures
            r == self@,
    {
        self.state
    }

    /// A uniform 32-bit draw; read as `r / 2^32` it is a fraction of `[0, 1)`.
    pub fn next_u32(&mut self) -> (r: u32)
        ensures
            r == draw_from(old(self)@),
            final(self)@ == xorshift(old(self)@),
    {
        let s = self.state;
        let a = s ^ (s << 13u64);
        let b = a ^ (a >> 7u64);
        let n = b ^ (b << 17u64);
        self.state = n;
        (n >> 32u64) as u32
    }
}

} // verus!
