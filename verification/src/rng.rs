//! A small deterministic generator for pivot selection.
//!
//! All randomness in this crate is drawn from an explicitly seeded generator
//! passed into every call that needs one, so the same inputs plus the same
//! seed reproduce identical outputs. No result's correctness depends on the
//! values drawn; they only steer pivot choices.

use vstd::prelude::*;

verus! {

/// One xorshift step; the whole generator is this pure function iterated.
pub open spec fn xorshift_step(x: u64) -> u64 {
    let a = x ^ (x << 13);
    let b = a ^ (a >> 7);
    b ^ (b << 17)
}

/// Replacement state for a zero seed, which xorshift would keep at zero.
pub const ZERO_SEED_STATE: u64 = 0x9E37_79B9_7F4A_7C15;

/// An explicitly seeded xorshift generator.
pub struct SeededRng {
    state: u64,
}

impl SeededRng {
    pub closed spec fn state_spec(&self) -> u64 {
        self.state
    }

    pub fn new(seed: u64) -> (r: SeededRng)
        ensures
            r.state_spec() == if seed == 0 { ZERO_SEED_STATE } else { seed },
    {
        SeededRng { state: if seed == 0 { ZERO_SEED_STATE } else { seed } }
    }

    pub fn next_u64(&mut self) -> (r: u64)
        ensures
            final(self).state_spec() == xorshift_step(old(self).state_spec()),
            r == final(self).state_spec(),
    {
        let a: u64 = self.state ^ (self.state << 13);
        let b: u64 = a ^ (a >> 7);
        let c: u64 = b ^ (b << 17);
        self.state = c;
        c
    }

    /// Draws a value below `n`, deterministically from the current state.
    pub fn below(&mut self, n: usize) -> (r: usize)
        requires
            n > 0,
        ensures
            r < n,
            final(self).state_spec() == xorshift_step(old(self).state_spec()),
            r == xorshift_step(old(self).state_spec()) as int % n as int,
    {
        let x = self.next_u64();
        let m: u64 = x % (n as u64);
        assert(m < n as u64);
        m as usize
    }
}

} // verus!
