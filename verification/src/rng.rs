//! A small deterministic pseudo-random generator.
//!
//! A 48-bit linear congruential generator with the classic drand48
//! multiplier. The seed fully determines the stream, which makes every
//! generation run reproducible; callers that want fresh layouts pass a fresh
//! seed.

use vstd::prelude::*;

verus! {

/// The LCG modulus, two to the 48th.
pub const LCG_MOD: u64 = 0x1_0000_0000_0000;

/// A 48-bit linear congruential generator.
pub struct Lcg {
    pub state: u64,
}

impl Lcg {
    /// The state stays below the modulus.
    pub open spec fn wf(&self) -> bool {
        self.state < LCG_MOD
    }

    /// Seed a generator; only the low 48 bits of the seed matter.
    pub fn new(seed: u64) -> (r: Lcg)
        ensures
            r.wf(),
    {
        Lcg { state: seed % LCG_MOD }
    }

    /// Advance the state once.
    pub fn step(&mut self)
        requires
            old(self).wf(),
        ensures
            final(self).wf(),
    {
        let s = ((self.state as u128) * 25214903917u128 + 11u128) % (LCG_MOD as u128);
        self.state = s as u64;
    }

    /// A pseudo-random value below `n`.
    pub fn next_below(&mut self, n: usize) -> (r: usize)
        requires
            old(self).wf(),
            n >= 1,
        ensures
            final(self).wf(),
            r < n,
    {
        self.step();
        ((self.state >> 16) as usize) % n
    }
}

} // verus!
