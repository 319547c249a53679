//! A small deterministic pseudo-random generator.
//!
//! Every node of a cluster must derive the same topology from the same
//! inputs, so the generator has to be a pure function of its 64-bit seed.
//! This is a 64-bit linear congruential generator with Knuth's MMIX
//! constants; its whole behaviour is pinned by `lcg_next_spec`, which makes
//! reproducibility a theorem rather than a property of a library.

use vstd::prelude::*;

verus! {

pub const LCG_MUL: u64 = 6364136223846793005;

pub const LCG_INC: u64 = 1442695040888963407;

/// One generator step: multiply, add, and keep the low 64 bits.
pub open spec fn lcg_next_spec(s: u64) -> u64 {
    (((s * LCG_MUL) + LCG_INC) % 0x1_0000_0000_0000_0000) as u64
}

pub struct Lcg64 {
    pub state: u64,
}

impl Lcg64 {
    pub fn seed_from_u64(seed: u64) -> (r: Lcg64)
        ensures
            r.state == seed,
    {
        Lcg64 { state: seed }
    }

    pub fn next_u64(&mut self) -> (r: u64)
        ensures
            final(self).state == lcg_next_spec(old(self).state),
            r == lcg_next_spec(old(self).state),
    {
        proof {
            assert((self.state as u128) * (LCG_MUL as u128) <= (u64::MAX as u128) * (
            LCG_MUL as u128)) by (nonlinear_arith)
                requires
                    self.state <= u64::MAX,
            ;
        }
        let wide: u128 = (self.state as u128) * (LCG_MUL as u128) + (LCG_INC as u128);
        let lo: u64 = (wide % 0x1_0000_0000_0000_0000u128) as u64;
        self.state = lo;
        return lo;
    }
}

} // verus!
