use vstd::prelude::*;
use vstd::arithmetic::div_mod::lemma_mod_bound;

verus! {

/// Multiplier of the 64-bit linear congruential step.
pub const LCG_MUL: u64 = 6364136223846793005;

/// Increment of the 64-bit linear congruential step.
pub const LCG_INC: u64 = 1442695040888963407;

/// An explicit, seedable pseudo-random generator. The grid sampler takes it
/// as a parameter, so a fixed seed reproduces the same grid on every run.
pub struct StepRng {
    pub state: u64,
}

impl StepRng {
    /// The successor state of the linear congruential generator.
    pub open spec fn next_state_spec(s: u64) -> u64 {
        (((s as int) * (LCG_MUL as int) + (LCG_INC as int)) % 0x1_0000_0000_0000_0000) as u64
    }

    /// The value drawn from `[min, max)` while the state moves off `s`.
    pub open spec fn sample_spec(s: u64, min: u32, max: u32) -> u32 {
        let hi = (Self::next_state_spec(s) as int) / 0x2_0000_0000;
        (min + (hi % (max as int - min as int))) as u32
    }

    pub fn new(seed: u64) -> (r: StepRng)
        ensures
            r.state == seed,
    {
        StepRng { state: seed }
    }

    /// Advances the generator and returns a value in `[min, max)`.
    pub fn next_in(&mut self, min: u32, max: u32) -> (r: u32)
        requires
            min < max,
        ensures
            final(self).state == Self::next_state_spec(old(self).state),
            r == Self::sample_spec(old(self).state, min, max),
            min <= r < max,
    {
        proof {
            assert((self.state as int) * (LCG_MUL as int) <= 0xffff_ffff_ffff_ffff * (
            LCG_MUL as int)) by (nonlinear_arith)
                requires
                    0 <= self.state as int <= 0xffff_ffff_ffff_ffff;
        }
        let prod: u128 = (self.state as u128) * (LCG_MUL as u128) + (LCG_INC as u128);
        let next: u64 = (prod % 0x1_0000_0000_0000_0000u128) as u64;
        self.state = next;
        let hi: u32 = (next / 0x2_0000_0000u64) as u32;
        proof {
            lemma_mod_bound(hi as int, max as int - min as int);
        }
        min + hi % (max - min)
    }
}

} // verus!
