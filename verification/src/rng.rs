use vstd::prelude::*;
use crate::fxp::SCALE;

verus! {

/// Multiplier of the linear congruential generator (Knuth's MMIX values).
pub const LCG_MUL: u64 = 6364136223846793005;

/// Increment of the linear congruential generator.
pub const LCG_INC: u64 = 1442695040888963407;

/// One step of the generator: multiply, add, keep the low 64 bits.
pub open spec fn lcg_next(s: u64) -> u64 {
    (((s as int) * (LCG_MUL as int) + (LCG_INC as int)) % 0x10000000000000000) as u64
}

/// The generator state after `k` steps from `s`.
pub open spec fn lcg_iter(s: u64, k: nat) -> u64
    decreases k,
{
    if k == 0 {
        s
    } else {
        lcg_next(lcg_iter(s, (k - 1) as nat))
    }
}

/// A raw draw folded into the symmetric interval `[-range, range]`.
pub open spec fn sample_in_range(r: u64, range: int) -> int {
    (r as int) % (2 * range + 1) - range
}

/// A deterministic pseudo-random generator: the same seed always yields the
/// same particle population.
#[derive(Clone, Copy, PartialEq, Eq, Structural, Debug)]
pub struct SimRng {
    pub state: u64,
}

impl SimRng {
    /// Start the generator from a seed.
    pub fn from_seed(seed: u64) -> (r: SimRng)
        ensures
            r.state == seed,
    {
        SimRng { state: seed }
    }

    /// Advance the generator one step and return the new raw state.
    pub fn next_raw(&mut self) -> (r: u64)
        ensures
            final(self).state == lcg_next(old(self).state),
            r == final(self).state,
    {
        proof {
            assert((self.state as u128) * (LCG_MUL as u128) <= 0xFFFFFFFFFFFFFFFFu128
                * 6364136223846793005u128) by (nonlinear_arith)
                requires
                    self.state <= 0xFFFFFFFFFFFFFFFFu64,
                    LCG_MUL == 6364136223846793005u64,
            ;
        }
        let wide: u128 = (self.state as u128) * (LCG_MUL as u128) + (LCG_INC as u128);
        let nxt: u64 = (wide % 0x10000000000000000u128) as u64;
        self.state = nxt;
        nxt
    }

    /// Draw a value in the symmetric interval `[-range, range]`.
    pub fn next_in_range(&mut self, range: i64) -> (v: i64)
        requires
            0 <= range <= SCALE,
        ensures
            final(self).state == lcg_next(old(self).state),
            v == sample_in_range(final(self).state, range as int),
            -range <= v <= range,
    {
        let r: u64 = self.next_raw();
        let m: u64 = (2 * range + 1) as u64;
        let folded: u64 = r % m;
        (folded as i64) - range
    }
}

} // verus!
