//! The size-proportional funding schedule: a storage region must hold a
//! minimum balance determined by its byte size for it to persist.

use vstd::prelude::*;

verus! {

/// The host's deterministic funding schedule. A region of `size` bytes
/// must hold `base + per_byte * size`, saturated at the largest balance.
pub struct FundingSchedule {
    pub base: u64,
    pub per_byte: u64,
}

/// The minimum funding the schedule assigns to a region of `size` bytes.
pub open spec fn min_funding(s: FundingSchedule, size: nat) -> nat {
    if s.base + s.per_byte * size <= u64::MAX {
        (s.base + s.per_byte * size) as nat
    } else {
        u64::MAX as nat
    }
}

impl FundingSchedule {
    /// The minimum funding for a region of `size` bytes.
    pub fn minimum_funding(&self, size: usize) -> (r: u64)
        ensures
            r as nat == min_funding(*self, size as nat),
    {
        match self.per_byte.checked_mul(size as u64) {
            Some(m) => match self.base.checked_add(m) {
                Some(t) => t,
                None => u64::MAX,
            },
            None => {
                proof {
                    assert(self.base + self.per_byte * (size as nat) > u64::MAX);
                }
                u64::MAX
            },
        }
    }

    /// Monotonicity: a larger region never needs less funding.
    pub proof fn lemma_min_funding_monotonic(self, a: nat, b: nat)
        requires
            a <= b,
        ensures
            min_funding(self, a) <= min_funding(self, b),
    {
        let p = self.per_byte as int;
        assert(p * a <= p * b) by (nonlinear_arith)
            requires
                0 <= p,
                a <= b,
        ;
    }
}

} // verus!
