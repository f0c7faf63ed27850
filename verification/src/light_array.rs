//! Flat light selection for scenes with few lights: one pass of linear
//! weighted selection, with the exact selection probability returned as a
//! fixed-point fraction.

use vstd::prelude::*;
use crate::accel::{LightAccel, LightInfo, SurfaceClosure, ENERGY_LIMIT, PDF_ONE};
use crate::math::{Normal, Point, Vector};

verus! {

/// The summed energy of the lights at index `i` and after.
pub open spec fn suffix_energy(s: Seq<LightInfo>, i: int) -> int
    decreases s.len() - i,
{
    if 0 <= i < s.len() {
        s[i].energy + suffix_energy(s, i + 1)
    } else {
        0
    }
}

/// Suffix sums are never negative.
pub proof fn lemma_suffix_nonneg(s: Seq<LightInfo>, i: int)
    ensures
        suffix_energy(s, i) >= 0,
    decreases s.len() - i,
{
    if 0 <= i < s.len() {
        lemma_suffix_nonneg(s, i + 1);
    }
}

/// Suffix sums shrink as the suffix shrinks.
pub proof fn lemma_suffix_le(s: Seq<LightInfo>, i: int, j: int)
    requires
        0 <= i <= j,
    ensures
        0 <= suffix_energy(s, j) <= suffix_energy(s, i),
    decreases j - i,
{
    lemma_suffix_nonneg(s, j);
    if i < j {
        lemma_suffix_le(s, i + 1, j);
    }
}

/// The flat light sampler: a list of lights and their total energy.
pub struct LightArray {
    pub lights: Vec<LightInfo>,
    pub total: u64,
}

impl LightArray {
    pub open spec fn wf(self) -> bool {
        &&& self.total == suffix_energy(self.lights@, 0)
        &&& self.total <= ENERGY_LIMIT
        &&& forall|i: int| 0 <= i < self.lights@.len() ==> (#[trigger] self.lights@[i]).wf()
    }

    /// Gathers a flat sampler over the given lights.
    pub fn from_lights(lights: Vec<LightInfo>) -> (r: LightArray)
        requires
            suffix_energy(lights@, 0) <= ENERGY_LIMIT,
            forall|i: int| 0 <= i < lights@.len() ==> (#[trigger] lights@[i]).wf(),
        ensures
            r.wf(),
            r.lights@ == lights@,
            r.total == suffix_energy(lights@, 0),
    {
        let mut acc: u64 = 0;
        let mut i: usize = lights.len();
        while i > 0
            invariant
                i <= lights@.len(),
                acc == suffix_energy(lights@, i as int),
                suffix_energy(lights@, 0) <= ENERGY_LIMIT,
            decreases i,
        {
            proof {
                lemma_suffix_le(lights@, 0, i - 1);
            }
            i = i - 1;
            acc = acc + lights[i].energy;
        }
        LightArray { lights, total: acc }
    }

    /// Selects one light with probability proportional to its energy
    /// estimate, scanning cumulative weights from the last light down.
    /// Returns the light's index, the exact fixed-point probability of
    /// the pick, and the scalar's position inside the picked bucket as a
    /// fresh scalar; `None` exactly when no light can contribute.
    pub fn select(&self, n: u64) -> (r: Option<(usize, u64, u64)>)
        requires
            self.wf(),
            n < PDF_ONE,
        ensures
            (r is None) <==> self.total == 0,
            match r {
                Some(s) => {
                    &&& s.0 < self.lights@.len()
                    &&& suffix_energy(self.lights@, s.0 + 1) * PDF_ONE <= n * self.total
                        < suffix_energy(self.lights@, s.0 as int) * PDF_ONE
                    &&& s.1 == self.lights@[s.0 as int].energy * PDF_ONE / (self.total as int)
                    &&& s.2 == (n * self.total - suffix_energy(self.lights@, s.0 + 1) * PDF_ONE)
                        / (self.lights@[s.0 as int].energy as int)
                    &&& s.1 <= PDF_ONE
                    &&& s.2 < PDF_ONE
                },
                None => true,
            },
    {
        if self.total == 0 {
            return None;
        }
        proof {
            vstd::arithmetic::mul::lemma_mul_upper_bound(
                n as int,
                0x1_0000_0000,
                self.total as int,
                ENERGY_LIMIT as int,
            );
        }
        let n_scaled: u128 = (n as u128) * (self.total as u128);
        let mut acc: u64 = 0;
        let mut i: usize = self.lights.len();
        proof {
            vstd::arithmetic::mul::lemma_mul_inequality(
                n as int,
                0x1_0000_0000 - 1,
                self.total as int,
            );
        }
        while i > 0
            invariant
                self.wf(),
                self.total > 0,
                n < PDF_ONE,
                i <= self.lights@.len(),
                acc == suffix_energy(self.lights@, i as int),
                n_scaled == n * self.total,
                n_scaled >= acc * PDF_ONE,
            decreases i,
        {
            proof {
                lemma_suffix_le(self.lights@, 0, i - 1);
            }
            let w = self.lights[i - 1].energy;
            let acc2 = acc + w;
            proof {
                vstd::arithmetic::mul::lemma_mul_upper_bound(
                    acc2 as int,
                    ENERGY_LIMIT as int,
                    0x1_0000_0000,
                    0x1_0000_0000,
                );
                vstd::arithmetic::mul::lemma_mul_inequality(
                    acc as int,
                    acc2 as int,
                    0x1_0000_0000,
                );
            }
            if n_scaled < (acc2 as u128) * (PDF_ONE as u128) {
                i = i - 1;
                // The scalar fell into this light's bucket.
                proof {
                    assert(w >= 1) by {
                        if w == 0 {
                            assert(acc2 == acc);
                        }
                    }
                    vstd::arithmetic::mul::lemma_mul_upper_bound(
                        w as int,
                        self.total as int,
                        0x1_0000_0000,
                        0x1_0000_0000,
                    );
                    vstd::arithmetic::mul::lemma_mul_inequality(
                        w as int,
                        self.total as int,
                        0x1_0000_0000,
                    );
                    vstd::arithmetic::div_mod::lemma_div_is_ordered(
                        (w as int) * 0x1_0000_0000,
                        (self.total as int) * 0x1_0000_0000,
                        self.total as int,
                    );
                    vstd::arithmetic::div_mod::lemma_div_multiples_vanish(
                        0x1_0000_0000,
                        self.total as int,
                    );
                    assert((self.total as int) * 0x1_0000_0000 == (self.total as int)
                        * 0x1_0000_0000);
                }
                let pdf: u64 = (((w as u128) * (PDF_ONE as u128)) / (self.total as u128)) as u64;
                let offset: u128 = n_scaled - (acc as u128) * (PDF_ONE as u128);
                proof {
                    // The offset is inside the bucket, so the residual is a
                    // proper fraction again.
                    assert(offset < (w as int) * 0x1_0000_0000) by {
                        assert((acc2 as int) * 0x1_0000_0000 == (acc as int) * 0x1_0000_0000 + (
                        w as int) * 0x1_0000_0000) by (nonlinear_arith)
                            requires
                                acc2 == acc + w,
                        ;
                    }
                    vstd::arithmetic::div_mod::lemma_multiply_divide_lt(
                        offset as int,
                        w as int,
                        0x1_0000_0000,
                    );
                    vstd::arithmetic::div_mod::lemma_div_pos_is_pos(offset as int, w as int);
                }
                let resid: u64 = ((offset / (w as u128))) as u64;
                return Some((i, pdf, resid));
            }
            acc = acc2;
            i = i - 1;
        }
        // The scalar is below one, so some bucket above must have caught
        // it: this point is unreachable.
        proof {
            assert(n_scaled >= self.total * PDF_ONE);
            assert((n as int) * (self.total as int) < 0x1_0000_0000 * (self.total as int))
                by (nonlinear_arith)
                requires
                    n < 0x1_0000_0000,
                    self.total >= 1,
            ;
            assert(self.total * PDF_ONE == 0x1_0000_0000 * (self.total as int))
                by (nonlinear_arith);
            assert(false);
        }
        None
    }

    /// The total energy estimate of all lights.
    pub fn approximate_energy(&self) -> (r: u64)
        requires
            self.wf(),
        ensures
            r == suffix_energy(self.lights@, 0),
    {
        self.total
    }
}

impl LightAccel for LightArray {
    open spec fn inv(&self) -> bool {
        self.wf()
    }

    open spec fn spec_energy(&self) -> int {
        suffix_energy(self.lights@, 0)
    }

    fn select<C: SurfaceClosure>(
        &self,
        inc: Vector,
        pos: Point,
        nor: Normal,
        nor_g: Normal,
        sc: &C,
        time: u32,
        n: u64,
    ) -> (r: Option<(usize, u64, u64)>) {
        LightArray::select(self, n)
    }

    fn approximate_energy(&self) -> u64 {
        LightArray::approximate_energy(self)
    }
}

} // verus!
