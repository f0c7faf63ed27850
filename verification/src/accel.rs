//! Shared surface of the acceleration structures: the light-selection
//! capability, the surface-closure response estimate it weighs lights
//! with, and the fixed-point probability scale.

use vstd::prelude::*;
use crate::bbox::BBox;
use crate::math::{Normal, Point, Vector};

verus! {

/// One unit of fixed-point probability: probabilities and random scalars
/// are fractions of this value.
pub const PDF_ONE: u64 = 0x1_0000_0000;

/// One unit of fixed-point cosine, for the solid-angle estimate.
pub const COS_ONE: i64 = 65536;

/// Largest total light energy a structure accepts; it keeps every weight
/// product inside `u128`.
pub const ENERGY_LIMIT: u64 = 0x100_0000_0000_0000;

/// Largest light coordinate magnitude; it keeps squared distances small
/// enough for the fixed-point cosine computation.
pub const LIGHT_COORD_LIMIT: i64 = 0x4000_0000;

/// One light as the samplers see it: a bound and a nonnegative energy
/// estimate.
#[derive(Clone, Copy, Debug, PartialEq, Eq, Structural)]
pub struct LightInfo {
    pub bound: BBox,
    pub energy: u64,
}

/// Whether a box lies inside the coordinate range the samplers accept.
pub open spec fn light_bound_ok(b: BBox) -> bool {
    &&& b.wf()
    &&& -LIGHT_COORD_LIMIT <= b.min.x <= LIGHT_COORD_LIMIT
    &&& -LIGHT_COORD_LIMIT <= b.min.y <= LIGHT_COORD_LIMIT
    &&& -LIGHT_COORD_LIMIT <= b.min.z <= LIGHT_COORD_LIMIT
    &&& -LIGHT_COORD_LIMIT <= b.max.x <= LIGHT_COORD_LIMIT
    &&& -LIGHT_COORD_LIMIT <= b.max.y <= LIGHT_COORD_LIMIT
    &&& -LIGHT_COORD_LIMIT <= b.max.z <= LIGHT_COORD_LIMIT
}

impl LightInfo {
    pub open spec fn wf(self) -> bool {
        light_bound_ok(self.bound)
    }
}

/// Whether a point is inside the coordinate range the samplers accept.
pub open spec fn light_point_ok(p: Point) -> bool {
    -LIGHT_COORD_LIMIT <= p.x <= LIGHT_COORD_LIMIT && -LIGHT_COORD_LIMIT <= p.y
        <= LIGHT_COORD_LIMIT && -LIGHT_COORD_LIMIT <= p.z <= LIGHT_COORD_LIMIT
}

/// A surface closure's cheap response estimate: the estimated summed
/// response toward a light subtending the given solid angle (as the
/// fixed-point cosine of its half angle), for use as an importance
/// weight.  The exec method must agree with the spec-level function so a
/// selection probability can be recomputed deterministically.
pub trait SurfaceClosure {
    spec fn spec_estimate(
        &self,
        inc: Vector,
        out: Vector,
        nor: Normal,
        cos_theta: i64,
    ) -> u32;

    fn estimate_eval_over_solid_angle(
        &self,
        inc: Vector,
        out: Vector,
        nor: Normal,
        cos_theta: i64,
    ) -> (r: u32)
        requires
            0 <= cos_theta <= COS_ONE,
        ensures
            r == self.spec_estimate(inc, out, nor, cos_theta),
    ;
}

/// A closure whose response is the same in every direction; the weight of
/// a light then reduces to its energy estimate.
#[derive(Clone, Copy, Debug)]
pub struct UniformClosure;

impl SurfaceClosure for UniformClosure {
    open spec fn spec_estimate(&self, inc: Vector, out: Vector, nor: Normal, cos_theta: i64) -> u32 {
        1u32
    }

    fn estimate_eval_over_solid_angle(
        &self,
        inc: Vector,
        out: Vector,
        nor: Normal,
        cos_theta: i64,
    ) -> (r: u32) {
        1
    }
}

/// The floor of the square root of a nonnegative integer.
pub open spec fn spec_isqrt(x: int) -> int {
    choose|r: int| 0 <= r && #[trigger] (r * r) <= x && x < (r + 1) * (r + 1)
}

/// A floor square root exists for every nonnegative integer.
pub proof fn lemma_isqrt_exists(x: int)
    requires
        x >= 0,
    ensures
        exists|r: int| 0 <= r && #[trigger] (r * r) <= x && x < (r + 1) * (r + 1),
    decreases x,
{
    if x == 0 {
        assert(0 * 0 <= 0 && 0 < (0 + 1) * (0 + 1)) by (nonlinear_arith);
    } else {
        lemma_isqrt_exists(x - 1);
        let r = choose|r: int| 0 <= r && #[trigger] (r * r) <= x - 1 && x - 1 < (r + 1) * (r + 1);
        if (r + 1) * (r + 1) <= x {
            assert((r + 1) * (r + 1) == x) by (nonlinear_arith)
                requires
                    x - 1 < (r + 1) * (r + 1) <= x,
            ;
            assert((r + 1) * (r + 1) <= x && x < (r + 2) * (r + 2)) by (nonlinear_arith)
                requires
                    (r + 1) * (r + 1) == x,
                    r >= 0,
            ;
        } else {
            assert(r * r <= x && x < (r + 1) * (r + 1));
        }
    }
}

/// The floor square root is unique.
pub proof fn lemma_isqrt_unique(x: int, a: int, b: int)
    requires
        0 <= a && a * a <= x && x < (a + 1) * (a + 1),
        0 <= b && b * b <= x && x < (b + 1) * (b + 1),
    ensures
        a == b,
{
    assert(a == b) by (nonlinear_arith)
        requires
            0 <= a && a * a <= x && x < (a + 1) * (a + 1),
            0 <= b && b * b <= x && x < (b + 1) * (b + 1),
    ;
}

/// Computes the floor square root of a 64-bit value by binary search.
pub fn isqrt(x: u64) -> (r: u64)
    ensures
        r * r <= x < (r + 1) * (r + 1),
        r == spec_isqrt(x as int),
{
    let mut lo: u64 = 0;
    let mut hi: u64 = 0x1_0000_0000;
    proof {
        assert((0x1_0000_0000u64 as int) * (0x1_0000_0000u64 as int) > x as int) by (nonlinear_arith)
            requires
                x <= 0xFFFF_FFFF_FFFF_FFFFu64,
        ;
    }
    while lo + 1 < hi
        invariant
            lo < hi <= 0x1_0000_0000,
            (lo as int) * (lo as int) <= x as int,
            (hi as int) * (hi as int) > x as int,
        decreases hi - lo,
    {
        let mid = lo + (hi - lo) / 2;
        proof {
            vstd::arithmetic::mul::lemma_mul_upper_bound(
                mid as int,
                0x1_0000_0000,
                mid as int,
                0x1_0000_0000,
            );
        }
        let sq: u128 = (mid as u128) * (mid as u128);
        if sq <= (x as u128) {
            lo = mid;
        } else {
            hi = mid;
        }
    }
    proof {
        assert((lo as int) * (lo as int) <= x as int);
        assert((x as int) < ((lo + 1) as int) * ((lo + 1) as int));
        lemma_isqrt_exists(x as int);
        lemma_isqrt_unique(x as int, lo as int, spec_isqrt(x as int));
    }
    lo
}

/// The capability both light samplers provide: pick one light from one
/// uniform scalar, returning its index, the exact fixed-point probability
/// of that pick, and a residual scalar for reuse; and give a cheap
/// aggregate energy estimate.
pub trait LightAccel {
    /// The structure's internal invariant.
    spec fn inv(&self) -> bool;

    /// The structure's aggregate energy estimate, at spec level.
    spec fn spec_energy(&self) -> int;

    fn select<C: SurfaceClosure>(
        &self,
        inc: Vector,
        pos: Point,
        nor: Normal,
        nor_g: Normal,
        sc: &C,
        time: u32,
        n: u64,
    ) -> (r: Option<(usize, u64, u64)>)
        requires
            self.inv(),
            n < PDF_ONE,
            light_point_ok(pos),
        ensures
            r is Some ==> (r->0).1 <= PDF_ONE && (r->0).2 < PDF_ONE,
            (r is None) <==> self.spec_energy() == 0,
    ;

    fn approximate_energy(&self) -> (r: u64)
        requires
            self.inv(),
        ensures
            r == self.spec_energy(),
    ;
}

} // verus!
