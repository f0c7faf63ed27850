//! Axis-aligned bounding boxes with exact integer corners: union,
//! containment, conservative motion bounds over time samples, and an
//! exact rational ray-slab intersection test.

use vstd::prelude::*;
use crate::math::{coord_ok, Point, Vector, COORD_LIMIT};

verus! {

/// Number of time units in one frame: times are fixed-point fractions of
/// this value.
pub const TIME_ONE: u32 = 65536;

/// Largest numerator a ray's max-distance fraction may carry; it acts as
/// "no limit yet" when paired with denominator 1.
pub const MAX_T_NUM: i64 = 0x4000_0000_0000_0000;

/// An axis-aligned box between two corner points.
#[derive(Clone, Copy, Debug, PartialEq, Eq, Structural)]
pub struct BBox {
    pub min: Point,
    pub max: Point,
}

impl BBox {
    /// Corners are ordered on every axis and within the coordinate range.
    pub open spec fn wf(self) -> bool {
        self.min.wf() && self.max.wf() && self.min.x <= self.max.x && self.min.y <= self.max.y
            && self.min.z <= self.max.z
    }

    /// Creates a bounding box with the given minimum and maximum corners.
    pub fn from_points(minimum: Point, maximum: Point) -> (r: BBox)
        ensures
            r == (BBox { min: minimum, max: maximum }),
    {
        BBox { min: minimum, max: maximum }
    }

    /// The smallest box enclosing both boxes.
    pub open spec fn spec_union(self, o: BBox) -> BBox {
        BBox {
            min: Point {
                x: if self.min.x <= o.min.x {
                    self.min.x
                } else {
                    o.min.x
                },
                y: if self.min.y <= o.min.y {
                    self.min.y
                } else {
                    o.min.y
                },
                z: if self.min.z <= o.min.z {
                    self.min.z
                } else {
                    o.min.z
                },
            },
            max: Point {
                x: if self.max.x >= o.max.x {
                    self.max.x
                } else {
                    o.max.x
                },
                y: if self.max.y >= o.max.y {
                    self.max.y
                } else {
                    o.max.y
                },
                z: if self.max.z >= o.max.z {
                    self.max.z
                } else {
                    o.max.z
                },
            },
        }
    }

    /// Unites this box with another, in place semantics aside: returns the
    /// smallest box containing both.
    pub fn union(&self, o: &BBox) -> (r: BBox)
        ensures
            r == self.spec_union(*o),
    {
        BBox {
            min: Point {
                x: if self.min.x <= o.min.x {
                    self.min.x
                } else {
                    o.min.x
                },
                y: if self.min.y <= o.min.y {
                    self.min.y
                } else {
                    o.min.y
                },
                z: if self.min.z <= o.min.z {
                    self.min.z
                } else {
                    o.min.z
                },
            },
            max: Point {
                x: if self.max.x >= o.max.x {
                    self.max.x
                } else {
                    o.max.x
                },
                y: if self.max.y >= o.max.y {
                    self.max.y
                } else {
                    o.max.y
                },
                z: if self.max.z >= o.max.z {
                    self.max.z
                } else {
                    o.max.z
                },
            },
        }
    }

    /// Whether this box contains the other box entirely.
    pub open spec fn spec_contains_box(self, o: BBox) -> bool {
        self.min.x <= o.min.x && o.max.x <= self.max.x && self.min.y <= o.min.y && o.max.y
            <= self.max.y && self.min.z <= o.min.z && o.max.z <= self.max.z
    }

    pub fn contains_box(&self, o: &BBox) -> (r: bool)
        ensures
            r == self.spec_contains_box(*o),
    {
        self.min.x <= o.min.x && o.max.x <= self.max.x && self.min.y <= o.min.y && o.max.y
            <= self.max.y && self.min.z <= o.min.z && o.max.z <= self.max.z
    }

    /// Whether this box contains the given point.
    pub open spec fn spec_contains_point(self, p: Point) -> bool {
        self.min.x <= p.x <= self.max.x && self.min.y <= p.y <= self.max.y && self.min.z <= p.z
            <= self.max.z
    }

    pub fn contains_point(&self, p: Point) -> (r: bool)
        ensures
            r == self.spec_contains_point(p),
    {
        self.min.x <= p.x && p.x <= self.max.x && self.min.y <= p.y && p.y <= self.max.y
            && self.min.z <= p.z && p.z <= self.max.z
    }

    /// Twice the centroid coordinate on the given axis (kept doubled so it
    /// stays exact).
    pub open spec fn spec_centroid2(self, axis: u8) -> int {
        self.min.spec_axis(axis) + self.max.spec_axis(axis)
    }

    pub fn centroid2(&self, axis: u8) -> (r: i64)
        requires
            self.wf(),
        ensures
            r == self.spec_centroid2(axis),
    {
        self.min.axis(axis) + self.max.axis(axis)
    }
}

/// Union containment on each side: the union contains both operands, and
/// is contained in any box containing both.
pub broadcast proof fn lemma_union_bounds(a: BBox, b: BBox)
    ensures
        #[trigger] a.spec_union(b) == b.spec_union(a),
        a.spec_union(b).spec_contains_box(a),
        a.spec_union(b).spec_contains_box(b),
        a.wf() && b.wf() ==> a.spec_union(b).wf(),
{
}

/// Containment is transitive.
pub broadcast proof fn lemma_contains_trans(a: BBox, b: BBox, c: BBox)
    requires
        #[trigger] a.spec_contains_box(b),
        #[trigger] b.spec_contains_box(c),
    ensures
        a.spec_contains_box(c),
{
}

/// Containment of both operands gives containment of the union.
pub proof fn lemma_union_least(a: BBox, b: BBox, c: BBox)
    requires
        c.spec_contains_box(a),
        c.spec_contains_box(b),
    ensures
        c.spec_contains_box(a.spec_union(b)),
{
}

/// Whether every box of a sequence is well formed.
pub open spec fn boxes_wf(s: Seq<BBox>) -> bool {
    forall|i: int| 0 <= i < s.len() ==> (#[trigger] s[i]).wf()
}

/// Whether every time sample of one bounds sequence is well formed.
pub open spec fn samples_wf(s: Seq<BBox>) -> bool {
    1 <= s.len() <= TIME_ONE && forall|i: int| 0 <= i < s.len() ==> (#[trigger] s[i]).wf()
}

/// Samplewise containment of two equal-length bounds sequences.
pub open spec fn covers_samples(p: Seq<BBox>, c: Seq<BBox>) -> bool {
    p.len() == c.len() && forall|i: int|
        0 <= i < p.len() ==> (#[trigger] p[i]).spec_contains_box(c[i])
}

/// Samplewise containment is transitive.
pub proof fn lemma_covers_samples_trans(a: Seq<BBox>, b: Seq<BBox>, c: Seq<BBox>)
    requires
        covers_samples(a, b),
        covers_samples(b, c),
    ensures
        covers_samples(a, c),
{
    assert forall|i: int| 0 <= i < a.len() implies (#[trigger] a[i]).spec_contains_box(c[i]) by {
        lemma_contains_trans(a[i], b[i], c[i]);
    }
}

/// The samplewise union of two equal-length bounds sequences.
pub open spec fn spec_union_samples(a: Seq<BBox>, b: Seq<BBox>) -> Seq<BBox> {
    Seq::new(a.len(), |i: int| a[i].spec_union(b[i]))
}

/// Unites two equal-length time-sample sequences samplewise.
pub fn union_samples(a: &Vec<BBox>, b: &Vec<BBox>) -> (r: Vec<BBox>)
    requires
        a@.len() == b@.len(),
    ensures
        r@ == spec_union_samples(a@, b@),
        covers_samples(r@, a@),
        covers_samples(r@, b@),
{
    let mut r: Vec<BBox> = Vec::new();
    let mut i: usize = 0;
    while i < a.len()
        invariant
            i <= a@.len(),
            a@.len() == b@.len(),
            r@.len() == i,
            forall|j: int| 0 <= j < i ==> r@[j] == a@[j].spec_union(b@[j]),
        decreases a@.len() - i,
    {
        r.push(a[i].union(&b[i]));
        i = i + 1;
    }
    proof {
        assert(r@ =~= spec_union_samples(a@, b@));
        assert forall|j: int| 0 <= j < r@.len() implies (#[trigger] r@[j]).spec_contains_box(a@[j])
            && r@[j].spec_contains_box(b@[j]) by {
            lemma_union_bounds(a@[j], b@[j]);
        }
    }
    r
}

/// The index of the earlier of the two time samples that bracket the given
/// time.
pub open spec fn spec_sample_index(len: int, time: u32) -> int {
    if len <= 1 {
        0
    } else {
        (time * (len - 1)) / (TIME_ONE as int)
    }
}

/// The conservative box a bounds sequence occupies near the given time:
/// the union of the two samples that bracket it.
pub open spec fn spec_box_at_time(s: Seq<BBox>, time: u32) -> BBox {
    let i = spec_sample_index(s.len() as int, time);
    let j = if i + 1 < s.len() {
        i + 1
    } else {
        i
    };
    s[i].spec_union(s[j])
}

/// Returns the conservative box for the given time: the union of the two
/// bracketing time samples.
pub fn box_at_time(s: &Vec<BBox>, time: u32) -> (r: BBox)
    requires
        samples_wf(s@),
        time <= TIME_ONE,
    ensures
        r == spec_box_at_time(s@, time),
        r.wf(),
{
    let len = s.len();
    if len == 1 {
        let b = s[0];
        proof {
            lemma_union_bounds(b, b);
            assert(b.spec_union(b) =~= b);
        }
        b.union(&b)
    } else {
        proof {
            vstd::arithmetic::mul::lemma_mul_upper_bound(time as int, 65536, (len - 1) as int, 65535);
        }
        let prod: u64 = (time as u64) * ((len - 1) as u64);
        let i: usize = (prod >> 16u64) as usize;
        proof {
            assert(prod >> 16u64 == prod / 65536) by (bit_vector);
            vstd::arithmetic::mul::lemma_mul_inequality(
                time as int,
                65536,
                (len - 1) as int,
            );
            vstd::arithmetic::div_mod::lemma_div_is_ordered(
                prod as int,
                65536 * ((len - 1) as int),
                65536,
            );
            vstd::arithmetic::div_mod::lemma_div_multiples_vanish((len - 1) as int, 65536);
            assert(i < len);
            assert(i as int == spec_sample_index(s@.len() as int, time));
        }
        let j: usize = if i + 1 < len {
            i + 1
        } else {
            i
        };
        proof {
            lemma_union_bounds(s@[i as int], s@[j as int]);
        }
        s[i].union(&s[j])
    }
}

/// Samplewise containment carries over to the conservative time box.
pub proof fn lemma_box_at_time_covers(p: Seq<BBox>, c: Seq<BBox>, time: u32)
    requires
        covers_samples(p, c),
        p.len() >= 1,
        time <= TIME_ONE,
    ensures
        spec_box_at_time(p, time).spec_contains_box(spec_box_at_time(c, time)),
{
    let i = spec_sample_index(p.len() as int, time);
    let j = if i + 1 < p.len() {
        i + 1
    } else {
        i
    };
    if p.len() > 1 {
        vstd::arithmetic::mul::lemma_mul_inequality(time as int, 65536, p.len() - 1);
        vstd::arithmetic::div_mod::lemma_div_is_ordered(
            time * (p.len() - 1),
            65536 * (p.len() - 1),
            65536,
        );
        vstd::arithmetic::div_mod::lemma_div_multiples_vanish(p.len() - 1, 65536);
        vstd::arithmetic::div_mod::lemma_div_pos_is_pos(time * (p.len() - 1), 65536);
    }
    assert(0 <= i < p.len());
    let up = p[i].spec_union(p[j]);
    let uc = c[i].spec_union(c[j]);
    lemma_union_bounds(p[i], p[j]);
    lemma_union_bounds(c[i], c[j]);
    lemma_contains_trans(up, p[i], c[i]);
    lemma_contains_trans(up, p[j], c[j]);
    lemma_union_least(c[i], c[j], up);
}


/// Samplewise union is associative.
pub proof fn lemma_union_samples_assoc(a: Seq<BBox>, b: Seq<BBox>, c: Seq<BBox>)
    requires
        a.len() == b.len(),
        b.len() == c.len(),
    ensures
        spec_union_samples(spec_union_samples(a, b), c) == spec_union_samples(
            a,
            spec_union_samples(b, c),
        ),
{
    assert(spec_union_samples(spec_union_samples(a, b), c) =~= spec_union_samples(
        a,
        spec_union_samples(b, c),
    )) by {
        assert forall|i: int|
            0 <= i < a.len() implies #[trigger] spec_union_samples(spec_union_samples(a, b), c)[i]
            == spec_union_samples(a, spec_union_samples(b, c))[i] by {
            assert(a[i].spec_union(b[i]).spec_union(c[i]) == a[i].spec_union(
                b[i].spec_union(c[i]),
            ));
        }
    }
}

/// Fraction comparison: `an / ad <= bn / bd`, for positive denominators.
pub open spec fn frac_le(an: int, ad: int, bn: int, bd: int) -> bool {
    an * bd <= bn * ad
}

/// Fraction order is transitive for positive denominators.
pub proof fn lemma_frac_le_trans(an: int, ad: int, bn: int, bd: int, cn: int, cd: int)
    requires
        ad >= 1,
        bd >= 1,
        cd >= 1,
        frac_le(an, ad, bn, bd),
        frac_le(bn, bd, cn, cd),
    ensures
        frac_le(an, ad, cn, cd),
{
    assert(an * cd <= cn * ad) by (nonlinear_arith)
        requires
            ad >= 1,
            bd >= 1,
            cd >= 1,
            an * bd <= bn * ad,
            bn * cd <= cn * bd,
    ;
}

/// Whether the point `orig + (tn/td) * dir` lies between `mn` and `mx` on
/// one axis, written without division.
pub open spec fn axis_sat(o: int, d: int, mn: int, mx: int, tn: int, td: int) -> bool {
    mn * td <= o * td + tn * d && o * td + tn * d <= mx * td
}

/// Whether `tn / td` is a ray parameter at which the ray with the given
/// origin, direction and max-distance fraction is inside the box.
pub open spec fn spec_hit_at(
    bb: BBox,
    orig: Point,
    dir: Vector,
    mtn: int,
    mtd: int,
    tn: int,
    td: int,
) -> bool {
    td >= 1 && tn >= 0 && tn * mtd <= mtn * td && axis_sat(
        orig.x as int,
        dir.x as int,
        bb.min.x as int,
        bb.max.x as int,
        tn,
        td,
    ) && axis_sat(orig.y as int, dir.y as int, bb.min.y as int, bb.max.y as int, tn, td)
        && axis_sat(orig.z as int, dir.z as int, bb.min.z as int, bb.max.z as int, tn, td)
}

/// Whether some nonnegative rational ray parameter within the distance
/// limit places the ray inside the box.
pub open spec fn spec_ray_hits(bb: BBox, orig: Point, dir: Vector, mtn: int, mtd: int) -> bool {
    exists|tn: int, td: int| spec_hit_at(bb, orig, dir, mtn, mtd, tn, td)
}

/// On an axis with positive direction component the slab condition is the
/// fraction interval `[(mn-o)/d, (mx-o)/d]`.
proof fn lemma_axis_frac_pos(o: int, d: int, mn: int, mx: int, tn: int, td: int)
    requires
        d >= 1,
        td >= 1,
    ensures
        axis_sat(o, d, mn, mx, tn, td) <==> (frac_le(mn - o, d, tn, td) && frac_le(
            tn,
            td,
            mx - o,
            d,
        )),
{
    assert((mn - o) * td == mn * td - o * td) by (nonlinear_arith);
    assert((mx - o) * td == mx * td - o * td) by (nonlinear_arith);
}

/// On an axis with negative direction component the slab condition is the
/// fraction interval `[(o-mx)/(-d), (o-mn)/(-d)]`.
proof fn lemma_axis_frac_neg(o: int, d: int, mn: int, mx: int, tn: int, td: int)
    requires
        d <= -1,
        td >= 1,
    ensures
        axis_sat(o, d, mn, mx, tn, td) <==> (frac_le(o - mx, -d, tn, td) && frac_le(
            tn,
            td,
            o - mn,
            -d,
        )),
{
    assert((o - mx) * td == o * td - mx * td) by (nonlinear_arith);
    assert((o - mn) * td == o * td - mn * td) by (nonlinear_arith);
    assert(tn * -d == -(tn * d)) by (nonlinear_arith);
}

/// On an axis with zero direction component the slab condition is origin
/// membership alone.
proof fn lemma_axis_frac_zero(o: int, mn: int, mx: int, tn: int, td: int)
    requires
        td >= 1,
    ensures
        axis_sat(o, 0, mn, mx, tn, td) <==> (mn <= o <= mx),
{
    assert(tn * 0 == 0);
    if mn <= o <= mx {
        vstd::arithmetic::mul::lemma_mul_inequality(mn, o, td);
        vstd::arithmetic::mul::lemma_mul_inequality(o, mx, td);
        assert(mn * td == td * mn) by (nonlinear_arith);
        assert(o * td == td * o) by (nonlinear_arith);
        assert(mx * td == td * mx) by (nonlinear_arith);
    }
    if axis_sat(o, 0, mn, mx, tn, td) {
        assert(mn <= o <= mx) by (nonlinear_arith)
            requires
                td >= 1,
                mn * td <= o * td + tn * 0,
                o * td + tn * 0 <= mx * td,
        ;
    }
}

/// The product of two `i64`-sized values stays inside `i128`.
proof fn lemma_i64_mul_in_i128(a: int, b: int)
    requires
        -0x8000_0000_0000_0000 <= a <= 0x7FFF_FFFF_FFFF_FFFF,
        -0x8000_0000_0000_0000 <= b <= 0x7FFF_FFFF_FFFF_FFFF,
    ensures
        -0x8000_0000_0000_0000_0000_0000_0000_0000 <= a * b
            <= 0x7FFF_FFFF_FFFF_FFFF_FFFF_FFFF_FFFF_FFFF,
{
    assert(-0x8000_0000_0000_0000_0000_0000_0000_0000 <= a * b
        <= 0x7FFF_FFFF_FFFF_FFFF_FFFF_FFFF_FFFF_FFFF) by (nonlinear_arith)
        requires
            -0x8000_0000_0000_0000 <= a <= 0x7FFF_FFFF_FFFF_FFFF,
            -0x8000_0000_0000_0000 <= b <= 0x7FFF_FFFF_FFFF_FFFF,
    ;
}

/// Compares two fractions with positive denominators exactly.
pub fn frac_le_exec(an: i64, ad: i64, bn: i64, bd: i64) -> (r: bool)
    requires
        ad >= 1,
        bd >= 1,
    ensures
        r == frac_le(an as int, ad as int, bn as int, bd as int),
{
    proof {
        lemma_i64_mul_in_i128(an as int, bd as int);
        lemma_i64_mul_in_i128(bn as int, ad as int);
    }
    (an as i128) * (bd as i128) <= (bn as i128) * (ad as i128)
}

/// Intersects the running parameter interval `[ln/ld, hn/hd]` with the
/// slab interval of one axis.  `None` means no parameter can satisfy both.
#[verifier::rlimit(30)]
fn clip_axis(ln: i64, ld: i64, hn: i64, hd: i64, o: i64, d: i64, mn: i64, mx: i64) -> (r: Option<
    (i64, i64, i64, i64),
>)
    requires
        1 <= ld <= COORD_LIMIT,
        1 <= hd <= COORD_LIMIT,
        -MAX_T_NUM <= ln <= MAX_T_NUM,
        -MAX_T_NUM <= hn <= MAX_T_NUM,
        coord_ok(o),
        coord_ok(d),
        coord_ok(mn),
        coord_ok(mx),
    ensures
        match r {
            Some(v) => {
                &&& 1 <= v.1 <= COORD_LIMIT
                &&& 1 <= v.3 <= COORD_LIMIT
                &&& -MAX_T_NUM <= v.0 <= MAX_T_NUM
                &&& -MAX_T_NUM <= v.2 <= MAX_T_NUM
                &&& frac_le(ln as int, ld as int, v.0 as int, v.1 as int)
                &&& forall|tn: int, td: int|
                    td >= 1 ==> ((frac_le(v.0 as int, v.1 as int, tn, td) && frac_le(
                        tn,
                        td,
                        v.2 as int,
                        v.3 as int,
                    )) <==> (frac_le(ln as int, ld as int, tn, td) && frac_le(
                        tn,
                        td,
                        hn as int,
                        hd as int,
                    ) && axis_sat(o as int, d as int, mn as int, mx as int, tn, td)))
            },
            None => forall|tn: int, td: int|
                td >= 1 ==> !(frac_le(ln as int, ld as int, tn, td) && frac_le(
                    tn,
                    td,
                    hn as int,
                    hd as int,
                ) && axis_sat(o as int, d as int, mn as int, mx as int, tn, td)),
        },
{
    if d == 0 {
        if o < mn || o > mx {
            proof {
                assert forall|tn: int, td: int| td >= 1 implies !axis_sat(
                    o as int,
                    0,
                    mn as int,
                    mx as int,
                    tn,
                    td,
                ) by {
                    lemma_axis_frac_zero(o as int, mn as int, mx as int, tn, td);
                }
            }
            None
        } else {
            proof {
                assert forall|tn: int, td: int| td >= 1 implies axis_sat(
                    o as int,
                    0,
                    mn as int,
                    mx as int,
                    tn,
                    td,
                ) by {
                    lemma_axis_frac_zero(o as int, mn as int, mx as int, tn, td);
                }
                assert(frac_le(ln as int, ld as int, ln as int, ld as int));
            }
            Some((ln, ld, hn, hd))
        }
    } else {
        let (an, ad, bn, bd) = if d > 0 {
            (mn - o, d, mx - o, d)
        } else {
            (o - mx, 0 - d, o - mn, 0 - d)
        };
        let (ln2, ld2) = if frac_le_exec(ln, ld, an, ad) {
            (an, ad)
        } else {
            (ln, ld)
        };
        let (hn2, hd2) = if frac_le_exec(bn, bd, hn, hd) {
            (bn, bd)
        } else {
            (hn, hd)
        };
        proof {
            assert(frac_le(ln as int, ld as int, ln2 as int, ld2 as int) && frac_le(
                an as int,
                ad as int,
                ln2 as int,
                ld2 as int,
            )) by {
                assert(frac_le(ln as int, ld as int, ln as int, ld as int));
                assert(frac_le(an as int, ad as int, an as int, ad as int));
                if frac_le(ln as int, ld as int, an as int, ad as int) {
                } else {
                    assert(frac_le(an as int, ad as int, ln as int, ld as int)) by (nonlinear_arith)
                        requires
                            ld >= 1,
                            ad >= 1,
                            !((ln as int) * (ad as int) <= (an as int) * (ld as int)),
                    ;
                }
            }
            assert(frac_le(hn2 as int, hd2 as int, hn as int, hd as int) && frac_le(
                hn2 as int,
                hd2 as int,
                bn as int,
                bd as int,
            )) by {
                assert(frac_le(hn as int, hd as int, hn as int, hd as int));
                assert(frac_le(bn as int, bd as int, bn as int, bd as int));
                if frac_le(bn as int, bd as int, hn as int, hd as int) {
                } else {
                    assert(frac_le(hn as int, hd as int, bn as int, bd as int)) by (nonlinear_arith)
                        requires
                            hd >= 1,
                            bd >= 1,
                            !((bn as int) * (hd as int) <= (hn as int) * (bd as int)),
                    ;
                }
            }
            assert forall|tn: int, td: int| td >= 1 implies ((frac_le(
                ln2 as int,
                ld2 as int,
                tn,
                td,
            ) && frac_le(tn, td, hn2 as int, hd2 as int)) <==> (frac_le(
                ln as int,
                ld as int,
                tn,
                td,
            ) && frac_le(tn, td, hn as int, hd as int) && axis_sat(
                o as int,
                d as int,
                mn as int,
                mx as int,
                tn,
                td,
            ))) by {
                if d > 0 {
                    lemma_axis_frac_pos(o as int, d as int, mn as int, mx as int, tn, td);
                } else {
                    lemma_axis_frac_neg(o as int, d as int, mn as int, mx as int, tn, td);
                }
                if frac_le(ln2 as int, ld2 as int, tn, td) {
                    lemma_frac_le_trans(
                        ln as int,
                        ld as int,
                        ln2 as int,
                        ld2 as int,
                        tn,
                        td,
                    );
                    lemma_frac_le_trans(
                        an as int,
                        ad as int,
                        ln2 as int,
                        ld2 as int,
                        tn,
                        td,
                    );
                }
                if frac_le(tn, td, hn2 as int, hd2 as int) {
                    lemma_frac_le_trans(
                        tn,
                        td,
                        hn2 as int,
                        hd2 as int,
                        hn as int,
                        hd as int,
                    );
                    lemma_frac_le_trans(
                        tn,
                        td,
                        hn2 as int,
                        hd2 as int,
                        bn as int,
                        bd as int,
                    );
                }
            }
        }
        Some((ln2, ld2, hn2, hd2))
    }
}

/// Intersects a ray's parameter interval `[0, mtn/mtd]` with a box's slab
/// intervals, returning the exact entry parameter as a fraction, or `None`
/// when the ray misses the box within its distance limit.
///
/// The returned entry is a feasible parameter and is minimal among all
/// feasible parameters, which makes closest-hit bookkeeping exact.
pub fn ray_box_interval(bb: &BBox, orig: Point, dir: Vector, mtn: i64, mtd: i64) -> (r: Option<
    (i64, i64),
>)
    requires
        bb.wf(),
        orig.wf(),
        dir.wf(),
        1 <= mtd <= COORD_LIMIT,
        0 <= mtn <= MAX_T_NUM,
    ensures
        r.is_some() == spec_ray_hits(*bb, orig, dir, mtn as int, mtd as int),
        match r {
            Some(e) => {
                &&& 0 <= e.0 <= MAX_T_NUM
                &&& 1 <= e.1 <= COORD_LIMIT
                &&& spec_hit_at(*bb, orig, dir, mtn as int, mtd as int, e.0 as int, e.1 as int)
                &&& forall|tn: int, td: int|
                    spec_hit_at(*bb, orig, dir, mtn as int, mtd as int, tn, td) ==> frac_le(
                        e.0 as int,
                        e.1 as int,
                        tn,
                        td,
                    )
            },
            None => true,
        },
{
    let r0 = clip_axis(0, 1, mtn, mtd, orig.x, dir.x, bb.min.x, bb.max.x);
    match r0 {
        None => {
            proof {
                assert forall|tn: int, td: int| !spec_hit_at(
                    *bb,
                    orig,
                    dir,
                    mtn as int,
                    mtd as int,
                    tn,
                    td,
                ) by {
                    if spec_hit_at(*bb, orig, dir, mtn as int, mtd as int, tn, td) {
                        assert(frac_le(0, 1, tn, td));
                        assert(frac_le(tn, td, mtn as int, mtd as int));
                    }
                }
            }
            None
        },
        Some((ln1, ld1, hn1, hd1)) => {
            let r1 = clip_axis(ln1, ld1, hn1, hd1, orig.y, dir.y, bb.min.y, bb.max.y);
            match r1 {
                None => {
                    proof {
                        assert forall|tn: int, td: int| !spec_hit_at(
                            *bb,
                            orig,
                            dir,
                            mtn as int,
                            mtd as int,
                            tn,
                            td,
                        ) by {
                            if spec_hit_at(*bb, orig, dir, mtn as int, mtd as int, tn, td) {
                                assert(frac_le(0, 1, tn, td));
                                assert(frac_le(tn, td, mtn as int, mtd as int));
                            }
                        }
                    }
                    None
                },
                Some((ln2, ld2, hn2, hd2)) => {
                    let r2 = clip_axis(ln2, ld2, hn2, hd2, orig.z, dir.z, bb.min.z, bb.max.z);
                    match r2 {
                        None => {
                            proof {
                                assert forall|tn: int, td: int| !spec_hit_at(
                                    *bb,
                                    orig,
                                    dir,
                                    mtn as int,
                                    mtd as int,
                                    tn,
                                    td,
                                ) by {
                                    if spec_hit_at(*bb, orig, dir, mtn as int, mtd as int, tn, td) {
                                        assert(frac_le(0, 1, tn, td));
                                        assert(frac_le(tn, td, mtn as int, mtd as int));
                                    }
                                }
                            }
                            None
                        },
                        Some((ln3, ld3, hn3, hd3)) => {
                            if frac_le_exec(ln3, ld3, hn3, hd3) {
                                proof {
                                    assert(frac_le(ln3 as int, ld3 as int, ln3 as int, ld3 as int));
                                    assert(spec_hit_at(
                                        *bb,
                                        orig,
                                        dir,
                                        mtn as int,
                                        mtd as int,
                                        ln3 as int,
                                        ld3 as int,
                                    ));
                                    assert(frac_le(0, 1, ln3 as int, ld3 as int));
                                    assert forall|tn: int, td: int|
                                        spec_hit_at(
                                            *bb,
                                            orig,
                                            dir,
                                            mtn as int,
                                            mtd as int,
                                            tn,
                                            td,
                                        ) implies frac_le(ln3 as int, ld3 as int, tn, td) by {
                                        assert(frac_le(0, 1, tn, td));
                                        assert(frac_le(tn, td, mtn as int, mtd as int));
                                    }
                                }
                                Some((ln3, ld3))
                            } else {
                                proof {
                                    assert forall|tn: int, td: int| !spec_hit_at(
                                        *bb,
                                        orig,
                                        dir,
                                        mtn as int,
                                        mtd as int,
                                        tn,
                                        td,
                                    ) by {
                                        if spec_hit_at(
                                            *bb,
                                            orig,
                                            dir,
                                            mtn as int,
                                            mtd as int,
                                            tn,
                                            td,
                                        ) {
                                            assert(frac_le(0, 1, tn, td));
                                            assert(frac_le(tn, td, mtn as int, mtd as int));
                                            lemma_frac_le_trans(
                                                ln3 as int,
                                                ld3 as int,
                                                tn,
                                                td,
                                                hn3 as int,
                                                hd3 as int,
                                            );
                                        }
                                    }
                                }
                                None
                            }
                        },
                    }
                }
            }
        },
    }
}


/// Ray hits are monotone under containment: a box containing another is
/// hit at least wherever the contained one is.
pub proof fn lemma_hits_monotone(p: BBox, c: BBox, orig: Point, dir: Vector, mtn: int, mtd: int)
    requires
        p.spec_contains_box(c),
        spec_ray_hits(c, orig, dir, mtn, mtd),
    ensures
        spec_ray_hits(p, orig, dir, mtn, mtd),
{
    let (tn, td) = choose|tn: int, td: int| spec_hit_at(c, orig, dir, mtn, mtd, tn, td);
    vstd::arithmetic::mul::lemma_mul_inequality(p.min.x as int, c.min.x as int, td);
    vstd::arithmetic::mul::lemma_mul_inequality(p.min.y as int, c.min.y as int, td);
    vstd::arithmetic::mul::lemma_mul_inequality(p.min.z as int, c.min.z as int, td);
    vstd::arithmetic::mul::lemma_mul_inequality(c.max.x as int, p.max.x as int, td);
    vstd::arithmetic::mul::lemma_mul_inequality(c.max.y as int, p.max.y as int, td);
    vstd::arithmetic::mul::lemma_mul_inequality(c.max.z as int, p.max.z as int, td);
    assert(spec_hit_at(p, orig, dir, mtn, mtd, tn, td));
}

} // verus!
