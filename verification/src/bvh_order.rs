//! Traversal-order codes for 4-wide BVH nodes.
//!
//! A 4-wide node stands for one, two or three binary splits collapsed into
//! a single level.  The topology together with the per-split axis choices
//! maps to one of 48 traversal-order classes; for each class and each of
//! the 8 ray-direction octants there is one permutation that visits the
//! node's populated children from near to far.

use vstd::prelude::*;

verus! {

/// The split axes of the binary node(s) a 4-wide node was created from.
///
/// * `Full` is four nodes from three splits: top, left, and right.
/// * `Left` is three nodes from two splits: top and left.
/// * `Right` is three nodes from two splits: top and right.
/// * `TopOnly` is two nodes from one split (the 4-wide node is identical
///   to the single binary node it was created from).
///
/// The left node of a split is the node whose coordinate on the split axis
/// is lower.  The values representing each axis are x = 0, y = 1, z = 2.
#[derive(Debug, Copy, Clone)]
pub enum SplitAxes {
    Full((u8, u8, u8)),  // top, left, right
    Left((u8, u8)),  // top, left
    Right((u8, u8)),  // top, right
    TopOnly(u8),  // top
}

impl SplitAxes {
    /// All axis values lie in 0..3.
    pub open spec fn wf(self) -> bool {
        match self {
            SplitAxes::Full((top, left, right)) => top < 3 && left < 3 && right < 3,
            SplitAxes::Left((top, left)) => top < 3 && left < 3,
            SplitAxes::Right((top, right)) => top < 3 && right < 3,
            SplitAxes::TopOnly(top) => top < 3,
        }
    }
}

/// The number of distinct traversal codes.
pub const TRAVERSAL_CODE_COUNT: u8 = 48;

/// The traversal code of a split configuration: a base-3 combination of
/// the axis choices, offset per topology.
pub open spec fn spec_traversal_code(split: SplitAxes) -> u8 {
    match split {
        SplitAxes::Full((top, left, right)) => (top + left * 3 + right * 9) as u8,
        SplitAxes::Left((top, left)) => (top + left * 3 + 27) as u8,
        SplitAxes::Right((top, right)) => (top + right * 3 + 27 + 9) as u8,
        SplitAxes::TopOnly(top) => (top + 27 + 9 + 9) as u8,
    }
}

/// Calculates the traversal code for a 4-wide node based on the splits and
/// topology of the binary node(s) it was created from.
pub fn calc_traversal_code(split: SplitAxes) -> (code: u8)
    requires
        split.wf(),
    ensures
        code == spec_traversal_code(split),
        code < TRAVERSAL_CODE_COUNT,
{
    match split {
        SplitAxes::Full((top, left, right)) => top + (left * 3) + (right * 9),
        SplitAxes::Left((top, left)) => top + (left * 3) + 27,
        SplitAxes::Right((top, right)) => top + (right * 3) + (27 + 9),
        SplitAxes::TopOnly(top) => top + (27 + 9 + 9),
    }
}


/// Whether a ray octant has a negative direction on the given axis.
pub open spec fn spec_octant_negative(octant: u8, axis: u8) -> bool {
    if axis == 0 {
        octant & 1 == 1
    } else if axis == 1 {
        octant & 2 == 2
    } else {
        octant & 4 == 4
    }
}

/// Orders a pair of sibling slots near to far for the given octant: the
/// lower-coordinate slot first on a positive axis, the other way round on
/// a negative one.
pub open spec fn spec_pair_order(octant: u8, axis: u8, a: u8, b: u8) -> (u8, u8) {
    if spec_octant_negative(octant, axis) {
        (b, a)
    } else {
        (a, b)
    }
}

/// The near-to-far visit order of a 4-wide node's child slots for rays of
/// the given octant, as a permutation of the four slot numbers; slots
/// beyond the node's populated count are simply skipped by the caller.
pub open spec fn spec_traversal_order(octant: u8, code: u8) -> (u8, u8, u8, u8) {
    if code < 27 {
        // Three splits: slots 0,1 under the left child, 2,3 under the right.
        let top = (code % 3) as u8;
        let left = ((code / 3) % 3) as u8;
        let right = ((code / 9) % 3) as u8;
        let lp = spec_pair_order(octant, left, 0, 1);
        let rp = spec_pair_order(octant, right, 2, 3);
        if spec_octant_negative(octant, top) {
            (rp.0, rp.1, lp.0, lp.1)
        } else {
            (lp.0, lp.1, rp.0, rp.1)
        }
    } else if code < 36 {
        // Top and left splits: slots 0,1 under the left child, slot 2 the
        // right leaf.
        let top = ((code - 27) % 3) as u8;
        let left = (((code - 27) / 3) % 3) as u8;
        let lp = spec_pair_order(octant, left, 0, 1);
        if spec_octant_negative(octant, top) {
            (2, lp.0, lp.1, 3)
        } else {
            (lp.0, lp.1, 2, 3)
        }
    } else if code < 45 {
        // Top and right splits: slot 0 the left leaf, slots 1,2 under the
        // right child.
        let top = ((code - 36) % 3) as u8;
        let right = (((code - 36) / 3) % 3) as u8;
        let rp = spec_pair_order(octant, right, 1, 2);
        if spec_octant_negative(octant, top) {
            (rp.0, rp.1, 0, 3)
        } else {
            (0, rp.0, rp.1, 3)
        }
    } else {
        // A single split: two slots.
        let top = ((code - 45) % 3) as u8;
        if spec_octant_negative(octant, top) {
            (1, 0, 2, 3)
        } else {
            (0, 1, 2, 3)
        }
    }
}

/// The geometric meaning the order table encodes, at the level of one
/// split: for two sibling boxes disjoint on the split axis (the left one
/// lower, as the builder guarantees), and a ray whose direction sign on
/// that axis matches the octant, the sibling visited first by
/// `spec_pair_order` is the one whose axis slab the ray enters first —
/// its slab-entry parameter is no greater than the other's, as exact
/// fractions over the direction component.  Every pair of the table (the
/// top split's two sides, and each side's own split) is ordered by this
/// rule, so the decoded permutation visits children near to far.
pub proof fn lemma_pair_order_near_first(
    octant: u8,
    axis: u8,
    amin: int,
    amax: int,
    bmin: int,
    bmax: int,
    o: int,
    d: int,
)
    requires
        amin <= amax,
        bmin <= bmax,
        amax <= bmin,
        d != 0,
        (d < 0) == spec_octant_negative(octant, axis),
    ensures
        spec_pair_order(octant, axis, 0, 1).0 == 0 ==> crate::bbox::frac_le(
            amin - o,
            d,
            bmin - o,
            d,
        ),
        spec_pair_order(octant, axis, 0, 1).0 == 1 ==> crate::bbox::frac_le(
            o - bmax,
            -d,
            o - amax,
            -d,
        ),
{
    if spec_pair_order(octant, axis, 0, 1).0 == 0 {
        vstd::arithmetic::mul::lemma_mul_inequality(amin - o, bmin - o, d);
    } else {
        vstd::arithmetic::mul::lemma_mul_inequality(o - bmax, o - amax, -d);
    }
}

/// The traversal order is always a permutation of the four slot numbers.
pub proof fn lemma_traversal_order_permutes(octant: u8, code: u8)
    ensures
        ({
            let p = spec_traversal_order(octant, code);
            &&& p.0 < 4 && p.1 < 4 && p.2 < 4 && p.3 < 4
            &&& p.0 != p.1 && p.0 != p.2 && p.0 != p.3
            &&& p.1 != p.2 && p.1 != p.3
            &&& p.2 != p.3
        }),
{
}

/// Computes the near-to-far slot visit order for one ray octant and one
/// traversal code.
pub fn traversal_order(octant: u8, code: u8) -> (r: (u8, u8, u8, u8))
    ensures
        r == spec_traversal_order(octant, code),
        r.0 < 4 && r.1 < 4 && r.2 < 4 && r.3 < 4,
{
    let xneg = octant & 1 == 1;
    let yneg = octant & 2 == 2;
    let zneg = octant & 4 == 4;
    let neg = |axis: u8| -> (b: bool)
        ensures
            b == spec_octant_negative(octant, axis),
        {
            if axis == 0 {
                xneg
            } else if axis == 1 {
                yneg
            } else {
                zneg
            }
        };
    let pair = |axis: u8, a: u8, b: u8| -> (p: (u8, u8))
        ensures
            p == spec_pair_order(octant, axis, a, b),
        {
            if axis == 0 {
                if xneg {
                    (b, a)
                } else {
                    (a, b)
                }
            } else if axis == 1 {
                if yneg {
                    (b, a)
                } else {
                    (a, b)
                }
            } else {
                if zneg {
                    (b, a)
                } else {
                    (a, b)
                }
            }
        };
    if code < 27 {
        let top = code % 3;
        let left = (code / 3) % 3;
        let right = (code / 9) % 3;
        let lp = pair(left, 0, 1);
        let rp = pair(right, 2, 3);
        if neg(top) {
            (rp.0, rp.1, lp.0, lp.1)
        } else {
            (lp.0, lp.1, rp.0, rp.1)
        }
    } else if code < 36 {
        let top = (code - 27) % 3;
        let left = ((code - 27) / 3) % 3;
        let lp = pair(left, 0, 1);
        if neg(top) {
            (2, lp.0, lp.1, 3)
        } else {
            (lp.0, lp.1, 2, 3)
        }
    } else if code < 45 {
        let top = (code - 36) % 3;
        let right = ((code - 36) / 3) % 3;
        let rp = pair(right, 1, 2);
        if neg(top) {
            (rp.0, rp.1, 0, 3)
        } else {
            (0, rp.0, rp.1, 3)
        }
    } else {
        let top = (code - 45) % 3;
        if neg(top) {
            (1, 0, 2, 3)
        } else {
            (0, 1, 2, 3)
        }
    }
}

} // verus!
