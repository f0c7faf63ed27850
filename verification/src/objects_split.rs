//! Heuristic object splitting for hierarchy builds: chooses the axis of
//! maximum centroid extent and physically separates a span of the object
//! array about the centroid midpoint, falling back to an even split by
//! index when every centroid coincides.

use vstd::prelude::*;
use crate::algorithm::partition_span;
use crate::bbox::{boxes_wf, BBox};

verus! {

/// Whether every object index in `[lo, hi)` of `objs`, taken as the start
/// of a run of `samples` boxes, stays inside the bounds table.
pub open spec fn objects_in_table(
    objs: Seq<usize>,
    lo: int,
    hi: int,
    blen: int,
    samples: int,
) -> bool {
    forall|i: int| lo <= i < hi ==> (#[trigger] objs[i]) + samples <= blen
}

/// Whether the object's first-sample centroid on the given axis lies
/// strictly below the pivot value.
pub open spec fn below_pivot(o: usize, bounds: Seq<BBox>, axis: u8, pivot: i64) -> bool {
    bounds[o as int].spec_centroid2(axis) < pivot
}

/// Twice the centroid, on the given axis, of the first time-sample box of
/// the object at position `i`.
pub open spec fn spec_obj_centroid2(objs: Seq<usize>, i: int, bounds: Seq<BBox>, axis: u8) -> int {
    bounds[objs[i] as int].spec_centroid2(axis)
}

/// Scans a span for the smallest and largest object centroid on one axis,
/// with ghost witnesses that both are attained.
fn centroid_range(
    objects: &Vec<usize>,
    lo: usize,
    hi: usize,
    bounds: &Vec<BBox>,
    samples: usize,
    axis: u8,
) -> (r: (i64, i64, Ghost<int>, Ghost<int>))
    requires
        lo < hi <= objects@.len(),
        samples >= 1,
        axis < 3,
        boxes_wf(bounds@),
        objects_in_table(objects@, lo as int, hi as int, bounds@.len() as int, samples as int),
    ensures
        r.0 <= r.1,
        lo <= r.2@ < hi,
        lo <= r.3@ < hi,
        spec_obj_centroid2(objects@, r.2@, bounds@, axis) == r.0,
        spec_obj_centroid2(objects@, r.3@, bounds@, axis) == r.1,
        forall|i: int|
            lo <= i < hi ==> r.0 <= #[trigger] spec_obj_centroid2(objects@, i, bounds@, axis)
                <= r.1,
{
    let first = bounds[objects[lo]].centroid2(axis);
    let mut cmin: i64 = first;
    let mut cmax: i64 = first;
    let ghost mut wmin: int = lo as int;
    let ghost mut wmax: int = lo as int;
    let mut i: usize = lo + 1;
    while i < hi
        invariant
            lo < i <= hi <= objects@.len(),
            samples >= 1,
            axis < 3,
            boxes_wf(bounds@),
            objects_in_table(objects@, lo as int, hi as int, bounds@.len() as int, samples as int),
            cmin <= cmax,
            lo <= wmin < i,
            lo <= wmax < i,
            spec_obj_centroid2(objects@, wmin, bounds@, axis) == cmin,
            spec_obj_centroid2(objects@, wmax, bounds@, axis) == cmax,
            forall|j: int|
                lo <= j < i ==> cmin <= #[trigger] spec_obj_centroid2(objects@, j, bounds@, axis)
                    <= cmax,
        decreases hi - i,
    {
        let c = bounds[objects[i]].centroid2(axis);
        if c < cmin {
            cmin = c;
            proof {
                wmin = i as int;
            }
        }
        if c > cmax {
            cmax = c;
            proof {
                wmax = i as int;
            }
        }
        i = i + 1;
    }
    (cmin, cmax, Ghost(wmin), Ghost(wmax))
}

/// Splits the span `[lo, hi)` of the object array in two about the chosen
/// axis, returning the split position and the axis.
///
/// The axis is the one with the greatest centroid extent; the span is
/// reordered so that every object left of the split has a centroid on
/// that axis no greater than that of any object right of it, and both
/// sides are nonempty.  When every centroid on the chosen axis coincides
/// the split is an even split by index.
pub fn split_objects(
    objects: &mut Vec<usize>,
    lo: usize,
    hi: usize,
    bounds: &Vec<BBox>,
    samples: usize,
) -> (r: (usize, u8))
    requires
        lo < hi <= old(objects)@.len(),
        hi - lo >= 2,
        samples >= 1,
        boxes_wf(bounds@),
        objects_in_table(old(objects)@, lo as int, hi as int, bounds@.len() as int, samples as int),
    ensures
        lo < r.0 < hi,
        r.1 < 3,
        final(objects)@.len() == old(objects)@.len(),
        final(objects)@.subrange(lo as int, hi as int).to_multiset() == old(objects)@.subrange(
            lo as int,
            hi as int,
        ).to_multiset(),
        final(objects)@.take(lo as int) == old(objects)@.take(lo as int),
        final(objects)@.skip(hi as int) == old(objects)@.skip(hi as int),
        objects_in_table(
            final(objects)@,
            lo as int,
            hi as int,
            bounds@.len() as int,
            samples as int,
        ),
        forall|i: int, j: int|
            lo <= i < r.0 && r.0 <= j < hi ==> spec_obj_centroid2(final(objects)@, i, bounds@, r.1)
                <= spec_obj_centroid2(final(objects)@, j, bounds@, r.1),
{
    let rx = centroid_range(objects, lo, hi, bounds, samples, 0);
    let ry = centroid_range(objects, lo, hi, bounds, samples, 1);
    let rz = centroid_range(objects, lo, hi, bounds, samples, 2);
    let ex = rx.1 - rx.0;
    let ey = ry.1 - ry.0;
    let ez = rz.1 - rz.0;
    let (axis, cmin, cmax) = if ex >= ey && ex >= ez {
        (0u8, rx.0, rx.1)
    } else if ey >= ez {
        (1u8, ry.0, ry.1)
    } else {
        (2u8, rz.0, rz.1)
    };
    let ghost wmin: int = if axis == 0 {
        rx.2@
    } else if axis == 1 {
        ry.2@
    } else {
        rz.2@
    };
    let ghost wmax: int = if axis == 0 {
        rx.3@
    } else if axis == 1 {
        ry.3@
    } else {
        rz.3@
    };
    if cmin == cmax {
        // Degenerate span: all centroids coincide on the widest axis, so
        // split evenly by index to guarantee progress.
        let mid = lo + (hi - lo) / 2;
        (mid, axis)
    } else {
        let pivot = cmin + (cmax - cmin + 1) / 2;
        assert(cmin < pivot <= cmax);
        let ghost pre = objects@;
        proof {
            assert forall|t: usize|
                pre.subrange(lo as int, hi as int).to_multiset().contains(t) implies t
                < bounds@.len() && bounds@[t as int].wf() by {
                vstd::seq_lib::to_multiset_contains(pre.subrange(lo as int, hi as int), t);
                let k = choose|k: int|
                    0 <= k < pre.subrange(lo as int, hi as int).len() && pre.subrange(
                        lo as int,
                        hi as int,
                    )[k] == t;
                assert(pre[lo + k] == t);
                assert(pre[lo + k] + samples <= bounds@.len());
            }
        }
        let pred = |o: &usize| -> (res: bool)
            requires
                *o < bounds@.len(),
                bounds@[*o as int].wf(),
            ensures
                res == below_pivot(*o, bounds@, axis, pivot),
            { bounds[*o].centroid2(axis) < pivot };
        let mid = partition_span(objects, lo, hi, pred);
        proof {
            // The span's values are preserved, so table membership holds.
            assert forall|i: int| lo <= i < hi implies (#[trigger] objects@[i]) + samples
                <= bounds@.len() by {
                assert(objects@.subrange(lo as int, hi as int)[i - lo] == objects@[i]);
                assert(objects@.subrange(lo as int, hi as int).contains(objects@[i]));
                vstd::seq_lib::to_multiset_contains(
                    objects@.subrange(lo as int, hi as int),
                    objects@[i],
                );
                vstd::seq_lib::to_multiset_contains(
                    pre.subrange(lo as int, hi as int),
                    objects@[i],
                );
                let k = choose|k: int|
                    0 <= k < pre.subrange(lo as int, hi as int).len() && pre.subrange(
                        lo as int,
                        hi as int,
                    )[k] == objects@[i];
                assert(pre[lo + k] == objects@[i]);
            }
            // The minimum-centroid object is still in the span and tests
            // below the pivot, so the left side is nonempty.
            let cm = pre[wmin];
            assert(pre.subrange(lo as int, hi as int)[wmin - lo] == cm);
            assert(pre.subrange(lo as int, hi as int).contains(cm));
            vstd::seq_lib::to_multiset_contains(pre.subrange(lo as int, hi as int), cm);
            vstd::seq_lib::to_multiset_contains(objects@.subrange(lo as int, hi as int), cm);
            let k1 = choose|k: int|
                0 <= k < objects@.subrange(lo as int, hi as int).len() && objects@.subrange(
                    lo as int,
                    hi as int,
                )[k] == cm;
            assert(objects@[lo + k1] == cm);
            if lo + k1 >= mid {
                assert(call_ensures(pred, (&objects@[lo + k1],), false));
                assert(below_pivot(cm, bounds@, axis, pivot));
            }
            assert(mid > lo);
            // Likewise the maximum-centroid object tests at or above the
            // pivot, so the right side is nonempty.
            let cx = pre[wmax];
            assert(pre.subrange(lo as int, hi as int)[wmax - lo] == cx);
            assert(pre.subrange(lo as int, hi as int).contains(cx));
            vstd::seq_lib::to_multiset_contains(pre.subrange(lo as int, hi as int), cx);
            vstd::seq_lib::to_multiset_contains(objects@.subrange(lo as int, hi as int), cx);
            let k2 = choose|k: int|
                0 <= k < objects@.subrange(lo as int, hi as int).len() && objects@.subrange(
                    lo as int,
                    hi as int,
                )[k] == cx;
            assert(objects@[lo + k2] == cx);
            if lo + k2 < mid {
                assert(call_ensures(pred, (&objects@[lo + k2],), true));
                assert(!below_pivot(cx, bounds@, axis, pivot));
            }
            assert(mid < hi);
        }
        (mid, axis)
    }
}

} // verus!
