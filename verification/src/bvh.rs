//! The binary bounding-volume hierarchy: a recursive builder emitting a
//! flat, depth-first node array, and batched ray traversal with a leaf
//! callback and early termination.

use vstd::prelude::*;
use crate::algorithm::partition_range;
use crate::bbox::{
    boxes_wf, box_at_time, covers_samples, frac_le, lemma_box_at_time_covers, ray_box_interval,
    samples_wf, spec_box_at_time, spec_ray_hits, spec_union_samples, union_samples, BBox, TIME_ONE,
};
use crate::math::Point;
use crate::objects_split::{objects_in_table, split_objects};
use crate::ray::AccelRay;
use vstd::multiset::Multiset;

verus! {

/// One node of the flattened tree: the first child of an internal node
/// sits directly after it, the second at `second_child`.
#[derive(Debug)]
pub enum BvhNode {
    Internal { bounds: Vec<BBox>, second_child: usize, split_axis: u8 },
    Leaf { bounds: Vec<BBox>, start: usize, end: usize },
}

/// The time-sample bounds carried by a node.
pub open spec fn node_bounds(n: BvhNode) -> Seq<BBox> {
    match n {
        BvhNode::Internal { bounds, .. } => bounds@,
        BvhNode::Leaf { bounds, .. } => bounds@,
    }
}

/// The bounds of one object: its run of `samples` consecutive boxes in
/// the bounds table.
pub open spec fn obj_samples(table: Seq<BBox>, o: usize, samples: int) -> Seq<BBox> {
    table.subrange(o as int, o + samples)
}

/// The samplewise union of the bounds of the objects in `[lo, hi)`.
pub open spec fn union_range(
    objs: Seq<usize>,
    lo: int,
    hi: int,
    table: Seq<BBox>,
    samples: int,
) -> Seq<BBox>
    decreases hi - lo,
{
    if hi - lo <= 1 {
        obj_samples(table, objs[lo], samples)
    } else {
        spec_union_samples(
            union_range(objs, lo, hi - 1, table, samples),
            obj_samples(table, objs[hi - 1], samples),
        )
    }
}

/// The end of the object span covered by the subtree rooted at `i`: the
/// `end` of its rightmost leaf.
pub open spec fn span_end(nodes: Seq<BvhNode>, i: int) -> int
    decreases nodes.len() - i,
{
    if 0 <= i < nodes.len() {
        match nodes[i] {
            BvhNode::Leaf { end, .. } => end as int,
            BvhNode::Internal { second_child, .. } => if i < second_child < nodes.len() {
                span_end(nodes, second_child as int)
            } else {
                0
            },
        }
    } else {
        0
    }
}

/// Well-formedness of the subtree rooted at node `i`, which must cover
/// exactly the object span `[lo, hi)`:
///
/// * indices stay inside the node array, children sit after their parent;
/// * leaf spans partition the object array with no gaps or overlaps;
/// * a leaf's bounds are exactly the union of its objects' bounds, and an
///   internal node's bounds exactly the union of its children's, per time
///   sample, so every node tightly contains all its descendants.
pub open spec fn wf_node(
    nodes: Seq<BvhNode>,
    objs: Seq<usize>,
    table: Seq<BBox>,
    samples: int,
    i: int,
    lo: int,
    hi: int,
) -> bool
    decreases hi - lo,
{
    &&& 0 <= i < nodes.len()
    &&& 0 <= lo < hi <= objs.len()
    &&& node_bounds(nodes[i]).len() == samples
    &&& samples_wf(node_bounds(nodes[i]))
    &&& match nodes[i] {
        BvhNode::Leaf { bounds, start, end } => {
            &&& start == lo
            &&& end == hi
            &&& objects_in_table(objs, lo, hi, table.len() as int, samples)
            &&& bounds@ == union_range(objs, lo, hi, table, samples)
        },
        BvhNode::Internal { bounds, second_child, split_axis } => {
            let mid = span_end(nodes, i + 1);
            &&& split_axis < 3
            &&& i + 1 < second_child < nodes.len()
            &&& lo < mid < hi
            &&& wf_node(nodes, objs, table, samples, i + 1, lo, mid)
            &&& wf_node(nodes, objs, table, samples, second_child as int, mid, hi)
            &&& bounds@ == spec_union_samples(
                node_bounds(nodes[i + 1]),
                node_bounds(nodes[second_child as int]),
            )
        },
    }
}

/// A well-formed subtree's rightmost leaf ends exactly at the subtree's
/// span end.
proof fn lemma_wf_span_end(
    nodes: Seq<BvhNode>,
    objs: Seq<usize>,
    table: Seq<BBox>,
    samples: int,
    i: int,
    lo: int,
    hi: int,
)
    requires
        wf_node(nodes, objs, table, samples, i, lo, hi),
    ensures
        span_end(nodes, i) == hi,
    decreases hi - lo,
{
    match nodes[i] {
        BvhNode::Leaf { .. } => {
        },
        BvhNode::Internal { bounds, second_child, split_axis } => {
            let mid = span_end(nodes, i + 1);
            lemma_wf_span_end(nodes, objs, table, samples, second_child as int, mid, hi);
        },
    }
}

/// Subtree well-formedness is untouched by edits strictly before the
/// subtree's root or past the end of the old node array.
proof fn lemma_wf_node_stable(
    nodes1: Seq<BvhNode>,
    nodes2: Seq<BvhNode>,
    objs: Seq<usize>,
    table: Seq<BBox>,
    samples: int,
    i: int,
    lo: int,
    hi: int,
)
    requires
        wf_node(nodes1, objs, table, samples, i, lo, hi),
        nodes2.len() >= nodes1.len(),
        forall|j: int| i <= j < nodes1.len() ==> nodes2[j] == nodes1[j],
    ensures
        wf_node(nodes2, objs, table, samples, i, lo, hi),
    decreases hi - lo,
{
    match nodes1[i] {
        BvhNode::Leaf { .. } => {
        },
        BvhNode::Internal { bounds, second_child, split_axis } => {
            let mid = span_end(nodes1, i + 1);
            lemma_wf_node_stable(nodes1, nodes2, objs, table, samples, i + 1, lo, mid);
            lemma_wf_node_stable(nodes1, nodes2, objs, table, samples, second_child as int, mid, hi);
            lemma_wf_span_end(nodes2, objs, table, samples, i + 1, lo, mid);
        },
    }
}

/// The union over a span only reads the span's slice of the object array.
proof fn lemma_union_range_stable(
    objs1: Seq<usize>,
    objs2: Seq<usize>,
    lo: int,
    hi: int,
    table: Seq<BBox>,
    samples: int,
)
    requires
        0 <= lo < hi <= objs1.len(),
        objs1.len() == objs2.len(),
        objs1.subrange(lo, hi) == objs2.subrange(lo, hi),
    ensures
        union_range(objs1, lo, hi, table, samples) == union_range(objs2, lo, hi, table, samples),
    decreases hi - lo,
{
    assert(objs1.subrange(lo, hi)[0] == objs1[lo]);
    assert(objs2.subrange(lo, hi)[0] == objs2[lo]);
    if hi - lo <= 1 {
    } else {
        assert(objs1.subrange(lo, hi - 1) =~= objs2.subrange(lo, hi - 1)) by {
            assert forall|k: int|
                #![trigger objs1.subrange(lo, hi - 1)[k]]
                0 <= k < hi - 1 - lo implies objs1.subrange(lo, hi - 1)[k] == objs2.subrange(
                lo,
                hi - 1,
            )[k] by {
                assert(objs1.subrange(lo, hi)[k] == objs1[lo + k]);
                assert(objs2.subrange(lo, hi)[k] == objs2[lo + k]);
            }
        }
        lemma_union_range_stable(objs1, objs2, lo, hi - 1, table, samples);
        assert(objs1.subrange(lo, hi)[hi - 1 - lo] == objs1[hi - 1]);
        assert(objs2.subrange(lo, hi)[hi - 1 - lo] == objs2[hi - 1]);
    }
}

/// Subtree well-formedness only reads the subtree's slice of the object
/// array.
proof fn lemma_wf_node_objs(
    nodes: Seq<BvhNode>,
    objs1: Seq<usize>,
    objs2: Seq<usize>,
    table: Seq<BBox>,
    samples: int,
    i: int,
    lo: int,
    hi: int,
)
    requires
        wf_node(nodes, objs1, table, samples, i, lo, hi),
        objs1.len() == objs2.len(),
        objs1.subrange(lo, hi) == objs2.subrange(lo, hi),
    ensures
        wf_node(nodes, objs2, table, samples, i, lo, hi),
    decreases hi - lo,
{
    match nodes[i] {
        BvhNode::Leaf { .. } => {
            lemma_union_range_stable(objs1, objs2, lo, hi, table, samples);
            assert forall|k: int| lo <= k < hi implies (#[trigger] objs2[k]) + samples
                <= table.len() by {
                assert(objs1.subrange(lo, hi)[k - lo] == objs1[k]);
                assert(objs2.subrange(lo, hi)[k - lo] == objs2[k]);
            }
        },
        BvhNode::Internal { bounds, second_child, split_axis } => {
            let mid = span_end(nodes, i + 1);
            assert(objs1.subrange(lo, mid) =~= objs2.subrange(lo, mid)) by {
                assert forall|k: int|
                    #![trigger objs1.subrange(lo, mid)[k]]
                    0 <= k < mid - lo implies objs1.subrange(lo, mid)[k] == objs2.subrange(
                    lo,
                    mid,
                )[k] by {
                    assert(objs1.subrange(lo, hi)[k] == objs1[lo + k]);
                    assert(objs2.subrange(lo, hi)[k] == objs2[lo + k]);
                }
            }
            assert(objs1.subrange(mid, hi) =~= objs2.subrange(mid, hi)) by {
                assert forall|k: int|
                    #![trigger objs1.subrange(mid, hi)[k]]
                    0 <= k < hi - mid implies objs1.subrange(mid, hi)[k] == objs2.subrange(
                    mid,
                    hi,
                )[k] by {
                    assert(objs1.subrange(lo, hi)[mid - lo + k] == objs1[mid + k]);
                    assert(objs2.subrange(lo, hi)[mid - lo + k] == objs2[mid + k]);
                }
            }
            lemma_wf_node_objs(nodes, objs1, objs2, table, samples, i + 1, lo, mid);
            lemma_wf_node_objs(nodes, objs1, objs2, table, samples, second_child as int, mid, hi);
            assert(wf_node(nodes, objs2, table, samples, i + 1, lo, mid));
            assert(wf_node(nodes, objs2, table, samples, second_child as int, mid, hi));
        },
    }
}

/// Samplewise union keeps well-formedness and length.
proof fn lemma_union_samples_wf(a: Seq<BBox>, b: Seq<BBox>)
    requires
        samples_wf(a),
        samples_wf(b),
        a.len() == b.len(),
    ensures
        samples_wf(spec_union_samples(a, b)),
        spec_union_samples(a, b).len() == a.len(),
{
    assert forall|i: int| 0 <= i < a.len() implies (#[trigger] spec_union_samples(a, b)[i]).wf() by {
        crate::bbox::lemma_union_bounds(a[i], b[i]);
    }
}

/// Copies a vector of boxes.
pub(crate) fn copy_boxes(v: &Vec<BBox>) -> (r: Vec<BBox>)
    ensures
        r@ == v@,
{
    let mut r: Vec<BBox> = Vec::new();
    let mut i: usize = 0;
    while i < v.len()
        invariant
            i <= v@.len(),
            r@ == v@.take(i as int),
        decreases v@.len() - i,
    {
        r.push(v[i]);
        proof {
            assert(r@ =~= v@.take(i + 1));
        }
        i = i + 1;
    }
    proof {
        assert(v@.take(v@.len() as int) =~= v@);
    }
    r
}

/// Reads a copy of the bounds of one node.
pub(crate) fn get_node_bounds(nodes: &Vec<BvhNode>, i: usize) -> (r: Vec<BBox>)
    requires
        i < nodes@.len(),
    ensures
        r@ == node_bounds(nodes@[i as int]),
{
    match &nodes[i] {
        BvhNode::Internal { bounds, .. } => copy_boxes(bounds),
        BvhNode::Leaf { bounds, .. } => copy_boxes(bounds),
    }
}

/// The flattened binary hierarchy, with the object order and bounds table
/// it was built over remembered in ghost form so its invariant is
/// self-contained.
pub struct BinaryBVH {
    pub nodes: Vec<BvhNode>,
    pub n_objects: usize,
    pub samples: usize,
    pub built_from: Ghost<(Seq<usize>, Seq<BBox>)>,
}

impl BinaryBVH {
    /// The tree is well formed over the object order and bounds table it
    /// was built from.
    pub open spec fn wf(self) -> bool {
        &&& self.n_objects == self.built_from@.0.len()
        &&& 1 <= self.samples <= TIME_ONE
        &&& wf_node(
            self.nodes@,
            self.built_from@.0,
            self.built_from@.1,
            self.samples as int,
            0,
            0,
            self.n_objects as int,
        )
    }

    /// The root's time-sample bounds.
    pub open spec fn spec_bounds(self) -> Seq<BBox> {
        node_bounds(self.nodes@[0])
    }

    /// Returns the root's bounding box, one per time sample.
    pub fn bounds(&self) -> (r: Vec<BBox>)
        requires
            self.wf(),
        ensures
            r@ == self.spec_bounds(),
    {
        get_node_bounds(&self.nodes, 0)
    }
}

/// Collects the bounds of one object: its `samples` consecutive boxes.
fn collect_obj_bounds(table: &Vec<BBox>, o: usize, samples: usize) -> (r: Vec<BBox>)
    requires
        o + samples <= table@.len(),
        samples >= 1,
    ensures
        r@ == obj_samples(table@, o, samples as int),
{
    let tl = table.len();
    let mut r: Vec<BBox> = Vec::new();
    let mut k: usize = 0;
    while k < samples
        invariant
            k <= samples,
            o + samples <= tl,
            tl == table@.len(),
            r@ == table@.subrange(o as int, o + k),
        decreases samples - k,
    {
        r.push(table[o + k]);
        proof {
            assert(r@ =~= table@.subrange(o as int, o + k + 1));
        }
        k = k + 1;
    }
    r
}

/// Builds the subtree for the object span `[lo, hi)`, appending its nodes
/// depth first and returning the index of its root.
fn build_node(
    objects: &mut Vec<usize>,
    lo: usize,
    hi: usize,
    leaf_threshold: usize,
    table: &Vec<BBox>,
    samples: usize,
    nodes: &mut Vec<BvhNode>,
) -> (idx: usize)
    requires
        lo < hi <= old(objects)@.len(),
        leaf_threshold >= 1,
        1 <= samples <= TIME_ONE,
        boxes_wf(table@),
        objects_in_table(old(objects)@, lo as int, hi as int, table@.len() as int, samples as int),
    ensures
        final(objects)@.len() == old(objects)@.len(),
        final(objects)@.take(lo as int) == old(objects)@.take(lo as int),
        final(objects)@.skip(hi as int) == old(objects)@.skip(hi as int),
        final(objects)@.subrange(lo as int, hi as int).to_multiset() == old(objects)@.subrange(
            lo as int,
            hi as int,
        ).to_multiset(),
        objects_in_table(
            final(objects)@,
            lo as int,
            hi as int,
            table@.len() as int,
            samples as int,
        ),
        idx == old(nodes)@.len(),
        final(nodes)@.len() > idx,
        final(nodes)@.take(idx as int) == old(nodes)@,
        wf_node(
            final(nodes)@,
            final(objects)@,
            table@,
            samples as int,
            idx as int,
            lo as int,
            hi as int,
        ),
        hi - lo <= leaf_threshold ==> final(nodes)@.len() == idx + 1,
    decreases hi - lo,
{
    let my = nodes.len();
    if hi - lo <= leaf_threshold {
        // Leaf: unite the objects' bounds samplewise.
        let mut b = collect_obj_bounds(table, objects[lo], samples);
        proof {
            assert(b@ == union_range(objects@, lo as int, lo + 1, table@, samples as int));
            assert forall|k: int| 0 <= k < b@.len() implies (#[trigger] b@[k]).wf() by {
                assert(b@[k] == table@[objects@[lo as int] + k]);
            }
        }
        let mut i: usize = lo + 1;
        while i < hi
            invariant
                lo < i <= hi <= objects@.len(),
                1 <= samples <= TIME_ONE,
                boxes_wf(table@),
                objects_in_table(
                    objects@,
                    lo as int,
                    hi as int,
                    table@.len() as int,
                    samples as int,
                ),
                b@ == union_range(objects@, lo as int, i as int, table@, samples as int),
                b@.len() == samples,
                forall|k: int| 0 <= k < b@.len() ==> (#[trigger] b@[k]).wf(),
            decreases hi - i,
        {
            let ob = collect_obj_bounds(table, objects[i], samples);
            proof {
                assert forall|k: int| 0 <= k < ob@.len() implies (#[trigger] ob@[k]).wf() by {
                    assert(ob@[k] == table@[objects@[i as int] + k]);
                }
                lemma_union_samples_wf(b@, ob@);
            }
            b = union_samples(&b, &ob);
            i = i + 1;
        }
        nodes.push(BvhNode::Leaf { bounds: b, start: lo, end: hi });
        proof {
            assert(final(nodes)@.take(my as int) =~= old(nodes)@);
            assert(1 <= samples <= TIME_ONE);
            assert(wf_node(
                nodes@,
                objects@,
                table@,
                samples as int,
                my as int,
                lo as int,
                hi as int,
            ));
        }
        my
    } else {
        let (mid, axis) = split_objects(objects, lo, hi, table, samples);
        let ghost objs1 = objects@;
        // Reserve this node's slot; children follow depth first.
        nodes.push(BvhNode::Leaf { bounds: Vec::new(), start: 0, end: 0 });
        let ghost nodes1 = nodes@;
        let li = build_node(objects, lo, mid, leaf_threshold, table, samples, nodes);
        let ghost objs2 = objects@;
        let ghost nodes2 = nodes@;
        proof {
            assert forall|k: int| mid <= k < hi implies (#[trigger] objs2[k]) + samples
                <= table@.len() by {
                assert(objs2.skip(mid as int)[k - mid] == objs2[k]);
                assert(objs1.skip(mid as int)[k - mid] == objs1[k]);
            }
        }
        let ri = build_node(objects, mid, hi, leaf_threshold, table, samples, nodes);
        let ghost objs3 = objects@;
        let ghost nodes3 = nodes@;
        proof {
            // The left subtree survives the right build: its nodes are a
            // stable prefix and its object slice is untouched.
            assert(forall|j: int| li <= j < nodes2.len() ==> nodes3[j] == nodes2[j]) by {
                assert(nodes3.take(ri as int) == nodes2);
            }
            lemma_wf_node_stable(
                nodes2,
                nodes3,
                objs2,
                table@,
                samples as int,
                li as int,
                lo as int,
                mid as int,
            );
            assert(objs2.subrange(lo as int, mid as int) =~= objs3.subrange(lo as int, mid as int))
                by {
                assert(objs3.take(mid as int) == objs2.take(mid as int));
                assert forall|k: int|
                    #![trigger objs2.subrange(lo as int, mid as int)[k]]
                    0 <= k < mid - lo implies objs2.subrange(lo as int, mid as int)[k]
                    == objs3.subrange(lo as int, mid as int)[k] by {
                    assert(objs2.take(mid as int)[lo + k] == objs2[lo + k]);
                    assert(objs3.take(mid as int)[lo + k] == objs3[lo + k]);
                }
            }
            lemma_wf_node_objs(
                nodes3,
                objs2,
                objs3,
                table@,
                samples as int,
                li as int,
                lo as int,
                mid as int,
            );
        }
        let lb = get_node_bounds(nodes, li);
        let rb = get_node_bounds(nodes, ri);
        proof {
            lemma_union_samples_wf(lb@, rb@);
        }
        let b = union_samples(&lb, &rb);
        let node = BvhNode::Internal { bounds: b, second_child: ri, split_axis: axis };
        vstd::pervasive::VecAdditionalExecFns::set(nodes, my, node);
        proof {
            let nodes4 = nodes@;
            assert(forall|j: int| li <= j < nodes3.len() ==> nodes4[j] == nodes3[j]);
            lemma_wf_node_stable(
                nodes3,
                nodes4,
                objs3,
                table@,
                samples as int,
                li as int,
                lo as int,
                mid as int,
            );
            lemma_wf_node_stable(
                nodes3,
                nodes4,
                objs3,
                table@,
                samples as int,
                ri as int,
                mid as int,
                hi as int,
            );
            assert(wf_node(
                nodes4,
                objs3,
                table@,
                samples as int,
                li as int,
                lo as int,
                mid as int,
            ));
            assert(wf_node(nodes4, objs3, table@, samples as int, ri as int, mid as int, hi as int));
            assert(li == my + 1);
            lemma_wf_span_end(
                nodes4,
                objs3,
                table@,
                samples as int,
                li as int,
                lo as int,
                mid as int,
            );
            assert(wf_node(
                nodes4,
                objs3,
                table@,
                samples as int,
                my as int,
                lo as int,
                hi as int,
            ));
            // Compose the object-array bookkeeping across both halves.
            assert(nodes1.take(my as int) =~= old(nodes)@);
            assert(nodes2.take(my as int) =~= nodes1.take(my as int)) by {
                assert forall|k: int|
                    #![trigger nodes2.take(my as int)[k]]
                    0 <= k < my implies nodes2.take(my as int)[k] == nodes1.take(my as int)[k] by {
                    assert(nodes2.take(li as int)[k] == nodes2[k]);
                }
            }
            assert(nodes3.take(my as int) =~= nodes2.take(my as int)) by {
                assert forall|k: int|
                    #![trigger nodes3.take(my as int)[k]]
                    0 <= k < my implies nodes3.take(my as int)[k] == nodes2.take(my as int)[k] by {
                    assert(nodes3.take(ri as int)[k] == nodes3[k]);
                }
            }
            assert(final(nodes)@.take(my as int) =~= nodes3.take(my as int));
            assert(final(nodes)@.take(my as int) =~= old(nodes)@);
            assert(objs2.skip(hi as int) =~= objs1.skip(hi as int)) by {
                assert forall|k: int|
                    #![trigger objs2.skip(hi as int)[k]]
                    0 <= k < objs2.len() - hi implies objs2.skip(hi as int)[k] == objs1.skip(
                    hi as int,
                )[k] by {
                    assert(objs2.skip(mid as int)[hi - mid + k] == objs2[hi + k]);
                    assert(objs1.skip(mid as int)[hi - mid + k] == objs1[hi + k]);
                }
            }
            assert(objs3.take(lo as int) =~= old(objects)@.take(lo as int)) by {
                assert forall|k: int|
                    #![trigger objs3.take(lo as int)[k]]
                    0 <= k < lo implies objs3.take(lo as int)[k] == old(objects)@.take(
                    lo as int,
                )[k] by {
                    assert(objs3.take(mid as int)[k] == objs3[k]);
                    assert(objs2.take(mid as int)[k] == objs2[k]);
                    assert(objs2.take(lo as int)[k] == objs2[k]);
                    assert(objs1.take(lo as int)[k] == objs1[k]);
                    assert(old(objects)@.take(lo as int)[k] == old(objects)@[k]);
                }
            }
            assert(objs3.skip(hi as int) =~= old(objects)@.skip(hi as int));
            lemma_span_multiset_compose(old(objects)@, objs1, objs2, objs3, lo as int, mid as int, hi as int);
            assert forall|k: int| lo <= k < hi implies (#[trigger] objs3[k]) + samples
                <= table@.len() by {
                if k < mid {
                    assert(objs3.subrange(lo as int, mid as int)[k - lo] == objs3[k]);
                    assert(objs2.subrange(lo as int, mid as int)[k - lo] == objs2[k]);
                }
            }
        }
        my
    }
}

/// Chains the multiset preservation of the split, the left build and the
/// right build into preservation over the whole span.
proof fn lemma_span_multiset_compose(
    s0: Seq<usize>,
    s1: Seq<usize>,
    s2: Seq<usize>,
    s3: Seq<usize>,
    lo: int,
    mid: int,
    hi: int,
)
    requires
        0 <= lo < mid < hi <= s0.len(),
        s0.len() == s1.len() && s1.len() == s2.len() && s2.len() == s3.len(),
        s1.subrange(lo, hi).to_multiset() == s0.subrange(lo, hi).to_multiset(),
        s2.subrange(lo, mid).to_multiset() == s1.subrange(lo, mid).to_multiset(),
        s2.take(lo) == s1.take(lo),
        s2.skip(mid) == s1.skip(mid),
        s3.subrange(mid, hi).to_multiset() == s2.subrange(mid, hi).to_multiset(),
        s3.take(mid) == s2.take(mid),
        s3.skip(hi) == s2.skip(hi),
    ensures
        s3.subrange(lo, hi).to_multiset() == s0.subrange(lo, hi).to_multiset(),
{
    broadcast use vstd::seq_lib::group_to_multiset_ensures;

    // Left halves of s2 and s3 agree, as do right halves of s1 and s2.
    assert(s3.subrange(lo, mid) =~= s2.subrange(lo, mid)) by {
        assert forall|k: int|
            #![trigger s3.subrange(lo, mid)[k]]
            0 <= k < mid - lo implies s3.subrange(lo, mid)[k] == s2.subrange(lo, mid)[k] by {
            assert(s3.take(mid)[lo + k] == s3[lo + k]);
            assert(s2.take(mid)[lo + k] == s2[lo + k]);
        }
    }
    assert(s2.subrange(mid, hi) =~= s1.subrange(mid, hi)) by {
        assert forall|k: int|
            #![trigger s2.subrange(mid, hi)[k]]
            0 <= k < hi - mid implies s2.subrange(mid, hi)[k] == s1.subrange(mid, hi)[k] by {
            assert(s2.skip(mid)[k] == s2[mid + k]);
            assert(s1.skip(mid)[k] == s1[mid + k]);
        }
    }
    assert(s3.subrange(lo, hi) =~= s3.subrange(lo, mid) + s3.subrange(mid, hi));
    assert(s1.subrange(lo, hi) =~= s1.subrange(lo, mid) + s1.subrange(mid, hi));
    vstd::seq_lib::lemma_multiset_commutative(s3.subrange(lo, mid), s3.subrange(mid, hi));
    vstd::seq_lib::lemma_multiset_commutative(s1.subrange(lo, mid), s1.subrange(mid, hi));
}

impl BinaryBVH {
    /// Recursively builds a hierarchy over the given objects, reordering
    /// them in place; object `o` owns the boxes `table[o .. o + samples]`.
    /// A span of at most `leaf_threshold` objects becomes a leaf.
    pub fn build(
        objects: &mut Vec<usize>,
        leaf_threshold: usize,
        table: &Vec<BBox>,
        samples: usize,
    ) -> (r: BinaryBVH)
        requires
            old(objects)@.len() >= 1,
            leaf_threshold >= 1,
            1 <= samples <= TIME_ONE,
            boxes_wf(table@),
            objects_in_table(
                old(objects)@,
                0,
                old(objects)@.len() as int,
                table@.len() as int,
                samples as int,
            ),
        ensures
            final(objects)@.len() == old(objects)@.len(),
            final(objects)@.to_multiset() == old(objects)@.to_multiset(),
            r.wf(),
            r.n_objects == final(objects)@.len(),
            r.samples == samples,
            r.built_from@ == (final(objects)@, table@),
            old(objects)@.len() <= leaf_threshold ==> r.nodes@.len() == 1,
    {
        let n = objects.len();
        let mut nodes: Vec<BvhNode> = Vec::new();
        proof {
            assert(old(objects)@.subrange(0, n as int) =~= old(objects)@);
        }
        let root = build_node(objects, 0, n, leaf_threshold, table, samples, &mut nodes);
        proof {
            assert(objects@.subrange(0, n as int) =~= objects@);
        }
        BinaryBVH { nodes, n_objects: n, samples, built_from: Ghost((objects@, table@)) }
    }
}


/// Whether a ray is still live and meets the given time-sample bounds
/// within its current distance limit.
pub open spec fn ray_live_hit(b: Seq<BBox>, r: AccelRay) -> bool {
    !r.done && spec_ray_hits(
        spec_box_at_time(b, r.time),
        r.orig,
        r.dir,
        r.max_t_num as int,
        r.max_t_den as int,
    )
}

/// The after-state of one ray relative to a before-state: same identity,
/// distance limit only tightened, done flag only set.
pub open spec fn ray_tightened(pre: AccelRay, post: AccelRay) -> bool {
    &&& post.ident() == pre.ident()
    &&& frac_le(
        post.max_t_num as int,
        post.max_t_den as int,
        pre.max_t_num as int,
        pre.max_t_den as int,
    )
    &&& (pre.done ==> post.done)
}

/// Whether a ray is a tightened version of some ray of the batch.
pub open spec fn ray_from_batch(pre: Seq<AccelRay>, r: AccelRay) -> bool {
    exists|j: int| 0 <= j < pre.len() && #[trigger] ray_tightened(pre[j], r)
}

/// Every ray of the after-state is a tightened version of some ray of the
/// before-state, and the rays' identities are the same multiset.
pub open spec fn rays_evolved(pre: Seq<AccelRay>, post: Seq<AccelRay>) -> bool {
    &&& post.len() == pre.len()
    &&& forall|i: int|
        0 <= i < post.len() ==> #[trigger] ray_from_batch(pre, post[i])
    &&& rays_idents(post).to_multiset() == rays_idents(pre).to_multiset()
}

/// The identity parts of a batch of rays.
pub open spec fn rays_idents(s: Seq<AccelRay>) -> Seq<(u32, Point, crate::math::Vector, u32, bool)> {
    s.map_values(|r: AccelRay| r.ident())
}

/// A batch evolves trivially from itself.
pub proof fn lemma_rays_evolved_refl(s: Seq<AccelRay>)
    ensures
        rays_evolved(s, s),
{
    assert forall|i: int| 0 <= i < s.len() implies #[trigger] ray_from_batch(s, s[i]) by {
        assert(ray_tightened(s[i], s[i]));
    }
}

/// Evolution of a ray batch composes.
pub proof fn lemma_rays_evolved_trans(a: Seq<AccelRay>, b: Seq<AccelRay>, c: Seq<AccelRay>)
    requires
        rays_evolved(a, b),
        rays_evolved(b, c),
        forall|i: int| 0 <= i < a.len() ==> (#[trigger] a[i]).wf(),
        forall|i: int| 0 <= i < b.len() ==> (#[trigger] b[i]).wf(),
        forall|i: int| 0 <= i < c.len() ==> (#[trigger] c[i]).wf(),
    ensures
        rays_evolved(a, c),
{
    assert forall|i: int| 0 <= i < c.len() implies #[trigger] ray_from_batch(a, c[i]) by {
        assert(ray_from_batch(b, c[i]));
        let jb = choose|jb: int| 0 <= jb < b.len() && ray_tightened(b[jb], c[i]);
        assert(ray_from_batch(a, b[jb]));
        let ja = choose|ja: int| 0 <= ja < a.len() && ray_tightened(a[ja], b[jb]);
        crate::bbox::lemma_frac_le_trans(
            c[i].max_t_num as int,
            c[i].max_t_den as int,
            b[jb].max_t_num as int,
            b[jb].max_t_den as int,
            a[ja].max_t_num as int,
            a[ja].max_t_den as int,
        );
        assert(ray_tightened(a[ja], c[i]));
    }
}

/// A batch that was only reordered (its value multiset kept) has evolved.
pub proof fn lemma_rays_permuted_evolved(a: Seq<AccelRay>, b: Seq<AccelRay>)
    requires
        a.to_multiset() == b.to_multiset(),
    ensures
        rays_evolved(a, b),
{
    broadcast use vstd::seq_lib::group_to_multiset_ensures;

    vstd::seq_lib::to_multiset_len(a);
    vstd::seq_lib::to_multiset_len(b);
    assert forall|i: int| 0 <= i < b.len() implies #[trigger] ray_from_batch(a, b[i]) by {
        assert(b.contains(b[i]));
        vstd::seq_lib::to_multiset_contains(b, b[i]);
        vstd::seq_lib::to_multiset_contains(a, b[i]);
        let j = choose|j: int| 0 <= j < a.len() && a[j] == b[i];
        assert(ray_tightened(a[j], b[i]));
    }
    let f = |r: AccelRay| r.ident();
    crate::algorithm::lemma_map_values_multiset(a, b, f);
    assert(rays_idents(a) =~= a.map_values(f));
    assert(rays_idents(b) =~= b.map_values(f));
}


/// The live (not done) rays of a batch, as a multiset.
pub open spec fn live_multiset(s: Seq<AccelRay>) -> Multiset<AccelRay> {
    s.to_multiset().filter(|r: AccelRay| !r.done)
}

/// The live rays of a batch that meet the given time-sample bounds
/// within their current distance limits, as a multiset.
pub open spec fn live_hit_multiset(b: Seq<BBox>, s: Seq<AccelRay>) -> Multiset<AccelRay> {
    s.to_multiset().filter(|r: AccelRay| ray_live_hit(b, r))
}

/// A batch of live rays is its own live multiset.
pub(crate) proof fn lemma_live_multiset_all_live(s: Seq<AccelRay>)
    requires
        forall|i: int| 0 <= i < s.len() ==> !(#[trigger] s[i]).done,
    ensures
        live_multiset(s) == s.to_multiset(),
{
    broadcast use vstd::multiset::group_multiset_axioms;
    broadcast use vstd::seq_lib::group_to_multiset_ensures;

    assert forall|x: AccelRay| live_multiset(s).count(x) == s.to_multiset().count(x) by {
        if x.done {
            if s.to_multiset().count(x) > 0 {
                vstd::seq_lib::to_multiset_contains(s, x);
                let i = choose|i: int| 0 <= i < s.len() && s[i] == x;
                assert(!s[i].done);
            }
        }
    }
    assert(live_multiset(s) =~= s.to_multiset());
}

/// After a prefix partition whose front is exactly the live rays, the
/// front's multiset is the live multiset of the handed prefix.
proof fn lemma_partition_prefix_live(pre: Seq<AccelRay>, post: Seq<AccelRay>, n: int, r: int)
    requires
        0 <= r <= n <= pre.len(),
        post.len() == pre.len(),
        post.take(n).to_multiset() == pre.take(n).to_multiset(),
        forall|i: int| 0 <= i < r ==> !(#[trigger] post[i]).done,
        forall|i: int| r <= i < n ==> (#[trigger] post[i]).done,
    ensures
        post.take(r).to_multiset() == live_multiset(pre.take(n)),
{
    broadcast use vstd::multiset::group_multiset_axioms;
    broadcast use vstd::seq_lib::group_to_multiset_ensures;

    assert(post.take(n) =~= post.take(r) + post.subrange(r, n));
    vstd::seq_lib::lemma_multiset_commutative(post.take(r), post.subrange(r, n));
    assert forall|x: AccelRay| post.take(r).to_multiset().count(x) == live_multiset(
        pre.take(n),
    ).count(x) by {
        if x.done {
            // A done ray cannot sit in the live front.
            if post.take(r).to_multiset().count(x) > 0 {
                vstd::seq_lib::to_multiset_contains(post.take(r), x);
                let i = choose|i: int| 0 <= i < post.take(r).len() && post.take(r)[i] == x;
                assert(post.take(r)[i] == post[i]);
            }
        } else {
            // A live ray cannot sit in the done back, so its count in the
            // whole prefix is its count in the front.
            if post.subrange(r, n).to_multiset().count(x) > 0 {
                vstd::seq_lib::to_multiset_contains(post.subrange(r, n), x);
                let i = choose|i: int|
                    0 <= i < post.subrange(r, n).len() && post.subrange(r, n)[i] == x;
                assert(post.subrange(r, n)[i] == post[r + i]);
            }
            assert(post.subrange(r, n).to_multiset().count(x) == 0);
        }
    }
    assert(post.take(r).to_multiset() =~= live_multiset(pre.take(n)));
}

/// After a prefix partition whose front is exactly the live rays meeting
/// the given bounds, the front's multiset is the live-hit multiset of the
/// handed prefix.
proof fn lemma_partition_prefix_live_hit(
    b: Seq<BBox>,
    pre: Seq<AccelRay>,
    post: Seq<AccelRay>,
    n: int,
    r: int,
)
    requires
        0 <= r <= n <= pre.len(),
        post.len() == pre.len(),
        post.take(n).to_multiset() == pre.take(n).to_multiset(),
        forall|i: int| 0 <= i < r ==> ray_live_hit(b, #[trigger] post[i]),
        forall|i: int| r <= i < n ==> !ray_live_hit(b, #[trigger] post[i]),
    ensures
        post.take(r).to_multiset() == live_hit_multiset(b, pre.take(n)),
{
    broadcast use vstd::multiset::group_multiset_axioms;
    broadcast use vstd::seq_lib::group_to_multiset_ensures;

    assert(post.take(n) =~= post.take(r) + post.subrange(r, n));
    vstd::seq_lib::lemma_multiset_commutative(post.take(r), post.subrange(r, n));
    assert forall|x: AccelRay| post.take(r).to_multiset().count(x) == live_hit_multiset(
        b,
        pre.take(n),
    ).count(x) by {
        if !ray_live_hit(b, x) {
            if post.take(r).to_multiset().count(x) > 0 {
                vstd::seq_lib::to_multiset_contains(post.take(r), x);
                let i = choose|i: int| 0 <= i < post.take(r).len() && post.take(r)[i] == x;
                assert(post.take(r)[i] == post[i]);
            }
        } else {
            if post.subrange(r, n).to_multiset().count(x) > 0 {
                vstd::seq_lib::to_multiset_contains(post.subrange(r, n), x);
                let i = choose|i: int|
                    0 <= i < post.subrange(r, n).len() && post.subrange(r, n)[i] == x;
                assert(post.subrange(r, n)[i] == post[r + i]);
            }
            assert(post.subrange(r, n).to_multiset().count(x) == 0);
        }
    }
    assert(post.take(r).to_multiset() =~= live_hit_multiset(b, pre.take(n)));
}

/// One callback-log entry is sound for the given object array: the object
/// handed over is one of the array's, and the handed subset is nonempty,
/// well formed and live.
pub open spec fn entry_sound<T>(objects: Seq<T>, entry: (T, Seq<AccelRay>)) -> bool {
    &&& exists|oi: int| 0 <= oi < objects.len() && #[trigger] objects[oi] == entry.0
    &&& entry.1.len() >= 1
    &&& forall|p: int|
        0 <= p < entry.1.len() ==> (#[trigger] entry.1[p]).wf() && !entry.1[p].done
}

/// The visitor's invocation log only grew, and every appended entry is
/// sound for the given object array.
pub open spec fn log_extended<T>(
    objects: Seq<T>,
    pre: Seq<(T, Seq<AccelRay>)>,
    post: Seq<(T, Seq<AccelRay>)>,
) -> bool {
    &&& post.len() >= pre.len()
    &&& post.take(pre.len() as int) == pre
    &&& forall|q: int| pre.len() <= q < post.len() ==> entry_sound(objects, #[trigger] post[q])
}

/// Log extension is reflexive.
pub proof fn lemma_log_extended_refl<T>(objects: Seq<T>, log: Seq<(T, Seq<AccelRay>)>)
    ensures
        log_extended(objects, log, log),
{
    assert(log.take(log.len() as int) =~= log);
}

/// Log extension composes.
pub proof fn lemma_log_extended_trans<T>(
    objects: Seq<T>,
    a: Seq<(T, Seq<AccelRay>)>,
    b: Seq<(T, Seq<AccelRay>)>,
    c: Seq<(T, Seq<AccelRay>)>,
)
    requires
        log_extended(objects, a, b),
        log_extended(objects, b, c),
    ensures
        log_extended(objects, a, c),
{
    assert(c.take(a.len() as int) =~= a) by {
        assert forall|q: int|
            #![trigger c.take(a.len() as int)[q]]
            0 <= q < a.len() implies c.take(a.len() as int)[q] == a[q] by {
            assert(c.take(b.len() as int)[q] == c[q]);
            assert(b.take(a.len() as int)[q] == b[q]);
        }
    }
    assert forall|q: int| a.len() <= q < c.len() implies entry_sound(
        objects,
        #[trigger] c[q],
    ) by {
        if q < b.len() {
            assert(c.take(b.len() as int)[q] == c[q]);
            assert(c[q] == b[q]);
        }
    }
}

/// The callback a traversal hands each surviving ray subset to, once per
/// (leaf object, subset) pair.  An implementation may tighten a ray's
/// distance limit and mark it done, and nothing else: identity, origin,
/// direction, time and the occlusion flag stay, and rays past the subset
/// stay untouched.  Each invocation is recorded in the visitor's own
/// invocation log, so a traversal can promise which (object, subset)
/// pairs it handed over.
pub trait LeafTest<T: Copy> {
    /// The log of callback invocations so far: one entry per (object,
    /// handed subset) pair, in order.  The default stands for visitors
    /// that keep no log; a visitor that wants the traversal's schedule
    /// guarantees maintains its own.
    open spec fn visited(&self) -> Seq<(T, Seq<AccelRay>)> {
        Seq::empty()
    }

    fn visit(&mut self, obj: T, rays: &mut Vec<AccelRay>, k: usize)
        requires
            k <= old(rays)@.len(),
            forall|i: int| 0 <= i < old(rays)@.len() ==> (#[trigger] old(rays)@[i]).wf(),
            forall|i: int| 0 <= i < k ==> !(#[trigger] old(rays)@[i]).done,
        ensures
            final(rays)@.len() == old(rays)@.len(),
            forall|i: int|
                k <= i < final(rays)@.len() ==> final(rays)@[i] == old(rays)@[i],
            forall|i: int|
                0 <= i < k ==> ((#[trigger] final(rays)@[i]).ident() == old(rays)@[i].ident()
                    && final(rays)@[i].wf() && frac_le(
                    final(rays)@[i].max_t_num as int,
                    final(rays)@[i].max_t_den as int,
                    old(rays)@[i].max_t_num as int,
                    old(rays)@[i].max_t_den as int,
                ) && (old(rays)@[i].done ==> final(rays)@[i].done)),
            final(self).visited() == old(self).visited().push((obj, old(rays)@.take(k as int))),
    ;
}

/// The pinned invocation schedule of one leaf with bounds `b` over the
/// object span `[s, e)`: entries hand the span's objects over in order
/// from `s`; an entry exists exactly when some handed ray is live and
/// meets `b`; the first handed subset is exactly those rays; and the
/// schedule ends early only when no handed ray can still meet `b`.
pub open spec fn leaf_schedule<T>(
    b: Seq<BBox>,
    s: int,
    e: int,
    objects: Seq<T>,
    rays_pre: Seq<AccelRay>,
    rays_post: Seq<AccelRay>,
    log_pre: Seq<(T, Seq<AccelRay>)>,
    log_post: Seq<(T, Seq<AccelRay>)>,
) -> bool {
    &&& log_post.len() - log_pre.len() <= e - s
    &&& forall|q: int|
        log_pre.len() <= q < log_post.len() ==> (#[trigger] log_post[q]).0 == objects[s + q
            - log_pre.len()]
    &&& (log_post.len() > log_pre.len()) <==> live_hit_multiset(b, rays_pre) != Multiset::<
        AccelRay,
    >::empty()
    &&& log_post.len() > log_pre.len() ==> log_post[log_pre.len() as int].1.to_multiset()
        == live_hit_multiset(b, rays_pre)
    &&& (log_post.len() - log_pre.len() < e - s) ==> forall|i: int|
        0 <= i < rays_post.len() ==> !ray_live_hit(b, #[trigger] rays_post[i])
}

/// Visits one subtree with the live prefix `rays[0 .. n_live]`.
///
/// Besides the ray bookkeeping, the visitor's log only grows by sound
/// entries; and when the node is itself a leaf, the invocation schedule
/// is pinned: the leaf's objects are handed over in order from the
/// leaf's start, an entry exists exactly when some handed ray is live
/// and meets the node's bounds, the first handed subset is exactly those
/// rays, and the schedule ends early only when no handed ray is live
/// anymore.
fn traverse_node<T: Copy, V: LeafTest<T>>(
    nodes: &Vec<BvhNode>,
    idx: usize,
    Ghost(objs_g): Ghost<Seq<usize>>,
    Ghost(table_g): Ghost<Seq<BBox>>,
    Ghost(samples_g): Ghost<int>,
    Ghost(lo): Ghost<int>,
    Ghost(hi): Ghost<int>,
    rays: &mut Vec<AccelRay>,
    n_live: usize,
    objects: &Vec<T>,
    visitor: &mut V,
)
    requires
        wf_node(nodes@, objs_g, table_g, samples_g, idx as int, lo, hi),
        hi <= objects@.len(),
        n_live <= old(rays)@.len(),
        forall|i: int| 0 <= i < old(rays)@.len() ==> (#[trigger] old(rays)@[i]).wf(),
    ensures
        final(rays)@.len() == old(rays)@.len(),
        forall|i: int| 0 <= i < final(rays)@.len() ==> (#[trigger] final(rays)@[i]).wf(),
        final(rays)@.skip(n_live as int) == old(rays)@.skip(n_live as int),
        rays_evolved(old(rays)@, final(rays)@),
        log_extended(objects@, old(visitor).visited(), final(visitor).visited()),
        nodes@[idx as int] is Leaf ==> leaf_schedule(
            node_bounds(nodes@[idx as int]),
            nodes@[idx as int]->Leaf_start as int,
            nodes@[idx as int]->Leaf_end as int,
            objects@,
            old(rays)@.take(n_live as int),
            final(rays)@.take(n_live as int),
            old(visitor).visited(),
            final(visitor).visited(),
        ),
    decreases hi - lo,
{
    let ghost pre = old(rays)@;
    let ghost base = old(visitor).visited();
    let bvec = get_node_bounds(nodes, idx);
    let k = partition_live_hits(rays, n_live, &bvec);
    let ghost mid_state = rays@;
    if k == 0 {
        proof {
            lemma_log_extended_refl(objects@, base);
            if nodes@[idx as int] is Leaf {
                broadcast use vstd::multiset::group_multiset_axioms;

                vstd::seq_lib::to_multiset_len(mid_state.take(k as int));
                assert(mid_state.take(0) =~= Seq::<AccelRay>::empty());
                assert(live_hit_multiset(bvec@, pre.take(n_live as int)) =~= Multiset::<
                    AccelRay,
                >::empty());
            }
        }
        return ;
    }
    match &nodes[idx] {
        BvhNode::Leaf { bounds: _, start, end } => {
            let s = *start;
            let e = *end;
            let ghost stage = rays@;
            visit_leaf_objects(objects, s, e, rays, k, visitor);
            proof {
                assert(rays@.skip(n_live as int) =~= stage.skip(n_live as int)) by {
                    assert forall|q: int|
                        #![trigger rays@.skip(n_live as int)[q]]
                        0 <= q < rays@.len() - n_live implies rays@.skip(n_live as int)[q]
                        == stage.skip(n_live as int)[q] by {
                        assert(rays@.skip(k as int)[n_live - k + q] == rays@[n_live + q]);
                        assert(stage.skip(k as int)[n_live - k + q] == stage[n_live + q]);
                    }
                }
                lemma_rays_evolved_trans(pre, stage, rays@);
                // The schedule facts, lifted from the handed prefix to the
                // incoming batch prefix.
                broadcast use vstd::multiset::group_multiset_axioms;

                vstd::seq_lib::to_multiset_len(stage.take(k as int));
                assert(stage.take(k as int).len() == k);
                if visitor.visited().len() > base.len() {
                    lemma_live_multiset_all_live(stage.take(k as int));
                    assert(visitor.visited()[base.len() as int].1.to_multiset()
                        == live_hit_multiset(bvec@, pre.take(n_live as int)));
                }
                assert((visitor.visited().len() > base.len()) <==> live_hit_multiset(
                    bvec@,
                    pre.take(n_live as int),
                ) != Multiset::<AccelRay>::empty()) by {
                    if visitor.visited().len() > base.len() {
                        assert(exists|i: int| 0 <= i < k && !(#[trigger] stage[i]).done);
                        vstd::seq_lib::to_multiset_len(stage.take(k as int));
                        assert(live_hit_multiset(bvec@, pre.take(n_live as int)).len() == k);
                    } else {
                        assert(!(s < e && exists|i: int|
                            0 <= i < k && !(#[trigger] stage[i]).done));
                        assert(s < e);
                        assert(!stage[0].done);
                    }
                }
                if visitor.visited().len() - base.len() < e - s {
                    assert forall|i: int| 0 <= i < n_live implies !ray_live_hit(
                        bvec@,
                        #[trigger] rays@.take(n_live as int)[i],
                    ) by {
                        assert(rays@.take(n_live as int)[i] == rays@[i]);
                        if i < k {
                            assert(rays@[i].done);
                        } else {
                            assert(rays@.skip(k as int)[i - k] == rays@[i]);
                            assert(stage.skip(k as int)[i - k] == stage[i]);
                        }
                    }
                }
                assert forall|q: int| base.len() <= q < visitor.visited().len() implies (
                #[trigger] visitor.visited()[q]).0 == objects@[s + q - base.len()] by {}
            }
        },
        BvhNode::Internal { bounds: _, second_child, split_axis } => {
            let sc = *second_child;
            let axis = *split_axis;
            let ghost mid = span_end(nodes@, idx + 1);
            let near_first = rays[0].dir.axis(axis) >= 0;
            let (c1, c2) = if near_first {
                (idx + 1, sc)
            } else {
                (sc, idx + 1)
            };
            let ghost (r1lo, r1hi) = if near_first {
                (lo, mid)
            } else {
                (mid, hi)
            };
            let ghost (r2lo, r2hi) = if near_first {
                (mid, hi)
            } else {
                (lo, mid)
            };
            let ghost before1 = rays@;
            let ghost log1 = visitor.visited();
            traverse_node(
                nodes,
                c1,
                Ghost(objs_g),
                Ghost(table_g),
                Ghost(samples_g),
                Ghost(r1lo),
                Ghost(r1hi),
                rays,
                k,
                objects,
                visitor,
            );
            let ghost after1 = rays@;
            let ghost log2 = visitor.visited();
            proof {
                lemma_rays_evolved_trans(pre, before1, after1);
                assert(after1.skip(n_live as int) =~= before1.skip(n_live as int)) by {
                    assert forall|q: int|
                        #![trigger after1.skip(n_live as int)[q]]
                        0 <= q < after1.len() - n_live implies after1.skip(n_live as int)[q]
                        == before1.skip(n_live as int)[q] by {
                        assert(after1.skip(k as int)[n_live - k + q] == after1[n_live + q]);
                        assert(before1.skip(k as int)[n_live - k + q] == before1[n_live + q]);
                    }
                }
            }
            traverse_node(
                nodes,
                c2,
                Ghost(objs_g),
                Ghost(table_g),
                Ghost(samples_g),
                Ghost(r2lo),
                Ghost(r2hi),
                rays,
                k,
                objects,
                visitor,
            );
            proof {
                let after2 = rays@;
                lemma_rays_evolved_trans(pre, after1, after2);
                assert(after2.skip(n_live as int) =~= after1.skip(n_live as int)) by {
                    assert forall|q: int|
                        #![trigger after2.skip(n_live as int)[q]]
                        0 <= q < after2.len() - n_live implies after2.skip(n_live as int)[q]
                        == after1.skip(n_live as int)[q] by {
                        assert(after2.skip(k as int)[n_live - k + q] == after2[n_live + q]);
                        assert(after1.skip(k as int)[n_live - k + q] == after1[n_live + q]);
                    }
                }
                assert(log1 == base);
                lemma_log_extended_trans(objects@, base, log2, visitor.visited());
            }
        },
    }
}

/// Hands each object of a leaf span to the visitor with the rays that
/// still survive, re-partitioning the live rays between objects so a ray
/// marked done never reappears in a later subset.
///
/// The visitor's invocation log pins the schedule: the appended entries
/// hand over the span's objects in order from its start; the first
/// handed subset is exactly the live rays of the incoming prefix; an
/// entry is appended at all exactly when the span is nonempty and some
/// incoming ray is live; and the schedule ends early only once every ray
/// of the prefix is done.
pub(crate) fn visit_leaf_objects<T: Copy, V: LeafTest<T>>(
    objects: &Vec<T>,
    s: usize,
    e: usize,
    rays: &mut Vec<AccelRay>,
    k: usize,
    visitor: &mut V,
)
    requires
        s <= e <= objects@.len(),
        k <= old(rays)@.len(),
        forall|i: int| 0 <= i < old(rays)@.len() ==> (#[trigger] old(rays)@[i]).wf(),
    ensures
        final(rays)@.len() == old(rays)@.len(),
        forall|i: int| 0 <= i < final(rays)@.len() ==> (#[trigger] final(rays)@[i]).wf(),
        final(rays)@.skip(k as int) == old(rays)@.skip(k as int),
        rays_evolved(old(rays)@, final(rays)@),
        log_extended(objects@, old(visitor).visited(), final(visitor).visited()),
        final(visitor).visited().len() - old(visitor).visited().len() <= e - s,
        forall|q: int|
            old(visitor).visited().len() <= q < final(visitor).visited().len() ==> (
            #[trigger] final(visitor).visited()[q]).0 == objects@[s + q - old(
                visitor,
            ).visited().len()],
        (final(visitor).visited().len() > old(visitor).visited().len()) <==> (s < e && exists|
            i: int,
        |
            0 <= i < k && !(#[trigger] old(rays)@[i]).done),
        final(visitor).visited().len() > old(visitor).visited().len()
            ==> final(visitor).visited()[old(visitor).visited().len() as int].1.to_multiset()
            == live_multiset(old(rays)@.take(k as int)),
        (final(visitor).visited().len() - old(visitor).visited().len() < e - s && s < e) ==> forall|
            i: int,
        | 0 <= i < k ==> (#[trigger] final(rays)@[i]).done,
{
    let ghost stage = old(rays)@;
    let ghost base = old(visitor).visited();
    let mut kcur = k;
    let mut oi = s;
    proof {
        lemma_rays_evolved_refl(stage);
        lemma_log_extended_refl(objects@, base);
        assert(visitor.visited().take(base.len() as int) =~= base);
    }
    while oi < e && kcur > 0
        invariant
            s <= oi <= e <= objects@.len(),
            kcur <= k <= rays@.len(),
            rays@.len() == stage.len(),
            forall|i: int| 0 <= i < stage.len() ==> (#[trigger] stage[i]).wf(),
            forall|i: int| 0 <= i < rays@.len() ==> (#[trigger] rays@[i]).wf(),
            rays@.skip(k as int) == stage.skip(k as int),
            rays_evolved(stage, rays@),
            forall|i: int| kcur <= i < k ==> (#[trigger] rays@[i]).done,
            visitor.visited().len() == base.len() + (oi - s),
            visitor.visited().take(base.len() as int) == base,
            forall|q: int|
                base.len() <= q < visitor.visited().len() ==> entry_sound(
                    objects@,
                    #[trigger] visitor.visited()[q],
                ),
            forall|q: int|
                base.len() <= q < visitor.visited().len() ==> (#[trigger] visitor.visited()[q]).0
                    == objects@[s + q - base.len()],
            oi > s ==> visitor.visited()[base.len() as int].1.to_multiset() == live_multiset(
                stage.take(k as int),
            ),
            oi == s ==> (kcur == k || kcur == 0),
            oi == s ==> rays@.take(k as int).to_multiset() == stage.take(k as int).to_multiset(),
            oi > s ==> exists|i: int| 0 <= i < k && !(#[trigger] stage[i]).done,
        decreases e - oi, kcur,
    {
        let ghost before = rays@;
        let live_pred = |r: &AccelRay| -> (res: bool)
            ensures
                res == !r.done,
            { !r.is_done() };
        proof {
            assert(forall|t: AccelRay| call_requires(live_pred, (&t,)));
        }
        let k2 = partition_range(rays, kcur, live_pred);
        let ghost after_part = rays@;
        proof {
            lemma_prefix_multiset_preserved(before, after_part, kcur as int);
            lemma_rays_permuted_evolved(before, after_part);
            assert forall|i: int| 0 <= i < after_part.len() implies (#[trigger] after_part[i]).wf() by {
                lemma_wf_from_permutation(before, after_part, kcur as int, i);
            }
            lemma_rays_evolved_trans(stage, before, after_part);
            assert(after_part.skip(k as int) =~= before.skip(k as int)) by {
                assert forall|q: int|
                    #![trigger after_part.skip(k as int)[q]]
                    0 <= q < after_part.len() - k implies after_part.skip(k as int)[q]
                    == before.skip(k as int)[q] by {
                    assert(after_part.skip(kcur as int)[k - kcur + q] == after_part[k + q]);
                    assert(before.skip(kcur as int)[k - kcur + q] == before[k + q]);
                }
            }
            // The partition's regions: a live front, a done back.
            assert forall|i: int| 0 <= i < k2 implies !(#[trigger] after_part[i]).done by {
                assert(call_ensures(live_pred, (&after_part[i],), true));
            }
            assert forall|i: int| k2 <= i < k implies (#[trigger] after_part[i]).done by {
                if i < kcur {
                    assert(call_ensures(live_pred, (&after_part[i],), false));
                } else {
                    assert(after_part.skip(kcur as int)[i - kcur] == after_part[i]);
                    assert(before.skip(kcur as int)[i - kcur] == before[i]);
                }
            }
        }
        if k2 > 0 {
            let ghost before_visit = rays@;
            visitor.visit(objects[oi], rays, k2);
            proof {
                let av = rays@;
                assert forall|i: int| 0 <= i < av.len() implies (#[trigger] av[i]).wf() by {
                    if i >= k2 {
                        assert(av[i] == before_visit[i]);
                    }
                }
                assert(rays_idents(av) =~= rays_idents(before_visit));
                assert forall|i: int| 0 <= i < av.len() implies #[trigger] ray_from_batch(
                    before_visit,
                    av[i],
                ) by {
                    if i < k2 {
                        assert(ray_tightened(before_visit[i], av[i]));
                    } else {
                        assert(av[i] == before_visit[i]);
                        assert(ray_tightened(before_visit[i], av[i]));
                    }
                }
                assert(rays_evolved(before_visit, av));
                lemma_rays_evolved_trans(stage, before_visit, av);
                assert(av.skip(k as int) =~= before_visit.skip(k as int)) by {
                    assert forall|q: int|
                        #![trigger av.skip(k as int)[q]]
                        0 <= q < av.len() - k implies av.skip(k as int)[q] == before_visit.skip(
                        k as int,
                    )[q] by {
                        assert(av[k + q] == before_visit[k + q]);
                    }
                }
                // The done back stays done through the visit.
                assert forall|i: int| k2 <= i < k implies (#[trigger] av[i]).done by {
                    assert(av[i] == before_visit[i]);
                }
                // Log bookkeeping: one sound entry for this object.
                let entry = (objects@[oi as int], before_visit.take(k2 as int));
                assert(visitor.visited().take(base.len() as int) =~= base) by {
                    assert forall|q: int|
                        #![trigger visitor.visited().take(base.len() as int)[q]]
                        0 <= q < base.len() implies visitor.visited().take(base.len() as int)[q]
                        == base[q] by {
                        assert(visitor.visited().take(base.len() as int)[q]
                            == visitor.visited()[q]);
                    }
                }
                assert(entry_sound(objects@, entry)) by {
                    assert(objects@[oi as int] == entry.0);
                    assert forall|p: int| 0 <= p < entry.1.len() implies (#[trigger] entry.1[p]).wf()
                        && !entry.1[p].done by {
                        assert(entry.1[p] == before_visit[p]);
                    }
                }
                if oi == s {
                    // The first handed subset is exactly the live rays of
                    // the incoming prefix, and witnesses that a live ray
                    // came in at all.
                    assert(before_visit.take(k as int).to_multiset() == stage.take(
                        k as int,
                    ).to_multiset());
                    lemma_partition_prefix_live(stage, before_visit, k as int, k2 as int);
                    assert(entry.1.to_multiset() == live_multiset(stage.take(k as int)));
                    lemma_live_ray_survives(before_visit, stage, k as int, 0);
                }
            }
            kcur = k2;
            oi = oi + 1;
        } else {
            proof {
                if oi == s {
                    assert(after_part.take(k as int).to_multiset() == before.take(
                        k as int,
                    ).to_multiset());
                }
            }
            kcur = k2;
        }
    }
    proof {
        // Surface the schedule facts from the loop's exit state.
        let m = visitor.visited().len() - base.len();
        assert(m == oi - s);
        if m < e - s && s < e {
            // The schedule ended early, so the loop exited on an empty
            // live front, and everything before the window is done too.
            assert(oi < e);
            assert(kcur == 0);
        }
        if s < e && (exists|i: int| 0 <= i < k && !(#[trigger] stage[i]).done) && m == 0 {
            // A live incoming ray survives every pure permutation, so the
            // first partition cannot have come up empty.
            assert(oi == s);
            assert(kcur == 0);
            let i = choose|i: int| 0 <= i < k && !stage[i].done;
            lemma_live_ray_survives(stage, rays@, k as int, i);
            let q = choose|q: int| 0 <= q < k && !rays@[q].done;
            assert(rays@[q].done);
        }
        assert(visitor.visited().take(base.len() as int) == base);
    }
}

/// A live ray's value survives a prefix permutation: some position of
/// the permuted prefix still holds a live ray.
proof fn lemma_live_ray_survives(pre: Seq<AccelRay>, post: Seq<AccelRay>, k: int, i: int)
    requires
        0 <= i < k <= pre.len(),
        post.len() == pre.len(),
        post.take(k).to_multiset() == pre.take(k).to_multiset(),
        !pre[i].done,
    ensures
        exists|q: int| 0 <= q < k && !(#[trigger] post[q]).done,
{
    broadcast use vstd::seq_lib::group_to_multiset_ensures;

    assert(pre.take(k)[i] == pre[i]);
    assert(pre.take(k).contains(pre[i]));
    vstd::seq_lib::to_multiset_contains(pre.take(k), pre[i]);
    vstd::seq_lib::to_multiset_contains(post.take(k), pre[i]);
    let j = choose|j: int| 0 <= j < post.take(k).len() && post.take(k)[j] == pre[i];
    assert(post.take(k)[j] == post[j]);
    assert(!post[j].done);
}

/// Partitions the live rays that meet the given time-sample bounds to
/// the front of the prefix `rays[0 .. n_live]`, returning how many do.
pub(crate) fn partition_live_hits(rays: &mut Vec<AccelRay>, n_live: usize, bvec: &Vec<BBox>) -> (k:
    usize)
    requires
        samples_wf(bvec@),
        n_live <= old(rays)@.len(),
        forall|i: int| 0 <= i < old(rays)@.len() ==> (#[trigger] old(rays)@[i]).wf(),
    ensures
        k <= n_live,
        final(rays)@.len() == old(rays)@.len(),
        forall|i: int| 0 <= i < final(rays)@.len() ==> (#[trigger] final(rays)@[i]).wf(),
        final(rays)@.skip(n_live as int) == old(rays)@.skip(n_live as int),
        rays_evolved(old(rays)@, final(rays)@),
        forall|i: int| 0 <= i < k ==> !(#[trigger] final(rays)@[i]).done,
        forall|i: int| 0 <= i < k ==> ray_live_hit(bvec@, #[trigger] final(rays)@[i]),
        forall|i: int| k <= i < n_live ==> !ray_live_hit(bvec@, #[trigger] final(rays)@[i]),
        final(rays)@.take(k as int).to_multiset() == live_hit_multiset(
            bvec@,
            old(rays)@.take(n_live as int),
        ),
        final(rays)@.take(n_live as int).to_multiset() == old(rays)@.take(
            n_live as int,
        ).to_multiset(),
{
    let ghost pre = old(rays)@;
    let hit_pred = |r: &AccelRay| -> (res: bool)
        requires
            r.wf(),
        ensures
            res == ray_live_hit(bvec@, *r),
        {
            if r.is_done() {
                false
            } else {
                let bb = box_at_time(bvec, r.time);
                ray_box_interval(&bb, r.orig, r.dir, r.max_t_num, r.max_t_den).is_some()
            }
        };
    proof {
        assert forall|t: AccelRay| pre.take(n_live as int).to_multiset().contains(t)
            implies call_requires(hit_pred, (&t,)) by {
            vstd::seq_lib::to_multiset_contains(pre.take(n_live as int), t);
            let j = choose|j: int|
                0 <= j < pre.take(n_live as int).len() && pre.take(n_live as int)[j] == t;
            assert(pre.take(n_live as int)[j] == pre[j]);
        }
    }
    let k = partition_range(rays, n_live, hit_pred);
    proof {
        let mid_state = rays@;
        lemma_prefix_multiset_preserved(pre, mid_state, n_live as int);
        lemma_rays_permuted_evolved(pre, mid_state);
        assert forall|i: int| 0 <= i < mid_state.len() implies (#[trigger] mid_state[i]).wf() by {
            lemma_wf_from_permutation(pre, mid_state, n_live as int, i);
        }
        assert forall|i: int| 0 <= i < k implies !(#[trigger] mid_state[i]).done
            && ray_live_hit(bvec@, mid_state[i]) by {
            assert(call_ensures(hit_pred, (&mid_state[i],), true));
        }
        assert forall|i: int| k <= i < n_live implies !ray_live_hit(
            bvec@,
            #[trigger] mid_state[i],
        ) by {
            assert(call_ensures(hit_pred, (&mid_state[i],), false));
        }
        lemma_partition_prefix_live_hit(bvec@, pre, mid_state, n_live as int, k as int);
    }
    k
}

/// A partition of a prefix preserves the whole sequence's multiset.
proof fn lemma_prefix_multiset_preserved(pre: Seq<AccelRay>, post: Seq<AccelRay>, n: int)
    requires
        0 <= n <= pre.len(),
        post.len() == pre.len(),
        post.take(n).to_multiset() == pre.take(n).to_multiset(),
        post.skip(n) == pre.skip(n),
    ensures
        post.to_multiset() == pre.to_multiset(),
{
    assert(pre =~= pre.take(n) + pre.skip(n));
    assert(post =~= post.take(n) + post.skip(n));
    vstd::seq_lib::lemma_multiset_commutative(pre.take(n), pre.skip(n));
    vstd::seq_lib::lemma_multiset_commutative(post.take(n), post.skip(n));
}

/// After a prefix permutation every position still holds a well-formed
/// ray.
proof fn lemma_wf_from_permutation(pre: Seq<AccelRay>, post: Seq<AccelRay>, n: int, i: int)
    requires
        0 <= n <= pre.len(),
        post.len() == pre.len(),
        post.take(n).to_multiset() == pre.take(n).to_multiset(),
        post.skip(n) == pre.skip(n),
        forall|q: int| 0 <= q < pre.len() ==> (#[trigger] pre[q]).wf(),
        0 <= i < post.len(),
    ensures
        post[i].wf(),
{
    if i < n {
        assert(post.take(n)[i] == post[i]);
        assert(post.take(n).contains(post[i]));
        vstd::seq_lib::to_multiset_contains(post.take(n), post[i]);
        vstd::seq_lib::to_multiset_contains(pre.take(n), post[i]);
        let j = choose|j: int| 0 <= j < pre.take(n).len() && pre.take(n)[j] == post[i];
        assert(pre.take(n)[j] == pre[j]);
    } else {
        assert(post.skip(n)[i - n] == post[i]);
        assert(pre.skip(n)[i - n] == pre[i]);
    }
}

impl BinaryBVH {
    /// Resolves a batch of rays against the tree.  At each node the live
    /// (not done) rays that meet the node's time-interpolated bounds are
    /// partitioned to the front and carried into the children, near child
    /// first by the ray direction's sign on the node's split axis; each
    /// leaf object is handed to the visitor once with the rays that still
    /// survive.  Rays are only reordered and tightened: their identities
    /// are preserved as a multiset.  The visitor's invocation log grows
    /// only by sound entries; and for a single-leaf hierarchy the whole
    /// schedule is pinned: the objects are handed over in order from the
    /// start, a visit happens exactly when some ray is live and meets the
    /// root bounds, the first handed subset is exactly those rays, and
    /// the schedule ends early only when no ray can still meet them.
    pub fn traverse<T: Copy, V: LeafTest<T>>(
        &self,
        rays: &mut Vec<AccelRay>,
        objects: &Vec<T>,
        visitor: &mut V,
    )
        requires
            self.wf(),
            objects@.len() == self.n_objects,
            forall|i: int| 0 <= i < old(rays)@.len() ==> (#[trigger] old(rays)@[i]).wf(),
        ensures
            final(rays)@.len() == old(rays)@.len(),
            forall|i: int| 0 <= i < final(rays)@.len() ==> (#[trigger] final(rays)@[i]).wf(),
            rays_evolved(old(rays)@, final(rays)@),
            log_extended(objects@, old(visitor).visited(), final(visitor).visited()),
            self.nodes@.len() == 1 ==> self.nodes@[0] is Leaf && leaf_schedule(
                self.spec_bounds(),
                0,
                self.n_objects as int,
                objects@,
                old(rays)@,
                final(rays)@,
                old(visitor).visited(),
                final(visitor).visited(),
            ),
    {
        let n = rays.len();
        proof {
            if self.nodes@.len() == 1 {
                if self.nodes@[0] is Internal {
                    assert(1 < self.nodes@[0]->Internal_second_child < 1);
                }
                assert(self.nodes@[0]->Leaf_start == 0);
                assert(self.nodes@[0]->Leaf_end == self.n_objects);
            }
            assert(old(rays)@.take(n as int) =~= old(rays)@);
        }
        traverse_node(
            &self.nodes,
            0,
            Ghost(self.built_from@.0),
            Ghost(self.built_from@.1),
            Ghost(self.samples as int),
            Ghost(0int),
            Ghost(self.n_objects as int),
            rays,
            n,
            objects,
            visitor,
        );
        proof {
            assert(rays@.take(n as int) =~= rays@);
        }
    }
}


/// Whether node `j` lies in the subtree rooted at node `i`.
pub open spec fn in_subtree(nodes: Seq<BvhNode>, i: int, j: int) -> bool
    decreases nodes.len() - i,
{
    if 0 <= i < nodes.len() {
        i == j || (match nodes[i] {
            BvhNode::Leaf { .. } => false,
            BvhNode::Internal { second_child, .. } => if i + 1 < second_child < nodes.len() {
                in_subtree(nodes, i + 1, j) || in_subtree(nodes, second_child as int, j)
            } else {
                false
            },
        })
    } else {
        false
    }
}

/// Samplewise union covers both operands.
pub proof fn lemma_union_samples_covers(a: Seq<BBox>, b: Seq<BBox>)
    requires
        a.len() == b.len(),
    ensures
        covers_samples(spec_union_samples(a, b), a),
        covers_samples(spec_union_samples(a, b), b),
{
    assert forall|i: int| 0 <= i < a.len() implies (#[trigger] spec_union_samples(a, b)[i])
        .spec_contains_box(a[i]) && spec_union_samples(a, b)[i].spec_contains_box(b[i]) by {
        crate::bbox::lemma_union_bounds(a[i], b[i]);
    }
}

/// Bounds containment: in a well-formed hierarchy, a node's bounds
/// contain, time sample by time sample, the bounds of every node of its
/// subtree — so every leaf lies within every one of its ancestors.
pub proof fn lemma_node_covers_descendants(
    nodes: Seq<BvhNode>,
    objs: Seq<usize>,
    table: Seq<BBox>,
    samples: int,
    i: int,
    lo: int,
    hi: int,
    j: int,
)
    requires
        wf_node(nodes, objs, table, samples, i, lo, hi),
        in_subtree(nodes, i, j),
    ensures
        covers_samples(node_bounds(nodes[i]), node_bounds(nodes[j])),
    decreases hi - lo,
{
    if i == j {
        assert(covers_samples(node_bounds(nodes[i]), node_bounds(nodes[j])));
    } else {
        match nodes[i] {
            BvhNode::Leaf { .. } => {
            },
            BvhNode::Internal { bounds, second_child, split_axis } => {
                let mid = span_end(nodes, i + 1);
                let bl = node_bounds(nodes[i + 1]);
                let br = node_bounds(nodes[second_child as int]);
                assert(wf_node(nodes, objs, table, samples, i + 1, lo, mid));
                assert(wf_node(nodes, objs, table, samples, second_child as int, mid, hi));
                assert(bl.len() == samples);
                assert(br.len() == samples);
                assert(node_bounds(nodes[i]) == spec_union_samples(bl, br));
                lemma_union_samples_covers(bl, br);
                if in_subtree(nodes, i + 1, j) {
                    lemma_node_covers_descendants(nodes, objs, table, samples, i + 1, lo, mid, j);
                    crate::bbox::lemma_covers_samples_trans(
                        node_bounds(nodes[i]),
                        bl,
                        node_bounds(nodes[j]),
                    );
                } else {
                    lemma_node_covers_descendants(
                        nodes,
                        objs,
                        table,
                        samples,
                        second_child as int,
                        mid,
                        hi,
                        j,
                    );
                    crate::bbox::lemma_covers_samples_trans(
                        node_bounds(nodes[i]),
                        br,
                        node_bounds(nodes[j]),
                    );
                }
            },
        }
    }
}

/// Every node of a well-formed subtree is itself the root of a well-formed
/// subtree over some object span.
pub proof fn lemma_wf_of_descendant(
    nodes: Seq<BvhNode>,
    objs: Seq<usize>,
    table: Seq<BBox>,
    samples: int,
    i: int,
    lo: int,
    hi: int,
    j: int,
) -> (r: (int, int))
    requires
        wf_node(nodes, objs, table, samples, i, lo, hi),
        in_subtree(nodes, i, j),
    ensures
        wf_node(nodes, objs, table, samples, j, r.0, r.1),
    decreases hi - lo,
{
    if i == j {
        (lo, hi)
    } else {
        match nodes[i] {
            BvhNode::Leaf { .. } => (lo, hi),
            BvhNode::Internal { bounds, second_child, split_axis } => {
                let mid = span_end(nodes, i + 1);
                if in_subtree(nodes, i + 1, j) {
                    lemma_wf_of_descendant(nodes, objs, table, samples, i + 1, lo, mid, j)
                } else {
                    lemma_wf_of_descendant(
                        nodes,
                        objs,
                        table,
                        samples,
                        second_child as int,
                        mid,
                        hi,
                        j,
                    )
                }
            },
        }
    }
}

impl BinaryBVH {
    /// Bounds containment for a whole tree: the bounds of any node of the
    /// tree contain the bounds of every node in its subtree, every time
    /// sample of them, up to the root.
    pub proof fn lemma_bounds_containment(self, a: int, j: int)
        requires
            self.wf(),
            in_subtree(self.nodes@, 0, a),
            in_subtree(self.nodes@, a, j),
        ensures
            covers_samples(node_bounds(self.nodes@[a]), node_bounds(self.nodes@[j])),
            covers_samples(self.spec_bounds(), node_bounds(self.nodes@[j])),
    {
        let r = lemma_wf_of_descendant(
            self.nodes@,
            self.built_from@.0,
            self.built_from@.1,
            self.samples as int,
            0,
            0,
            self.n_objects as int,
            a,
        );
        lemma_node_covers_descendants(
            self.nodes@,
            self.built_from@.0,
            self.built_from@.1,
            self.samples as int,
            a,
            r.0,
            r.1,
            j,
        );
        lemma_subtree_trans(self.nodes@, 0, a, j);
        lemma_node_covers_descendants(
            self.nodes@,
            self.built_from@.0,
            self.built_from@.1,
            self.samples as int,
            0,
            0,
            self.n_objects as int,
            j,
        );
    }
}

/// Subtree membership is transitive.
proof fn lemma_subtree_trans(nodes: Seq<BvhNode>, i: int, a: int, j: int)
    requires
        in_subtree(nodes, i, a),
        in_subtree(nodes, a, j),
    ensures
        in_subtree(nodes, i, j),
    decreases nodes.len() - i,
{
    if i == a {
    } else {
        match nodes[i] {
            BvhNode::Leaf { .. } => {
            },
            BvhNode::Internal { second_child, .. } => {
                if i + 1 < second_child < nodes.len() {
                    if in_subtree(nodes, i + 1, a) {
                        lemma_subtree_trans(nodes, i + 1, a, j);
                    } else {
                        lemma_subtree_trans(nodes, second_child as int, a, j);
                    }
                }
            },
        }
    }
}


impl BinaryBVH {
    /// Traversal culling is conservative: a ray whose parameter interval
    /// misses a node's conservative time box also misses the
    /// conservative time box of every node in that node's subtree, so
    /// pruning a subtree after a failed node test can skip no box the
    /// ray could meet.
    pub proof fn lemma_culling_conservative(self, a: int, j: int, r: AccelRay)
        requires
            self.wf(),
            in_subtree(self.nodes@, 0, a),
            in_subtree(self.nodes@, a, j),
            r.time <= crate::bbox::TIME_ONE,
            !spec_ray_hits(
                spec_box_at_time(node_bounds(self.nodes@[a]), r.time),
                r.orig,
                r.dir,
                r.max_t_num as int,
                r.max_t_den as int,
            ),
        ensures
            !spec_ray_hits(
                spec_box_at_time(node_bounds(self.nodes@[j]), r.time),
                r.orig,
                r.dir,
                r.max_t_num as int,
                r.max_t_den as int,
            ),
    {
        self.lemma_bounds_containment(a, j);
        let bp = node_bounds(self.nodes@[a]);
        let bc = node_bounds(self.nodes@[j]);
        let rw = lemma_wf_of_descendant(
            self.nodes@,
            self.built_from@.0,
            self.built_from@.1,
            self.samples as int,
            0,
            0,
            self.n_objects as int,
            a,
        );
        lemma_box_at_time_covers(bp, bc, r.time);
        if spec_ray_hits(
            spec_box_at_time(bc, r.time),
            r.orig,
            r.dir,
            r.max_t_num as int,
            r.max_t_den as int,
        ) {
            crate::bbox::lemma_hits_monotone(
                spec_box_at_time(bp, r.time),
                spec_box_at_time(bc, r.time),
                r.orig,
                r.dir,
                r.max_t_num as int,
                r.max_t_den as int,
            );
        }
    }
}

} // verus!
