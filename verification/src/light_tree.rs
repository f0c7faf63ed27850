//! Hierarchical light selection for scenes with many lights: a binary
//! tree over the lights, descended with one uniform scalar that is
//! rescaled at every level, so a light is chosen in logarithmic time and
//! its exact fixed-point selection probability is returned.

use vstd::prelude::*;
use crate::accel::{
    light_bound_ok, light_point_ok, spec_isqrt, LightAccel, LightInfo, SurfaceClosure,
    ENERGY_LIMIT, PDF_ONE,
};
use crate::bbox::{boxes_wf, BBox};
use crate::math::{Normal, Point, Vector};
use crate::objects_split::{objects_in_table, split_objects};

verus! {

/// One node of the light tree, stored in post order: children always sit
/// before their parent, and the root is the last node.
#[derive(Debug)]
pub enum LightTreeNode {
    Internal { bound: BBox, energy: u64, split: usize, left_child: usize, right_child: usize },
    Leaf { bound: BBox, energy: u64, light_index: usize },
}

/// The energy estimate a node carries.
pub open spec fn lnode_energy(n: LightTreeNode) -> u64 {
    match n {
        LightTreeNode::Internal { energy, .. } => energy,
        LightTreeNode::Leaf { energy, .. } => energy,
    }
}

/// The bound a node carries.
pub open spec fn lnode_bound(n: LightTreeNode) -> BBox {
    match n {
        LightTreeNode::Internal { bound, .. } => bound,
        LightTreeNode::Leaf { bound, .. } => bound,
    }
}

/// The summed energy of the lights ordered at `[lo, hi)`.
pub open spec fn span_energy(order: Seq<usize>, lights: Seq<LightInfo>, lo: int, hi: int) -> int
    decreases hi - lo,
{
    if lo < hi {
        lights[order[lo] as int].energy + span_energy(order, lights, lo + 1, hi)
    } else {
        0
    }
}

/// Span sums are nonnegative and add up across a split point.
pub proof fn lemma_span_energy_split(
    order: Seq<usize>,
    lights: Seq<LightInfo>,
    lo: int,
    mid: int,
    hi: int,
)
    requires
        lo <= mid <= hi,
    ensures
        span_energy(order, lights, lo, hi) == span_energy(order, lights, lo, mid) + span_energy(
            order,
            lights,
            mid,
            hi,
        ),
    decreases mid - lo,
{
    if lo < mid {
        lemma_span_energy_split(order, lights, lo + 1, mid, hi);
    }
}

/// A span's sum is at least any one of its terms, and nonnegative.
pub proof fn lemma_span_energy_bounds(
    order: Seq<usize>,
    lights: Seq<LightInfo>,
    lo: int,
    hi: int,
    k: int,
)
    requires
        lo <= k < hi,
    ensures
        span_energy(order, lights, lo, hi) >= lights[order[k] as int].energy,
        span_energy(order, lights, lo, hi) >= 0,
    decreases k - lo,
{
    lemma_span_energy_nonneg(order, lights, lo + 1, hi);
    if lo < k {
        lemma_span_energy_bounds(order, lights, lo + 1, hi, k);
    }
}

/// Span sums are nonnegative.
pub proof fn lemma_span_energy_nonneg(order: Seq<usize>, lights: Seq<LightInfo>, lo: int, hi: int)
    ensures
        span_energy(order, lights, lo, hi) >= 0,
    decreases hi - lo,
{
    if lo < hi {
        lemma_span_energy_nonneg(order, lights, lo + 1, hi);
    }
}

/// The span sum only reads the span's slice of the order array.
proof fn lemma_span_energy_stable(
    order1: Seq<usize>,
    order2: Seq<usize>,
    lights: Seq<LightInfo>,
    lo: int,
    hi: int,
)
    requires
        0 <= lo <= hi <= order1.len(),
        order1.len() == order2.len(),
        order1.subrange(lo, hi) == order2.subrange(lo, hi),
    ensures
        span_energy(order1, lights, lo, hi) == span_energy(order2, lights, lo, hi),
    decreases hi - lo,
{
    if lo < hi {
        assert(order1.subrange(lo, hi)[0] == order1[lo]);
        assert(order2.subrange(lo, hi)[0] == order2[lo]);
        assert(order1.subrange(lo + 1, hi) =~= order2.subrange(lo + 1, hi)) by {
            assert forall|k: int|
                #![trigger order1.subrange(lo + 1, hi)[k]]
                0 <= k < hi - lo - 1 implies order1.subrange(lo + 1, hi)[k] == order2.subrange(
                lo + 1,
                hi,
            )[k] by {
                assert(order1.subrange(lo, hi)[k + 1] == order1[lo + 1 + k]);
                assert(order2.subrange(lo, hi)[k + 1] == order2[lo + 1 + k]);
            }
        }
        lemma_span_energy_stable(order1, order2, lights, lo + 1, hi);
    }
}

/// Well-formedness of the light subtree rooted at node `i` over the light
/// order span `[lo, hi)`: a leaf holds exactly one light, an internal
/// node's energy is the exact sum of its children's (so the exact sum of
/// its span), and its bound contains the span's lights and stays within
/// the sampler's coordinate range.
pub open spec fn wf_lnode(
    nodes: Seq<LightTreeNode>,
    order: Seq<usize>,
    lights: Seq<LightInfo>,
    i: int,
    lo: int,
    hi: int,
) -> bool
    decreases i,
{
    &&& 0 <= i < nodes.len()
    &&& 0 <= lo < hi <= order.len()
    &&& light_bound_ok(lnode_bound(nodes[i]))
    &&& lnode_energy(nodes[i]) == span_energy(order, lights, lo, hi)
    &&& match nodes[i] {
        LightTreeNode::Leaf { bound, energy, light_index } => {
            &&& hi == lo + 1
            &&& light_index == order[lo]
            &&& light_index < lights.len()
            &&& energy == lights[light_index as int].energy
            &&& bound == lights[light_index as int].bound
        },
        LightTreeNode::Internal { bound, energy, split, left_child, right_child } => {
            &&& left_child < right_child < i
            &&& lo < split < hi
            &&& wf_lnode(nodes, order, lights, left_child as int, lo, split as int)
            &&& wf_lnode(nodes, order, lights, right_child as int, split as int, hi)
            &&& bound == lnode_bound(nodes[left_child as int]).spec_union(
                lnode_bound(nodes[right_child as int]),
            )
        },
    }
}

/// Light-subtree well-formedness survives appending nodes.
proof fn lemma_wf_lnode_stable(
    nodes1: Seq<LightTreeNode>,
    nodes2: Seq<LightTreeNode>,
    order: Seq<usize>,
    lights: Seq<LightInfo>,
    i: int,
    lo: int,
    hi: int,
)
    requires
        wf_lnode(nodes1, order, lights, i, lo, hi),
        nodes2.len() >= nodes1.len(),
        forall|j: int| 0 <= j < nodes1.len() ==> nodes2[j] == nodes1[j],
    ensures
        wf_lnode(nodes2, order, lights, i, lo, hi),
    decreases i,
{
    match nodes1[i] {
        LightTreeNode::Leaf { .. } => {
        },
        LightTreeNode::Internal { bound, energy, split, left_child, right_child } => {
            lemma_wf_lnode_stable(
                nodes1,
                nodes2,
                order,
                lights,
                left_child as int,
                lo,
                split as int,
            );
            lemma_wf_lnode_stable(
                nodes1,
                nodes2,
                order,
                lights,
                right_child as int,
                split as int,
                hi,
            );
        },
    }
}

/// Light-subtree well-formedness only reads the subtree's slice of the
/// order array.
proof fn lemma_wf_lnode_order(
    nodes: Seq<LightTreeNode>,
    order1: Seq<usize>,
    order2: Seq<usize>,
    lights: Seq<LightInfo>,
    i: int,
    lo: int,
    hi: int,
)
    requires
        wf_lnode(nodes, order1, lights, i, lo, hi),
        order1.len() == order2.len(),
        order1.subrange(lo, hi) == order2.subrange(lo, hi),
    ensures
        wf_lnode(nodes, order2, lights, i, lo, hi),
    decreases i,
{
    lemma_span_energy_stable(order1, order2, lights, lo, hi);
    match nodes[i] {
        LightTreeNode::Leaf { .. } => {
            assert(order1.subrange(lo, hi)[0] == order1[lo]);
            assert(order2.subrange(lo, hi)[0] == order2[lo]);
        },
        LightTreeNode::Internal { bound, energy, split, left_child, right_child } => {
            assert(order1.subrange(lo, split as int) =~= order2.subrange(lo, split as int)) by {
                assert forall|k: int|
                    #![trigger order1.subrange(lo, split as int)[k]]
                    0 <= k < split - lo implies order1.subrange(lo, split as int)[k]
                    == order2.subrange(lo, split as int)[k] by {
                    assert(order1.subrange(lo, hi)[k] == order1[lo + k]);
                    assert(order2.subrange(lo, hi)[k] == order2[lo + k]);
                }
            }
            assert(order1.subrange(split as int, hi) =~= order2.subrange(split as int, hi)) by {
                assert forall|k: int|
                    #![trigger order1.subrange(split as int, hi)[k]]
                    0 <= k < hi - split implies order1.subrange(split as int, hi)[k]
                    == order2.subrange(split as int, hi)[k] by {
                    assert(order1.subrange(lo, hi)[split - lo + k] == order1[split + k]);
                    assert(order2.subrange(lo, hi)[split - lo + k] == order2[split + k]);
                }
            }
            lemma_wf_lnode_order(
                nodes,
                order1,
                order2,
                lights,
                left_child as int,
                lo,
                split as int,
            );
            lemma_wf_lnode_order(
                nodes,
                order1,
                order2,
                lights,
                right_child as int,
                split as int,
                hi,
            );
        },
    }
}

/// Reads a node's energy.
fn get_lnode_energy(nodes: &Vec<LightTreeNode>, i: usize) -> (r: u64)
    requires
        i < nodes@.len(),
    ensures
        r == lnode_energy(nodes@[i as int]),
{
    match &nodes[i] {
        LightTreeNode::Internal { energy, .. } => *energy,
        LightTreeNode::Leaf { energy, .. } => *energy,
    }
}

/// Reads a node's bound.
fn get_lnode_bound(nodes: &Vec<LightTreeNode>, i: usize) -> (r: BBox)
    requires
        i < nodes@.len(),
    ensures
        r == lnode_bound(nodes@[i as int]),
{
    match &nodes[i] {
        LightTreeNode::Internal { bound, .. } => *bound,
        LightTreeNode::Leaf { bound, .. } => *bound,
    }
}

/// Builds the light subtree for the order span `[lo, hi)` in post order,
/// returning the index of its root (the last node appended).
fn build_lnode(
    order: &mut Vec<usize>,
    lo: usize,
    hi: usize,
    lights: &Vec<LightInfo>,
    table: &Vec<BBox>,
    nodes: &mut Vec<LightTreeNode>,
) -> (idx: usize)
    requires
        lo < hi <= old(order)@.len(),
        table@.len() == lights@.len(),
        forall|j: int| 0 <= j < lights@.len() ==> (#[trigger] lights@[j]).wf(),
        forall|j: int| 0 <= j < table@.len() ==> table@[j] == lights@[j].bound,
        objects_in_table(old(order)@, lo as int, hi as int, table@.len() as int, 1),
        span_energy(old(order)@, lights@, lo as int, hi as int) <= ENERGY_LIMIT,
    ensures
        final(order)@.len() == old(order)@.len(),
        final(order)@.take(lo as int) == old(order)@.take(lo as int),
        final(order)@.skip(hi as int) == old(order)@.skip(hi as int),
        final(order)@.subrange(lo as int, hi as int).to_multiset() == old(order)@.subrange(
            lo as int,
            hi as int,
        ).to_multiset(),
        objects_in_table(final(order)@, lo as int, hi as int, table@.len() as int, 1),
        span_energy(final(order)@, lights@, lo as int, hi as int) == span_energy(
            old(order)@,
            lights@,
            lo as int,
            hi as int,
        ),
        final(nodes)@.len() > old(nodes)@.len(),
        final(nodes)@.take(old(nodes)@.len() as int) == old(nodes)@,
        idx == final(nodes)@.len() - 1,
        wf_lnode(final(nodes)@, final(order)@, lights@, idx as int, lo as int, hi as int),
    decreases hi - lo,
{
    if hi - lo == 1 {
        let li = order[lo];
        let l = lights[li];
        nodes.push(LightTreeNode::Leaf { bound: l.bound, energy: l.energy, light_index: li });
        proof {
            assert(final(nodes)@.take(old(nodes)@.len() as int) =~= old(nodes)@);
            assert(order@[lo as int] + 1 <= table@.len());
            assert(span_energy(order@, lights@, lo + 1, lo + 1) == 0);
            assert(lights@[li as int].wf());
            assert(wf_lnode(
                nodes@,
                order@,
                lights@,
                nodes@.len() - 1,
                lo as int,
                hi as int,
            ));
        }
        nodes.len() - 1
    } else {
        proof {
            assert(boxes_wf(table@)) by {
                assert forall|j: int| 0 <= j < table@.len() implies (#[trigger] table@[j]).wf() by {
                    assert(lights@[j].wf());
                }
            }
        }
        let (mid, _axis) = split_objects(order, lo, hi, table, 1);
        let ghost ord1 = order@;
        proof {
            lemma_span_multiset_energy(old(order)@, ord1, lights@, lo as int, hi as int);
            lemma_span_energy_split(ord1, lights@, lo as int, mid as int, hi as int);
            lemma_span_energy_nonneg(ord1, lights@, lo as int, mid as int);
            lemma_span_energy_nonneg(ord1, lights@, mid as int, hi as int);
        }
        let li = build_lnode(order, lo, mid, lights, table, nodes);
        let ghost ord2 = order@;
        let ghost nodes1 = nodes@;
        proof {
            assert forall|k: int| mid <= k < hi implies (#[trigger] ord2[k]) + 1
                <= table@.len() by {
                assert(ord2.skip(mid as int)[k - mid] == ord2[k]);
                assert(ord1.skip(mid as int)[k - mid] == ord1[k]);
            }
            assert(ord2.subrange(mid as int, hi as int) =~= ord1.subrange(mid as int, hi as int))
                by {
                assert forall|k: int|
                    #![trigger ord2.subrange(mid as int, hi as int)[k]]
                    0 <= k < hi - mid implies ord2.subrange(mid as int, hi as int)[k]
                    == ord1.subrange(mid as int, hi as int)[k] by {
                    assert(ord2.skip(mid as int)[k] == ord2[mid + k]);
                    assert(ord1.skip(mid as int)[k] == ord1[mid + k]);
                }
            }
            lemma_span_energy_stable(ord1, ord2, lights@, mid as int, hi as int);
        }
        let ri = build_lnode(order, mid, hi, lights, table, nodes);
        let ghost ord3 = order@;
        let ghost nodes2 = nodes@;
        proof {
            // The left subtree's nodes and order slice survive the right
            // build.
            assert(forall|j: int| 0 <= j < nodes1.len() ==> nodes2[j] == nodes1[j]) by {
                assert(nodes2.take(nodes1.len() as int) == nodes1);
            }
            lemma_wf_lnode_stable(
                nodes1,
                nodes2,
                ord2,
                lights@,
                li as int,
                lo as int,
                mid as int,
            );
            assert(ord2.subrange(lo as int, mid as int) =~= ord3.subrange(lo as int, mid as int))
                by {
                assert forall|k: int|
                    #![trigger ord2.subrange(lo as int, mid as int)[k]]
                    0 <= k < mid - lo implies ord2.subrange(lo as int, mid as int)[k]
                    == ord3.subrange(lo as int, mid as int)[k] by {
                    assert(ord2.take(mid as int)[lo + k] == ord2[lo + k]);
                    assert(ord3.take(mid as int)[lo + k] == ord3[lo + k]);
                }
            }
            lemma_wf_lnode_order(
                nodes2,
                ord2,
                ord3,
                lights@,
                li as int,
                lo as int,
                mid as int,
            );
        }
        let el = get_lnode_energy(nodes, li);
        let er = get_lnode_energy(nodes, ri);
        proof {
            lemma_span_energy_split(ord3, lights@, lo as int, mid as int, hi as int);
            lemma_span_energy_stable(ord2, ord3, lights@, lo as int, mid as int);
        }
        let bl = get_lnode_bound(nodes, li);
        let br = get_lnode_bound(nodes, ri);
        let b = bl.union(&br);
        let energy = el + er;
        nodes.push(
            LightTreeNode::Internal {
                bound: b,
                energy,
                split: mid,
                left_child: li,
                right_child: ri,
            },
        );
        let idx = nodes.len() - 1;
        proof {
            let nodes3 = nodes@;
            assert(forall|j: int| 0 <= j < nodes2.len() ==> nodes3[j] == nodes2[j]) by {
                assert(nodes3.take(nodes2.len() as int) == nodes2);
            }
            lemma_wf_lnode_stable(nodes2, nodes3, ord3, lights@, li as int, lo as int, mid as int);
            lemma_wf_lnode_stable(nodes2, nodes3, ord3, lights@, ri as int, mid as int, hi as int);
            assert(light_bound_ok(b));
            assert(final(nodes)@.take(old(nodes)@.len() as int) =~= old(nodes)@) by {
                assert(nodes2.take(nodes1.len() as int) == nodes1);
                assert(nodes1.take(old(nodes)@.len() as int) == old(nodes)@);
                assert forall|k: int|
                    #![trigger nodes3.take(old(nodes)@.len() as int)[k]]
                    0 <= k < old(nodes)@.len() implies nodes3.take(old(nodes)@.len() as int)[k]
                    == old(nodes)@[k] by {
                    assert(nodes2.take(nodes1.len() as int)[k] == nodes2[k]);
                    assert(nodes1.take(old(nodes)@.len() as int)[k] == nodes1[k]);
                }
            }
            lemma_span_multiset_compose_light(
                old(order)@,
                ord1,
                ord2,
                ord3,
                lo as int,
                mid as int,
                hi as int,
            );
            assert forall|k: int| lo <= k < hi implies (#[trigger] ord3[k]) + 1
                <= table@.len() by {
                if k < mid {
                    assert(ord3.subrange(lo as int, mid as int)[k - lo] == ord3[k]);
                    assert(ord2.subrange(lo as int, mid as int)[k - lo] == ord2[k]);
                }
            }
            lemma_span_multiset_energy(old(order)@, ord3, lights@, lo as int, hi as int);
            assert(wf_lnode(nodes3, ord3, lights@, idx as int, lo as int, hi as int));
        }
        idx
    }
}

/// Order arrays with the same span multiset have the same span energy.
proof fn lemma_span_multiset_energy(
    order1: Seq<usize>,
    order2: Seq<usize>,
    lights: Seq<LightInfo>,
    lo: int,
    hi: int,
)
    requires
        0 <= lo <= hi <= order1.len(),
        order1.len() == order2.len(),
        order1.subrange(lo, hi).to_multiset() == order2.subrange(lo, hi).to_multiset(),
    ensures
        span_energy(order1, lights, lo, hi) == span_energy(order2, lights, lo, hi),
{
    lemma_span_energy_of_seq(order1.subrange(lo, hi), lights, lo, hi, order1);
    lemma_span_energy_of_seq(order2.subrange(lo, hi), lights, lo, hi, order2);
    lemma_seq_energy_multiset(order1.subrange(lo, hi), order2.subrange(lo, hi), lights);
}

/// The span energy equals the sequence energy of the span's slice.
proof fn lemma_span_energy_of_seq(
    s: Seq<usize>,
    lights: Seq<LightInfo>,
    lo: int,
    hi: int,
    order: Seq<usize>,
)
    requires
        0 <= lo <= hi <= order.len(),
        s == order.subrange(lo, hi),
    ensures
        span_energy(order, lights, lo, hi) == seq_energy(s, lights),
    decreases hi - lo,
{
    if lo < hi {
        assert(s[0] == order[lo]);
        assert(s.drop_first() =~= order.subrange(lo + 1, hi)) by {
            assert forall|k: int|
                #![trigger s.drop_first()[k]]
                0 <= k < hi - lo - 1 implies s.drop_first()[k] == order.subrange(lo + 1, hi)[k] by {
                assert(s[k + 1] == order[lo + 1 + k]);
            }
        }
        lemma_span_energy_of_seq(order.subrange(lo + 1, hi), lights, lo + 1, hi, order);
        assert(seq_energy(s, lights) == lights[s[0] as int].energy + seq_energy(
            s.drop_first(),
            lights,
        ));
    }
}

/// The summed energy of a plain sequence of light indices.
pub open spec fn seq_energy(s: Seq<usize>, lights: Seq<LightInfo>) -> int
    decreases s.len(),
{
    if s.len() == 0 {
        0
    } else {
        lights[s[0] as int].energy + seq_energy(s.drop_first(), lights)
    }
}

/// Sequences with equal multisets have equal summed energy.
proof fn lemma_seq_energy_multiset(s1: Seq<usize>, s2: Seq<usize>, lights: Seq<LightInfo>)
    requires
        s1.to_multiset() == s2.to_multiset(),
    ensures
        seq_energy(s1, lights) == seq_energy(s2, lights),
    decreases s1.len(),
{
    broadcast use vstd::seq_lib::group_to_multiset_ensures;

    vstd::seq_lib::to_multiset_len(s1);
    vstd::seq_lib::to_multiset_len(s2);
    if s1.len() > 0 {
        let x = s1[0];
        assert(s1.contains(x));
        vstd::seq_lib::to_multiset_contains(s1, x);
        vstd::seq_lib::to_multiset_contains(s2, x);
        assert(s2.contains(x));
        let i = choose|i: int| 0 <= i < s2.len() && s2[i] == x;
        let s1p = s1.drop_first();
        let s2p = s2.remove(i);
        assert(s1.remove(0) =~= s1p);
        assert(s1p.to_multiset() == s2p.to_multiset());
        lemma_seq_energy_multiset(s1p, s2p, lights);
        lemma_seq_energy_remove(s2, i, lights);
        assert(seq_energy(s1, lights) == lights[x as int].energy + seq_energy(s1p, lights));
    }
}

/// Removing one element subtracts its energy from the sequence sum.
proof fn lemma_seq_energy_remove(s: Seq<usize>, i: int, lights: Seq<LightInfo>)
    requires
        0 <= i < s.len(),
    ensures
        seq_energy(s, lights) == lights[s[i] as int].energy + seq_energy(s.remove(i), lights),
    decreases s.len(),
{
    if i == 0 {
        assert(s.remove(0) =~= s.drop_first());
    } else {
        assert(s.remove(i).drop_first() =~= s.drop_first().remove(i - 1));
        assert(s.remove(i)[0] == s[0]);
        assert(s.drop_first()[i - 1] == s[i]);
        lemma_seq_energy_remove(s.drop_first(), i - 1, lights);
        assert(seq_energy(s, lights) == lights[s[0] as int].energy + seq_energy(
            s.drop_first(),
            lights,
        ));
        assert(seq_energy(s.remove(i), lights) == lights[s[0] as int].energy + seq_energy(
            s.remove(i).drop_first(),
            lights,
        ));
    }
}

/// Chains the multiset preservation of the split and the two child builds
/// over the whole span.
proof fn lemma_span_multiset_compose_light(
    s0: Seq<usize>,
    s1: Seq<usize>,
    s2: Seq<usize>,
    s3: Seq<usize>,
    lo: int,
    mid: int,
    hi: int,
)
    requires
        0 <= lo < mid < hi <= s0.len(),
        s0.len() == s1.len() && s1.len() == s2.len() && s2.len() == s3.len(),
        s1.subrange(lo, hi).to_multiset() == s0.subrange(lo, hi).to_multiset(),
        s2.subrange(lo, mid).to_multiset() == s1.subrange(lo, mid).to_multiset(),
        s2.take(lo) == s1.take(lo),
        s2.skip(mid) == s1.skip(mid),
        s3.subrange(mid, hi).to_multiset() == s2.subrange(mid, hi).to_multiset(),
        s3.take(mid) == s2.take(mid),
        s3.skip(hi) == s2.skip(hi),
    ensures
        s3.subrange(lo, hi).to_multiset() == s0.subrange(lo, hi).to_multiset(),
        s3.take(lo) == s1.take(lo),
        s3.skip(hi) == s1.skip(hi),
{
    assert(s3.subrange(lo, mid) =~= s2.subrange(lo, mid)) by {
        assert forall|k: int|
            #![trigger s3.subrange(lo, mid)[k]]
            0 <= k < mid - lo implies s3.subrange(lo, mid)[k] == s2.subrange(lo, mid)[k] by {
            assert(s3.take(mid)[lo + k] == s3[lo + k]);
            assert(s2.take(mid)[lo + k] == s2[lo + k]);
        }
    }
    assert(s2.subrange(mid, hi) =~= s1.subrange(mid, hi)) by {
        assert forall|k: int|
            #![trigger s2.subrange(mid, hi)[k]]
            0 <= k < hi - mid implies s2.subrange(mid, hi)[k] == s1.subrange(mid, hi)[k] by {
            assert(s2.skip(mid)[k] == s2[mid + k]);
            assert(s1.skip(mid)[k] == s1[mid + k]);
        }
    }
    assert(s3.subrange(lo, hi) =~= s3.subrange(lo, mid) + s3.subrange(mid, hi));
    assert(s1.subrange(lo, hi) =~= s1.subrange(lo, mid) + s1.subrange(mid, hi));
    vstd::seq_lib::lemma_multiset_commutative(s3.subrange(lo, mid), s3.subrange(mid, hi));
    vstd::seq_lib::lemma_multiset_commutative(s1.subrange(lo, mid), s1.subrange(mid, hi));
    assert(s3.take(lo) =~= s1.take(lo)) by {
        assert forall|k: int|
            #![trigger s3.take(lo)[k]]
            0 <= k < lo implies s3.take(lo)[k] == s1.take(lo)[k] by {
            assert(s3.take(mid)[k] == s3[k]);
            assert(s2.take(mid)[k] == s2[k]);
            assert(s2.take(lo)[k] == s2[k]);
            assert(s1.take(lo)[k] == s1[k]);
        }
    }
    assert(s3.skip(hi) =~= s1.skip(hi)) by {
        assert forall|k: int|
            #![trigger s3.skip(hi)[k]]
            0 <= k < s3.len() - hi implies s3.skip(hi)[k] == s1.skip(hi)[k] by {
            assert(s3.skip(hi)[k] == s3[hi + k]);
            assert(s2.skip(hi)[k] == s2[hi + k]);
            assert(s2.skip(mid)[hi - mid + k] == s2[hi + k]);
            assert(s1.skip(mid)[hi - mid + k] == s1[hi + k]);
        }
    }
}


/// Twice the vector from the shading position toward the bound's center
/// (direction only, so the doubling is immaterial).
pub open spec fn spec_to_light(b: BBox, pos: Point) -> Vector {
    Vector {
        x: (b.min.x + b.max.x - 2 * pos.x) as i64,
        y: (b.min.y + b.max.y - 2 * pos.y) as i64,
        z: (b.min.z + b.max.z - 2 * pos.z) as i64,
    }
}

/// The squared length of the doubled to-light vector.
pub open spec fn spec_dist2(b: BBox, pos: Point) -> int {
    let v = spec_to_light(b, pos);
    (v.x as int) * (v.x as int) + (v.y as int) * (v.y as int) + (v.z as int) * (v.z as int)
}

/// The squared diagonal of the bound (the doubled bounding radius,
/// squared).
pub open spec fn spec_diag2(b: BBox) -> int {
    (b.max.x - b.min.x) * (b.max.x - b.min.x) + (b.max.y - b.min.y) * (b.max.y - b.min.y) + (b.max.z
        - b.min.z) * (b.max.z - b.min.z)
}

/// The fixed-point cosine of the half angle the bound subtends from the
/// shading position: zero when the position is inside the bounding
/// sphere, else derived from the distance and the bound's size.
pub open spec fn spec_cos(b: BBox, pos: Point) -> i64 {
    let d2 = spec_dist2(b, pos);
    let g2 = spec_diag2(b);
    if d2 <= g2 {
        0
    } else {
        spec_isqrt((d2 - g2) * (PDF_ONE as int) / d2) as i64
    }
}

/// The importance weight of one node: its energy estimate scaled by the
/// closure's response toward its bound.
pub open spec fn spec_node_weight<C: SurfaceClosure>(
    node: LightTreeNode,
    inc: Vector,
    pos: Point,
    nor: Normal,
    sc: C,
) -> int {
    (lnode_energy(node) as int) * (sc.spec_estimate(
        inc,
        spec_to_light(lnode_bound(node), pos),
        nor,
        spec_cos(lnode_bound(node), pos),
    ) as int)
}

/// The deterministic stochastic descent: at each internal node the
/// children's importance weights are normalized into a branch
/// probability, the scalar picks a side and is rescaled into a fresh
/// scalar, and the probabilities of the branches taken accumulate by
/// fixed-point multiplication into the selection probability.
pub open spec fn spec_descend<C: SurfaceClosure>(
    nodes: Seq<LightTreeNode>,
    i: int,
    inc: Vector,
    pos: Point,
    nor: Normal,
    sc: C,
    n: int,
    pdf: int,
) -> (int, int, int)
    decreases i,
{
    if 0 <= i < nodes.len() {
        match nodes[i] {
            LightTreeNode::Leaf { light_index, .. } => (light_index as int, pdf, n),
            LightTreeNode::Internal { split, left_child, right_child, .. } => {
                if left_child < right_child < i {
                    let wl = spec_node_weight(nodes[left_child as int], inc, pos, nor, sc);
                    let wr = spec_node_weight(nodes[right_child as int], inc, pos, nor, sc);
                    let p = if wl + wr == 0 {
                        (PDF_ONE as int) / 2
                    } else {
                        wl * (PDF_ONE as int) / (wl + wr)
                    };
                    if n < p {
                        spec_descend(
                            nodes,
                            left_child as int,
                            inc,
                            pos,
                            nor,
                            sc,
                            n * (PDF_ONE as int) / p,
                            pdf * p / (PDF_ONE as int),
                        )
                    } else {
                        spec_descend(
                            nodes,
                            right_child as int,
                            inc,
                            pos,
                            nor,
                            sc,
                            (n - p) * (PDF_ONE as int) / ((PDF_ONE as int) - p),
                            pdf * ((PDF_ONE as int) - p) / (PDF_ONE as int),
                        )
                    }
                } else {
                    (0, 0, 0)
                }
            },
        }
    } else {
        (0, 0, 0)
    }
}

/// The square of a component of a doubled light-space vector.
fn sq_component(x: i64) -> (r: u128)
    requires
        -0x2_0000_0000 <= x <= 0x2_0000_0000,
    ensures
        r == (x as int) * (x as int),
        r <= 0x4_0000_0000_0000_0000,
{
    proof {
        assert((x as int) * (x as int) <= 0x4_0000_0000_0000_0000 && (x as int) * (x as int) >= 0)
            by (nonlinear_arith)
            requires
                -0x2_0000_0000 <= x <= 0x2_0000_0000,
        ;
    }
    let xi: i128 = x as i128;
    (xi * xi) as u128
}

/// Computes one node's importance weight.
fn node_weight<C: SurfaceClosure>(
    nodes: &Vec<LightTreeNode>,
    i: usize,
    inc: Vector,
    pos: Point,
    nor: Normal,
    sc: &C,
) -> (r: u128)
    requires
        i < nodes@.len(),
        light_bound_ok(lnode_bound(nodes@[i as int])),
        lnode_energy(nodes@[i as int]) <= ENERGY_LIMIT,
        light_point_ok(pos),
    ensures
        r == spec_node_weight(nodes@[i as int], inc, pos, nor, *sc),
        r <= (ENERGY_LIMIT as int) * (PDF_ONE as int),
{
    let b = get_lnode_bound(nodes, i);
    let e = get_lnode_energy(nodes, i);
    let vx = b.min.x + b.max.x - 2 * pos.x;
    let vy = b.min.y + b.max.y - 2 * pos.y;
    let vz = b.min.z + b.max.z - 2 * pos.z;
    let d2: u128 = sq_component(vx) + sq_component(vy) + sq_component(vz);
    let g2: u128 = sq_component(b.max.x - b.min.x) + sq_component(b.max.y - b.min.y) + sq_component(
        b.max.z - b.min.z,
    );
    let cos: i64 = if d2 <= g2 {
        0
    } else {
        proof {
            vstd::arithmetic::mul::lemma_mul_upper_bound(
                (d2 - g2) as int,
                0xC_0000_0000_0000_0000,
                PDF_ONE as int,
                PDF_ONE as int,
            );
        }
        let num: u128 = (d2 - g2) * (PDF_ONE as u128);
        let q: u128 = num / d2;
        proof {
            vstd::arithmetic::mul::lemma_mul_inequality(
                (d2 - g2) as int,
                d2 as int,
                PDF_ONE as int,
            );
            vstd::arithmetic::div_mod::lemma_div_is_ordered(
                num as int,
                (d2 as int) * (PDF_ONE as int),
                d2 as int,
            );
            vstd::arithmetic::div_mod::lemma_div_multiples_vanish(PDF_ONE as int, d2 as int);
            assert((d2 as int) * (PDF_ONE as int) == (PDF_ONE as int) * (d2 as int))
                by (nonlinear_arith);
            vstd::arithmetic::div_mod::lemma_div_pos_is_pos(num as int, d2 as int);
        }
        let rt = crate::accel::isqrt(q as u64);
        proof {
            assert(rt <= 0x1_0000) by (nonlinear_arith)
                requires
                    (rt as int) * (rt as int) <= q as int,
                    q <= 0x1_0000_0000,
                    rt >= 0,
            ;
        }
        rt as i64
    };
    proof {
        assert(cos == spec_cos(b, pos));
    }
    let resp = sc.estimate_eval_over_solid_angle(
        inc,
        Vector { x: vx, y: vy, z: vz },
        nor,
        cos,
    );
    proof {
        vstd::arithmetic::mul::lemma_mul_upper_bound(
            e as int,
            ENERGY_LIMIT as int,
            resp as int,
            0xFFFF_FFFF,
        );
        vstd::arithmetic::mul::lemma_mul_inequality(resp as int, PDF_ONE as int, ENERGY_LIMIT as int);
        assert((ENERGY_LIMIT as int) * (resp as int) == (resp as int) * (ENERGY_LIMIT as int))
            by (nonlinear_arith);
    }
    (e as u128) * (resp as u128)
}

/// Walks the tree with the scalar `n`, returning the chosen light, the
/// accumulated fixed-point probability, and the rescaled residual scalar,
/// exactly as the deterministic descent defines them.
fn descend<C: SurfaceClosure>(
    nodes: &Vec<LightTreeNode>,
    i: usize,
    Ghost(order_g): Ghost<Seq<usize>>,
    Ghost(lights_g): Ghost<Seq<LightInfo>>,
    Ghost(lo): Ghost<int>,
    Ghost(hi): Ghost<int>,
    inc: Vector,
    pos: Point,
    nor: Normal,
    sc: &C,
    n: u64,
    pdf: u64,
) -> (r: (usize, u64, u64))
    requires
        wf_lnode(nodes@, order_g, lights_g, i as int, lo, hi),
        lnode_energy(nodes@[i as int]) <= ENERGY_LIMIT,
        n < PDF_ONE,
        pdf <= PDF_ONE,
        light_point_ok(pos),
    ensures
        (r.0 as int, r.1 as int, r.2 as int) == spec_descend(
            nodes@,
            i as int,
            inc,
            pos,
            nor,
            *sc,
            n as int,
            pdf as int,
        ),
        r.0 < lights_g.len(),
        r.1 <= pdf,
        r.2 < PDF_ONE,
    decreases hi - lo,
{
    match &nodes[i] {
        LightTreeNode::Leaf { light_index, .. } => (*light_index, pdf, n),
        LightTreeNode::Internal { split, left_child, right_child, .. } => {
            let lc = *left_child;
            let rc = *right_child;
            let ghost mid = *split as int;
            proof {
                // Each child's energy is a part of this node's span sum.
                lemma_span_energy_split(order_g, lights_g, lo, mid, hi);
                lemma_span_energy_nonneg(order_g, lights_g, lo, mid);
                lemma_span_energy_nonneg(order_g, lights_g, mid, hi);
                assert(wf_lnode(nodes@, order_g, lights_g, lc as int, lo, mid));
                assert(wf_lnode(nodes@, order_g, lights_g, rc as int, mid, hi));
                assert(lnode_energy(nodes@[lc as int]) <= ENERGY_LIMIT);
                assert(lnode_energy(nodes@[rc as int]) <= ENERGY_LIMIT);
            }
            let wl = node_weight(nodes, lc, inc, pos, nor, sc);
            let wr = node_weight(nodes, rc, inc, pos, nor, sc);
            let w = wl + wr;
            let p: u64 = if w == 0 {
                PDF_ONE / 2
            } else {
                proof {
                    vstd::arithmetic::mul::lemma_mul_upper_bound(
                        wl as int,
                        (ENERGY_LIMIT as int) * (PDF_ONE as int),
                        PDF_ONE as int,
                        PDF_ONE as int,
                    );
                    vstd::arithmetic::mul::lemma_mul_inequality(wl as int, w as int, PDF_ONE as int);
                    vstd::arithmetic::div_mod::lemma_div_is_ordered(
                        (wl as int) * (PDF_ONE as int),
                        (w as int) * (PDF_ONE as int),
                        w as int,
                    );
                    vstd::arithmetic::div_mod::lemma_div_multiples_vanish(
                        PDF_ONE as int,
                        w as int,
                    );
                    vstd::arithmetic::div_mod::lemma_div_pos_is_pos(
                        (wl as int) * (PDF_ONE as int),
                        w as int,
                    );
                }
                ((wl * (PDF_ONE as u128)) / w) as u64
            };
            if n < p {
                proof {
                    vstd::arithmetic::mul::lemma_mul_inequality(n as int, p as int - 1, PDF_ONE as int);
                    vstd::arithmetic::div_mod::lemma_multiply_divide_lt(
                        (n as int) * (PDF_ONE as int),
                        p as int,
                        PDF_ONE as int,
                    );
                    assert((p as int - 1) * (PDF_ONE as int) < (p as int) * (PDF_ONE as int))
                        by (nonlinear_arith)
                        requires
                            p >= 1,
                    ;
                    vstd::arithmetic::div_mod::lemma_div_pos_is_pos(
                        (n as int) * (PDF_ONE as int),
                        p as int,
                    );
                    vstd::arithmetic::mul::lemma_mul_inequality(p as int, PDF_ONE as int, pdf as int);
                    assert((pdf as int) * (p as int) == (p as int) * (pdf as int))
                        by (nonlinear_arith);
                    assert((PDF_ONE as int) * (pdf as int) == (pdf as int) * (PDF_ONE as int))
                        by (nonlinear_arith);
                    vstd::arithmetic::div_mod::lemma_div_is_ordered(
                        (pdf as int) * (p as int),
                        (pdf as int) * (PDF_ONE as int),
                        PDF_ONE as int,
                    );
                    vstd::arithmetic::div_mod::lemma_div_multiples_vanish(
                        pdf as int,
                        PDF_ONE as int,
                    );
                    assert((pdf as int) * (PDF_ONE as int) == (PDF_ONE as int) * (pdf as int))
                        by (nonlinear_arith);
                    vstd::arithmetic::div_mod::lemma_div_pos_is_pos(
                        (pdf as int) * (p as int),
                        PDF_ONE as int,
                    );
                }
                let n2: u64 = (((n as u128) * (PDF_ONE as u128)) / (p as u128)) as u64;
                let pdf2: u64 = (((pdf as u128) * (p as u128)) / (PDF_ONE as u128)) as u64;
                descend(
                    nodes,
                    lc,
                    Ghost(order_g),
                    Ghost(lights_g),
                    Ghost(lo),
                    Ghost(mid),
                    inc,
                    pos,
                    nor,
                    sc,
                    n2,
                    pdf2,
                )
            } else {
                let q: u64 = PDF_ONE - p;
                proof {
                    assert(q >= 1);
                    vstd::arithmetic::mul::lemma_mul_inequality(
                        (n - p) as int,
                        q as int - 1,
                        PDF_ONE as int,
                    );
                    assert((q as int - 1) * (PDF_ONE as int) < (q as int) * (PDF_ONE as int))
                        by (nonlinear_arith)
                        requires
                            q >= 1,
                    ;
                    vstd::arithmetic::div_mod::lemma_multiply_divide_lt(
                        ((n - p) as int) * (PDF_ONE as int),
                        q as int,
                        PDF_ONE as int,
                    );
                    vstd::arithmetic::div_mod::lemma_div_pos_is_pos(
                        ((n - p) as int) * (PDF_ONE as int),
                        q as int,
                    );
                    vstd::arithmetic::mul::lemma_mul_inequality(q as int, PDF_ONE as int, pdf as int);
                    assert((pdf as int) * (q as int) == (q as int) * (pdf as int))
                        by (nonlinear_arith);
                    assert((PDF_ONE as int) * (pdf as int) == (pdf as int) * (PDF_ONE as int))
                        by (nonlinear_arith);
                    vstd::arithmetic::div_mod::lemma_div_is_ordered(
                        (pdf as int) * (q as int),
                        (pdf as int) * (PDF_ONE as int),
                        PDF_ONE as int,
                    );
                    vstd::arithmetic::div_mod::lemma_div_multiples_vanish(
                        pdf as int,
                        PDF_ONE as int,
                    );
                    vstd::arithmetic::div_mod::lemma_div_pos_is_pos(
                        (pdf as int) * (q as int),
                        PDF_ONE as int,
                    );
                }
                let n2: u64 = ((((n - p) as u128) * (PDF_ONE as u128)) / (q as u128)) as u64;
                let pdf2: u64 = (((pdf as u128) * (q as u128)) / (PDF_ONE as u128)) as u64;
                descend(
                    nodes,
                    rc,
                    Ghost(order_g),
                    Ghost(lights_g),
                    Ghost(mid),
                    Ghost(hi),
                    inc,
                    pos,
                    nor,
                    sc,
                    n2,
                    pdf2,
                )
            }
        },
    }
}

/// The hierarchical light sampler: a post-order node array over an
/// ordering of the lights.
pub struct LightTree {
    pub nodes: Vec<LightTreeNode>,
    pub order: Vec<usize>,
    pub lights: Vec<LightInfo>,
}

/// The identity ordering of `n` lights.
pub open spec fn identity_order(n: int) -> Seq<usize> {
    Seq::new(n as nat, |i: int| i as usize)
}

impl LightTree {
    pub open spec fn wf(self) -> bool {
        &&& self.order@.len() == self.lights@.len()
        &&& forall|j: int| 0 <= j < self.lights@.len() ==> (#[trigger] self.lights@[j]).wf()
        &&& self.order@.to_multiset() == identity_order(self.lights@.len() as int).to_multiset()
        &&& if self.lights@.len() == 0 {
            self.nodes@.len() == 0
        } else {
            self.nodes@.len() >= 1 && wf_lnode(
                self.nodes@,
                self.order@,
                self.lights@,
                self.nodes@.len() - 1,
                0,
                self.order@.len() as int,
            ) && span_energy(self.order@, self.lights@, 0, self.order@.len() as int) <= ENERGY_LIMIT
        }
    }

    /// The tree's aggregate energy estimate: the root's, or zero for an
    /// empty tree.
    pub open spec fn spec_energy(self) -> u64 {
        if self.nodes@.len() == 0 {
            0
        } else {
            lnode_energy(self.nodes@[self.nodes@.len() - 1])
        }
    }
}


/// Over the identity ordering the span sum is the plain suffix sum of the
/// lights.
proof fn lemma_identity_span(order: Seq<usize>, lights: Seq<LightInfo>, i: int)
    requires
        order.len() == lights.len(),
        order.len() <= usize::MAX,
        forall|k: int| 0 <= k < order.len() ==> #[trigger] order[k] == k as usize,
        0 <= i <= order.len(),
    ensures
        span_energy(order, lights, i, order.len() as int) == crate::light_array::suffix_energy(
            lights,
            i,
        ),
    decreases order.len() - i,
{
    if i < order.len() {
        lemma_identity_span(order, lights, i + 1);
        assert(order[i] == i as usize);
        assert(span_energy(order, lights, i, order.len() as int) == lights[i].energy
            + span_energy(order, lights, i + 1, order.len() as int));
        assert(crate::light_array::suffix_energy(lights, i) == lights[i].energy
            + crate::light_array::suffix_energy(lights, i + 1));
    } else {
        assert(span_energy(order, lights, i, order.len() as int) == 0);
        assert(crate::light_array::suffix_energy(lights, i) == 0);
    }
}

impl LightTree {
    /// Builds a hierarchy over the given lights, splitting recursively on
    /// the axis of greatest extent of their bound centroids.
    pub fn from_lights(lights: Vec<LightInfo>) -> (r: LightTree)
        requires
            forall|j: int| 0 <= j < lights@.len() ==> (#[trigger] lights@[j]).wf(),
            crate::light_array::suffix_energy(lights@, 0) <= ENERGY_LIMIT,
        ensures
            r.wf(),
            r.lights@ == lights@,
    {
        let count = lights.len();
        let mut order: Vec<usize> = Vec::new();
        let mut table: Vec<BBox> = Vec::new();
        let mut j: usize = 0;
        while j < count
            invariant
                j <= count,
                count == lights@.len(),
                order@.len() == j,
                table@.len() == j,
                forall|k: int| 0 <= k < j ==> #[trigger] order@[k] == k as usize,
                forall|k: int| 0 <= k < j ==> #[trigger] table@[k] == lights@[k].bound,
                forall|k: int| 0 <= k < lights@.len() ==> (#[trigger] lights@[k]).wf(),
            decreases count - j,
        {
            order.push(j);
            table.push(lights[j].bound);
            j = j + 1;
        }
        let mut nodes: Vec<LightTreeNode> = Vec::new();
        if count == 0 {
            let r = LightTree { nodes, order, lights };
            proof {
                assert(r.order@.to_multiset() =~= identity_order(0).to_multiset()) by {
                    assert(r.order@ =~= identity_order(0));
                }
            }
            r
        } else {
            proof {
                assert(order@.len() == order.len());
                lemma_identity_span(order@, lights@, 0);
                assert(objects_in_table(order@, 0, count as int, table@.len() as int, 1));
            }
            let ghost order0 = order@;
            build_lnode(&mut order, 0, count, &lights, &table, &mut nodes);
            proof {
                assert(order@.subrange(0, count as int) =~= order@);
                assert(order0.subrange(0, count as int) =~= order0);
                assert(order0 =~= identity_order(count as int));
                lemma_span_multiset_energy(order0, order@, lights@, 0, count as int);
                lemma_identity_span(order0, lights@, 0);
            }
            LightTree { nodes, order, lights }
        }
    }

    /// Selects one light by stochastic descent: given one uniform scalar,
    /// chooses exactly one light, and returns its index, the exact
    /// fixed-point probability that this light would be chosen under the
    /// same inputs, and a residual scalar suitable for reuse.  Returns
    /// `None` exactly when the tree holds no light or every energy
    /// estimate is zero.
    pub fn select<C: SurfaceClosure>(
        &self,
        inc: Vector,
        pos: Point,
        nor: Normal,
        nor_g: Normal,
        sc: &C,
        time: u32,
        n: u64,
    ) -> (r: Option<(usize, u64, u64)>)
        requires
            self.wf(),
            n < PDF_ONE,
            light_point_ok(pos),
        ensures
            (r is None) <==> self.spec_energy() == 0,
            match r {
                Some(s) => {
                    &&& (s.0 as int, s.1 as int, s.2 as int) == spec_descend(
                        self.nodes@,
                        self.nodes@.len() - 1,
                        inc,
                        pos,
                        nor,
                        *sc,
                        n as int,
                        PDF_ONE as int,
                    )
                    &&& s.0 < self.lights@.len()
                    &&& s.1 <= PDF_ONE
                    &&& s.2 < PDF_ONE
                },
                None => true,
            },
    {
        let nn = self.nodes.len();
        if nn == 0 {
            return None;
        }
        let root = nn - 1;
        if get_lnode_energy(&self.nodes, root) == 0 {
            return None;
        }
        let r = descend(
            &self.nodes,
            root,
            Ghost(self.order@),
            Ghost(self.lights@),
            Ghost(0int),
            Ghost(self.order@.len() as int),
            inc,
            pos,
            nor,
            sc,
            n,
            PDF_ONE,
        );
        Some(r)
    }

    /// A cheap aggregate estimate of the lights' total energy: exact at
    /// the root by construction.
    pub fn approximate_energy(&self) -> (r: u64)
        requires
            self.wf(),
        ensures
            r == self.spec_energy(),
    {
        let nn = self.nodes.len();
        if nn == 0 {
            0
        } else {
            get_lnode_energy(&self.nodes, nn - 1)
        }
    }

    /// Non-zero preservation of the energy estimate: whenever any light
    /// of the set has a non-zero energy estimate, the tree's aggregate
    /// estimate — the root's, and by the same argument every ancestor's
    /// along that light's path — is non-zero as well.
    pub proof fn lemma_energy_nonzero_preservation(self, j: int)
        requires
            self.wf(),
            0 <= j < self.lights@.len(),
            self.lights@[j].energy > 0,
        ensures
            self.spec_energy() > 0,
    {
        broadcast use vstd::seq_lib::group_to_multiset_ensures;

        assert(self.lights@.len() == self.lights.len());
        assert(self.order@.len() == self.order.len());
        let n = self.lights@.len() as int;
        let ident = identity_order(n);
        assert(ident[j] == j as usize);
        assert(ident.contains(j as usize));
        vstd::seq_lib::to_multiset_contains(ident, j as usize);
        vstd::seq_lib::to_multiset_contains(self.order@, j as usize);
        assert(self.order@.contains(j as usize));
        let k = choose|k: int| 0 <= k < self.order@.len() && self.order@[k] == j as usize;
        lemma_span_energy_bounds(self.order@, self.lights@, 0, n, k);
        assert(wf_lnode(
            self.nodes@,
            self.order@,
            self.lights@,
            self.nodes@.len() - 1,
            0,
            self.order@.len() as int,
        ));
        assert(self.spec_energy() == span_energy(self.order@, self.lights@, 0, n));
    }
}

impl LightAccel for LightTree {
    open spec fn inv(&self) -> bool {
        self.wf()
    }

    open spec fn spec_energy(&self) -> int {
        if self.nodes@.len() == 0 {
            0
        } else {
            lnode_energy(self.nodes@[self.nodes@.len() - 1]) as int
        }
    }

    fn select<C: SurfaceClosure>(
        &self,
        inc: Vector,
        pos: Point,
        nor: Normal,
        nor_g: Normal,
        sc: &C,
        time: u32,
        n: u64,
    ) -> (r: Option<(usize, u64, u64)>) {
        LightTree::select(self, inc, pos, nor, nor_g, sc, time, n)
    }

    fn approximate_energy(&self) -> u64 {
        LightTree::approximate_energy(self)
    }
}

} // verus!


