//! The 4-wide bounding-volume hierarchy: a collapse of pairs of binary
//! levels into one node of up to four children, with a precomputed
//! traversal-order code per node so children are visited near to far
//! without any per-ray sorting.

use vstd::prelude::*;
use crate::bbox::{covers_samples, samples_wf, spec_union_samples, BBox, TIME_ONE};
use crate::bvh::{
    log_extended, node_bounds, rays_evolved, span_end, union_range, wf_node, BinaryBVH, BvhNode,
    LeafTest,
};
use crate::bvh_order::{calc_traversal_code, traversal_order, SplitAxes, TRAVERSAL_CODE_COUNT};
use crate::objects_split::objects_in_table;
use crate::ray::AccelRay;
use vstd::multiset::Multiset;

verus! {

/// One child slot of a 4-wide node: either a nested node or a leaf span,
/// each carrying its own bounds.
#[derive(Debug)]
pub enum QuadChild {
    Inner { index: usize, bounds: Vec<BBox> },
    Leaf { start: usize, end: usize, bounds: Vec<BBox> },
}

/// The bounds a child slot carries.
pub open spec fn qchild_bounds(c: QuadChild) -> Seq<BBox> {
    match c {
        QuadChild::Inner { bounds, .. } => bounds@,
        QuadChild::Leaf { bounds, .. } => bounds@,
    }
}

/// One node of the 4-wide tree: its populated child slots (in object-span
/// order) and its traversal-order code.
#[derive(Debug)]
pub struct Bvh4Node {
    pub children: Vec<QuadChild>,
    pub code: u8,
}

/// The end of the object span covered by the node: the end of its last
/// child slot.
pub open spec fn qspan_end(nodes: Seq<Bvh4Node>, i: int) -> int
    decreases nodes.len() - i, 5int,
{
    if 0 <= i < nodes.len() && nodes[i].children@.len() > 0 {
        qchild_end(nodes, i, nodes[i].children@[nodes[i].children@.len() - 1])
    } else {
        0
    }
}

/// The end of the object span covered by one child slot.
pub open spec fn qchild_end(nodes: Seq<Bvh4Node>, i: int, c: QuadChild) -> int
    decreases nodes.len() - i, 4int,
{
    match c {
        QuadChild::Leaf { end, .. } => end as int,
        QuadChild::Inner { index, .. } => if i < index < nodes.len() {
            qspan_end(nodes, index as int)
        } else {
            0
        },
    }
}

/// Well-formedness of the child slots of node `i` from slot `k` on, which
/// must cover the object span `[cur, hi)` back to back: a leaf slot's
/// bounds are the exact union of its objects', an inner slot's bounds the
/// exact total of the nested node it points at, and nested nodes always
/// sit after their parent.
pub open spec fn wf_qchildren(
    nodes: Seq<Bvh4Node>,
    objs: Seq<usize>,
    table: Seq<BBox>,
    samples: int,
    i: int,
    k: int,
    cur: int,
    hi: int,
) -> bool
    decreases nodes.len() - i, 3int, nodes[i].children@.len() - k,
{
    let cs = nodes[i].children@;
    if k >= cs.len() {
        cur == hi
    } else {
        match cs[k] {
            QuadChild::Leaf { start, end, bounds } => {
                &&& start == cur
                &&& cur < end <= hi
                &&& objects_in_table(objs, cur, end as int, table.len() as int, samples)
                &&& bounds@ == union_range(objs, cur, end as int, table, samples)
                &&& bounds@.len() == samples
                &&& samples_wf(bounds@)
                &&& wf_qchildren(nodes, objs, table, samples, i, k + 1, end as int, hi)
            },
            QuadChild::Inner { index, bounds } => {
                &&& i < index < nodes.len()
                &&& ({
                    let m = qspan_end(nodes, index as int);
                    &&& cur < m <= hi
                    &&& wf_qnode(nodes, objs, table, samples, index as int, cur, m)
                    &&& bounds@ == qnode_total_bounds(nodes[index as int])
                    &&& bounds@.len() == samples
                    &&& samples_wf(bounds@)
                    &&& wf_qchildren(nodes, objs, table, samples, i, k + 1, m, hi)
                })
            },
        }
    }
}

/// Well-formedness of the subtree rooted at 4-wide node `i` over the
/// object span `[lo, hi)`.
pub open spec fn wf_qnode(
    nodes: Seq<Bvh4Node>,
    objs: Seq<usize>,
    table: Seq<BBox>,
    samples: int,
    i: int,
    lo: int,
    hi: int,
) -> bool
    decreases nodes.len() - i, 4int,
{
    &&& 0 <= i < nodes.len()
    &&& 0 <= lo < hi <= objs.len()
    &&& 1 <= nodes[i].children@.len() <= 4
    &&& nodes[i].code < TRAVERSAL_CODE_COUNT
    &&& wf_qchildren(nodes, objs, table, samples, i, 0, lo, hi)
}

/// The union of all of a node's child-slot bounds, folded from the first
/// slot up.
pub open spec fn qslots_union(cs: Seq<QuadChild>, k: int) -> Seq<BBox>
    decreases cs.len() - k,
{
    if k + 1 >= cs.len() {
        qchild_bounds(cs[k])
    } else {
        spec_union_samples(qchild_bounds(cs[k]), qslots_union(cs, k + 1))
    }
}

/// The total bounds of a 4-wide node: the union of its slots' bounds.
pub open spec fn qnode_total_bounds(n: Bvh4Node) -> Seq<BBox> {
    qslots_union(n.children@, 0)
}

/// The 4-wide hierarchy, remembering (in ghost form) the object order and
/// bounds table of the binary tree it was collapsed from.
pub struct QuadBVH {
    pub nodes: Vec<Bvh4Node>,
    pub n_objects: usize,
    pub samples: usize,
    pub built_from: Ghost<(Seq<usize>, Seq<BBox>)>,
}

impl QuadBVH {
    pub open spec fn wf(self) -> bool {
        &&& self.n_objects == self.built_from@.0.len()
        &&& 1 <= self.samples <= TIME_ONE
        &&& wf_qnode(
            self.nodes@,
            self.built_from@.0,
            self.built_from@.1,
            self.samples as int,
            0,
            0,
            self.n_objects as int,
        )
    }
}

/// 4-wide subtree well-formedness is untouched by edits strictly before
/// the subtree's root or past the end of the old node array.
proof fn lemma_wf_qnode_stable(
    nodes1: Seq<Bvh4Node>,
    nodes2: Seq<Bvh4Node>,
    objs: Seq<usize>,
    table: Seq<BBox>,
    samples: int,
    i: int,
    lo: int,
    hi: int,
)
    requires
        wf_qnode(nodes1, objs, table, samples, i, lo, hi),
        nodes2.len() >= nodes1.len(),
        forall|j: int| i <= j < nodes1.len() ==> nodes2[j] == nodes1[j],
    ensures
        wf_qnode(nodes2, objs, table, samples, i, lo, hi),
        qspan_end(nodes2, i) == qspan_end(nodes1, i),
    decreases nodes1.len() - i, 1int,
{
    lemma_wf_qchildren_stable(nodes1, nodes2, objs, table, samples, i, 0, lo, hi);
    let cs = nodes1[i].children@;
    assert(nodes2[i] == nodes1[i]);
    lemma_qspan_end_from_children(nodes1, objs, table, samples, i, lo, hi);
    lemma_qspan_end_from_children(nodes2, objs, table, samples, i, lo, hi);
}

/// A well-formed node's span end is the `hi` of its well-formedness.
proof fn lemma_qspan_end_from_children(
    nodes: Seq<Bvh4Node>,
    objs: Seq<usize>,
    table: Seq<BBox>,
    samples: int,
    i: int,
    lo: int,
    hi: int,
)
    requires
        wf_qnode(nodes, objs, table, samples, i, lo, hi),
    ensures
        qspan_end(nodes, i) == hi,
    decreases nodes.len() - i, 2int,
{
    lemma_qchildren_end(nodes, objs, table, samples, i, 0, lo, hi);
}

/// The last slot of a well-formed slot run ends at `hi`.
proof fn lemma_qchildren_end(
    nodes: Seq<Bvh4Node>,
    objs: Seq<usize>,
    table: Seq<BBox>,
    samples: int,
    i: int,
    k: int,
    cur: int,
    hi: int,
)
    requires
        wf_qchildren(nodes, objs, table, samples, i, k, cur, hi),
        0 <= k < nodes[i].children@.len(),
        0 <= i < nodes.len(),
    ensures
        qchild_end(nodes, i, nodes[i].children@[nodes[i].children@.len() - 1]) == hi,
    decreases nodes.len() - i, 1int, nodes[i].children@.len() - k,
{
    let cs = nodes[i].children@;
    match cs[k] {
        QuadChild::Leaf { start, end, bounds } => {
            if k + 1 < cs.len() {
                lemma_qchildren_end(nodes, objs, table, samples, i, k + 1, end as int, hi);
            } else {
                assert(wf_qchildren(nodes, objs, table, samples, i, k + 1, end as int, hi));
                assert(end == hi);
                assert(cs[cs.len() - 1] == cs[k]);
            }
        },
        QuadChild::Inner { index, bounds } => {
            let m = qspan_end(nodes, index as int);
            if k + 1 < cs.len() {
                lemma_qchildren_end(nodes, objs, table, samples, i, k + 1, m, hi);
            } else {
                assert(wf_qchildren(nodes, objs, table, samples, i, k + 1, m, hi));
                assert(m == hi);
                assert(cs[cs.len() - 1] == cs[k]);
            }
        },
    }
}

/// Slot-run well-formedness is untouched by edits strictly before the
/// parent or past the end of the old node array.
proof fn lemma_wf_qchildren_stable(
    nodes1: Seq<Bvh4Node>,
    nodes2: Seq<Bvh4Node>,
    objs: Seq<usize>,
    table: Seq<BBox>,
    samples: int,
    i: int,
    k: int,
    cur: int,
    hi: int,
)
    requires
        wf_qchildren(nodes1, objs, table, samples, i, k, cur, hi),
        0 <= i < nodes1.len(),
        nodes2.len() >= nodes1.len(),
        forall|j: int| i <= j < nodes1.len() ==> nodes2[j] == nodes1[j],
    ensures
        wf_qchildren(nodes2, objs, table, samples, i, k, cur, hi),
    decreases nodes1.len() - i, 0int, nodes1[i].children@.len() - k,
{
    let cs = nodes1[i].children@;
    assert(nodes2[i] == nodes1[i]);
    if k < cs.len() {
        match cs[k] {
            QuadChild::Leaf { start, end, bounds } => {
                lemma_wf_qchildren_stable(
                    nodes1,
                    nodes2,
                    objs,
                    table,
                    samples,
                    i,
                    k + 1,
                    end as int,
                    hi,
                );
            },
            QuadChild::Inner { index, bounds } => {
                let m = qspan_end(nodes1, index as int);
                lemma_wf_qnode_stable(nodes1, nodes2, objs, table, samples, index as int, cur, m);
                assert(nodes2[index as int] == nodes1[index as int]);
                lemma_wf_qchildren_stable(nodes1, nodes2, objs, table, samples, i, k + 1, m, hi);
            },
        }
    }
}


/// Extracts, in ghost form, the object span a child slot covers, together
/// with its well-formedness facts.
proof fn qslot_span(
    nodes: Seq<Bvh4Node>,
    objs: Seq<usize>,
    table: Seq<BBox>,
    samples: int,
    i: int,
    k: int,
    cur: int,
    hi: int,
    s: int,
) -> (r: (int, int))
    requires
        wf_qchildren(nodes, objs, table, samples, i, k, cur, hi),
        0 <= i < nodes.len(),
        k <= s < nodes[i].children@.len(),
        0 <= k,
    ensures
        r.0 < r.1 <= hi,
        match nodes[i].children@[s] {
            QuadChild::Leaf { start, end, bounds } => {
                &&& r == (start as int, end as int)
                &&& objects_in_table(objs, r.0, r.1, table.len() as int, samples)
                &&& bounds@ == union_range(objs, r.0, r.1, table, samples)
                &&& bounds@.len() == samples
                &&& samples_wf(bounds@)
            },
            QuadChild::Inner { index, bounds } => {
                &&& i < index < nodes.len()
                &&& wf_qnode(nodes, objs, table, samples, index as int, r.0, r.1)
                &&& bounds@.len() == samples
                &&& samples_wf(bounds@)
            },
        },
    decreases s - k,
{
    let cs = nodes[i].children@;
    match cs[k] {
        QuadChild::Leaf { start, end, bounds } => {
            if k == s {
                (start as int, end as int)
            } else {
                qslot_span(nodes, objs, table, samples, i, k + 1, end as int, hi, s)
            }
        },
        QuadChild::Inner { index, bounds } => {
            let m = qspan_end(nodes, index as int);
            if k == s {
                (cur, m)
            } else {
                qslot_span(nodes, objs, table, samples, i, k + 1, m, hi, s)
            }
        },
    }
}

/// Builds one child slot from a binary node: a nested 4-wide node when
/// the binary node still splits, its leaf span otherwise.
fn make_slot(
    bnodes: &Vec<BvhNode>,
    s: usize,
    Ghost(objs_g): Ghost<Seq<usize>>,
    Ghost(table_g): Ghost<Seq<BBox>>,
    Ghost(samples_g): Ghost<int>,
    Ghost(slo): Ghost<int>,
    Ghost(shi): Ghost<int>,
    qnodes: &mut Vec<Bvh4Node>,
) -> (c: QuadChild)
    requires
        wf_node(bnodes@, objs_g, table_g, samples_g, s as int, slo, shi),
    ensures
        final(qnodes)@.len() >= old(qnodes)@.len(),
        final(qnodes)@.take(old(qnodes)@.len() as int) == old(qnodes)@,
        qchild_bounds(c) == node_bounds(bnodes@[s as int]),
        qchild_bounds(c).len() == samples_g,
        samples_wf(qchild_bounds(c)),
        match c {
            QuadChild::Inner { index, bounds } => {
                &&& old(qnodes)@.len() <= index < final(qnodes)@.len()
                &&& wf_qnode(final(qnodes)@, objs_g, table_g, samples_g, index as int, slo, shi)
                &&& qspan_end(final(qnodes)@, index as int) == shi
                &&& bounds@ == qnode_total_bounds(final(qnodes)@[index as int])
            },
            QuadChild::Leaf { start, end, bounds } => {
                &&& start == slo
                &&& end == shi
                &&& final(qnodes)@ == old(qnodes)@
                &&& objects_in_table(objs_g, slo, shi, table_g.len() as int, samples_g)
                &&& bounds@ == union_range(objs_g, slo, shi, table_g, samples_g)
            },
        },
    decreases shi - slo, 2int,
{
    let is_leaf = match &bnodes[s] {
        BvhNode::Leaf { .. } => true,
        BvhNode::Internal { .. } => false,
    };
    if is_leaf {
        let b = crate::bvh::get_node_bounds(bnodes, s);
        match &bnodes[s] {
            BvhNode::Leaf { start, end, .. } => QuadChild::Leaf {
                start: *start,
                end: *end,
                bounds: b,
            },
            BvhNode::Internal { .. } => {
                proof {
                    assert(false);
                }
                QuadChild::Leaf { start: 0, end: 0, bounds: b }
            },
        }
    } else {
        let b = crate::bvh::get_node_bounds(bnodes, s);
        let index = collapse(
            bnodes,
            s,
            Ghost(objs_g),
            Ghost(table_g),
            Ghost(samples_g),
            Ghost(slo),
            Ghost(shi),
            qnodes,
        );
        proof {
            lemma_qspan_end_from_children(
                qnodes@,
                objs_g,
                table_g,
                samples_g,
                index as int,
                slo,
                shi,
            );
        }
        QuadChild::Inner { index, bounds: b }
    }
}

/// Applies subtree stability for one nested slot across an edit that
/// leaves indexes at and after the slot's node untouched.
proof fn slot_survives(
    prev: Seq<Bvh4Node>,
    qn: Seq<Bvh4Node>,
    objs: Seq<usize>,
    table: Seq<BBox>,
    samples: int,
    index: int,
    slo: int,
    shi: int,
)
    requires
        wf_qnode(prev, objs, table, samples, index, slo, shi),
        qspan_end(prev, index) == shi,
        qn.len() >= prev.len(),
        forall|j: int| index <= j < prev.len() ==> qn[j] == prev[j],
    ensures
        wf_qnode(qn, objs, table, samples, index, slo, shi),
        qspan_end(qn, index) == shi,
        qn[index] == prev[index],
{
    lemma_wf_qnode_stable(prev, qn, objs, table, samples, index, slo, shi);
}

/// Collapses the binary subtree rooted at an internal node into a 4-wide
/// node holding its up-to-four grandchildren, appended depth first, and
/// returns the new node's index.
#[verifier::rlimit(60)]
fn collapse(
    bnodes: &Vec<BvhNode>,
    bi: usize,
    Ghost(objs_g): Ghost<Seq<usize>>,
    Ghost(table_g): Ghost<Seq<BBox>>,
    Ghost(samples_g): Ghost<int>,
    Ghost(lo): Ghost<int>,
    Ghost(hi): Ghost<int>,
    qnodes: &mut Vec<Bvh4Node>,
) -> (qi: usize)
    requires
        wf_node(bnodes@, objs_g, table_g, samples_g, bi as int, lo, hi),
        bnodes@[bi as int] is Internal,
    ensures
        qi == old(qnodes)@.len(),
        final(qnodes)@.len() > qi,
        final(qnodes)@.take(qi as int) == old(qnodes)@,
        wf_qnode(final(qnodes)@, objs_g, table_g, samples_g, qi as int, lo, hi),
        qnode_total_bounds(final(qnodes)@[qi as int]) == node_bounds(bnodes@[bi as int]),
        qspan_end(final(qnodes)@, qi as int) == hi,
    decreases hi - lo, 1int,
{
    let my = qnodes.len();
    qnodes.push(Bvh4Node { children: Vec::new(), code: 0 });
    let ghost q0 = qnodes@;
    let (sc, ta) = match &bnodes[bi] {
        BvhNode::Internal { second_child, split_axis, .. } => (*second_child, *split_axis),
        BvhNode::Leaf { .. } => {
            proof {
                assert(false);
            }
            (0, 0)
        },
    };
    let left = bi + 1;
    let ghost mid = span_end(bnodes@, left as int);
    let (l_splits, la, lsc) = match &bnodes[left] {
        BvhNode::Internal { second_child, split_axis, .. } => (true, *split_axis, *second_child),
        BvhNode::Leaf { .. } => (false, 0u8, 0usize),
    };
    let (r_splits, ra, rsc) = match &bnodes[sc] {
        BvhNode::Internal { second_child, split_axis, .. } => (true, *split_axis, *second_child),
        BvhNode::Leaf { .. } => (false, 0u8, 0usize),
    };
    proof {
        assert(bnodes@.len() == bnodes.len());
        assert(wf_node(bnodes@, objs_g, table_g, samples_g, left as int, lo, mid));
        assert(wf_node(bnodes@, objs_g, table_g, samples_g, sc as int, mid, hi));
        assert(ta < 3);
        if l_splits {
            assert(la < 3);
        }
        if r_splits {
            assert(ra < 3);
        }
        assert(sc < bnodes@.len());
    }
    let axes = if l_splits && r_splits {
        SplitAxes::Full((ta, la, ra))
    } else if l_splits {
        SplitAxes::Left((ta, la))
    } else if r_splits {
        SplitAxes::Right((ta, ra))
    } else {
        SplitAxes::TopOnly(ta)
    };
    let code = calc_traversal_code(axes);
    // Gather the child slots in object-span order, with each slot's span
    // tracked in ghost form.
    let ghost lmid = if l_splits {
        span_end(bnodes@, left + 1)
    } else {
        mid
    };
    let ghost rmid = if r_splits {
        span_end(bnodes@, sc + 1)
    } else {
        hi
    };
    let mut children: Vec<QuadChild> = Vec::new();
    let ghost mut spans: Seq<(int, int)> = Seq::empty();
    if l_splits {
        let c0 = make_slot(
            bnodes,
            left + 1,
            Ghost(objs_g),
            Ghost(table_g),
            Ghost(samples_g),
            Ghost(lo),
            Ghost(lmid),
            qnodes,
        );
        let ghost qa = qnodes@;
        let c1 = make_slot(
            bnodes,
            lsc,
            Ghost(objs_g),
            Ghost(table_g),
            Ghost(samples_g),
            Ghost(lmid),
            Ghost(mid),
            qnodes,
        );
        proof {
            if c0 is Inner {
                assert(forall|j: int| 0 <= j < qa.len() ==> qnodes@[j] == qa[j]) by {
                    assert(qnodes@.take(qa.len() as int) == qa);
                }
                slot_survives(
                    qa,
                    qnodes@,
                    objs_g,
                    table_g,
                    samples_g,
                    c0->Inner_index as int,
                    lo,
                    lmid,
                );
            }
            spans = spans.push((lo, lmid)).push((lmid, mid));
        }
        children.push(c0);
        children.push(c1);
    } else {
        let c0 = make_slot(
            bnodes,
            left,
            Ghost(objs_g),
            Ghost(table_g),
            Ghost(samples_g),
            Ghost(lo),
            Ghost(mid),
            qnodes,
        );
        proof {
            spans = spans.push((lo, mid));
        }
        children.push(c0);
    }
    let ghost qm = qnodes@;
    let ghost n_left = children@.len() as int;
    if r_splits {
        let c2 = make_slot(
            bnodes,
            sc + 1,
            Ghost(objs_g),
            Ghost(table_g),
            Ghost(samples_g),
            Ghost(mid),
            Ghost(rmid),
            qnodes,
        );
        let ghost qb = qnodes@;
        let c3 = make_slot(
            bnodes,
            rsc,
            Ghost(objs_g),
            Ghost(table_g),
            Ghost(samples_g),
            Ghost(rmid),
            Ghost(hi),
            qnodes,
        );
        proof {
            if c2 is Inner {
                assert(forall|j: int| 0 <= j < qb.len() ==> qnodes@[j] == qb[j]) by {
                    assert(qnodes@.take(qb.len() as int) == qb);
                }
                slot_survives(
                    qb,
                    qnodes@,
                    objs_g,
                    table_g,
                    samples_g,
                    c2->Inner_index as int,
                    mid,
                    rmid,
                );
            }
            spans = spans.push((mid, rmid)).push((rmid, hi));
        }
        children.push(c2);
        children.push(c3);
    } else {
        let c2 = make_slot(
            bnodes,
            sc,
            Ghost(objs_g),
            Ghost(table_g),
            Ghost(samples_g),
            Ghost(mid),
            Ghost(hi),
            qnodes,
        );
        proof {
            spans = spans.push((mid, hi));
        }
        children.push(c2);
    }
    proof {
        // The left-group slots survive the right-group appends.
        assert(forall|j: int| 0 <= j < qm.len() ==> qnodes@[j] == qm[j]) by {
            assert(qnodes@.take(qm.len() as int) == qm);
        }
        if l_splits {
            if children@[0] is Inner {
                slot_survives(
                    qm,
                    qnodes@,
                    objs_g,
                    table_g,
                    samples_g,
                    children@[0]->Inner_index as int,
                    lo,
                    lmid,
                );
            }
            if children@[1] is Inner {
                slot_survives(
                    qm,
                    qnodes@,
                    objs_g,
                    table_g,
                    samples_g,
                    children@[1]->Inner_index as int,
                    lmid,
                    mid,
                );
            }
        } else {
            if children@[0] is Inner {
                slot_survives(
                    qm,
                    qnodes@,
                    objs_g,
                    table_g,
                    samples_g,
                    children@[0]->Inner_index as int,
                    lo,
                    mid,
                );
            }
        }
    }
    let ghost qpre = qnodes@;
    let ghost cseq = children@;
    let node = Bvh4Node { children, code };
    vstd::pervasive::VecAdditionalExecFns::set(qnodes, my, node);
    proof {
        let qf = qnodes@;
        assert(qf[my as int].children@ == cseq);
        assert(qf[my as int].code == code);
        // Every slot's facts carry over to the final array: only the
        // placeholder at `my` changed, and every nested slot sits after it.
        assert(forall|j: int| my < j < qpre.len() ==> qf[j] == qpre[j]);
        let n = cseq.len() as int;
        assert forall|k: int| 0 <= k < n implies slot_settled(
            qf,
            objs_g,
            table_g,
            samples_g,
            cseq[k],
            spans[k].0,
            spans[k].1,
        ) by {
            if cseq[k] is Inner {
                let index = cseq[k]->Inner_index as int;
                assert(my < index);
                slot_survives(
                    qpre,
                    qf,
                    objs_g,
                    table_g,
                    samples_g,
                    index,
                    spans[k].0,
                    spans[k].1,
                );
            }
        }
        // Assemble the slot-run invariant back to front.
        assert(wf_qchildren(qf, objs_g, table_g, samples_g, my as int, n, hi, hi));
        assert forall|k: int| 0 <= k < n implies spans[k].1 == (if k + 1 < n {
            spans[k + 1].0
        } else {
            hi
        }) && spans[0].0 == lo by {}
        assert(wf_qchildren(qf, objs_g, table_g, samples_g, my as int, n - 1, spans[n - 1].0, hi));
        if n >= 2 {
            assert(wf_qchildren(
                qf,
                objs_g,
                table_g,
                samples_g,
                my as int,
                n - 2,
                spans[n - 2].0,
                hi,
            ));
        }
        if n >= 3 {
            assert(wf_qchildren(
                qf,
                objs_g,
                table_g,
                samples_g,
                my as int,
                n - 3,
                spans[n - 3].0,
                hi,
            ));
        }
        if n >= 4 {
            assert(wf_qchildren(
                qf,
                objs_g,
                table_g,
                samples_g,
                my as int,
                n - 4,
                spans[n - 4].0,
                hi,
            ));
        }
        assert(wf_qchildren(qf, objs_g, table_g, samples_g, my as int, 0, lo, hi));
        assert(wf_qnode(qf, objs_g, table_g, samples_g, my as int, lo, hi));
        // The node's total bounds equal the binary node's.
        lemma_total_bounds_assembled(
            qf,
            bnodes@,
            objs_g,
            table_g,
            samples_g,
            my as int,
            bi as int,
            cseq,
            l_splits,
            r_splits,
        );
        assert(qf.take(my as int) =~= old(qnodes)@) by {
            assert(q0.take(my as int) =~= old(qnodes)@);
            assert forall|j: int|
                #![trigger qf.take(my as int)[j]]
                0 <= j < my implies qf.take(my as int)[j] == old(qnodes)@[j] by {
                assert(qf[j] == q0[j]) by {
                    assert(qpre.take(q0.len() as int)[j] == qpre[j]);
                }
            }
        }
        lemma_qspan_end_from_children(qf, objs_g, table_g, samples_g, my as int, lo, hi);
    }
    my
}

/// A slot's settled facts over the final node array.
pub open spec fn slot_settled(
    nodes: Seq<Bvh4Node>,
    objs: Seq<usize>,
    table: Seq<BBox>,
    samples: int,
    c: QuadChild,
    slo: int,
    shi: int,
) -> bool {
    match c {
        QuadChild::Inner { index, bounds } => {
            &&& index < nodes.len()
            &&& wf_qnode(nodes, objs, table, samples, index as int, slo, shi)
            &&& qspan_end(nodes, index as int) == shi
            &&& bounds@ == qnode_total_bounds(nodes[index as int])
        },
        QuadChild::Leaf { start, end, bounds } => {
            &&& start == slo
            &&& end == shi
            &&& objects_in_table(objs, slo, shi, table.len() as int, samples)
            &&& bounds@ == union_range(objs, slo, shi, table, samples)
        },
    }
}

/// Relates the folded slot bounds of the collapsed node to the binary
/// node's bounds.
proof fn lemma_total_bounds_assembled(
    qf: Seq<Bvh4Node>,
    bnodes: Seq<BvhNode>,
    objs: Seq<usize>,
    table: Seq<BBox>,
    samples: int,
    my: int,
    bi: int,
    cseq: Seq<QuadChild>,
    l_splits: bool,
    r_splits: bool,
)
    requires
        0 <= my < qf.len(),
        qf[my].children@ == cseq,
        1 <= cseq.len() <= 4,
        0 <= bi < bnodes.len(),
        bnodes[bi] is Internal,
        cseq.len() == (if l_splits {
            2int
        } else {
            1int
        }) + (if r_splits {
            2int
        } else {
            1int
        }),
        forall|k: int| 0 <= k < cseq.len() ==> (#[trigger] qchild_bounds(cseq[k])).len() == samples,
        ({
            let sc = bnodes[bi]->Internal_second_child as int;
            let left = bi + 1;
            &&& bi + 1 < sc < bnodes.len()
            &&& node_bounds(bnodes[bi]) == spec_union_samples(
                node_bounds(bnodes[left]),
                node_bounds(bnodes[sc]),
            )
            &&& (if l_splits {
                bnodes[left] is Internal && left + 1 < bnodes[left]->Internal_second_child
                    < bnodes.len() && node_bounds(bnodes[left]) == spec_union_samples(
                    node_bounds(bnodes[left + 1]),
                    node_bounds(bnodes[bnodes[left]->Internal_second_child as int]),
                ) && qchild_bounds(cseq[0]) == node_bounds(bnodes[left + 1]) && qchild_bounds(
                    cseq[1],
                ) == node_bounds(bnodes[bnodes[left]->Internal_second_child as int])
            } else {
                qchild_bounds(cseq[0]) == node_bounds(bnodes[left])
            })
            &&& (if r_splits {
                bnodes[sc] is Internal && sc + 1 < bnodes[sc]->Internal_second_child < bnodes.len()
                    && node_bounds(bnodes[sc]) == spec_union_samples(
                    node_bounds(bnodes[sc + 1]),
                    node_bounds(bnodes[bnodes[sc]->Internal_second_child as int]),
                ) && qchild_bounds(cseq[cseq.len() - 2]) == node_bounds(bnodes[sc + 1])
                    && qchild_bounds(cseq[cseq.len() - 1]) == node_bounds(
                    bnodes[bnodes[sc]->Internal_second_child as int],
                )
            } else {
                qchild_bounds(cseq[cseq.len() - 1]) == node_bounds(bnodes[sc])
            })
        }),
    ensures
        qnode_total_bounds(qf[my]) == node_bounds(bnodes[bi]),
{
    let sc = bnodes[bi]->Internal_second_child as int;
    let left = bi + 1;
    let bl = node_bounds(bnodes[left]);
    let br = node_bounds(bnodes[sc]);
    if l_splits && r_splits {
        let b0 = qchild_bounds(cseq[0]);
        let b1 = qchild_bounds(cseq[1]);
        let b2 = qchild_bounds(cseq[2]);
        let b3 = qchild_bounds(cseq[3]);
        assert(qslots_union(cseq, 3) == b3);
        assert(qslots_union(cseq, 2) == spec_union_samples(b2, b3));
        assert(qslots_union(cseq, 1) == spec_union_samples(b1, spec_union_samples(b2, b3)));
        assert(qslots_union(cseq, 0) == spec_union_samples(
            b0,
            spec_union_samples(b1, spec_union_samples(b2, b3)),
        ));
        crate::bbox::lemma_union_samples_assoc(b0, b1, spec_union_samples(b2, b3));
    } else if l_splits {
        let b0 = qchild_bounds(cseq[0]);
        let b1 = qchild_bounds(cseq[1]);
        let b2 = qchild_bounds(cseq[2]);
        assert(qslots_union(cseq, 2) == b2);
        assert(qslots_union(cseq, 1) == spec_union_samples(b1, b2));
        assert(qslots_union(cseq, 0) == spec_union_samples(b0, spec_union_samples(b1, b2)));
        crate::bbox::lemma_union_samples_assoc(b0, b1, b2);
    } else if r_splits {
        let b0 = qchild_bounds(cseq[0]);
        let b1 = qchild_bounds(cseq[1]);
        let b2 = qchild_bounds(cseq[2]);
        assert(qslots_union(cseq, 2) == b2);
        assert(qslots_union(cseq, 1) == spec_union_samples(b1, b2));
        assert(qslots_union(cseq, 0) == spec_union_samples(b0, spec_union_samples(b1, b2)));
    } else {
        let b0 = qchild_bounds(cseq[0]);
        let b1 = qchild_bounds(cseq[1]);
        assert(qslots_union(cseq, 1) == b1);
        assert(qslots_union(cseq, 0) == spec_union_samples(b0, b1));
    }
}


impl QuadBVH {
    /// Collapses a binary hierarchy: each internal node is merged with
    /// its up-to-two internal children into one 4-wide node, with the
    /// traversal-order code computed from the recorded split axes; a
    /// single-leaf hierarchy becomes a single one-slot node.
    pub fn from_binary(tree: &BinaryBVH) -> (r: QuadBVH)
        requires
            tree.wf(),
        ensures
            r.wf(),
            r.built_from == tree.built_from,
            r.n_objects == tree.n_objects,
            r.samples == tree.samples,
    {
        let mut qnodes: Vec<Bvh4Node> = Vec::new();
        let is_leaf = match &tree.nodes[0] {
            BvhNode::Leaf { .. } => true,
            BvhNode::Internal { .. } => false,
        };
        if is_leaf {
            match &tree.nodes[0] {
                BvhNode::Leaf { start, end, bounds } => {
                    let b = crate::bvh::copy_boxes(bounds);
                    let mut children: Vec<QuadChild> = Vec::new();
                    children.push(QuadChild::Leaf { start: *start, end: *end, bounds: b });
                    qnodes.push(Bvh4Node { children, code: 45 });
                },
                BvhNode::Internal { .. } => {
                    proof {
                        assert(false);
                    }
                },
            }
            proof {
                assert(wf_qchildren(
                    qnodes@,
                    tree.built_from@.0,
                    tree.built_from@.1,
                    tree.samples as int,
                    0,
                    1,
                    tree.n_objects as int,
                    tree.n_objects as int,
                ));
            }
            QuadBVH {
                nodes: qnodes,
                n_objects: tree.n_objects,
                samples: tree.samples,
                built_from: tree.built_from,
            }
        } else {
            collapse(
                &tree.nodes,
                0,
                Ghost(tree.built_from@.0),
                Ghost(tree.built_from@.1),
                Ghost(tree.samples as int),
                Ghost(0int),
                Ghost(tree.n_objects as int),
                &mut qnodes,
            );
            QuadBVH {
                nodes: qnodes,
                n_objects: tree.n_objects,
                samples: tree.samples,
                built_from: tree.built_from,
            }
        }
    }
}

/// Visits one 4-wide subtree with the live prefix `rays[0 .. n_live]`,
/// taking the node's child slots in the precomputed near-to-far order for
/// the batch's leading ray.
fn traverse_qnode<T: Copy, V: LeafTest<T>>(
    nodes: &Vec<Bvh4Node>,
    qi: usize,
    Ghost(objs_g): Ghost<Seq<usize>>,
    Ghost(table_g): Ghost<Seq<BBox>>,
    Ghost(samples_g): Ghost<int>,
    Ghost(lo): Ghost<int>,
    Ghost(hi): Ghost<int>,
    rays: &mut Vec<AccelRay>,
    n_live: usize,
    objects: &Vec<T>,
    visitor: &mut V,
)
    requires
        wf_qnode(nodes@, objs_g, table_g, samples_g, qi as int, lo, hi),
        hi <= objects@.len(),
        n_live <= old(rays)@.len(),
        forall|i: int| 0 <= i < old(rays)@.len() ==> (#[trigger] old(rays)@[i]).wf(),
    ensures
        final(rays)@.len() == old(rays)@.len(),
        forall|i: int| 0 <= i < final(rays)@.len() ==> (#[trigger] final(rays)@[i]).wf(),
        final(rays)@.skip(n_live as int) == old(rays)@.skip(n_live as int),
        rays_evolved(old(rays)@, final(rays)@),
        log_extended(objects@, old(visitor).visited(), final(visitor).visited()),
        (nodes@[qi as int].children@.len() == 1 && nodes@[qi as int].children@[0] is Leaf)
            ==> crate::bvh::leaf_schedule(
            qchild_bounds(nodes@[qi as int].children@[0]),
            nodes@[qi as int].children@[0]->Leaf_start as int,
            nodes@[qi as int].children@[0]->Leaf_end as int,
            objects@,
            old(rays)@.take(n_live as int),
            final(rays)@.take(n_live as int),
            old(visitor).visited(),
            final(visitor).visited(),
        ),
    decreases nodes@.len() - qi,
{
    let ghost pre = old(rays)@;
    let ghost base = old(visitor).visited();
    let ghost lone_leaf = nodes@[qi as int].children@.len() == 1 && nodes@[qi as int].children@[0]
        is Leaf;
    proof {
        crate::bvh::lemma_rays_evolved_refl(pre);
        crate::bvh::lemma_log_extended_refl(objects@, base);
    }
    if n_live == 0 {
        proof {
            if lone_leaf {
                broadcast use vstd::multiset::group_multiset_axioms;

                let b = qchild_bounds(nodes@[qi as int].children@[0]);
                assert(pre.take(0) =~= Seq::<AccelRay>::empty());
                vstd::seq_lib::to_multiset_len(pre.take(0));
                assert(crate::bvh::live_hit_multiset(b, pre.take(0)) =~= Multiset::<
                    AccelRay,
                >::empty()) by {
                    assert forall|x: AccelRay|
                        crate::bvh::live_hit_multiset(b, pre.take(0)).count(x) == 0 by {
                        if crate::bvh::live_hit_multiset(b, pre.take(0)).count(x) > 0 {
                            assert(pre.take(0).to_multiset().count(x) > 0);
                            vstd::seq_lib::to_multiset_len(pre.take(0));
                        }
                    }
                }
            }
        }
        return ;
    }
    let octant = rays[0].dir.octant();
    let code = nodes[qi].code;
    let perm = traversal_order(octant, code);
    let mut ord: Vec<u8> = Vec::new();
    ord.push(perm.0);
    ord.push(perm.1);
    ord.push(perm.2);
    ord.push(perm.3);
    let cl = nodes[qi].children.len();
    proof {
        crate::bvh_order::lemma_traversal_order_permutes(octant, code);
    }
    let mut j: usize = 0;
    while j < 4
        invariant
            j <= 4,
            ord@.len() == 4,
            forall|q: int| 0 <= q < 4 ==> (#[trigger] ord@[q]) < 4,
            cl == nodes@[qi as int].children@.len(),
            wf_qnode(nodes@, objs_g, table_g, samples_g, qi as int, lo, hi),
            hi <= objects@.len(),
            n_live <= rays@.len(),
            rays@.len() == pre.len(),
            forall|i: int| 0 <= i < pre.len() ==> (#[trigger] pre[i]).wf(),
            forall|i: int| 0 <= i < rays@.len() ==> (#[trigger] rays@[i]).wf(),
            rays@.skip(n_live as int) == pre.skip(n_live as int),
            rays_evolved(pre, rays@),
            log_extended(objects@, base, visitor.visited()),
            forall|p: int, q: int| 0 <= p < q < 4 ==> ord@[p] != ord@[q],
            lone_leaf == (nodes@[qi as int].children@.len() == 1 && nodes@[qi as int].children@[0]
                is Leaf),
            lone_leaf ==> ((visitor.visited() == base && rays@ == pre && (forall|j2: int|
                0 <= j2 < j ==> ord@[j2] != 0)) || ((exists|j2: int|
                0 <= j2 < j && ord@[j2] == 0) && crate::bvh::leaf_schedule(
                qchild_bounds(nodes@[qi as int].children@[0]),
                nodes@[qi as int].children@[0]->Leaf_start as int,
                nodes@[qi as int].children@[0]->Leaf_end as int,
                objects@,
                pre.take(n_live as int),
                rays@.take(n_live as int),
                base,
                visitor.visited(),
            ))),
        decreases 4 - j,
    {
        let s = ord[j] as usize;
        if s < cl {
            let ghost sp = qslot_span(
                nodes@,
                objs_g,
                table_g,
                samples_g,
                qi as int,
                0,
                lo,
                hi,
                s as int,
            );
            let ghost before = rays@;
            let ghost logb = visitor.visited();
            match &nodes[qi].children[s] {
                QuadChild::Inner { index, bounds } => {
                    let bvec = crate::bvh::copy_boxes(bounds);
                    let ks = crate::bvh::partition_live_hits(rays, n_live, &bvec);
                    let ghost after_part = rays@;
                    proof {
                        crate::bvh::lemma_rays_evolved_trans(pre, before, after_part);
                    }
                    traverse_qnode(
                        nodes,
                        *index,
                        Ghost(objs_g),
                        Ghost(table_g),
                        Ghost(samples_g),
                        Ghost(sp.0),
                        Ghost(sp.1),
                        rays,
                        ks,
                        objects,
                        visitor,
                    );
                    proof {
                        let after = rays@;
                        crate::bvh::lemma_rays_evolved_trans(pre, after_part, after);
                        assert(after.skip(n_live as int) =~= after_part.skip(n_live as int)) by {
                            assert forall|q: int|
                                #![trigger after.skip(n_live as int)[q]]
                                0 <= q < after.len() - n_live implies after.skip(n_live as int)[q]
                                == after_part.skip(n_live as int)[q] by {
                                assert(after.skip(ks as int)[n_live - ks + q] == after[n_live + q]);
                                assert(after_part.skip(ks as int)[n_live - ks + q] == after_part[
                                n_live + q]);
                            }
                        }
                        crate::bvh::lemma_log_extended_trans(
                            objects@,
                            base,
                            logb,
                            visitor.visited(),
                        );
                    }
                },
                QuadChild::Leaf { start, end, bounds } => {
                    let bvec = crate::bvh::copy_boxes(bounds);
                    let ks = crate::bvh::partition_live_hits(rays, n_live, &bvec);
                    let ghost after_part = rays@;
                    proof {
                        crate::bvh::lemma_rays_evolved_trans(pre, before, after_part);
                    }
                    if ks > 0 {
                        crate::bvh::visit_leaf_objects(objects, *start, *end, rays, ks, visitor);
                        proof {
                            let after = rays@;
                            crate::bvh::lemma_rays_evolved_trans(pre, after_part, after);
                            crate::bvh::lemma_log_extended_trans(
                                objects@,
                                base,
                                logb,
                                visitor.visited(),
                            );
                            assert(after.skip(n_live as int) =~= after_part.skip(n_live as int))
                                by {
                                assert forall|q: int|
                                    #![trigger after.skip(n_live as int)[q]]
                                    0 <= q < after.len() - n_live implies after.skip(
                                    n_live as int,
                                )[q] == after_part.skip(n_live as int)[q] by {
                                    assert(after.skip(ks as int)[n_live - ks + q] == after[n_live
                                        + q]);
                                    assert(after_part.skip(ks as int)[n_live - ks + q]
                                        == after_part[n_live + q]);
                                }
                            }
                            if lone_leaf && s == 0 {
                                // The whole visit schedule of a lone-leaf
                                // node is pinned, mirroring the binary
                                // leaf case.
                                broadcast use vstd::multiset::group_multiset_axioms;

                                let b = qchild_bounds(nodes@[qi as int].children@[0]);
                                assert(bvec@ == b);
                                assert(before == pre && logb == base);
                                vstd::seq_lib::to_multiset_len(after_part.take(ks as int));
                                if visitor.visited().len() > base.len() {
                                    crate::bvh::lemma_live_multiset_all_live(
                                        after_part.take(ks as int),
                                    );
                                    assert(visitor.visited()[base.len() as int].1.to_multiset()
                                        == crate::bvh::live_hit_multiset(
                                        b,
                                        pre.take(n_live as int),
                                    ));
                                }
                                assert((visitor.visited().len() > base.len())
                                    <==> crate::bvh::live_hit_multiset(b, pre.take(n_live as int))
                                    != Multiset::<AccelRay>::empty()) by {
                                    if visitor.visited().len() > base.len() {
                                        assert(crate::bvh::live_hit_multiset(
                                            b,
                                            pre.take(n_live as int),
                                        ).len() == ks);
                                    } else {
                                        assert(!after_part[0].done);
                                        assert(visitor.visited().len() > base.len());
                                    }
                                }
                                if visitor.visited().len() - base.len() < sp.1 - sp.0 {
                                    assert forall|i: int|
                                        0 <= i < n_live implies !crate::bvh::ray_live_hit(
                                        b,
                                        #[trigger] after.take(n_live as int)[i],
                                    ) by {
                                        assert(after.take(n_live as int)[i] == after[i]);
                                        if i < ks {
                                            assert(after[i].done);
                                        } else {
                                            assert(after.skip(ks as int)[i - ks] == after[i]);
                                            assert(after_part.skip(ks as int)[i - ks]
                                                == after_part[i]);
                                        }
                                    }
                                }
                                assert(crate::bvh::leaf_schedule(
                                    b,
                                    sp.0,
                                    sp.1,
                                    objects@,
                                    pre.take(n_live as int),
                                    after.take(n_live as int),
                                    base,
                                    visitor.visited(),
                                ));
                            }
                        }
                    } else {
                        proof {
                            if lone_leaf && s == 0 {
                                broadcast use vstd::multiset::group_multiset_axioms;

                                let b = qchild_bounds(nodes@[qi as int].children@[0]);
                                vstd::seq_lib::to_multiset_len(after_part.take(0));
                                assert(after_part.take(0) =~= Seq::<AccelRay>::empty());
                                assert(crate::bvh::live_hit_multiset(b, pre.take(n_live as int))
                                    =~= Multiset::<AccelRay>::empty());
                                assert forall|i: int|
                                    0 <= i < n_live implies !crate::bvh::ray_live_hit(
                                    b,
                                    #[trigger] after_part.take(n_live as int)[i],
                                ) by {
                                    assert(after_part.take(n_live as int)[i] == after_part[i]);
                                }
                            }
                        }
                    }
                },
            }
        }
        j = j + 1;
    }
    proof {
        if lone_leaf {
            // Four distinct slot numbers below four include slot zero, so
            // the lone leaf's iteration ran and pinned the schedule.
            assert(ord@[0] == 0 || ord@[1] == 0 || ord@[2] == 0 || ord@[3] == 0);
        }
    }
}

impl QuadBVH {
    /// Resolves a batch of rays against the 4-wide tree.  At each node
    /// the live rays are tested against up to four child bounds, and the
    /// populated children are visited in the node's precomputed
    /// near-to-far order for the batch's leading ray; each leaf object is
    /// handed to the visitor once with the rays that survive.  Rays are
    /// only reordered and tightened: their identities are preserved as a
    /// multiset, and the visitor's invocation log grows only by sound
    /// entries (objects of the scene, handed nonempty live subsets).
    pub fn traverse<T: Copy, V: LeafTest<T>>(
        &self,
        rays: &mut Vec<AccelRay>,
        objects: &Vec<T>,
        visitor: &mut V,
    )
        requires
            self.wf(),
            objects@.len() == self.n_objects,
            forall|i: int| 0 <= i < old(rays)@.len() ==> (#[trigger] old(rays)@[i]).wf(),
        ensures
            final(rays)@.len() == old(rays)@.len(),
            forall|i: int| 0 <= i < final(rays)@.len() ==> (#[trigger] final(rays)@[i]).wf(),
            rays_evolved(old(rays)@, final(rays)@),
            log_extended(objects@, old(visitor).visited(), final(visitor).visited()),
            (self.nodes@.len() == 1 && self.nodes@[0].children@.len() == 1
                && self.nodes@[0].children@[0] is Leaf) ==> crate::bvh::leaf_schedule(
                qchild_bounds(self.nodes@[0].children@[0]),
                self.nodes@[0].children@[0]->Leaf_start as int,
                self.nodes@[0].children@[0]->Leaf_end as int,
                objects@,
                old(rays)@,
                final(rays)@,
                old(visitor).visited(),
                final(visitor).visited(),
            ),
    {
        let n = rays.len();
        proof {
            assert(old(rays)@.take(n as int) =~= old(rays)@);
        }
        traverse_qnode(
            &self.nodes,
            0,
            Ghost(self.built_from@.0),
            Ghost(self.built_from@.1),
            Ghost(self.samples as int),
            Ghost(0int),
            Ghost(self.n_objects as int),
            rays,
            n,
            objects,
            visitor,
        );
        proof {
            assert(rays@.take(n as int) =~= rays@);
            if self.nodes@.len() == 1 && self.nodes@[0].children@.len() == 1
                && self.nodes@[0].children@[0] is Leaf {
                assert(old(rays)@.take(n as int) == old(rays)@);
                assert(rays@.take(n as int) == rays@);
                if visitor.visited().len() - old(visitor).visited().len() < self.nodes@[0]
                    .children@[0]->Leaf_end - self.nodes@[0].children@[0]->Leaf_start {
                    assert forall|i: int| 0 <= i < rays@.len() implies !crate::bvh::ray_live_hit(
                        qchild_bounds(self.nodes@[0].children@[0]),
                        #[trigger] rays@[i],
                    ) by {
                        assert(rays@.take(n as int)[i] == rays@[i]);
                    }
                }
            }
        }
    }
}


/// Whether node `j` lies in the subtree rooted at 4-wide node `i`.
pub open spec fn in_qsubtree(nodes: Seq<Bvh4Node>, i: int, j: int) -> bool
    decreases nodes.len() - i, 1int,
{
    i == j || (0 <= i < nodes.len() && in_qsubtree_slots(nodes, i, 0, j))
}

/// Whether node `j` lies below one of the slots of node `i` from slot
/// `k` on.
pub open spec fn in_qsubtree_slots(nodes: Seq<Bvh4Node>, i: int, k: int, j: int) -> bool
    decreases nodes.len() - i, 0int, nodes[i].children@.len() - k,
{
    let cs = nodes[i].children@;
    if 0 <= i < nodes.len() && 0 <= k < cs.len() {
        (match cs[k] {
            QuadChild::Inner { index, .. } => i < index < nodes.len() && in_qsubtree(
                nodes,
                index as int,
                j,
            ),
            QuadChild::Leaf { .. } => false,
        }) || in_qsubtree_slots(nodes, i, k + 1, j)
    } else {
        false
    }
}

/// The folded slot union has the common sample length.
proof fn lemma_qslots_union_len(cs: Seq<QuadChild>, k: int, samples: int)
    requires
        0 <= k < cs.len(),
        forall|q: int| k <= q < cs.len() ==> (#[trigger] qchild_bounds(cs[q])).len() == samples,
    ensures
        qslots_union(cs, k).len() == samples,
    decreases cs.len() - k,
{
    if k + 1 < cs.len() {
        lemma_qslots_union_len(cs, k + 1, samples);
    }
}

/// The folded slot union covers every one of its slots.
proof fn lemma_qslots_union_covers(cs: Seq<QuadChild>, k: int, m: int, samples: int)
    requires
        0 <= k <= m < cs.len(),
        forall|q: int| k <= q < cs.len() ==> (#[trigger] qchild_bounds(cs[q])).len() == samples,
    ensures
        covers_samples(qslots_union(cs, k), qchild_bounds(cs[m])),
    decreases cs.len() - k,
{
    if k + 1 >= cs.len() {
        assert(covers_samples(qchild_bounds(cs[k]), qchild_bounds(cs[k])));
    } else {
        lemma_qslots_union_len(cs, k + 1, samples);
        crate::bvh::lemma_union_samples_covers(qchild_bounds(cs[k]), qslots_union(cs, k + 1));
        if k == m {
        } else {
            lemma_qslots_union_covers(cs, k + 1, m, samples);
            crate::bbox::lemma_covers_samples_trans(
                qslots_union(cs, k),
                qslots_union(cs, k + 1),
                qchild_bounds(cs[m]),
            );
        }
    }
}

/// Every slot of a well-formed node carries bounds of the node's sample
/// length.
proof fn lemma_wf_slot_lens(
    nodes: Seq<Bvh4Node>,
    objs: Seq<usize>,
    table: Seq<BBox>,
    samples: int,
    i: int,
    k: int,
    cur: int,
    hi: int,
)
    requires
        wf_qchildren(nodes, objs, table, samples, i, k, cur, hi),
        0 <= i < nodes.len(),
        0 <= k,
    ensures
        forall|q: int|
            k <= q < nodes[i].children@.len() ==> (#[trigger] qchild_bounds(
                nodes[i].children@[q],
            )).len() == samples,
    decreases nodes.len() - i, 0int, nodes[i].children@.len() - k,
{
    let cs = nodes[i].children@;
    if k < cs.len() {
        match cs[k] {
            QuadChild::Leaf { start, end, bounds } => {
                lemma_wf_slot_lens(nodes, objs, table, samples, i, k + 1, end as int, hi);
            },
            QuadChild::Inner { index, bounds } => {
                let m = qspan_end(nodes, index as int);
                lemma_wf_slot_lens(nodes, objs, table, samples, i, k + 1, m, hi);
            },
        }
    }
}

/// Bounds containment for the 4-wide tree: a node's total bounds
/// contain, sample by sample, the total bounds of every node in its
/// subtree — so every nested node lies within every one of its
/// ancestors.
pub proof fn lemma_qnode_covers_descendants(
    nodes: Seq<Bvh4Node>,
    objs: Seq<usize>,
    table: Seq<BBox>,
    samples: int,
    i: int,
    lo: int,
    hi: int,
    j: int,
)
    requires
        wf_qnode(nodes, objs, table, samples, i, lo, hi),
        in_qsubtree(nodes, i, j),
    ensures
        covers_samples(qnode_total_bounds(nodes[i]), qnode_total_bounds(nodes[j])),
    decreases nodes.len() - i, 1int,
{
    if i == j {
        lemma_wf_slot_lens(nodes, objs, table, samples, i, 0, lo, hi);
        lemma_qslots_union_len(nodes[i].children@, 0, samples);
        assert(covers_samples(qnode_total_bounds(nodes[i]), qnode_total_bounds(nodes[j])));
    } else {
        lemma_qslots_covers_descendants(nodes, objs, table, samples, i, 0, lo, hi, j, lo, hi);
    }
}

/// The slot-run form of descendant containment.
proof fn lemma_qslots_covers_descendants(
    nodes: Seq<Bvh4Node>,
    objs: Seq<usize>,
    table: Seq<BBox>,
    samples: int,
    i: int,
    k: int,
    cur: int,
    hi: int,
    j: int,
    nlo: int,
    nhi: int,
)
    requires
        wf_qchildren(nodes, objs, table, samples, i, k, cur, hi),
        wf_qnode(nodes, objs, table, samples, i, nlo, nhi),
        in_qsubtree_slots(nodes, i, k, j),
        0 <= k,
    ensures
        covers_samples(qnode_total_bounds(nodes[i]), qnode_total_bounds(nodes[j])),
    decreases nodes.len() - i, 0int, nodes[i].children@.len() - k,
{
    let cs = nodes[i].children@;
    let hit_here = match cs[k] {
        QuadChild::Inner { index, .. } => i < index < nodes.len() && in_qsubtree(
            nodes,
            index as int,
            j,
        ),
        QuadChild::Leaf { .. } => false,
    };
    lemma_wf_slot_lens(nodes, objs, table, samples, i, 0, nlo, nhi);
    if hit_here {
        match cs[k] {
            QuadChild::Inner { index, bounds } => {
                let m = qspan_end(nodes, index as int);
                lemma_qnode_covers_descendants(
                    nodes,
                    objs,
                    table,
                    samples,
                    index as int,
                    cur,
                    m,
                    j,
                );
                lemma_qslots_union_covers(cs, 0, k, samples);
                assert(qchild_bounds(cs[k]) == qnode_total_bounds(nodes[index as int]));
                crate::bbox::lemma_covers_samples_trans(
                    qnode_total_bounds(nodes[i]),
                    qnode_total_bounds(nodes[index as int]),
                    qnode_total_bounds(nodes[j]),
                );
            },
            QuadChild::Leaf { .. } => {
            },
        }
    } else {
        match cs[k] {
            QuadChild::Leaf { start, end, bounds } => {
                lemma_qslots_covers_descendants(
                    nodes,
                    objs,
                    table,
                    samples,
                    i,
                    k + 1,
                    end as int,
                    hi,
                    j,
                    nlo,
                    nhi,
                );
            },
            QuadChild::Inner { index, bounds } => {
                let m = qspan_end(nodes, index as int);
                lemma_qslots_covers_descendants(
                    nodes,
                    objs,
                    table,
                    samples,
                    i,
                    k + 1,
                    m,
                    hi,
                    j,
                    nlo,
                    nhi,
                );
            },
        }
    }
}

impl QuadBVH {
    /// Bounds containment for a whole 4-wide tree: the total bounds of
    /// the root contain the total bounds of every node of the tree, every
    /// time sample of them.
    pub proof fn lemma_bounds_containment(self, j: int)
        requires
            self.wf(),
            in_qsubtree(self.nodes@, 0, j),
        ensures
            covers_samples(
                qnode_total_bounds(self.nodes@[0]),
                qnode_total_bounds(self.nodes@[j]),
            ),
    {
        lemma_qnode_covers_descendants(
            self.nodes@,
            self.built_from@.0,
            self.built_from@.1,
            self.samples as int,
            0,
            0,
            self.n_objects as int,
            j,
        );
    }
}

} // verus!

