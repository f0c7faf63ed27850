//! In-place, predicate-driven partitioning: a single-array form and a
//! synchronized two-array form that reorders parallel arrays in lockstep.
//!
//! Both reorder with a forward/backward two-pointer scan and single swaps,
//! so they run in linear time and preserve the multiset of elements (and,
//! for the paired form, the multiset of index-aligned pairs).

use vstd::prelude::*;
use vstd::pervasive::VecAdditionalExecFns;

verus! {

/// The sequence of index-aligned pairs of two equal-length sequences.
pub open spec fn zip_pairs<A, B>(a: Seq<A>, b: Seq<B>) -> Seq<(A, B)> {
    Seq::new(a.len(), |i: int| (a[i], b[i]))
}

/// Swapping two positions of a sequence preserves its multiset.
proof fn lemma_swap_preserves_multiset<T>(s: Seq<T>, i: int, j: int)
    requires
        0 <= i < s.len(),
        0 <= j < s.len(),
    ensures
        s.update(i, s[j]).update(j, s[i]).to_multiset() == s.to_multiset(),
{
    broadcast use vstd::seq_lib::group_to_multiset_ensures;
    broadcast use vstd::multiset::group_multiset_axioms;

    if i == j {
        assert(s.update(i, s[j]).update(j, s[i]) =~= s);
    } else {
        let s1 = s.update(i, s[j]);
        let s2 = s1.update(j, s[i]);
        assert(s.contains(s[i]));
        assert(s.contains(s[j]));
        assert(s1[j] == s[j]);
        assert(s2.to_multiset() =~= s.to_multiset());
    }
}

/// Swaps two elements of a vector.
fn vec_swap<T: Copy>(v: &mut Vec<T>, i: usize, j: usize)
    requires
        i < old(v).len(),
        j < old(v).len(),
    ensures
        final(v)@ == old(v)@.update(i as int, old(v)@[j as int]).update(j as int, old(v)@[i as int]),
        final(v)@.len() == old(v)@.len(),
        final(v)@.to_multiset() == old(v)@.to_multiset(),
{
    proof {
        lemma_swap_preserves_multiset(v@, i as int, j as int);
    }
    let vi = v[i];
    let vj = v[j];
    v.set(i, vj);
    v.set(j, vi);
}

/// Partitions the elements of `slc` with indices in `[lo, hi)` in place
/// with the given unary predicate, returning the index of the first
/// element for which the predicate evaluates false.  Elements outside the
/// span are untouched.
pub fn partition_span<T: Copy, F: Fn(&T) -> bool>(
    slc: &mut Vec<T>,
    lo: usize,
    hi: usize,
    pred: F,
) -> (r: usize)
    requires
        lo <= hi <= old(slc).len(),
        forall|t: T|
            old(slc)@.subrange(lo as int, hi as int).to_multiset().contains(t) ==> call_requires(
                pred,
                (&t,),
            ),
    ensures
        lo <= r <= hi,
        final(slc)@.len() == old(slc)@.len(),
        final(slc)@.subrange(lo as int, hi as int).to_multiset() == old(slc)@.subrange(
            lo as int,
            hi as int,
        ).to_multiset(),
        final(slc)@.take(lo as int) == old(slc)@.take(lo as int),
        final(slc)@.skip(hi as int) == old(slc)@.skip(hi as int),
        forall|i: int| lo <= i < r ==> call_ensures(pred, (&final(slc)@[i],), true),
        forall|i: int| r <= i < hi ==> call_ensures(pred, (&final(slc)@[i],), false),
{
    broadcast use vstd::seq_lib::group_to_multiset_ensures;

    let ghost orig = old(slc)@;
    let mut a: usize = lo;
    let mut b: usize = hi;
    while a < b
        invariant
            lo <= a <= b <= hi <= slc@.len(),
            slc@.len() == orig.len(),
            slc@.subrange(lo as int, hi as int).to_multiset() == orig.subrange(
                lo as int,
                hi as int,
            ).to_multiset(),
            slc@.take(lo as int) == orig.take(lo as int),
            slc@.skip(hi as int) == orig.skip(hi as int),
            forall|t: T| orig.subrange(lo as int, hi as int).to_multiset().contains(t)
                ==> call_requires(pred, (&t,)),
            forall|i: int| lo <= i < a ==> call_ensures(pred, (&slc@[i],), true),
            forall|i: int| b <= i < hi ==> call_ensures(pred, (&slc@[i],), false),
        decreases b - a,
    {
        proof {
            assert(slc@.subrange(lo as int, hi as int)[a - lo] == slc@[a as int]);
            assert(slc@.subrange(lo as int, hi as int).contains(slc@[a as int]));
            vstd::seq_lib::to_multiset_contains(
                slc@.subrange(lo as int, hi as int),
                slc@[a as int],
            );
            assert(orig.subrange(lo as int, hi as int).to_multiset().contains(slc@[a as int]));
        }
        if pred(&slc[a]) {
            a = a + 1;
        } else {
            b = b - 1;
            if a < b {
                proof {
                    assert(slc@.subrange(lo as int, hi as int)[b - lo] == slc@[b as int]);
                    assert(slc@.subrange(lo as int, hi as int).contains(slc@[b as int]));
                    vstd::seq_lib::to_multiset_contains(
                        slc@.subrange(lo as int, hi as int),
                        slc@[b as int],
                    );
                    assert(orig.subrange(lo as int, hi as int).to_multiset().contains(
                        slc@[b as int],
                    ));
                }
                if pred(&slc[b]) {
                    let ghost pre = slc@;
                    vec_swap(slc, a, b);
                    proof {
                        lemma_swap_preserves_multiset(
                            pre.subrange(lo as int, hi as int),
                            a - lo,
                            b - lo,
                        );
                        assert(slc@.subrange(lo as int, hi as int) =~= pre.subrange(
                            lo as int,
                            hi as int,
                        ).update(a - lo, pre[b as int]).update(b - lo, pre[a as int]));
                        assert(slc@.take(lo as int) =~= pre.take(lo as int));
                        assert(slc@.skip(hi as int) =~= pre.skip(hi as int));
                    }
                    a = a + 1;
                }
            }
        }
    }
    a
}

/// Partitions the first `n` elements of a vector in place with the given
/// unary predicate, returning the index of the first element for which the
/// predicate evaluates false.  Elements at `n` and beyond are untouched.
pub fn partition_range<T: Copy, F: Fn(&T) -> bool>(slc: &mut Vec<T>, n: usize, pred: F) -> (r:
    usize)
    requires
        n <= old(slc).len(),
        forall|t: T|
            old(slc)@.take(n as int).to_multiset().contains(t) ==> call_requires(pred, (&t,)),
    ensures
        r <= n,
        final(slc)@.len() == old(slc)@.len(),
        final(slc)@.take(n as int).to_multiset() == old(slc)@.take(n as int).to_multiset(),
        final(slc)@.skip(n as int) == old(slc)@.skip(n as int),
        forall|i: int| 0 <= i < r ==> call_ensures(pred, (&final(slc)@[i],), true),
        forall|i: int| r <= i < n ==> call_ensures(pred, (&final(slc)@[i],), false),
{
    proof {
        assert(old(slc)@.subrange(0, n as int) =~= old(slc)@.take(n as int));
        assert(old(slc)@.take(0) =~= Seq::<T>::empty());
    }
    let r = partition_span(slc, 0, n, pred);
    proof {
        assert(slc@.subrange(0, n as int) =~= slc@.take(n as int));
    }
    r
}

/// Partitions a vector in place with the given unary predicate, returning
/// the index of the first element for which the predicate evaluates false.
///
/// The returned index splits the vector so that every element before it
/// satisfies the predicate and no element at or after it does; the
/// elements themselves are only reordered (their multiset is unchanged).
pub fn partition<T: Copy, F: Fn(&T) -> bool>(slc: &mut Vec<T>, pred: F) -> (r: usize)
    requires
        forall|t: T| old(slc)@.to_multiset().contains(t) ==> call_requires(pred, (&t,)),
    ensures
        r <= final(slc)@.len(),
        final(slc)@.len() == old(slc)@.len(),
        final(slc)@.to_multiset() == old(slc)@.to_multiset(),
        forall|i: int| 0 <= i < r ==> call_ensures(pred, (&final(slc)@[i],), true),
        forall|i: int| r <= i < final(slc)@.len() ==> call_ensures(pred, (&final(slc)@[i],), false),
{
    let n = slc.len();
    proof {
        assert(old(slc)@.take(n as int) =~= old(slc)@);
    }
    let r = partition_range(slc, n, pred);
    proof {
        assert(slc@.take(n as int) =~= slc@);
    }
    r
}


/// Whether the given pair was tested by the predicate at some slot below
/// `n` and the predicate returned `res`.
pub open spec fn pair_tested<A, B, F: Fn(usize, &A, &B) -> bool>(
    pred: F,
    n: usize,
    x: A,
    y: B,
    res: bool,
) -> bool {
    exists|j: usize| j < n && call_ensures(pred, (j, &x, &y), res)
}

/// Swapping position `i` and `j` in two sequences at once swaps the same
/// positions of their pair sequence.
proof fn lemma_zip_swap<A, B>(s1: Seq<A>, s2: Seq<B>, i: int, j: int)
    requires
        s1.len() == s2.len(),
        0 <= i < s1.len(),
        0 <= j < s1.len(),
    ensures
        zip_pairs(
            s1.update(i, s1[j]).update(j, s1[i]),
            s2.update(i, s2[j]).update(j, s2[i]),
        ) == zip_pairs(s1, s2).update(i, (s1[j], s2[j])).update(j, (s1[i], s2[i])),
{
    assert(zip_pairs(
        s1.update(i, s1[j]).update(j, s1[i]),
        s2.update(i, s2[j]).update(j, s2[i]),
    ) =~= zip_pairs(s1, s2).update(i, (s1[j], s2[j])).update(j, (s1[i], s2[i])));
}

/// Partitions the first `n` elements of two equal-length vectors in place,
/// in concert, with the given predicate, returning the index of the first
/// element for which the predicate evaluates false.
///
/// A swap of position `i` in the first vector always co-occurs with a swap
/// of position `i` in the second, so the index-aligned pairing of the two
/// vectors is preserved (as a multiset of pairs).  The predicate receives
/// the slot index an element occupies at the moment it is tested, not a
/// stable per-element identity.
pub fn partition_pair_range<A: Copy, B: Copy, F: Fn(usize, &A, &B) -> bool>(
    slc1: &mut Vec<A>,
    slc2: &mut Vec<B>,
    n: usize,
    pred: F,
) -> (r: usize)
    requires
        old(slc1).len() == old(slc2).len(),
        n <= old(slc1).len(),
        forall|args: (usize, &A, &B)|
            args.0 < n && zip_pairs(old(slc1)@.take(n as int), old(slc2)@.take(n as int))
                .to_multiset().contains((*args.1, *args.2)) ==> #[trigger] call_requires(
                pred,
                args,
            ),
    ensures
        r <= n,
        final(slc1)@.len() == old(slc1)@.len(),
        final(slc2)@.len() == old(slc2)@.len(),
        zip_pairs(final(slc1)@.take(n as int), final(slc2)@.take(n as int)).to_multiset()
            == zip_pairs(old(slc1)@.take(n as int), old(slc2)@.take(n as int)).to_multiset(),
        final(slc1)@.skip(n as int) == old(slc1)@.skip(n as int),
        final(slc2)@.skip(n as int) == old(slc2)@.skip(n as int),
        forall|i: int|
            0 <= i < r ==> #[trigger] pair_tested(pred, n, final(slc1)@[i], final(slc2)@[i], true),
        forall|i: int|
            r <= i < n ==> #[trigger] pair_tested(pred, n, final(slc1)@[i], final(slc2)@[i], false),
{
    let ghost orig1 = old(slc1)@;
    let ghost orig2 = old(slc2)@;
    let ghost opairs = zip_pairs(orig1.take(n as int), orig2.take(n as int));
    let mut a: usize = 0;
    let mut b: usize = n;
    while a < b
        invariant
            a <= b <= n <= slc1@.len(),
            slc1@.len() == orig1.len(),
            slc2@.len() == orig2.len(),
            orig1.len() == orig2.len(),
            zip_pairs(slc1@.take(n as int), slc2@.take(n as int)).to_multiset()
                == opairs.to_multiset(),
            slc1@.skip(n as int) == orig1.skip(n as int),
            slc2@.skip(n as int) == orig2.skip(n as int),
            forall|args: (usize, &A, &B)|
                args.0 < n && opairs.to_multiset().contains((*args.1, *args.2))
                    ==> #[trigger] call_requires(pred, args),
            forall|i: int|
                0 <= i < a ==> #[trigger] pair_tested(pred, n, slc1@[i], slc2@[i], true),
            forall|i: int|
                b <= i < n ==> #[trigger] pair_tested(pred, n, slc1@[i], slc2@[i], false),
        decreases b - a,
    {
        let ghost cpairs = zip_pairs(slc1@.take(n as int), slc2@.take(n as int));
        proof {
            assert(cpairs[a as int] == (slc1@[a as int], slc2@[a as int]));
            assert(cpairs.contains(cpairs[a as int]));
            vstd::seq_lib::to_multiset_contains(cpairs, cpairs[a as int]);
            assert(opairs.to_multiset().contains((slc1@[a as int], slc2@[a as int])));
        }
        if pred(a, &slc1[a], &slc2[a]) {
            proof {
                assert(pair_tested(pred, n, slc1@[a as int], slc2@[a as int], true)) by {
                    assert(call_ensures(pred, (a, &slc1@[a as int], &slc2@[a as int]), true));
                }
            }
            a = a + 1;
        } else {
            b = b - 1;
            if a < b {
                proof {
                    assert(cpairs[b as int] == (slc1@[b as int], slc2@[b as int]));
                    assert(cpairs.contains(cpairs[b as int]));
                    vstd::seq_lib::to_multiset_contains(cpairs, cpairs[b as int]);
                    assert(opairs.to_multiset().contains((slc1@[b as int], slc2@[b as int])));
                }
                if pred(b, &slc1[b], &slc2[b]) {
                    let ghost pre1 = slc1@;
                    let ghost pre2 = slc2@;
                    proof {
                        assert(call_ensures(pred, (b, &pre1[b as int], &pre2[b as int]), true));
                        assert(call_ensures(pred, (a, &pre1[a as int], &pre2[a as int]), false));
                    }
                    vec_swap(slc1, a, b);
                    vec_swap(slc2, a, b);
                    proof {
                        broadcast use vstd::seq_lib::lemma_seq_take_update_commut1;

                        assert(slc1@.take(n as int) =~= pre1.take(n as int).update(
                            a as int,
                            pre1[b as int],
                        ).update(b as int, pre1[a as int]));
                        assert(slc2@.take(n as int) =~= pre2.take(n as int).update(
                            a as int,
                            pre2[b as int],
                        ).update(b as int, pre2[a as int]));
                        lemma_zip_swap(pre1.take(n as int), pre2.take(n as int), a as int, b as int);
                        lemma_swap_preserves_multiset(cpairs, a as int, b as int);
                        assert(slc1@.skip(n as int) =~= pre1.skip(n as int));
                        assert(slc2@.skip(n as int) =~= pre2.skip(n as int));
                        assert(slc1@[a as int] == pre1[b as int]);
                        assert(slc2@[a as int] == pre2[b as int]);
                        assert(slc1@[b as int] == pre1[a as int]);
                        assert(slc2@[b as int] == pre2[a as int]);
                        assert(pair_tested(pred, n, slc1@[a as int], slc2@[a as int], true)) by {
                            assert(call_ensures(
                                pred,
                                (b, &pre1[b as int], &pre2[b as int]),
                                true,
                            ));
                        }
                        assert(pair_tested(pred, n, slc1@[b as int], slc2@[b as int], false)) by {
                            assert(call_ensures(
                                pred,
                                (a, &pre1[a as int], &pre2[a as int]),
                                false,
                            ));
                        }
                        assert(forall|i: int|
                            #![trigger slc1@[i]]
                            0 <= i < slc1@.len() && i != a as int && i != b as int ==> slc1@[i]
                                == pre1[i] && slc2@[i] == pre2[i]);
                    }
                    a = a + 1;
                } else {
                    proof {
                        assert(pair_tested(pred, n, slc1@[b as int], slc2@[b as int], false)) by {
                            assert(call_ensures(
                                pred,
                                (b, &slc1@[b as int], &slc2@[b as int]),
                                false,
                            ));
                        }
                    }
                }
            } else {
                proof {
                    assert(pair_tested(pred, n, slc1@[a as int], slc2@[a as int], false)) by {
                        assert(call_ensures(
                            pred,
                            (a, &slc1@[a as int], &slc2@[a as int]),
                            false,
                        ));
                    }
                }
            }
        }
    }
    a
}

/// Partitions two equal-length vectors in place in concert, returning the
/// index of the first element for which the predicate evaluates false.
///
/// The predicate receives the slot index the pair occupies at the moment
/// it is tested.  The pairing of element `i` of the first vector with
/// element `i` of the second is preserved: the same pairs appear after the
/// call, reordered identically in both vectors.
pub fn partition_pair<A: Copy, B: Copy, F: Fn(usize, &A, &B) -> bool>(
    slc1: &mut Vec<A>,
    slc2: &mut Vec<B>,
    pred: F,
) -> (r: usize)
    requires
        old(slc1).len() == old(slc2).len(),
        forall|args: (usize, &A, &B)|
            args.0 < old(slc1).len() && zip_pairs(old(slc1)@, old(slc2)@).to_multiset().contains(
                (*args.1, *args.2),
            ) ==> #[trigger] call_requires(pred, args),
    ensures
        r <= final(slc1)@.len(),
        final(slc1)@.len() == old(slc1)@.len(),
        final(slc2)@.len() == old(slc2)@.len(),
        zip_pairs(final(slc1)@, final(slc2)@).to_multiset() == zip_pairs(
            old(slc1)@,
            old(slc2)@,
        ).to_multiset(),
        forall|i: int|
            0 <= i < r ==> #[trigger] pair_tested(
                pred,
                final(slc1)@.len() as usize,
                final(slc1)@[i],
                final(slc2)@[i],
                true,
            ),
        forall|i: int|
            r <= i < final(slc1)@.len() ==> #[trigger] pair_tested(
                pred,
                final(slc1)@.len() as usize,
                final(slc1)@[i],
                final(slc2)@[i],
                false,
            ),
{
    let n = slc1.len();
    proof {
        assert(old(slc1)@.take(n as int) =~= old(slc1)@);
        assert(old(slc2)@.take(n as int) =~= old(slc2)@);
    }
    let r = partition_pair_range(slc1, slc2, n, pred);
    proof {
        assert(slc1@.take(n as int) =~= slc1@);
        assert(slc2@.take(n as int) =~= slc2@);
    }
    r
}


/// Sequences with equal multisets keep equal multisets under mapping.
pub proof fn lemma_map_values_multiset<A, B>(s1: Seq<A>, s2: Seq<A>, f: spec_fn(A) -> B)
    requires
        s1.to_multiset() == s2.to_multiset(),
    ensures
        s1.map_values(f).to_multiset() == s2.map_values(f).to_multiset(),
    decreases s1.len(),
{
    broadcast use vstd::seq_lib::group_to_multiset_ensures;
    broadcast use vstd::multiset::group_multiset_axioms;

    vstd::seq_lib::to_multiset_len(s1);
    vstd::seq_lib::to_multiset_len(s2);
    if s1.len() == 0 {
        assert(s2.len() == 0);
        assert(s1.map_values(f) =~= s2.map_values(f));
    } else {
        let n = s1.len() - 1;
        let x = s1[n as int];
        assert(s1.contains(x));
        vstd::seq_lib::to_multiset_contains(s1, x);
        vstd::seq_lib::to_multiset_contains(s2, x);
        assert(s2.contains(x));
        let i = choose|i: int| 0 <= i < s2.len() && s2[i] == x;
        let s1p = s1.remove(n as int);
        let s2p = s2.remove(i);
        assert(s1p.to_multiset() == s2p.to_multiset());
        lemma_map_values_multiset(s1p, s2p, f);
        assert(s1p.map_values(f) =~= s1.map_values(f).remove(n as int));
        assert(s2p.map_values(f) =~= s2.map_values(f).remove(i));
        let m1 = s1.map_values(f);
        let m2 = s2.map_values(f);
        assert(m1.remove(n as int).to_multiset() == m1.to_multiset().remove(m1[n as int]));
        assert(m2.remove(i).to_multiset() == m2.to_multiset().remove(m2[i]));
        assert(m1[n as int] == f(x));
        assert(m2[i] == f(x));
        assert(m1.contains(f(x)));
        assert(m2.contains(f(x)));
        vstd::seq_lib::to_multiset_contains(m1, f(x));
        vstd::seq_lib::to_multiset_contains(m2, f(x));
        assert(m1.to_multiset() =~= m2.to_multiset()) by {
            assert forall|y: B| m1.to_multiset().count(y) == m2.to_multiset().count(y) by {
                if y == f(x) {
                    assert(m1.to_multiset().remove(f(x)).count(y) + 1 == m1.to_multiset().count(
                        y,
                    ));
                    assert(m2.to_multiset().remove(f(x)).count(y) + 1 == m2.to_multiset().count(
                        y,
                    ));
                } else {
                    assert(m1.to_multiset().remove(f(x)).count(y) == m1.to_multiset().count(y));
                    assert(m2.to_multiset().remove(f(x)).count(y) == m2.to_multiset().count(y));
                }
            }
        }
    }
}

} // verus!
