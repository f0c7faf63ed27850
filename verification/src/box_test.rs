//! A leaf test whose objects are axis-aligned boxes themselves: rays are
//! intersected with each object's (possibly time-sampled) box exactly,
//! the closest entry is recorded per ray identity, and occlusion rays are
//! marked done on their first hit.  It serves as the reference geometry
//! layer for exercising traversal.

use vstd::prelude::*;
use crate::bbox::{box_at_time, frac_le, frac_le_exec, ray_box_interval, BBox, TIME_ONE};
use crate::bvh::LeafTest;
use crate::ray::AccelRay;
use vstd::pervasive::VecAdditionalExecFns;

verus! {

/// The closest recorded hit of one ray: whether anything was hit, the
/// exact entry fraction, and the object that produced it.
#[derive(Clone, Copy, Debug, PartialEq, Eq, Structural)]
pub struct HitRecord {
    pub hit: bool,
    pub t_num: i64,
    pub t_den: i64,
    pub obj: usize,
}

/// The box-intersecting leaf test: a bounds table (a run of `samples`
/// boxes per object) and one hit record per ray identity.
pub struct BoxTester {
    pub table: Vec<BBox>,
    pub samples: usize,
    pub records: Vec<HitRecord>,
    pub visits: Vec<usize>,
    pub log: Ghost<Seq<(usize, Seq<AccelRay>)>>,
}

impl BoxTester {
    /// Creates a tester with one empty record per ray identity and an
    /// empty invocation log.
    pub fn new(table: Vec<BBox>, samples: usize, n_rays: usize) -> (r: BoxTester)
        ensures
            r.table@ == table@,
            r.samples == samples,
            r.log@ == Seq::<(usize, Seq<crate::ray::AccelRay>)>::empty(),
            r.records@.len() == n_rays,
            forall|i: int|
                0 <= i < n_rays ==> #[trigger] r.records@[i] == (HitRecord {
                    hit: false,
                    t_num: 0,
                    t_den: 1,
                    obj: 0,
                }),
    {
        let mut records: Vec<HitRecord> = Vec::new();
        let mut i: usize = 0;
        while i < n_rays
            invariant
                i <= n_rays,
                records@.len() == i,
                forall|j: int|
                    0 <= j < i ==> #[trigger] records@[j] == (HitRecord {
                        hit: false,
                        t_num: 0,
                        t_den: 1,
                        obj: 0,
                    }),
            decreases n_rays - i,
        {
            records.push(HitRecord { hit: false, t_num: 0, t_den: 1, obj: 0 });
            i = i + 1;
        }
        BoxTester { table, samples, records, visits: Vec::new(), log: Ghost(Seq::empty()) }
    }

    /// Whether one box is well formed, checked at run time.
    fn box_ok(b: &BBox) -> (r: bool)
        ensures
            r == b.wf(),
    {
        let lim = crate::math::COORD_LIMIT;
        b.min.x >= -lim && b.min.x <= lim && b.min.y >= -lim && b.min.y <= lim && b.min.z >= -lim
            && b.min.z <= lim && b.max.x >= -lim && b.max.x <= lim && b.max.y >= -lim && b.max.y
            <= lim && b.max.z >= -lim && b.max.z <= lim && b.min.x <= b.max.x && b.min.y <= b.max.y
            && b.min.z <= b.max.z
    }
}

impl LeafTest<usize> for BoxTester {
    open spec fn visited(&self) -> Seq<(usize, Seq<AccelRay>)> {
        self.log@
    }

    fn visit(&mut self, obj: usize, rays: &mut Vec<AccelRay>, k: usize) {
        self.run_leaf(obj, rays, k)
    }
}

/// What one leaf test does to one handed ray: nothing when the ray's
/// interval misses the object's conservative time box; an occlusion ray
/// that hits is marked done with its distance limit untouched; an
/// ordinary ray that hits keeps its identity and done flag and has its
/// distance limit set to the exact entry parameter (a feasible parameter
/// no greater than any other feasible one).
pub open spec fn box_test_outcome(b: Seq<BBox>, r: AccelRay, r2: AccelRay) -> bool {
    let bb = crate::bbox::spec_box_at_time(b, r.time);
    let hit = crate::bbox::spec_ray_hits(bb, r.orig, r.dir, r.max_t_num as int, r.max_t_den as int);
    &&& !hit ==> r2 == r
    &&& (hit && r.occlusion) ==> r2 == (AccelRay { done: true, ..r })
    &&& (hit && !r.occlusion) ==> {
        &&& r2.ident() == r.ident()
        &&& r2.done == r.done
        &&& crate::bbox::spec_hit_at(
            bb,
            r.orig,
            r.dir,
            r.max_t_num as int,
            r.max_t_den as int,
            r2.max_t_num as int,
            r2.max_t_den as int,
        )
        &&& forall|tn: int, td: int|
            crate::bbox::spec_hit_at(
                bb,
                r.orig,
                r.dir,
                r.max_t_num as int,
                r.max_t_den as int,
                tn,
                td,
            ) ==> frac_le(r2.max_t_num as int, r2.max_t_den as int, tn, td)
    }
}

/// Whether a new hit at the exact entry `en / ed` for object `obj`
/// displaces the record: anything displaces a missing or malformed
/// record, a strictly closer entry displaces, and an equally close entry
/// displaces only an object of higher index.
pub open spec fn record_displaced(rec: HitRecord, en: i64, ed: i64, obj: usize) -> bool {
    ||| !rec.hit
    ||| rec.t_den < 1
    ||| !frac_le(rec.t_num as int, rec.t_den as int, en as int, ed as int)
    ||| (frac_le(en as int, ed as int, rec.t_num as int, rec.t_den as int) && obj < rec.obj)
}

/// What one leaf test does to the record of one handed ray: untouched on
/// a miss; on a hit, the exact entry fraction (feasible and minimal)
/// either displaces the record — carrying the entry and the object — or
/// leaves it, exactly as `record_displaced` decides.
pub open spec fn record_outcome(
    b: Seq<BBox>,
    r: AccelRay,
    obj: usize,
    rec_pre: HitRecord,
    rec_post: HitRecord,
) -> bool {
    let bb = crate::bbox::spec_box_at_time(b, r.time);
    let hit = crate::bbox::spec_ray_hits(bb, r.orig, r.dir, r.max_t_num as int, r.max_t_den as int);
    &&& !hit ==> rec_post == rec_pre
    &&& hit ==> exists|en: i64, ed: i64|
        {
            &&& #[trigger] crate::bbox::spec_hit_at(
                bb,
                r.orig,
                r.dir,
                r.max_t_num as int,
                r.max_t_den as int,
                en as int,
                ed as int,
            )
            &&& ed >= 1
            &&& forall|tn: int, td: int|
                crate::bbox::spec_hit_at(
                    bb,
                    r.orig,
                    r.dir,
                    r.max_t_num as int,
                    r.max_t_den as int,
                    tn,
                    td,
                ) ==> frac_le(en as int, ed as int, tn, td)
            &&& rec_post == (if record_displaced(rec_pre, en, ed, obj) {
                HitRecord { hit: true, t_num: en, t_den: ed, obj }
            } else {
                rec_pre
            })
        }
}

impl BoxTester {
    /// The tester's configuration is usable for the given object: the
    /// sample count is in range and the object's run of boxes exists and
    /// is well formed.
    pub open spec fn config_ok(self, obj: usize) -> bool {
        &&& 1 <= self.samples <= TIME_ONE
        &&& obj + self.samples <= self.table@.len()
        &&& crate::bbox::samples_wf(self.table@.subrange(obj as int, obj + self.samples))
    }

    /// Runs the box test for one leaf object over the handed subset
    /// `rays[0 .. k]`: appends the invocation to the log, and — when the
    /// configuration is usable — treats every handed ray exactly as
    /// `box_test_outcome` states, touching no ray beyond the subset and
    /// no record of an identity it was not handed.
    pub fn run_leaf(&mut self, obj: usize, rays: &mut Vec<AccelRay>, k: usize)
        requires
            k <= old(rays)@.len(),
            forall|i: int| 0 <= i < old(rays)@.len() ==> (#[trigger] old(rays)@[i]).wf(),
            forall|i: int| 0 <= i < k ==> !(#[trigger] old(rays)@[i]).done,
        ensures
            final(self).log@ == old(self).log@.push((obj, old(rays)@.take(k as int))),
            final(self).table == old(self).table,
            final(self).samples == old(self).samples,
            final(self).records@.len() == old(self).records@.len(),
            final(rays)@.len() == old(rays)@.len(),
            forall|i: int| k <= i < final(rays)@.len() ==> final(rays)@[i] == old(rays)@[i],
            forall|i: int|
                0 <= i < k ==> ((#[trigger] final(rays)@[i]).ident() == old(rays)@[i].ident()
                    && final(rays)@[i].wf() && frac_le(
                    final(rays)@[i].max_t_num as int,
                    final(rays)@[i].max_t_den as int,
                    old(rays)@[i].max_t_num as int,
                    old(rays)@[i].max_t_den as int,
                ) && (old(rays)@[i].done ==> final(rays)@[i].done)),
            !old(self).config_ok(obj) ==> final(rays)@ == old(rays)@,
            old(self).config_ok(obj) ==> forall|i: int|
                0 <= i < k ==> box_test_outcome(
                    old(self).table@.subrange(obj as int, obj + old(self).samples),
                    old(rays)@[i],
                    #[trigger] final(rays)@[i],
                ),
            forall|id: int|
                0 <= id < old(self).records@.len() && (forall|i: int|
                    0 <= i < k ==> (#[trigger] old(rays)@[i]).id != id)
                    ==> final(self).records@[id] == old(self).records@[id],
            (old(self).config_ok(obj) && (forall|i: int, j: int|
                0 <= i < j < k ==> (#[trigger] old(rays)@[i]).id != (#[trigger] old(
                    rays,
                )@[j]).id)) ==> forall|i: int|
                0 <= i < k && (#[trigger] old(rays)@[i]).id < old(self).records@.len()
                    ==> record_outcome(
                    old(self).table@.subrange(obj as int, obj + old(self).samples),
                    old(rays)@[i],
                    obj,
                    old(self).records@[old(rays)@[i].id as int],
                    final(self).records@[old(rays)@[i].id as int],
                ),
    {
        proof {
            assert(rays@.take(k as int) == old(rays)@.take(k as int));
        }
        self.log = Ghost(self.log@.push((obj, rays@.take(k as int))));
        self.visits.push(obj);
        // Reject unusable configurations rather than requiring them
        // away: the trait promises nothing about this tester's own state.
        if self.samples < 1 || self.samples > TIME_ONE as usize {
            return ;
        }
        if obj >= self.table.len() || self.table.len() - obj < self.samples {
            return ;
        }
        let tl = self.table.len();
        let mut sub: Vec<BBox> = Vec::new();
        let mut c: usize = 0;
        while c < self.samples
            invariant
                c <= self.samples,
                obj + self.samples <= tl,
                tl == self.table@.len(),
                sub@.len() == c,
                forall|j: int| 0 <= j < c ==> #[trigger] sub@[j] == self.table@[obj + j],
            decreases self.samples - c,
        {
            sub.push(self.table[obj + c]);
            c = c + 1;
        }
        proof {
            assert(sub@ =~= self.table@.subrange(obj as int, obj + self.samples));
        }
        let mut allok = true;
        let mut c2: usize = 0;
        while c2 < sub.len()
            invariant
                c2 <= sub@.len(),
                allok <==> forall|j: int| 0 <= j < c2 ==> (#[trigger] sub@[j]).wf(),
            decreases sub@.len() - c2,
        {
            let this_ok = BoxTester::box_ok(&sub[c2]);
            proof {
                if allok && this_ok {
                    assert(forall|j: int| 0 <= j < c2 + 1 ==> (#[trigger] sub@[j]).wf());
                }
            }
            if !this_ok {
                allok = false;
            }
            c2 = c2 + 1;
        }
        if !allok || sub.len() < 1 || sub.len() > TIME_ONE as usize {
            proof {
                assert(!old(self).config_ok(obj));
            }
            return ;
        }
        let ghost bseq = sub@;
        let ghost pre = rays@;
        let mut i: usize = 0;
        while i < k
            invariant
                self.log@ == old(self).log@.push((obj, pre.take(k as int))),
                self.table == old(self).table,
                self.samples == old(self).samples,
                self.records@.len() == old(self).records@.len(),
                i <= k <= rays@.len(),
                rays@.len() == pre.len(),
                bseq == sub@,
                crate::bbox::samples_wf(sub@),
                forall|q: int| 0 <= q < pre.len() ==> (#[trigger] pre[q]).wf(),
                forall|q: int| i <= q < rays@.len() ==> rays@[q] == pre[q],
                forall|q: int|
                    0 <= q < i ==> ((#[trigger] rays@[q]).ident() == pre[q].ident()
                        && rays@[q].wf() && frac_le(
                        rays@[q].max_t_num as int,
                        rays@[q].max_t_den as int,
                        pre[q].max_t_num as int,
                        pre[q].max_t_den as int,
                    ) && (pre[q].done ==> rays@[q].done)),
                forall|q: int| 0 <= q < i ==> box_test_outcome(bseq, pre[q], #[trigger] rays@[q]),
                forall|id: int|
                    0 <= id < self.records@.len() && (forall|q: int|
                        0 <= q < i ==> (#[trigger] pre[q]).id != id) ==> self.records@[id]
                        == old(self).records@[id],
                (forall|p: int, q: int|
                    0 <= p < q < k ==> (#[trigger] pre[p]).id != (#[trigger] pre[q]).id)
                    ==> forall|q: int|
                    0 <= q < i && (#[trigger] pre[q]).id < self.records@.len() ==> record_outcome(
                        bseq,
                        pre[q],
                        obj,
                        old(self).records@[pre[q].id as int],
                        self.records@[pre[q].id as int],
                    ),
            decreases k - i,
        {
            let r = rays[i];
            proof {
                assert(rays@[i as int] == pre[i as int]);
                assert(pre[i as int].wf());
            }
            let bb = box_at_time(&sub, r.time);
            let ghost recs_before = self.records@;
            match ray_box_interval(&bb, r.orig, r.dir, r.max_t_num, r.max_t_den) {
                Option::Some(entry) => {
                    let (en, ed) = entry;
                    // Record the closest hit per ray identity, ties going
                    // to the lower object index.
                    if (r.id as usize) < self.records.len() {
                        let idx = r.id as usize;
                        let rec = self.records[idx];
                        let better = if !rec.hit {
                            true
                        } else if rec.t_den < 1 {
                            true
                        } else if !frac_le_exec(rec.t_num, rec.t_den, en, ed) {
                            true
                        } else if frac_le_exec(en, ed, rec.t_num, rec.t_den) && obj < rec.obj {
                            true
                        } else {
                            false
                        };
                        if better {
                            self.records.set(
                                idx,
                                HitRecord { hit: true, t_num: en, t_den: ed, obj },
                            );
                        }
                    }
                    let mut r2 = r;
                    if r.occlusion {
                        r2.mark_done();
                    } else {
                        r2.set_max_t(en, ed);
                    }
                    rays.set(i, r2);
                    proof {
                        assert(rays@[i as int].ident() == pre[i as int].ident());
                        assert(frac_le(
                            rays@[i as int].max_t_num as int,
                            rays@[i as int].max_t_den as int,
                            pre[i as int].max_t_num as int,
                            pre[i as int].max_t_den as int,
                        ));
                        assert(box_test_outcome(bseq, pre[i as int], rays@[i as int]));
                        if (forall|p: int, q: int|
                            0 <= p < q < k ==> (#[trigger] pre[p]).id != (#[trigger] pre[q]).id)
                            && pre[i as int].id < self.records@.len() {
                            // Under distinct identities this ray's record
                            // was untouched so far, and this step writes
                            // exactly the displacement rule.
                            let id = pre[i as int].id as int;
                            assert(forall|q: int| 0 <= q < i ==> (#[trigger] pre[q]).id != id);
                            assert(recs_before[id] == old(self).records@[id]);
                            assert(record_outcome(
                                bseq,
                                pre[i as int],
                                obj,
                                old(self).records@[id],
                                self.records@[id],
                            )) by {
                                assert(crate::bbox::spec_hit_at(
                                    crate::bbox::spec_box_at_time(bseq, pre[i as int].time),
                                    pre[i as int].orig,
                                    pre[i as int].dir,
                                    pre[i as int].max_t_num as int,
                                    pre[i as int].max_t_den as int,
                                    en as int,
                                    ed as int,
                                ));
                                assert(self.records@[id] == (
                                if record_displaced(old(self).records@[id], en, ed, obj) {
                                    HitRecord { hit: true, t_num: en, t_den: ed, obj }
                                } else {
                                    old(self).records@[id]
                                }));
                            }
                        }
                    }
                },
                Option::None => {
                    proof {
                        assert(rays@[i as int] == pre[i as int]);
                        assert(box_test_outcome(bseq, pre[i as int], rays@[i as int]));
                        if (forall|p: int, q: int|
                            0 <= p < q < k ==> (#[trigger] pre[p]).id != (#[trigger] pre[q]).id)
                            && pre[i as int].id < self.records@.len() {
                            let id = pre[i as int].id as int;
                            assert(forall|q: int| 0 <= q < i ==> (#[trigger] pre[q]).id != id);
                            assert(self.records@[id] == old(self).records@[id]);
                            assert(record_outcome(
                                bseq,
                                pre[i as int],
                                obj,
                                old(self).records@[id],
                                self.records@[id],
                            ));
                        }
                    }
                },
            }
            proof {
                assert forall|id: int|
                    0 <= id < self.records@.len() && (forall|q: int|
                        0 <= q < i + 1 ==> (#[trigger] pre[q]).id != id) implies self.records@[id]
                    == old(self).records@[id] by {
                    assert(pre[i as int].id != id);
                    assert(self.records@[id] == recs_before[id]);
                }
                // Earlier rays' records are untouched by this step.
                if (forall|p: int, q: int|
                    0 <= p < q < k ==> (#[trigger] pre[p]).id != (#[trigger] pre[q]).id) {
                    assert forall|q: int|
                        0 <= q < i && (#[trigger] pre[q]).id < self.records@.len() implies record_outcome(
                        bseq,
                        pre[q],
                        obj,
                        old(self).records@[pre[q].id as int],
                        self.records@[pre[q].id as int],
                    ) by {
                        assert(pre[q].id != pre[i as int].id);
                        assert(self.records@[pre[q].id as int] == recs_before[pre[q].id as int]);
                    }
                }
            }
            i = i + 1;
        }
        proof {
            assert(old(self).config_ok(obj));
        }
    }
}

} // verus!
