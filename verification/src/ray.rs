//! Rays as the acceleration structures see them: identity, origin,
//! direction, time, a mutable maximum distance held as an exact rational,
//! an occlusion flag, and a done flag.

use vstd::prelude::*;
use crate::math::{Point, Vector, COORD_LIMIT};
use crate::bbox::{MAX_T_NUM, TIME_ONE};

verus! {

/// A ray in flight through an acceleration structure.  Traversal and leaf
/// tests may shrink `max_t` (held exactly as `max_t_num / max_t_den`) and
/// set `done`; everything else identifies the ray and never changes.
#[derive(Clone, Copy, Debug, PartialEq, Eq, Structural)]
pub struct AccelRay {
    pub id: u32,
    pub orig: Point,
    pub dir: Vector,
    pub time: u32,
    pub max_t_num: i64,
    pub max_t_den: i64,
    pub occlusion: bool,
    pub done: bool,
}

impl AccelRay {
    pub open spec fn wf(self) -> bool {
        self.orig.wf() && self.dir.wf() && self.time <= TIME_ONE && 1 <= self.max_t_den
            <= COORD_LIMIT && 0 <= self.max_t_num <= MAX_T_NUM
    }

    /// The parts of a ray that traversal never changes.
    pub open spec fn ident(self) -> (u32, Point, Vector, u32, bool) {
        (self.id, self.orig, self.dir, self.time, self.occlusion)
    }

    /// Creates a ray with no distance limit yet.
    pub fn new(id: u32, orig: Point, dir: Vector, time: u32, occlusion: bool) -> (r: AccelRay)
        requires
            orig.wf(),
            dir.wf(),
            time <= TIME_ONE,
        ensures
            r == (AccelRay {
                id,
                orig,
                dir,
                time,
                max_t_num: MAX_T_NUM,
                max_t_den: 1,
                occlusion,
                done: false,
            }),
            r.wf(),
    {
        AccelRay { id, orig, dir, time, max_t_num: MAX_T_NUM, max_t_den: 1, occlusion, done: false }
    }

    pub fn is_occlusion(&self) -> (r: bool)
        ensures
            r == self.occlusion,
    {
        self.occlusion
    }

    pub fn is_done(&self) -> (r: bool)
        ensures
            r == self.done,
    {
        self.done
    }

    /// Marks the ray as finished; no later leaf test or traversal step
    /// will consider it again.
    pub fn mark_done(&mut self)
        ensures
            *final(self) == (AccelRay { done: true, ..*old(self) }),
    {
        self.done = true;
    }

    /// Tightens the maximum distance to the exact rational `num / den`.
    pub fn set_max_t(&mut self, num: i64, den: i64)
        requires
            0 <= num <= MAX_T_NUM,
            1 <= den <= COORD_LIMIT,
        ensures
            *final(self) == (AccelRay { max_t_num: num, max_t_den: den, ..*old(self) }),
    {
        self.max_t_num = num;
        self.max_t_den = den;
    }
}

} // verus!
