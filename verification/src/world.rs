//! The world-level scene description the samplers consume: a background
//! color and the scene's light sources.

use vstd::prelude::*;
use crate::accel::LightInfo;

verus! {

/// A tristimulus color value with integer components in caller-chosen
/// units.
#[derive(Clone, Copy, Debug, PartialEq, Eq, Structural)]
pub struct Xyz {
    pub x: i64,
    pub y: i64,
    pub z: i64,
}

/// The world: its background color and its light sources.
#[derive(Debug)]
pub struct World {
    pub background_color: Xyz,
    pub lights: Vec<LightInfo>,
}

impl World {
    /// Whether every light of the world is well formed.
    pub open spec fn wf(self) -> bool {
        forall|i: int| 0 <= i < self.lights@.len() ==> (#[trigger] self.lights@[i]).wf()
    }

    pub fn new(background_color: Xyz, lights: Vec<LightInfo>) -> (r: World)
        ensures
            r.background_color == background_color,
            r.lights@ == lights@,
    {
        World { background_color, lights }
    }
}

} // verus!
