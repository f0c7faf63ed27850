//! Geometric base types: points, vectors and normals with exact `i64`
//! coordinates, and the coordinate bound that keeps every product the
//! library forms inside `i128`.

use vstd::prelude::*;

verus! {

/// Largest coordinate magnitude the library accepts.  Every slab test and
/// centroid computation multiplies at most two coordinate-sized values and
/// one small scale factor, so this bound keeps all of them inside `i128`.
pub const COORD_LIMIT: i64 = 0x1000_0000_0000_0000;

/// A location in space.
#[derive(Clone, Copy, Debug, PartialEq, Eq, Structural)]
pub struct Point {
    pub x: i64,
    pub y: i64,
    pub z: i64,
}

/// A direction with magnitude.
#[derive(Clone, Copy, Debug, PartialEq, Eq, Structural)]
pub struct Vector {
    pub x: i64,
    pub y: i64,
    pub z: i64,
}

/// A surface normal.
#[derive(Clone, Copy, Debug, PartialEq, Eq, Structural)]
pub struct Normal {
    pub x: i64,
    pub y: i64,
    pub z: i64,
}

/// Whether a single coordinate is within the accepted range.
pub open spec fn coord_ok(c: i64) -> bool {
    -COORD_LIMIT <= c <= COORD_LIMIT
}

impl Point {
    pub open spec fn wf(self) -> bool {
        coord_ok(self.x) && coord_ok(self.y) && coord_ok(self.z)
    }

    pub fn new(x: i64, y: i64, z: i64) -> (r: Point)
        ensures
            r == (Point { x, y, z }),
    {
        Point { x, y, z }
    }

    /// The coordinate on the given axis (0 = x, 1 = y, 2 = z).
    pub open spec fn spec_axis(self, axis: u8) -> i64 {
        if axis == 0 {
            self.x
        } else if axis == 1 {
            self.y
        } else {
            self.z
        }
    }

    pub fn axis(self, axis: u8) -> (r: i64)
        ensures
            r == self.spec_axis(axis),
    {
        if axis == 0 {
            self.x
        } else if axis == 1 {
            self.y
        } else {
            self.z
        }
    }
}

impl Vector {
    pub open spec fn wf(self) -> bool {
        coord_ok(self.x) && coord_ok(self.y) && coord_ok(self.z)
    }

    pub fn new(x: i64, y: i64, z: i64) -> (r: Vector)
        ensures
            r == (Vector { x, y, z }),
    {
        Vector { x, y, z }
    }

    pub open spec fn spec_axis(self, axis: u8) -> i64 {
        if axis == 0 {
            self.x
        } else if axis == 1 {
            self.y
        } else {
            self.z
        }
    }

    pub fn axis(self, axis: u8) -> (r: i64)
        ensures
            r == self.spec_axis(axis),
    {
        if axis == 0 {
            self.x
        } else if axis == 1 {
            self.y
        } else {
            self.z
        }
    }

    /// The octant code of a direction: one bit per axis, set when the
    /// component is negative.
    pub open spec fn spec_octant(self) -> u8 {
        ((if self.x < 0 { 1int } else { 0int }) + (if self.y < 0 { 2int } else { 0int }) + (if self.z
            < 0 {
            4int
        } else {
            0int
        })) as u8
    }

    pub fn octant(self) -> (r: u8)
        ensures
            r == self.spec_octant(),
            r < 8,
    {
        let mut r: u8 = 0;
        if self.x < 0 {
            r = r + 1;
        }
        if self.y < 0 {
            r = r + 2;
        }
        if self.z < 0 {
            r = r + 4;
        }
        r
    }
}

impl Normal {
    pub open spec fn wf(self) -> bool {
        coord_ok(self.x) && coord_ok(self.y) && coord_ok(self.z)
    }

    pub fn new(x: i64, y: i64, z: i64) -> (r: Normal)
        ensures
            r == (Normal { x, y, z }),
    {
        Normal { x, y, z }
    }
}

} // verus!
