//! Points and vectors in integer millimetres.
use vstd::prelude::*;
use crate::arith::{isqrt, scale_to_length, sqrt_floor, unit_scaled};

verus! {

/// A LiDAR return in the sensor frame: coordinates in millimetres.
#[derive(Clone, Copy, Debug, PartialEq, Eq, Structural)]
pub struct LaserPoint {
    pub x: i32,
    pub y: i32,
    pub z: i32,
    pub reflectivity: u8,
}

impl LaserPoint {
    pub fn new(x: i32, y: i32, z: i32, reflectivity: u8) -> (r: LaserPoint)
        ensures
            r == (LaserPoint { x, y, z, reflectivity }),
    {
        LaserPoint { x, y, z, reflectivity }
    }

    /// The point's position as a vector.
    pub open spec fn pos(self) -> Point3 {
        Point3 { x: self.x as i64, y: self.y as i64, z: self.z as i64 }
    }
}

/// A position or vector in millimetres.
#[derive(Clone, Copy, Debug, PartialEq, Eq, Structural)]
pub struct Point3 {
    pub x: i64,
    pub y: i64,
    pub z: i64,
}

/// Largest coordinate magnitude that planners and the octree accept: the
/// range of the sensor's native 32-bit millimetre coordinates.
pub const COORD_LIMIT: i64 = 0x7fff_ffff;

/// Squared Euclidean length of a vector given by its components.
pub open spec fn norm_sq(x: int, y: int, z: int) -> int {
    x * x + y * y + z * z
}

impl Point3 {
    pub fn new(x: i64, y: i64, z: i64) -> (r: Point3)
        ensures
            r == (Point3 { x, y, z }),
    {
        Point3 { x, y, z }
    }

    /// Every coordinate lies within `COORD_LIMIT`.
    pub open spec fn in_range(self) -> bool {
        -COORD_LIMIT <= self.x <= COORD_LIMIT && -COORD_LIMIT <= self.y <= COORD_LIMIT
            && -COORD_LIMIT <= self.z <= COORD_LIMIT
    }

    pub open spec fn norm_sq_spec(self) -> int {
        norm_sq(self.x as int, self.y as int, self.z as int)
    }

    /// Componentwise difference `self - other`.
    pub fn sub(&self, other: &Point3) -> (r: Point3)
        requires
            self.in_range(),
            other.in_range(),
        ensures
            r.x == self.x - other.x,
            r.y == self.y - other.y,
            r.z == self.z - other.z,
    {
        Point3 { x: self.x - other.x, y: self.y - other.y, z: self.z - other.z }
    }

    /// Squared length, exact.
    pub fn norm_sq(&self) -> (r: u128)
        requires
            self.in_range(),
        ensures
            r == self.norm_sq_spec(),
    {
        let x = self.x as i128;
        let y = self.y as i128;
        let z = self.z as i128;
        assert(x * x <= 0x4000_0000_0000_0000) by (nonlinear_arith)
            requires -0x8000_0000 <= x <= 0x8000_0000;
        assert(y * y <= 0x4000_0000_0000_0000) by (nonlinear_arith)
            requires -0x8000_0000 <= y <= 0x8000_0000;
        assert(z * z <= 0x4000_0000_0000_0000) by (nonlinear_arith)
            requires -0x8000_0000 <= z <= 0x8000_0000;
        assert(x * x >= 0 && y * y >= 0 && z * z >= 0) by (nonlinear_arith);
        (x * x + y * y + z * z) as u128
    }

    /// Length, rounded down to a millimetre.
    pub fn norm(&self) -> (r: u64)
        requires
            self.in_range(),
        ensures
            r == sqrt_floor(self.norm_sq_spec() as nat),
    {
        isqrt(self.norm_sq())
    }

    /// The vector scaled to length `len` (see `unit_scaled`); `None` for the
    /// zero vector.
    pub fn normalize(&self, len: i64) -> (r: Option<Point3>)
        requires
            0 <= len,
        ensures
            match unit_scaled(self.x as int, self.y as int, self.z as int, len as int) {
                None => r is None,
                Some(v) => r is Some && (v.0, v.1, v.2) == (r->0.x as int, r->0.y as int, r->0.z as int),
            },
    {
        scale_to_length(self.x as i128, self.y as i128, self.z as i128, len)
    }
}

/// Floor midpoint of `[a, b]`, exact for `a <= b`.
pub open spec fn mid1(a: int, b: int) -> int {
    a + (b - a) / 2
}

/// Index of the octant of `c` that holds `p`: bit 0 for x, 1 for y, 2 for z,
/// set where `p` lies strictly above `c` on that axis.
pub open spec fn octant_index(c: Point3, p: Point3) -> int {
    (if p.x > c.x { 1int } else { 0int }) + (if p.y > c.y { 2int } else { 0int }) + (if p.z
        > c.z { 4int } else { 0int })
}

/// An axis-aligned box `[min, max]` (closed on every side).
#[derive(Clone, Copy, Debug, PartialEq, Eq, Structural)]
pub struct Aabb {
    pub min: Point3,
    pub max: Point3,
}

impl Aabb {
    pub open spec fn wf(self) -> bool {
        &&& self.min.in_range()
        &&& self.max.in_range()
        &&& self.min.x <= self.max.x
        &&& self.min.y <= self.max.y
        &&& self.min.z <= self.max.z
    }

    pub open spec fn contains_spec(self, p: Point3) -> bool {
        &&& self.min.x <= p.x <= self.max.x
        &&& self.min.y <= p.y <= self.max.y
        &&& self.min.z <= p.z <= self.max.z
    }

    /// `self` lies inside `outer`.
    pub open spec fn within(self, outer: Aabb) -> bool {
        &&& outer.min.x <= self.min.x && self.max.x <= outer.max.x
        &&& outer.min.y <= self.min.y && self.max.y <= outer.max.y
        &&& outer.min.z <= self.min.z && self.max.z <= outer.max.z
    }

    pub open spec fn mid_spec(self) -> Point3 {
        Point3 {
            x: mid1(self.min.x as int, self.max.x as int) as i64,
            y: mid1(self.min.y as int, self.max.y as int) as i64,
            z: mid1(self.min.z as int, self.max.z as int) as i64,
        }
    }

    /// Octant `i` of the box: on each axis the upper half `[mid, max]` where
    /// the axis' bit of `i` is set, else the lower half `[min, mid]`.
    pub open spec fn octant_spec(self, i: int) -> Aabb {
        let c = self.mid_spec();
        Aabb {
            min: Point3 {
                x: if i % 2 == 1 { c.x } else { self.min.x },
                y: if (i / 2) % 2 == 1 { c.y } else { self.min.y },
                z: if (i / 4) % 2 == 1 { c.z } else { self.min.z },
            },
            max: Point3 {
                x: if i % 2 == 1 { self.max.x } else { c.x },
                y: if (i / 2) % 2 == 1 { self.max.y } else { c.y },
                z: if (i / 4) % 2 == 1 { self.max.z } else { c.z },
            },
        }
    }

    /// The cube `[-b, b]` on every axis.
    pub open spec fn cube(b: i64) -> Aabb {
        Aabb { min: Point3 { x: -b as i64, y: -b as i64, z: -b as i64 }, max: Point3 { x: b, y: b, z: b } }
    }

    pub fn contains(&self, p: &Point3) -> (r: bool)
        ensures
            r == self.contains_spec(*p),
    {
        self.min.x <= p.x && p.x <= self.max.x && self.min.y <= p.y && p.y <= self.max.y
            && self.min.z <= p.z && p.z <= self.max.z
    }

    /// The box's midpoint, rounded down.
    pub fn mid(&self) -> (r: Point3)
        requires
            self.wf(),
        ensures
            r == self.mid_spec(),
    {
        Point3 {
            x: self.min.x + (self.max.x - self.min.x) / 2,
            y: self.min.y + (self.max.y - self.min.y) / 2,
            z: self.min.z + (self.max.z - self.min.z) / 2,
        }
    }

    pub fn octant(&self, i: usize) -> (r: Aabb)
        requires
            self.wf(),
            i < 8,
        ensures
            r == self.octant_spec(i as int),
    {
        let c = self.mid();
        Aabb {
            min: Point3 {
                x: if i % 2 == 1 { c.x } else { self.min.x },
                y: if (i / 2) % 2 == 1 { c.y } else { self.min.y },
                z: if (i / 4) % 2 == 1 { c.z } else { self.min.z },
            },
            max: Point3 {
                x: if i % 2 == 1 { self.max.x } else { c.x },
                y: if (i / 2) % 2 == 1 { self.max.y } else { c.y },
                z: if (i / 4) % 2 == 1 { self.max.z } else { c.z },
            },
        }
    }
}

/// Octant index of `p` relative to `c` (see `octant_index`).
pub fn get_index(c: &Point3, p: &Point3) -> (r: usize)
    ensures
        r == octant_index(*c, *p),
        r < 8,
{
    let mut index: usize = 0;
    if p.x > c.x {
        index = index + 1;
    }
    if p.y > c.y {
        index = index + 2;
    }
    if p.z > c.z {
        index = index + 4;
    }
    index
}

/// Every octant of a well-formed box is a well-formed box inside it, and the
/// octant that `octant_index` picks for a point of the box holds that point.
pub proof fn lemma_octants(b: Aabb)
    requires
        b.wf(),
    ensures
        forall|i: int| 0 <= i < 8 ==> #[trigger] b.octant_spec(i).wf() && b.octant_spec(i).within(b),
        forall|p: Point3|
            b.contains_spec(p) ==> 0 <= octant_index(b.mid_spec(), p) < 8 && #[trigger] b.octant_spec(
                octant_index(b.mid_spec(), p),
            ).contains_spec(p),
{
    assert forall|p: Point3| b.contains_spec(p) implies 0 <= octant_index(b.mid_spec(), p) < 8
        && #[trigger] b.octant_spec(octant_index(b.mid_spec(), p)).contains_spec(p) by {
        let i = octant_index(b.mid_spec(), p);
        assert(i % 2 == 1 <==> p.x > b.mid_spec().x);
        assert((i / 2) % 2 == 1 <==> p.y > b.mid_spec().y);
        assert((i / 4) % 2 == 1 <==> p.z > b.mid_spec().z);
    }
}

} // verus!
