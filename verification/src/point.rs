use vstd::prelude::*;

verus! {

/// A 3-dimensional integer point. Coordinates are kept well inside the `i32`
/// range (see `bounded`) so that componentwise arithmetic cannot overflow.
#[derive(Clone, Copy, PartialEq, Eq, Structural, Hash, Debug)]
pub struct Point3i {
    pub x: i32,
    pub y: i32,
    pub z: i32,
}

impl Point3i {
    /// Coordinates that every point handed to the chunked structures obeys:
    /// far smaller than `i32` limits, so sums and shifts stay exact.
    pub open spec fn bounded(self) -> bool {
        -0x10000000 <= self.x <= 0x10000000 && -0x10000000 <= self.y <= 0x10000000
            && -0x10000000 <= self.z <= 0x10000000
    }

    pub fn new(x: i32, y: i32, z: i32) -> (r: Point3i)
        ensures
            r == (Point3i { x, y, z }),
    {
        Point3i { x, y, z }
    }

    /// Componentwise sum.
    pub fn plus(self, other: Point3i) -> (r: Point3i)
        requires
            self.bounded(),
            other.bounded(),
        ensures
            r.x == self.x + other.x,
            r.y == self.y + other.y,
            r.z == self.z + other.z,
    {
        Point3i { x: self.x + other.x, y: self.y + other.y, z: self.z + other.z }
    }

    /// Componentwise difference.
    pub fn minus(self, other: Point3i) -> (r: Point3i)
        requires
            self.bounded(),
            other.bounded(),
        ensures
            r.x == self.x - other.x,
            r.y == self.y - other.y,
            r.z == self.z - other.z,
    {
        Point3i { x: self.x - other.x, y: self.y - other.y, z: self.z - other.z }
    }

    /// Componentwise minimum.
    pub fn component_min(self, other: Point3i) -> (r: Point3i)
        ensures
            r.x == if self.x <= other.x { self.x } else { other.x },
            r.y == if self.y <= other.y { self.y } else { other.y },
            r.z == if self.z <= other.z { self.z } else { other.z },
    {
        Point3i {
            x: if self.x <= other.x { self.x } else { other.x },
            y: if self.y <= other.y { self.y } else { other.y },
            z: if self.z <= other.z { self.z } else { other.z },
        }
    }

    /// Componentwise maximum.
    pub fn component_max(self, other: Point3i) -> (r: Point3i)
        ensures
            r.x == if self.x >= other.x { self.x } else { other.x },
            r.y == if self.y >= other.y { self.y } else { other.y },
            r.z == if self.z >= other.z { self.z } else { other.z },
    {
        Point3i {
            x: if self.x >= other.x { self.x } else { other.x },
            y: if self.y >= other.y { self.y } else { other.y },
            z: if self.z >= other.z { self.z } else { other.z },
        }
    }

    /// The componentwise arithmetic right shift, used to convert voxel
    /// coordinates to chunk coordinates and between levels of detail.
    pub open spec fn shr_spec(self, e: u8) -> Point3i {
        Point3i { x: self.x >> e, y: self.y >> e, z: self.z >> e }
    }

    pub fn scalar_shr(self, e: u8) -> (r: Point3i)
        requires
            e < 32,
        ensures
            r == self.shr_spec(e),
    {
        Point3i { x: self.x >> e, y: self.y >> e, z: self.z >> e }
    }

    /// The componentwise left shift; the inverse direction of `scalar_shr`.
    pub open spec fn shl_spec(self, e: u8) -> Point3i {
        Point3i { x: self.x << e, y: self.y << e, z: self.z << e }
    }

    pub fn scalar_shl(self, e: u8) -> (r: Point3i)
        requires
            e < 32,
        ensures
            r == self.shl_spec(e),
    {
        Point3i { x: self.x << e, y: self.y << e, z: self.z << e }
    }

    /// L-infinity distance between two points, as a mathematical integer.
    pub open spec fn linf_dist(self, other: Point3i) -> int {
        let dx = abs_int(self.x - other.x);
        let dy = abs_int(self.y - other.y);
        let dz = abs_int(self.z - other.z);
        max_int(dx, max_int(dy, dz))
    }
}

pub open spec fn abs_int(v: int) -> int {
    if v >= 0 {
        v
    } else {
        -v
    }
}

pub open spec fn max_int(a: int, b: int) -> int {
    if a >= b {
        a
    } else {
        b
    }
}

/// Executable L-infinity distance.
pub fn linf_dist(a: Point3i, b: Point3i) -> (r: i64)
    requires
        a.bounded(),
        b.bounded(),
    ensures
        r == a.linf_dist(b),
{
    let dx: i64 = (a.x as i64) - (b.x as i64);
    let dy: i64 = (a.y as i64) - (b.y as i64);
    let dz: i64 = (a.z as i64) - (b.z as i64);
    let dx: i64 = if dx >= 0 { dx } else { -dx };
    let dy: i64 = if dy >= 0 { dy } else { -dy };
    let dz: i64 = if dz >= 0 { dz } else { -dz };
    let m: i64 = if dx >= dy { dx } else { dy };
    if m >= dz { m } else { dz }
}

} // verus!
