use vstd::prelude::*;
use vstd::arithmetic::div_mod::lemma_fundamental_div_mod_converse;
use crate::point::Point3i;

verus! {

/// A half-open axis-aligned box of integer points: all `p` with
/// `minimum <= p < minimum + shape` componentwise.
#[derive(Clone, Copy, PartialEq, Eq, Structural, Hash, Debug)]
pub struct Extent3i {
    pub minimum: Point3i,
    pub shape: Point3i,
}

impl Extent3i {
    /// Well-formed extents have nonnegative, moderately sized shapes and a
    /// bounded minimum, so that linear indices fit comfortably in `usize`.
    pub open spec fn wf(self) -> bool {
        &&& self.minimum.bounded()
        &&& 0 <= self.shape.x <= 0x100000
        &&& 0 <= self.shape.y <= 0x100000
        &&& 0 <= self.shape.z <= 0x100000
    }

    pub open spec fn volume(self) -> int {
        (self.shape.x as int) * (self.shape.y as int) * (self.shape.z as int)
    }

    pub open spec fn contains_spec(self, p: Point3i) -> bool {
        &&& self.minimum.x <= p.x < self.minimum.x + self.shape.x
        &&& self.minimum.y <= p.y < self.minimum.y + self.shape.y
        &&& self.minimum.z <= p.z < self.minimum.z + self.shape.z
    }

    /// One past the maximum corner, componentwise (exclusive upper bound).
    pub open spec fn max_spec(self) -> (int, int, int) {
        (
            self.minimum.x + self.shape.x,
            self.minimum.y + self.shape.y,
            self.minimum.z + self.shape.z,
        )
    }

    /// The linearization of a point: x varies fastest, then y, then z.
    pub open spec fn linear_index(self, p: Point3i) -> int {
        (p.x - self.minimum.x) + (self.shape.x as int) * ((p.y - self.minimum.y) + (
        self.shape.y as int) * (p.z - self.minimum.z))
    }

    pub fn new(minimum: Point3i, shape: Point3i) -> (r: Extent3i)
        ensures
            r == (Extent3i { minimum, shape }),
    {
        Extent3i { minimum, shape }
    }

    pub fn contains(&self, p: Point3i) -> (r: bool)
        requires
            self.wf(),
        ensures
            r == self.contains_spec(p),
    {
        let min = self.minimum;
        let sh = self.shape;
        (min.x as i64 <= p.x as i64 && (p.x as i64) < min.x as i64 + sh.x as i64)
            && (min.y as i64 <= p.y as i64 && (p.y as i64) < min.y as i64 + sh.y as i64)
            && (min.z as i64 <= p.z as i64 && (p.z as i64) < min.z as i64 + sh.z as i64)
    }

    /// Number of points in the extent, as a `u64`.
    pub fn num_points_u64(&self) -> (r: u64)
        requires
            self.wf(),
        ensures
            r == self.volume(),
    {
        let sx: u64 = self.shape.x as u64;
        let sy: u64 = self.shape.y as u64;
        let sz: u64 = self.shape.z as u64;
        proof {
            assert(0 <= (sx as int) * (sy as int) <= 0x10000000000) by (nonlinear_arith)
                requires
                    0 <= sx <= 0x100000,
                    0 <= sy <= 0x100000,
            ;
            assert(0 <= (sx as int) * (sy as int) * (sz as int) <= 0x1000000000000000)
                by (nonlinear_arith)
                requires
                    0 <= (sx as int) * (sy as int) <= 0x10000000000,
                    0 <= sz <= 0x100000,
            ;
        }
        sx * sy * sz
    }

    /// Number of points in the extent, for sizing buffers. The volume must be
    /// small enough to address memory on any machine.
    pub fn num_points(&self) -> (r: usize)
        requires
            self.wf(),
            self.volume() <= 0x40000000,
        ensures
            r == self.volume(),
    {
        self.num_points_u64() as usize
    }

    /// The extent of points contained in both `self` and `other`.
    pub fn intersection(&self, other: &Extent3i) -> (r: Extent3i)
        requires
            self.wf(),
            other.wf(),
        ensures
            r.wf(),
            forall|p: Point3i| r.contains_spec(p) <==> self.contains_spec(p)
                && other.contains_spec(p),
    {
        let min = self.minimum.component_max(other.minimum);
        let amax_x: i64 = self.minimum.x as i64 + self.shape.x as i64;
        let amax_y: i64 = self.minimum.y as i64 + self.shape.y as i64;
        let amax_z: i64 = self.minimum.z as i64 + self.shape.z as i64;
        let bmax_x: i64 = other.minimum.x as i64 + other.shape.x as i64;
        let bmax_y: i64 = other.minimum.y as i64 + other.shape.y as i64;
        let bmax_z: i64 = other.minimum.z as i64 + other.shape.z as i64;
        let mx: i64 = if amax_x <= bmax_x { amax_x } else { bmax_x };
        let my: i64 = if amax_y <= bmax_y { amax_y } else { bmax_y };
        let mz: i64 = if amax_z <= bmax_z { amax_z } else { bmax_z };
        let sx: i64 = if mx - min.x as i64 >= 0 { mx - min.x as i64 } else { 0 };
        let sy: i64 = if my - min.y as i64 >= 0 { my - min.y as i64 } else { 0 };
        let sz: i64 = if mz - min.z as i64 >= 0 { mz - min.z as i64 } else { 0 };
        Extent3i { minimum: min, shape: Point3i { x: sx as i32, y: sy as i32, z: sz as i32 } }
    }

    /// All points of the extent in linearization order: the point with linear
    /// index `j` stands at position `j`.
    pub fn points(&self) -> (r: Vec<Point3i>)
        requires
            self.wf(),
        ensures
            r@.len() == self.volume(),
            forall|j: int|
                0 <= j < r@.len() ==> self.contains_spec(#[trigger] r@[j]) && self.linear_index(
                    r@[j],
                ) == j,
    {
        proof {
            lemma_volume_bound(*self);
        }
        let mut r: Vec<Point3i> = Vec::new();
        let sx: i32 = self.shape.x;
        let sy: i32 = self.shape.y;
        let sz: i32 = self.shape.z;
        let mut dz: i32 = 0;
        while dz < sz
            invariant
                self.wf(),
                sx == self.shape.x && sy == self.shape.y && sz == self.shape.z,
                0 <= dz <= sz,
                r@.len() == (sx as int) * (sy as int) * (dz as int),
                forall|j: int|
                    0 <= j < r@.len() ==> self.contains_spec(#[trigger] r@[j])
                        && self.linear_index(r@[j]) == j,
            decreases sz - dz,
        {
            proof {
                assert((sx as int) * ((0 as int) + (sy as int) * (dz as int)) == (sx as int) * (
                sy as int) * (dz as int)) by (nonlinear_arith);
            }
            let mut dy: i32 = 0;
            while dy < sy
                invariant
                    self.wf(),
                    sx == self.shape.x && sy == self.shape.y && sz == self.shape.z,
                    0 <= dz < sz,
                    0 <= dy <= sy,
                    r@.len() == (sx as int) * ((dy as int) + (sy as int) * (dz as int)),
                    forall|j: int|
                        0 <= j < r@.len() ==> self.contains_spec(#[trigger] r@[j])
                            && self.linear_index(r@[j]) == j,
                decreases sy - dy,
            {
                let mut dx: i32 = 0;
                while dx < sx
                    invariant
                        self.wf(),
                        sx == self.shape.x && sy == self.shape.y && sz == self.shape.z,
                        0 <= dz < sz,
                        0 <= dy < sy,
                        0 <= dx <= sx,
                        r@.len() == (dx as int) + (sx as int) * ((dy as int) + (sy as int) * (
                        dz as int)),
                        forall|j: int|
                            0 <= j < r@.len() ==> self.contains_spec(#[trigger] r@[j])
                                && self.linear_index(r@[j]) == j,
                    decreases sx - dx,
                {
                    let p = Point3i {
                        x: self.minimum.x + dx,
                        y: self.minimum.y + dy,
                        z: self.minimum.z + dz,
                    };
                    proof {
                        lemma_prefix_volume_bound(*self, dx as int, dy as int, dz as int);
                    }
                    r.push(p);
                    dx = dx + 1;
                }
                dy = dy + 1;
                proof {
                    assert((sx as int) + (sx as int) * ((dy as int - 1) + (sy as int) * (dz as int))
                        == (sx as int) * ((dy as int) + (sy as int) * (dz as int)))
                        by (nonlinear_arith);
                }
            }
            dz = dz + 1;
            proof {
                assert((sx as int) * ((sy as int) + (sy as int) * (dz as int - 1)) == (sx as int) * (
                sy as int) * (dz as int)) by (nonlinear_arith);
            }
        }
        r
    }
}

/// The volume of a well-formed extent fits in 60 bits.
pub proof fn lemma_volume_bound(e: Extent3i)
    requires
        e.wf(),
    ensures
        0 <= e.volume() <= 0x1000000000000000,
{
    assert(0 <= (e.shape.x as int) * (e.shape.y as int) * (e.shape.z as int)
        <= 0x100000 * 0x100000 * 0x100000) by (nonlinear_arith)
        requires
            0 <= e.shape.x <= 0x100000,
            0 <= e.shape.y <= 0x100000,
            0 <= e.shape.z <= 0x100000,
    ;
}

proof fn lemma_prefix_volume_bound(e: Extent3i, dx: int, dy: int, dz: int)
    requires
        e.wf(),
        0 <= dx < e.shape.x,
        0 <= dy < e.shape.y,
        0 <= dz < e.shape.z,
    ensures
        0 <= dx + (e.shape.x as int) * (dy + (e.shape.y as int) * dz) < e.volume(),
{
    let sx = e.shape.x as int;
    let sy = e.shape.y as int;
    let sz = e.shape.z as int;
    assert(0 <= dx + sx * (dy + sy * dz) < sx * sy * sz) by (nonlinear_arith)
        requires
            0 <= dx < sx,
            0 <= dy < sy,
            0 <= dz < sz,
    ;
}

/// A contained point's linear index lies inside `[0, volume)`.
pub proof fn lemma_linear_index_bounds(e: Extent3i, p: Point3i)
    requires
        e.wf(),
        e.contains_spec(p),
    ensures
        0 <= e.linear_index(p) < e.volume(),
{
    lemma_prefix_volume_bound(e, p.x - e.minimum.x, p.y - e.minimum.y, p.z - e.minimum.z);
}

/// Linearization is injective on the points of the extent: two contained
/// points with the same linear index are the same point.
pub proof fn lemma_linear_index_injective(e: Extent3i, p1: Point3i, p2: Point3i)
    requires
        e.wf(),
        e.contains_spec(p1),
        e.contains_spec(p2),
        e.linear_index(p1) == e.linear_index(p2),
    ensures
        p1 == p2,
{
    let sx = e.shape.x as int;
    let sy = e.shape.y as int;
    let d1x = p1.x - e.minimum.x;
    let d1y = p1.y - e.minimum.y;
    let d1z = p1.z - e.minimum.z;
    let d2x = p2.x - e.minimum.x;
    let d2y = p2.y - e.minimum.y;
    let d2z = p2.z - e.minimum.z;
    let i = e.linear_index(p1);
    assert(i == (d1y + sy * d1z) * sx + d1x) by (nonlinear_arith)
        requires
            i == d1x + sx * (d1y + sy * d1z),
    ;
    assert(i == (d2y + sy * d2z) * sx + d2x) by (nonlinear_arith)
        requires
            i == d2x + sx * (d2y + sy * d2z),
    ;
    lemma_fundamental_div_mod_converse(i, sx, d1y + sy * d1z, d1x);
    lemma_fundamental_div_mod_converse(i, sx, d2y + sy * d2z, d2x);
    let q = i / sx;
    assert(q == d1z * sy + d1y) by (nonlinear_arith)
        requires
            q == d1y + sy * d1z,
    ;
    assert(q == d2z * sy + d2y) by (nonlinear_arith)
        requires
            q == d2y + sy * d2z,
    ;
    lemma_fundamental_div_mod_converse(q, sy, d1z, d1y);
    lemma_fundamental_div_mod_converse(q, sy, d2z, d2y);
}

/// The iteration law for extents: the sequence produced by `points` visits
/// exactly `volume` points, all inside the extent, without repetition, and
/// every point of the extent occurs (at its own linear index).
pub proof fn lemma_points_bijective(e: Extent3i, pts: Seq<Point3i>)
    requires
        e.wf(),
        pts.len() == e.volume(),
        forall|j: int|
            0 <= j < pts.len() ==> e.contains_spec(#[trigger] pts[j]) && e.linear_index(pts[j])
                == j,
    ensures
        forall|j1: int, j2: int|
            0 <= j1 < pts.len() && 0 <= j2 < pts.len() && j1 != j2 ==> pts[j1] != pts[j2],
        forall|p: Point3i| e.contains_spec(p) ==> pts[e.linear_index(p)] == p,
{
    assert forall|p: Point3i| e.contains_spec(p) implies pts[e.linear_index(p)] == p by {
        lemma_linear_index_bounds(e, p);
        let j = e.linear_index(p);
        lemma_linear_index_injective(e, pts[j], p);
    }
}

} // verus!
