use vstd::prelude::*;
use crate::point::Point3i;
use crate::extent::Extent3i;
use crate::extent::lemma_linear_index_bounds;
use crate::extent::lemma_linear_index_injective;

verus! {

/// The mathematical value of an `Array3`: an extent together with one value
/// sequence per channel, all of length `extent.volume()`.
pub struct ArrayV {
    pub extent: Extent3i,
    pub channels: Seq<Seq<i32>>,
}

impl ArrayV {
    pub open spec fn wf(self) -> bool {
        &&& self.extent.wf()
        &&& self.extent.volume() <= 0x10000000
        &&& 1 <= self.channels.len() <= 255
        &&& (self.channels.len() as int) * self.extent.volume() <= 0x10000000
        &&& forall|ci: int|
            0 <= ci < self.channels.len() ==> (#[trigger] self.channels[ci]).len()
                == self.extent.volume()
    }

    /// The value of channel `ci` at point `p`.
    pub open spec fn cell(self, ci: int, p: Point3i) -> i32 {
        self.channels[ci][self.extent.linear_index(p)]
    }

    /// This value with channel `ci` at point `p` replaced by `v`.
    pub open spec fn with_cell(self, ci: int, p: Point3i, v: i32) -> ArrayV {
        ArrayV {
            extent: self.extent,
            channels: self.channels.update(
                ci,
                self.channels[ci].update(self.extent.linear_index(p), v),
            ),
        }
    }
}

/// A structure-of-arrays container over a 3D extent: each channel is a
/// contiguous buffer of one `i32` per point, linearized x-fastest.
pub struct Array3 {
    extent: Extent3i,
    channels: Vec<Vec<i32>>,
}

impl View for Array3 {
    type V = ArrayV;

    closed spec fn view(&self) -> ArrayV {
        ArrayV { extent: self.extent, channels: self.channels@.map_values(|c: Vec<i32>| c@) }
    }
}

/// A vector of `n` copies of `v`.
fn filled_vec(n: usize, v: i32) -> (r: Vec<i32>)
    ensures
        r@.len() == n,
        forall|i: int| 0 <= i < n ==> r@[i] == v,
{
    let mut r: Vec<i32> = Vec::new();
    let mut i: usize = 0;
    while i < n
        invariant
            i <= n,
            r@.len() == i,
            forall|j: int| 0 <= j < i ==> r@[j] == v,
        decreases n - i,
    {
        r.push(v);
        i = i + 1;
    }
    r
}

impl Array3 {
    pub open spec fn wf(self) -> bool {
        self@.wf()
    }

    pub open spec fn extent(self) -> Extent3i {
        self@.extent
    }

    pub open spec fn num_channels(self) -> int {
        self@.channels.len() as int
    }

    /// A fresh array over `extent` with `num_channels` channels, every cell
    /// holding `value`.
    pub fn new_fill(extent: Extent3i, num_channels: u8, value: i32) -> (r: Array3)
        requires
            extent.wf(),
            extent.volume() <= 0x10000000,
            (num_channels as int) * extent.volume() <= 0x10000000,
            1 <= num_channels,
        ensures
            r.wf(),
            r@.extent == extent,
            r@.channels.len() == num_channels,
            forall|ci: int, p: Point3i|
                0 <= ci < num_channels && extent.contains_spec(p) ==> r@.cell(ci, p) == value,
    {
        let n = extent.num_points();
        let mut channels: Vec<Vec<i32>> = Vec::new();
        let mut ci: usize = 0;
        while ci < num_channels as usize
            invariant
                ci <= num_channels,
                n == extent.volume(),
                channels@.len() == ci,
                forall|k: int|
                    0 <= k < ci ==> (#[trigger] channels@[k])@.len() == extent.volume(),
                forall|k: int, j: int|
                    0 <= k < ci && 0 <= j < extent.volume() ==> (#[trigger] channels@[k]@[j])
                        == value,
            decreases num_channels as int - ci,
        {
            let chv = filled_vec(n, value);
            channels.push(chv);
            proof {
                assert(channels@[ci as int] == chv);
            }
            ci = ci + 1;
        }
        let r = Array3 { extent, channels };
        proof {
            assert forall|ci2: int, p: Point3i|
                0 <= ci2 < num_channels && extent.contains_spec(p) implies r@.cell(ci2, p)
                == value by {
                lemma_linear_index_bounds(extent, p);
            }
        }
        r
    }

    /// Assemble an array from an extent and raw channel buffers.
    pub fn from_channels(extent: Extent3i, channels: Vec<Vec<i32>>) -> (r: Array3)
        requires
            extent.wf(),
            extent.volume() <= 0x10000000,
            1 <= channels@.len() <= 255,
            (channels@.len() as int) * extent.volume() <= 0x10000000,
            forall|ci: int|
                0 <= ci < channels@.len() ==> (#[trigger] channels@[ci])@.len()
                    == extent.volume(),
        ensures
            r.wf(),
            r@.extent == extent,
            r@.channels.len() == channels@.len(),
            forall|ci: int|
                0 <= ci < channels@.len() ==> r@.channels[ci] == channels@[ci]@,
    {
        Array3 { extent, channels }
    }

    /// Borrow the raw buffer of channel `ci`.
    pub fn channel_vec(&self, ci: u8) -> (r: &Vec<i32>)
        requires
            self.wf(),
            ci < self@.channels.len(),
        ensures
            r@ == self@.channels[ci as int],
    {
        proof {
            assert(self@.channels[ci as int] == self.channels@[ci as int]@);
        }
        &self.channels[ci as usize]
    }

    /// The extent as an executable value.
    pub fn get_extent(&self) -> (r: Extent3i)
        ensures
            r == self.extent(),
    {
        self.extent
    }

    pub fn channel_count(&self) -> (r: u8)
        requires
            self.wf(),
        ensures
            r == self@.channels.len(),
    {
        self.channels.len() as u8
    }

    /// Read the value of channel `ci` at point `p`.
    pub fn get_point(&self, ci: u8, p: Point3i) -> (r: i32)
        requires
            self.wf(),
            ci < self@.channels.len(),
            self.extent().contains_spec(p),
        ensures
            r == self@.cell(ci as int, p),
    {
        proof {
            lemma_linear_index_bounds(self.extent, p);
            assert(self@.channels[ci as int] == self.channels@[ci as int]@);
        }
        let idx = self.linear_index_exec(p);
        self.channels[ci as usize][idx]
    }

    /// Write `v` to channel `ci` at point `p`. Only that cell changes.
    pub fn set_point(&mut self, ci: u8, p: Point3i, v: i32)
        requires
            old(self).wf(),
            ci < old(self)@.channels.len(),
            old(self).extent().contains_spec(p),
        ensures
            final(self).wf(),
            final(self)@.extent == old(self)@.extent,
            final(self)@.channels.len() == old(self)@.channels.len(),
            final(self)@.channels == old(self)@.channels.update(
                ci as int,
                old(self)@.channels[ci as int].update(old(self)@.extent.linear_index(p), v),
            ),
            final(self)@ == old(self)@.with_cell(ci as int, p, v),
            final(self)@.cell(ci as int, p) == v,
            forall|cj: int, q: Point3i|
                0 <= cj < old(self)@.channels.len() && old(self).extent().contains_spec(q) && !(cj
                    == ci && q == p) ==> final(self)@.cell(cj, q) == old(self)@.cell(cj, q),
    {
        proof {
            lemma_linear_index_bounds(self.extent, p);
            assert(self@.channels[ci as int] == self.channels@[ci as int]@);
        }
        let idx = self.linear_index_exec(p);
        let mut ch: Vec<i32> = self.channels.remove(ci as usize);
        ch.set(idx, v);
        self.channels.insert(ci as usize, ch);
        proof {
            assert(final(self)@.channels =~= old(self)@.channels.update(
                ci as int,
                old(self)@.channels[ci as int].update(old(self)@.extent.linear_index(p), v),
            ));
            assert forall|cj: int, q: Point3i|
                0 <= cj < old(self)@.channels.len() && old(self).extent().contains_spec(q) && !(cj
                    == ci && q == p) implies final(self)@.cell(cj, q) == old(self)@.cell(
                cj,
                q,
            ) by {
                lemma_linear_index_bounds(old(self)@.extent, q);
                if cj == ci && q != p {
                    if old(self)@.extent.linear_index(q) == old(self)@.extent.linear_index(p) {
                        lemma_linear_index_injective(old(self)@.extent, q, p);
                    }
                }
            }
        }
    }

    /// The linear index of a contained point, as a `usize`.
    fn linear_index_exec(&self, p: Point3i) -> (r: usize)
        requires
            self.wf(),
            self.extent().contains_spec(p),
        ensures
            r == self@.extent.linear_index(p),
            0 <= r < self@.extent.volume(),
    {
        proof {
            lemma_linear_index_bounds(self.extent, p);
        }
        let dx: i64 = p.x as i64 - self.extent.minimum.x as i64;
        let dy: i64 = p.y as i64 - self.extent.minimum.y as i64;
        let dz: i64 = p.z as i64 - self.extent.minimum.z as i64;
        let sx: i64 = self.extent.shape.x as i64;
        let sy: i64 = self.extent.shape.y as i64;
        proof {
            assert(0 <= dy + sy * dz <= 0x10000400000) by (nonlinear_arith)
                requires
                    0 <= dy < 0x100001,
                    0 <= sy <= 0x100000,
                    0 <= dz < 0x100001,
            ;
            assert(0 <= sx * (dy + sy * dz) <= 0x2000000000000000) by (nonlinear_arith)
                requires
                    0 <= sx <= 0x100000,
                    0 <= dy + sy * dz <= 0x10000400000,
            ;
            assert(dx + sx * (dy + sy * dz) == self@.extent.linear_index(p)) by (nonlinear_arith)
                requires
                    dx == p.x - self@.extent.minimum.x,
                    dy == p.y - self@.extent.minimum.y,
                    dz == p.z - self@.extent.minimum.z,
                    sx == self@.extent.shape.x,
                    sy == self@.extent.shape.y,
                    self@.extent.linear_index(p) == (p.x - self@.extent.minimum.x) + (
                    self@.extent.shape.x as int) * ((p.y - self@.extent.minimum.y) + (
                    self@.extent.shape.y as int) * (p.z - self@.extent.minimum.z)),
            ;
        }
        (dx + sx * (dy + sy * dz)) as usize
    }

    /// Translate the array's logical origin without touching the data.
    pub fn set_minimum(&mut self, p: Point3i)
        requires
            old(self).wf(),
            p.bounded(),
        ensures
            final(self).wf(),
            final(self)@.extent == (Extent3i { minimum: p, shape: old(self)@.extent.shape }),
            final(self)@.channels == old(self)@.channels,
    {
        self.extent = Extent3i { minimum: p, shape: self.extent.shape };
    }

    /// Copy, for every channel, the values of `src` over the region where
    /// `region`, `self.extent()` and `src.extent()` all overlap; every other
    /// cell keeps its old value.
    pub fn copy_extent(&mut self, src: &Array3, region: Extent3i)
        requires
            old(self).wf(),
            src.wf(),
            region.wf(),
            old(self)@.channels.len() == src@.channels.len(),
        ensures
            final(self).wf(),
            final(self)@.extent == old(self)@.extent,
            final(self)@.channels.len() == old(self)@.channels.len(),
            forall|ci: int, p: Point3i|
                0 <= ci < old(self)@.channels.len() && old(self).extent().contains_spec(p)
                    ==> #[trigger] final(self)@.cell(ci, p) == if region.contains_spec(p)
                    && src.extent().contains_spec(p) {
                    src@.cell(ci, p)
                } else {
                    old(self)@.cell(ci, p)
                },
    {
        let my_extent = self.extent;
        let overlap = region.intersection(&my_extent).intersection(&src.get_extent());
        let pts = overlap.points();
        let nc = self.channels.len();
        let ghost old_self = *self;
        let mut i: usize = 0;
        while i < pts.len()
            invariant
                old_self.wf(),
                src.wf(),
                region.wf(),
                overlap.wf(),
                self.wf(),
                nc == old_self@.channels.len(),
                old_self@.channels.len() == src@.channels.len(),
                self@.extent == old_self@.extent,
                self@.channels.len() == old_self@.channels.len(),
                i <= pts@.len(),
                pts@.len() == overlap.volume(),
                forall|j: int|
                    0 <= j < pts@.len() ==> overlap.contains_spec(#[trigger] pts@[j])
                        && overlap.linear_index(pts@[j]) == j,
                forall|p2: Point3i|
                    overlap.contains_spec(p2) <==> region.contains_spec(p2)
                        && old_self.extent().contains_spec(p2) && src.extent().contains_spec(p2),
                forall|ci: int, p2: Point3i|
                    0 <= ci < nc && old_self.extent().contains_spec(p2)
                        ==> #[trigger] self@.cell(ci, p2) == if overlap.contains_spec(p2)
                        && overlap.linear_index(p2) < i {
                        src@.cell(ci, p2)
                    } else {
                        old_self@.cell(ci, p2)
                    },
            decreases pts@.len() - i,
        {
            let p = pts[i];
            let mut ci: usize = 0;
            while ci < nc
                invariant
                    old_self.wf(),
                    src.wf(),
                    overlap.wf(),
                    self.wf(),
                    nc == old_self@.channels.len(),
                    old_self@.channels.len() == src@.channels.len(),
                    self@.extent == old_self@.extent,
                    self@.channels.len() == old_self@.channels.len(),
                    ci <= nc,
                    i < pts@.len(),
                    pts@.len() == overlap.volume(),
                    p == pts@[i as int],
                    overlap.contains_spec(p),
                    overlap.linear_index(p) == i,
                    forall|p2: Point3i|
                        overlap.contains_spec(p2) ==> old_self.extent().contains_spec(p2)
                            && src.extent().contains_spec(p2),
                    forall|cj: int, p2: Point3i|
                        0 <= cj < nc && old_self.extent().contains_spec(p2)
                            ==> #[trigger] self@.cell(cj, p2) == if overlap.contains_spec(p2) && (
                        overlap.linear_index(p2) < i || (p2 == p && cj < ci)) {
                            src@.cell(cj, p2)
                        } else {
                            old_self@.cell(cj, p2)
                        },
                decreases nc - ci,
            {
                let v = src.get_point(ci as u8, p);
                self.set_point(ci as u8, p, v);
                ci = ci + 1;
                proof {
                    assert forall|cj: int, p2: Point3i|
                        0 <= cj < nc && old_self.extent().contains_spec(p2)
                            implies #[trigger] self@.cell(cj, p2) == if overlap.contains_spec(p2)
                        && (overlap.linear_index(p2) < i || (p2 == p && cj < ci)) {
                        src@.cell(cj, p2)
                    } else {
                        old_self@.cell(cj, p2)
                    } by {
                        if p2 == p && overlap.contains_spec(p2) {
                        } else {
                        }
                    }
                }
            }
            i = i + 1;
            proof {
                assert forall|cj: int, p2: Point3i|
                    0 <= cj < nc && old_self.extent().contains_spec(p2)
                        implies #[trigger] self@.cell(cj, p2) == if overlap.contains_spec(p2)
                    && overlap.linear_index(p2) < i {
                    src@.cell(cj, p2)
                } else {
                    old_self@.cell(cj, p2)
                } by {
                    if overlap.contains_spec(p2) && overlap.linear_index(p2) == i - 1 {
                        lemma_linear_index_injective(overlap, p2, p);
                    }
                }
            }
        }
        proof {
            assert forall|ci: int, p: Point3i|
                0 <= ci < old(self)@.channels.len() && old(self).extent().contains_spec(p)
                    implies #[trigger] self@.cell(ci, p) == if region.contains_spec(p)
                && src.extent().contains_spec(p) {
                src@.cell(ci, p)
            } else {
                old(self)@.cell(ci, p)
            } by {
                if overlap.contains_spec(p) {
                    lemma_linear_index_bounds(overlap, p);
                }
            }
        }
    }
}

} // verus!
