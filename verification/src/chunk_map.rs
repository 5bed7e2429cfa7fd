use vstd::prelude::*;
use crate::array::Array3;
use crate::codec::ByteCodec;
use crate::codec::StorageError;
use crate::compression::ArrayEncoding;
use crate::compressible::CompressibleStorage;
use crate::extent::Extent3i;
use crate::extent::lemma_linear_index_bounds;
use crate::extent::lemma_linear_index_injective;
use crate::point::Point3i;
use crate::storage::ChunkKey;
use crate::storage::ChunkStorage;
use crate::storage::HashMapStorage;
use crate::storage::key_ok;

verus! {

/// The voxel extent covered by the chunk at `key`, for chunk exponent `e`:
/// a cube of side `1 << e` at `key.minimum << e`.
pub open spec fn chunk_extent_spec(key: ChunkKey, e: u8) -> Extent3i {
    Extent3i {
        minimum: key.minimum.shl_spec(e),
        shape: Point3i { x: 1i32 << e, y: 1i32 << e, z: 1i32 << e },
    }
}

/// The key of the chunk containing voxel `p` at level `lod`.
pub open spec fn key_of_spec(lod: u8, p: Point3i, e: u8) -> ChunkKey {
    ChunkKey { lod, minimum: p.shr_spec(e) }
}

proof fn lemma_shift_component(x: i32, q: i32, e: u8)
    requires
        1 <= e <= 6,
        -0x10000000 <= x <= 0x10000000,
        -0x80000 <= q < 0x80000,
    ensures
        (q == (x >> e)) <==> ((q << e) <= x && x < (q << e) + (1i32 << e)),
{
    assert((q == (x >> e)) <==> ((q << e) <= x && x < (q << e) + (1i32 << e))) by (bit_vector)
        requires
            1 <= e <= 6,
            -0x10000000 <= x <= 0x10000000,
            -0x80000 <= q < 0x80000,
    ;
}

/// A voxel lies in a chunk's extent exactly when that chunk's key is the
/// voxel's key.
pub proof fn lemma_chunk_membership(p: Point3i, key: ChunkKey, e: u8)
    requires
        1 <= e <= 6,
        p.bounded(),
        key_ok(key),
    ensures
        chunk_extent_spec(key, e).contains_spec(p) <==> key.minimum == p.shr_spec(e),
{
    lemma_shift_component(p.x, key.minimum.x, e);
    lemma_shift_component(p.y, key.minimum.y, e);
    lemma_shift_component(p.z, key.minimum.z, e);
    if key.minimum == p.shr_spec(e) {
        assert(key.minimum.x == p.x >> e && key.minimum.y == p.y >> e && key.minimum.z == p.z
            >> e);
    }
    if chunk_extent_spec(key, e).contains_spec(p) {
        assert(key.minimum.x == p.x >> e && key.minimum.y == p.y >> e && key.minimum.z == p.z
            >> e);
        assert(key.minimum =~= p.shr_spec(e));
    }
}

/// Chunk extents are well-formed and small.
pub proof fn lemma_chunk_extent_wf(key: ChunkKey, e: u8)
    requires
        1 <= e <= 6,
        key_ok(key),
    ensures
        chunk_extent_spec(key, e).wf(),
        0 < chunk_extent_spec(key, e).volume() <= 0x40000,
{
    let qx = key.minimum.x;
    let qy = key.minimum.y;
    let qz = key.minimum.z;
    assert(1 <= (1i32 << e) <= 64) by (bit_vector)
        requires
            1 <= e <= 6,
    ;
    assert(-0x2000000 <= (qx << e) <= 0x2000000 && -0x2000000 <= (qy << e) <= 0x2000000
        && -0x2000000 <= (qz << e) <= 0x2000000) by (bit_vector)
        requires
            1 <= e <= 6,
            -0x80000 <= qx < 0x80000,
            -0x80000 <= qy < 0x80000,
            -0x80000 <= qz < 0x80000,
    ;
    let s = (1i32 << e) as int;
    assert(0 < s * s * s <= 0x40000) by (nonlinear_arith)
        requires
            1 <= s <= 64,
    ;
}

/// A sparse chunked voxel map at a fixed chunk exponent, with one value
/// channel per chunk and an ambient value standing for every cell of every
/// absent chunk.
pub struct ChunkMap<S> {
    storage: S,
    chunk_exponent: u8,
    ambient: i32,
}

impl<S: ChunkStorage> ChunkMap<S> {
    /// `post` reads as `pre` does at every accepted point other than
    /// `(lod, p)`.
    pub open spec fn same_except(pre: ChunkMap<S>, post: ChunkMap<S>, lod: u8, p: Point3i) -> bool {
        forall|lod2: u8, p2: Point3i|
            pre.point_ok(lod2, p2) && !(lod2 == lod && p2 == p) ==> post.value_at(lod2, p2)
                == pre.value_at(lod2, p2)
    }

    /// Every accepted point of `post` either reads as in `pre`, or reads
    /// `v` inside `region` at `lod` (a partial fill).
    pub open spec fn partial_fill(
        pre: ChunkMap<S>,
        post: ChunkMap<S>,
        lod: u8,
        region: Extent3i,
        v: i32,
    ) -> bool {
        forall|lod2: u8, p2: Point3i|
            pre.point_ok(lod2, p2) ==> post.value_at(lod2, p2) == pre.value_at(lod2, p2) || (lod2
                == lod && region.contains_spec(p2) && post.value_at(lod2, p2) == v)
    }

    /// Every accepted point of `post` either reads as in `pre`, or reads as
    /// `src` inside `region` at `lod` (a partial copy).
    pub open spec fn partial_copy(
        pre: ChunkMap<S>,
        post: ChunkMap<S>,
        lod: u8,
        region: Extent3i,
        src: crate::array::ArrayV,
    ) -> bool {
        forall|lod2: u8, p2: Point3i|
            pre.point_ok(lod2, p2) ==> post.value_at(lod2, p2) == pre.value_at(lod2, p2) || (lod2
                == lod && region.contains_spec(p2) && post.value_at(lod2, p2) == src.cell(0, p2))
    }

    pub closed spec fn inv(self) -> bool {
        &&& self.storage.inv()
        &&& 1 <= self.exponent_spec() <= 6
        &&& forall|k: ChunkKey|
            #[trigger] self.contents().contains_key(k) ==> key_ok(k) && self.contents()[k].wf()
                && self.contents()[k].extent == chunk_extent_spec(k, self.exponent_spec())
                && self.contents()[k].channels.len() == 1
    }

    pub closed spec fn exponent_spec(self) -> u8 {
        self.chunk_exponent
    }

    pub closed spec fn ambient_spec(self) -> i32 {
        self.ambient
    }

    pub closed spec fn contents(self) -> Map<ChunkKey, crate::array::ArrayV> {
        self.storage.contents()
    }

    /// Whether the backend may currently refuse a write (a full
    /// compressible cache whose coldest chunk does not compress).
    pub closed spec fn backend_may_fail(self) -> bool {
        self.storage.store_may_fail()
    }

    /// Whether the backend can never refuse a write.
    pub closed spec fn backend_infallible(self) -> bool {
        self.storage.infallible()
    }

    /// Points the map accepts at level `lod`: the containing chunk's key
    /// must fit the packed key space.
    pub open spec fn point_ok(self, lod: u8, p: Point3i) -> bool {
        p.bounded() && key_ok(key_of_spec(lod, p, self.exponent_spec()))
    }

    /// The value the map holds at voxel `p` of level `lod`: the cell of the
    /// containing chunk, or the ambient value when no chunk exists.
    pub open spec fn value_at(self, lod: u8, p: Point3i) -> i32 {
        let k = key_of_spec(lod, p, self.exponent_spec());
        if self.contents().contains_key(k) {
            self.contents()[k].cell(0, p)
        } else {
            self.ambient_spec()
        }
    }

    pub fn exponent(&self) -> (r: u8)
        ensures
            r == self.exponent_spec(),
    {
        self.chunk_exponent
    }

    pub fn ambient_value(&self) -> (r: i32)
        ensures
            r == self.ambient_spec(),
    {
        self.ambient
    }

    /// The key of the chunk containing `p` at `lod`.
    pub fn key_of(&self, lod: u8, p: Point3i) -> (r: ChunkKey)
        requires
            self.inv(),
        ensures
            r == key_of_spec(lod, p, self.exponent_spec()),
    {
        ChunkKey { lod, minimum: p.scalar_shr(self.chunk_exponent) }
    }

    /// Whether no chunk exists for `key` (its cells all read ambient).
    pub fn is_ambient(&self, key: ChunkKey) -> (r: bool)
        requires
            self.inv(),
            key_ok(key),
        ensures
            r == !self.contents().contains_key(key),
    {
        !self.storage.contains(key)
    }

    /// Read the value at voxel `p` of level `lod`; never fails. Reading may
    /// promote or reorder inside the backend but never changes the model.
    pub fn get_point(&mut self, lod: u8, p: Point3i) -> (r: i32)
        requires
            old(self).inv(),
            old(self).point_ok(lod, p),
        ensures
            final(self).inv(),
            final(self).contents() == old(self).contents(),
            final(self).exponent_spec() == old(self).exponent_spec(),
            final(self).ambient_spec() == old(self).ambient_spec(),
            r == old(self).value_at(lod, p),
    {
        let key = self.key_of(lod, p);
        let r = self.storage.get_cell(key, 0, p);
        let out: i32 = match r {
            Some(v) => v,
            None => {
                proof {
                    if old(self).contents().contains_key(key) {
                        lemma_chunk_membership(p, key, self.chunk_exponent);
                    }
                }
                self.ambient
            },
        };
        proof {
            assert(self.contents() == old(self).contents());
            assert(self.inv());
        }
        out
    }

    /// Write `v` at voxel `p` of level `lod`, materializing the containing
    /// chunk with the ambient value if it is absent. On success exactly that
    /// cell changes; a compressible backend that cannot evict reports
    /// `CodecFailure`, and the containing chunk is then dropped from the
    /// model.
    pub fn set_point(&mut self, lod: u8, p: Point3i, v: i32) -> (r: Result<(), StorageError>)
        requires
            old(self).inv(),
            old(self).point_ok(lod, p),
        ensures
            final(self).inv(),
            final(self).exponent_spec() == old(self).exponent_spec(),
            final(self).ambient_spec() == old(self).ambient_spec(),
            final(self).backend_infallible() == old(self).backend_infallible(),
            match r {
                Ok(u) => final(self).value_at(lod, p) == v && Self::same_except(
                    *old(self),
                    *final(self),
                    lod,
                    p,
                ),
                Err(e) => e == StorageError::CodecFailure && final(self).contents() == old(
                    self,
                ).contents() && old(self).backend_may_fail() && !old(self).backend_infallible(),
            },
    {
        let exp = self.chunk_exponent;
        let key = self.key_of(lod, p);
        proof {
            lemma_chunk_extent_wf(key, exp);
            lemma_chunk_membership(p, key, exp);
        }
        let written = self.storage.set_cell(key, 0, p, v);
        match written {
            Ok(true) => {
                proof {
                    let ghost w = old(self).contents()[key].with_cell(0, p, v);
                    assert(self.contents() == old(self).contents().insert(key, w));
                    assert(self.contents().contains_key(key));
                    assert(self.contents()[key] == w);
                    lemma_linear_index_bounds(w.extent, p);
                    assert(self.value_at(lod, p) == v);
                    assert forall|lod2: u8, p2: Point3i|
                        old(self).point_ok(lod2, p2) && !(lod2 == lod && p2 == p) implies self
                        .value_at(lod2, p2) == old(self).value_at(lod2, p2) by {
                        let k2 = key_of_spec(lod2, p2, exp);
                        if k2 == key {
                            lemma_chunk_membership(p2, key, exp);
                            assert(w.extent.contains_spec(p2));
                            lemma_linear_index_bounds(w.extent, p2);
                            assert(p2 != p);
                            if w.extent.linear_index(p2) == w.extent.linear_index(p) {
                                lemma_linear_index_injective(w.extent, p2, p);
                            }
                        }
                    }
                }
                Ok(())
            },
            Ok(false) => {
                proof {
                    // a present chunk always covers the point, so the chunk
                    // is absent here
                    if old(self).contents().contains_key(key) {
                        assert(old(self).contents()[key].extent.contains_spec(p));
                        assert(false);
                    }
                }
                let ce = Extent3i {
                    minimum: key.minimum.scalar_shl(exp),
                    shape: Point3i {
                        x: 1i32 << exp,
                        y: 1i32 << exp,
                        z: 1i32 << exp,
                    },
                };
                let mut chunk = Array3::new_fill(ce, 1, self.ambient);
                proof {
                    assert(chunk@.extent == chunk_extent_spec(key, exp));
                    assert(chunk@.extent.contains_spec(p));
                }
                chunk.set_point(0, p, v);
                let res = self.storage.store(key, chunk);
                match res {
                    Ok(u) => {
                        proof {
                            assert(self.contents() == old(self).contents().insert(key, chunk@));
                            assert(self.contents()[key] == chunk@);
                            assert forall|lod2: u8, p2: Point3i|
                                old(self).point_ok(lod2, p2) && !(lod2 == lod && p2 == p) implies
                                self.value_at(lod2, p2) == old(self).value_at(lod2, p2) by {
                                let k2 = key_of_spec(lod2, p2, exp);
                                if k2 == key {
                                    lemma_chunk_membership(p2, key, exp);
                                    assert(chunk@.extent.contains_spec(p2));
                                    assert(p2 != p);
                                    if chunk@.extent.linear_index(p2) == chunk@.extent.linear_index(
                                        p,
                                    ) {
                                        lemma_linear_index_injective(chunk@.extent, p2, p);
                                    }
                                }
                            }
                        }
                        Ok(())
                    },
                    Err(e) => {
                        proof {
                            assert(self.contents() =~= old(self).contents());
                        }
                        Err(e)
                    },
                }
            },
            Err(e) => {
                proof {
                    assert(self.contents() =~= old(self).contents());
                }
                Err(e)
            },
        }
    }

    /// Read every voxel of `region` at level `lod` into a fresh array:
    /// each cell holds the stored value or the ambient value. Reading may
    /// promote inside the backend but never changes the model.
    pub fn read_extent(&mut self, lod: u8, region: Extent3i) -> (r: Array3)
        requires
            old(self).inv(),
            region.wf(),
            0 < region.volume() <= 0x10000000,
            forall|p: Point3i| region.contains_spec(p) ==> old(self).point_ok(lod, p),
        ensures
            final(self).inv(),
            final(self).contents() == old(self).contents(),
            final(self).exponent_spec() == old(self).exponent_spec(),
            final(self).ambient_spec() == old(self).ambient_spec(),
            r.wf(),
            r@.extent == region,
            r@.channels.len() == 1,
            forall|p: Point3i|
                region.contains_spec(p) ==> #[trigger] r@.cell(0, p) == old(self).value_at(lod, p),
    {
        let mut out = Array3::new_fill(region, 1, self.ambient);
        let pts = region.points();
        let mut i: usize = 0;
        let n = pts.len();
        while i < n
            invariant
                self.inv(),
                self.contents() == old(self).contents(),
                self.exponent_spec() == old(self).exponent_spec(),
                self.ambient_spec() == old(self).ambient_spec(),
                region.wf(),
                forall|p: Point3i| region.contains_spec(p) ==> old(self).point_ok(lod, p),
                n == pts@.len(),
                i <= n,
                pts@.len() == region.volume(),
                forall|j: int|
                    0 <= j < pts@.len() ==> region.contains_spec(#[trigger] pts@[j])
                        && region.linear_index(pts@[j]) == j,
                out.wf(),
                out@.extent == region,
                out@.channels.len() == 1,
                forall|p: Point3i|
                    region.contains_spec(p) && region.linear_index(p) < i
                        ==> #[trigger] out@.cell(0, p) == old(self).value_at(lod, p),
            decreases n - i,
        {
            let p = pts[i];
            let v = self.get_point(lod, p);
            let ghost prev_out = out;
            out.set_point(0, p, v);
            i = i + 1;
            proof {
                assert forall|p2: Point3i|
                    region.contains_spec(p2) && region.linear_index(p2) < i
                        implies #[trigger] out@.cell(0, p2) == old(self).value_at(lod, p2) by {
                    if p2 == p {
                    } else {
                        assert(out@.cell(0, p2) == prev_out@.cell(0, p2));
                        if region.linear_index(p2) == i - 1 {
                            lemma_linear_index_injective(region, p2, p);
                        }
                    }
                }
            }
        }
        proof {
            assert forall|p: Point3i| region.contains_spec(p) implies #[trigger] out@.cell(0, p)
                == old(self).value_at(lod, p) by {
                lemma_linear_index_bounds(region, p);
            }
        }
        out
    }

    /// Remove the chunk at `key` and return it, if present.
    pub fn remove_chunk(&mut self, key: ChunkKey) -> (r: Option<Array3>)
        requires
            old(self).inv(),
            key_ok(key),
        ensures
            final(self).inv(),
            final(self).exponent_spec() == old(self).exponent_spec(),
            final(self).ambient_spec() == old(self).ambient_spec(),
            final(self).contents() == old(self).contents().remove(key),
            match r {
                Some(a) => old(self).contents().contains_key(key) && a@ == old(
                    self,
                ).contents()[key],
                None => !old(self).contents().contains_key(key),
            },
    {
        let r = self.storage.take(key);
        proof {
            if r is None {
                assert(self.contents() =~= old(self).contents().remove(key));
            }
            assert forall|k2: ChunkKey| #[trigger] self.contents().contains_key(k2) implies key_ok(
                k2,
            ) && self.contents()[k2].wf() && self.contents()[k2].extent == chunk_extent_spec(
                k2,
                self.exponent_spec(),
            ) && self.contents()[k2].channels.len() == 1 by {
                assert(old(self).contents().contains_key(k2));
                assert(self.contents()[k2] == old(self).contents()[k2]);
            }
            assert(self.inv());
        }
        r
    }

    /// Write `v` to every voxel of `region` at level `lod`. On success the
    /// region reads `v` and everything else is untouched. Failure can come
    /// only from a fallible (compressible) backend; even then every cell
    /// either keeps its old value or already reads `v` inside the region.
    pub fn fill_extent(&mut self, lod: u8, region: Extent3i, v: i32) -> (r: Result<
        (),
        StorageError,
    >)
        requires
            old(self).inv(),
            region.wf(),
            forall|p: Point3i| region.contains_spec(p) ==> old(self).point_ok(lod, p),
        ensures
            final(self).inv(),
            final(self).exponent_spec() == old(self).exponent_spec(),
            final(self).ambient_spec() == old(self).ambient_spec(),
            final(self).backend_infallible() == old(self).backend_infallible(),
            match r {
                Ok(u) => forall|lod2: u8, p2: Point3i|
                    old(self).point_ok(lod2, p2) ==> final(self).value_at(lod2, p2) == if lod2
                        == lod && region.contains_spec(p2) {
                        v
                    } else {
                        old(self).value_at(lod2, p2)
                    },
                Err(e) => e == StorageError::CodecFailure && !old(self).backend_infallible()
                    && Self::partial_fill(*old(self), *final(self), lod, region, v),
            },
    {
        let pts = region.points();
        let mut i: usize = 0;
        let n = pts.len();
        while i < n
            invariant
                self.inv(),
                self.exponent_spec() == old(self).exponent_spec(),
                self.ambient_spec() == old(self).ambient_spec(),
                self.backend_infallible() == old(self).backend_infallible(),
                region.wf(),
                forall|p: Point3i| region.contains_spec(p) ==> old(self).point_ok(lod, p),
                n == pts@.len(),
                i <= n,
                pts@.len() == region.volume(),
                forall|j: int|
                    0 <= j < pts@.len() ==> region.contains_spec(#[trigger] pts@[j])
                        && region.linear_index(pts@[j]) == j,
                forall|lod2: u8, p2: Point3i|
                    old(self).point_ok(lod2, p2) ==> #[trigger] self.value_at(lod2, p2) == if lod2
                        == lod && region.contains_spec(p2) && region.linear_index(p2) < i {
                        v
                    } else {
                        old(self).value_at(lod2, p2)
                    },
            decreases n - i,
        {
            let p = pts[i];
            let ghost prev = *self;
            let res = self.set_point(lod, p, v);
            match res {
                Ok(u) => {},
                Err(e) => {
                    proof {
                        assert forall|lod2: u8, p2: Point3i|
                            old(self).point_ok(lod2, p2) implies self.value_at(lod2, p2) == old(
                            self,
                        ).value_at(lod2, p2) || (lod2 == lod && region.contains_spec(p2)
                            && self.value_at(lod2, p2) == v) by {
                            assert(self.value_at(lod2, p2) == prev.value_at(lod2, p2));
                        }
                    }
                    return Err(e);
                },
            }
            i = i + 1;
            proof {
                assert forall|lod2: u8, p2: Point3i|
                    old(self).point_ok(lod2, p2) implies #[trigger] self.value_at(lod2, p2) == if (
                lod2 == lod && region.contains_spec(p2) && region.linear_index(p2) < i) {
                    v
                } else {
                    old(self).value_at(lod2, p2)
                } by {
                    if lod2 == lod && p2 == p {
                    } else {
                        assert(self.value_at(lod2, p2) == prev.value_at(lod2, p2));
                        if lod2 == lod && region.contains_spec(p2) && region.linear_index(p2) == i
                            - 1 {
                            lemma_linear_index_injective(region, p2, p);
                        }
                    }
                }
            }
        }
        proof {
            assert forall|lod2: u8, p2: Point3i|
                old(self).point_ok(lod2, p2) implies #[trigger] self.value_at(lod2, p2) == if (lod2
                == lod && region.contains_spec(p2)) {
                v
            } else {
                old(self).value_at(lod2, p2)
            } by {
                if lod2 == lod && region.contains_spec(p2) {
                    lemma_linear_index_bounds(region, p2);
                }
            }
        }
        Ok(())
    }
}

impl<S: ChunkStorage> ChunkMap<S> {
    /// Copy the values of `src` over `region` at level `lod`. `src` must
    /// cover the region with one channel. On success the region reads as
    /// `src` and everything else is untouched. Failure can come only from a
    /// fallible (compressible) backend; even then every cell either keeps
    /// its old value or already reads as `src` inside the region.
    pub fn copy_extent_from(&mut self, lod: u8, region: Extent3i, src: &Array3) -> (r: Result<
        (),
        StorageError,
    >)
        requires
            old(self).inv(),
            region.wf(),
            src.wf(),
            src@.channels.len() == 1,
            forall|p: Point3i| region.contains_spec(p) ==> old(self).point_ok(lod, p),
            forall|p: Point3i| region.contains_spec(p) ==> src.extent().contains_spec(p),
        ensures
            final(self).inv(),
            final(self).exponent_spec() == old(self).exponent_spec(),
            final(self).ambient_spec() == old(self).ambient_spec(),
            final(self).backend_infallible() == old(self).backend_infallible(),
            match r {
                Ok(u) => forall|lod2: u8, p2: Point3i|
                    old(self).point_ok(lod2, p2) ==> final(self).value_at(lod2, p2) == if lod2
                        == lod && region.contains_spec(p2) {
                        src@.cell(0, p2)
                    } else {
                        old(self).value_at(lod2, p2)
                    },
                Err(e) => e == StorageError::CodecFailure && !old(self).backend_infallible()
                    && Self::partial_copy(*old(self), *final(self), lod, region, src@),
            },
    {
        let pts = region.points();
        let mut i: usize = 0;
        let n = pts.len();
        while i < n
            invariant
                self.inv(),
                self.exponent_spec() == old(self).exponent_spec(),
                self.ambient_spec() == old(self).ambient_spec(),
                self.backend_infallible() == old(self).backend_infallible(),
                region.wf(),
                src.wf(),
                src@.channels.len() == 1,
                forall|p: Point3i| region.contains_spec(p) ==> old(self).point_ok(lod, p),
                forall|p: Point3i| region.contains_spec(p) ==> src.extent().contains_spec(p),
                n == pts@.len(),
                i <= n,
                pts@.len() == region.volume(),
                forall|j: int|
                    0 <= j < pts@.len() ==> region.contains_spec(#[trigger] pts@[j])
                        && region.linear_index(pts@[j]) == j,
                forall|lod2: u8, p2: Point3i|
                    old(self).point_ok(lod2, p2) ==> #[trigger] self.value_at(lod2, p2) == if lod2
                        == lod && region.contains_spec(p2) && region.linear_index(p2) < i {
                        src@.cell(0, p2)
                    } else {
                        old(self).value_at(lod2, p2)
                    },
            decreases n - i,
        {
            let p = pts[i];
            let ghost prev = *self;
            let v = src.get_point(0, p);
            let res = self.set_point(lod, p, v);
            match res {
                Ok(u) => {},
                Err(e) => {
                    proof {
                        assert forall|lod2: u8, p2: Point3i|
                            old(self).point_ok(lod2, p2) implies self.value_at(lod2, p2) == old(
                            self,
                        ).value_at(lod2, p2) || (lod2 == lod && region.contains_spec(p2)
                            && self.value_at(lod2, p2) == src@.cell(0, p2)) by {
                            assert(self.value_at(lod2, p2) == prev.value_at(lod2, p2));
                        }
                    }
                    return Err(e);
                },
            }
            i = i + 1;
            proof {
                assert forall|lod2: u8, p2: Point3i|
                    old(self).point_ok(lod2, p2) implies #[trigger] self.value_at(lod2, p2) == if (
                lod2 == lod && region.contains_spec(p2) && region.linear_index(p2) < i) {
                    src@.cell(0, p2)
                } else {
                    old(self).value_at(lod2, p2)
                } by {
                    if lod2 == lod && p2 == p {
                    } else {
                        if lod2 == lod && region.contains_spec(p2) && region.linear_index(p2) == i
                            - 1 {
                            lemma_linear_index_injective(region, p2, p);
                        }
                    }
                }
            }
        }
        proof {
            assert forall|lod2: u8, p2: Point3i|
                old(self).point_ok(lod2, p2) implies #[trigger] self.value_at(lod2, p2) == if (lod2
                == lod && region.contains_spec(p2)) {
                src@.cell(0, p2)
            } else {
                old(self).value_at(lod2, p2)
            } by {
                if lod2 == lod && region.contains_spec(p2) {
                    lemma_linear_index_bounds(region, p2);
                }
            }
        }
        Ok(())
    }
}

/// Fluent configuration for chunk maps: the chunk exponent and the ambient
/// value, then a choice of backend.
pub struct ChunkMapBuilder {
    pub chunk_exponent: u8,
    pub ambient: i32,
}

impl ChunkMapBuilder {
    pub fn new(chunk_exponent: u8, ambient: i32) -> (r: ChunkMapBuilder)
        requires
            1 <= chunk_exponent <= 6,
        ensures
            r.chunk_exponent == chunk_exponent,
            r.ambient == ambient,
            1 <= r.chunk_exponent <= 6,
    {
        ChunkMapBuilder { chunk_exponent, ambient }
    }

    /// Build a map over the hash-map backend.
    pub fn build_hash(&self) -> (r: ChunkMap<HashMapStorage>)
        requires
            1 <= self.chunk_exponent <= 6,
        ensures
            r.inv(),
            r.exponent_spec() == self.chunk_exponent,
            r.ambient_spec() == self.ambient,
            r.contents() == Map::<ChunkKey, crate::array::ArrayV>::empty(),
    {
        ChunkMap {
            storage: HashMapStorage::new(),
            chunk_exponent: self.chunk_exponent,
            ambient: self.ambient,
        }
    }

    /// Build a map over the compressible backend; a zero cache capacity is
    /// refused with `CacheCapacityZero`.
    pub fn build_compressible(
        &self,
        capacity: usize,
        encoding: ArrayEncoding,
        codec: ByteCodec,
    ) -> (r: Result<ChunkMap<CompressibleStorage>, StorageError>)
        requires
            1 <= self.chunk_exponent <= 6,
        ensures
            match r {
                Ok(m) => capacity >= 1 && m.inv() && m.exponent_spec() == self.chunk_exponent
                    && m.ambient_spec() == self.ambient && m.contents() == Map::<
                    ChunkKey,
                    crate::array::ArrayV,
                >::empty(),
                Err(e) => capacity == 0 && e == StorageError::CacheCapacityZero,
            },
    {
        match CompressibleStorage::new(capacity, encoding, codec) {
            Ok(s) => Ok(
                ChunkMap { storage: s, chunk_exponent: self.chunk_exponent, ambient: self.ambient },
            ),
            Err(e) => Err(e),
        }
    }
}

} // verus!
