use vstd::prelude::*;
use crate::extent::Extent3i;
use crate::point::Point3i;
use crate::small_key::node_map_contents;
use crate::small_key::node_map_new;
use crate::small_key::node_map_clear;
use crate::small_key::node_map_get;
use crate::small_key::node_map_insert;
use crate::small_key::node_map_remove;
use crate::small_key::node_map_len;

verus! {

/// The octant of a point: which of the 8 children of its parent cell it
/// falls in, x fastest.
pub open spec fn octant_spec(p: Point3i) -> u64 {
    ((p.x as u64) & 1) | (((p.y as u64) & 1) << 1) | (((p.z as u64) & 1) << 2)
}

/// The morton code of a nonnegative point at depth `d`: bits interleaved,
/// x fastest. Defined by the parent relation: the code of `p` is the code
/// of `p >> 1` shifted up one level, plus `p`'s octant.
pub open spec fn morton_spec(p: Point3i, d: nat) -> u64
    decreases d,
{
    if d == 0 {
        0
    } else {
        (morton_spec(p.shr_spec(1), (d - 1) as nat) << 3) | octant_spec(p)
    }
}

pub proof fn lemma_octant_bound(p: Point3i)
    ensures
        octant_spec(p) < 8,
{
    let x: u64 = p.x as u64;
    let y: u64 = p.y as u64;
    let z: u64 = p.z as u64;
    assert(((x & 1) | ((y & 1) << 1) | ((z & 1) << 2)) < 8) by (bit_vector);
}

pub proof fn lemma_morton_bound(p: Point3i, d: nat)
    requires
        d <= 20,
    ensures
        morton_spec(p, d) < (1u64 << ((3 * d) as u64)),
    decreases d,
{
    if d == 0 {
        assert(0 < (1u64 << 0)) by (bit_vector);
    } else {
        lemma_morton_bound(p.shr_spec(1), (d - 1) as nat);
        lemma_octant_bound(p);
        let m = morton_spec(p.shr_spec(1), (d - 1) as nat);
        let o = octant_spec(p);
        let s: u64 = (3 * d) as u64;
        let s3: u64 = (3 * (d - 1)) as u64;
        assert(m < (1u64 << s3) && o < 8 && s3 <= 57 && s == s3 + 3 ==> ((m << 3) | o) < (1u64
            << s)) by (bit_vector);
    }
}

/// Morton codes are injective on the cube of side `1 << d`.
pub proof fn lemma_morton_injective(p1: Point3i, p2: Point3i, d: nat)
    requires
        d <= 20,
        0 <= p1.x < (1i32 << d as u32),
        0 <= p1.y < (1i32 << d as u32),
        0 <= p1.z < (1i32 << d as u32),
        0 <= p2.x < (1i32 << d as u32),
        0 <= p2.y < (1i32 << d as u32),
        0 <= p2.z < (1i32 << d as u32),
        morton_spec(p1, d) == morton_spec(p2, d),
    ensures
        p1 == p2,
    decreases d,
{
    if d == 0 {
        assert((1i32 << 0u32) == 1) by (bit_vector);
        assert(p1 =~= p2);
    } else {
        let m1 = morton_spec(p1.shr_spec(1), (d - 1) as nat);
        let m2 = morton_spec(p2.shr_spec(1), (d - 1) as nat);
        let o1 = octant_spec(p1);
        let o2 = octant_spec(p2);
        lemma_morton_bound(p1.shr_spec(1), (d - 1) as nat);
        lemma_morton_bound(p2.shr_spec(1), (d - 1) as nat);
        lemma_octant_bound(p1);
        lemma_octant_bound(p2);
        assert(m1 < (1u64 << 60) && m2 < (1u64 << 60) && o1 < 8 && o2 < 8 && ((m1 << 3) | o1) == ((
        m2 << 3) | o2) ==> m1 == m2 && o1 == o2) by (bit_vector);
        let s3: u64 = (3 * (d - 1)) as u64;
        assert(s3 <= 57 ==> (1u64 << s3) <= (1u64 << 60)) by (bit_vector);
        let x1 = p1.x;
        let y1 = p1.y;
        let z1 = p1.z;
        let x2 = p2.x;
        let y2 = p2.y;
        let z2 = p2.z;
        let ux1: u64 = p1.x as u64;
        let uy1: u64 = p1.y as u64;
        let uz1: u64 = p1.z as u64;
        let ux2: u64 = p2.x as u64;
        let uy2: u64 = p2.y as u64;
        let uz2: u64 = p2.z as u64;
        assert(((ux1 & 1) | ((uy1 & 1) << 1) | ((uz1 & 1) << 2)) == ((ux2 & 1) | ((uy2 & 1) << 1)
            | ((uz2 & 1) << 2)) ==> (ux1 & 1) == (ux2 & 1) && (uy1 & 1) == (uy2 & 1) && (uz1 & 1)
            == (uz2 & 1)) by (bit_vector);
        let s1 = p1.shr_spec(1);
        let s2 = p2.shr_spec(1);
        let dd: u32 = (d - 1) as u32;
        assert(0 <= (x1 >> 1) < (1i32 << dd) && 0 <= (y1 >> 1) < (1i32 << dd) && 0 <= (z1 >> 1) < (
        1i32 << dd) && 0 <= (x2 >> 1) < (1i32 << dd) && 0 <= (y2 >> 1) < (1i32 << dd) && 0 <= (z2
            >> 1) < (1i32 << dd)) by (bit_vector)
            requires
                0 <= x1 < (1i32 << (dd + 1)),
                0 <= y1 < (1i32 << (dd + 1)),
                0 <= z1 < (1i32 << (dd + 1)),
                0 <= x2 < (1i32 << (dd + 1)),
                0 <= y2 < (1i32 << (dd + 1)),
                0 <= z2 < (1i32 << (dd + 1)),
                dd <= 19,
        ;
        lemma_morton_injective(s1, s2, (d - 1) as nat);
        assert((ux1 == (x1 as u64) && ux2 == (x2 as u64) && (x1 >> 1) == (x2 >> 1) && (ux1 & 1)
            == (ux2 & 1) ==> x1 == x2) && (uy1 == (y1 as u64) && uy2 == (y2 as u64) && (y1 >> 1)
            == (y2 >> 1) && (uy1 & 1) == (uy2 & 1) ==> y1 == y2) && (uz1 == (z1 as u64) && uz2 == (
        z2 as u64) && (z1 >> 1) == (z2 >> 1) && (uz1 & 1) == (uz2 & 1) ==> z1 == z2))
            by (bit_vector);
        assert(p1 =~= p2);
    }
}

/// The morton code of a point, computed level by level.
pub fn morton_code(p: Point3i, d: u8) -> (r: u64)
    requires
        d <= 20,
        0 <= p.x < (1i32 << d as u32),
        0 <= p.y < (1i32 << d as u32),
        0 <= p.z < (1i32 << d as u32),
    ensures
        r == morton_spec(p, d as nat),
    decreases d,
{
    if d == 0 {
        0
    } else {
        proof {
            let x = p.x;
            let y = p.y;
            let z = p.z;
            let dd: u32 = (d - 1) as u32;
            assert(0 <= (x >> 1) < (1i32 << dd) && 0 <= (y >> 1) < (1i32 << dd) && 0 <= (z >> 1) < (
            1i32 << dd)) by (bit_vector)
                requires
                    0 <= x < (1i32 << (dd + 1)),
                    0 <= y < (1i32 << (dd + 1)),
                    0 <= z < (1i32 << (dd + 1)),
                    dd <= 19,
            ;
            lemma_morton_bound(p.shr_spec(1), (d - 1) as nat);
            let s3: u64 = (3 * (d - 1)) as u64;
            assert(s3 <= 57 ==> (1u64 << s3) <= (1u64 << 57)) by (bit_vector);
        }
        let upper = morton_code(p.scalar_shr(1), d - 1);
        let oct: u64 = ((p.x as u64) & 1) | (((p.y as u64) & 1) << 1) | (((p.z as u64) & 1) << 2);
        proof {
            lemma_octant_bound(p);
        }
        (upper << 3) | oct
    }
}

/// The morton code of the ancestor at height `h + 1` on the path of leaf
/// `m`.
pub open spec fn path_key(m: u64, h: int) -> u64 {
    m >> ((3 * h + 3) as u64)
}

/// The child index of the path of leaf `m` inside its ancestor at height
/// `h + 1`.
pub open spec fn path_bit(m: u64, h: int) -> u64 {
    (m >> ((3 * h) as u64)) & 7
}

/// A mask with bit `i` set in addition to `c`'s bits.
pub open spec fn set_bit_mask(c: u8, i: u64) -> u8 {
    (((c as u64) | (1u64 << i)) as u8)
}

proof fn lemma_bit_of_set(c: u64, i: u64, j: u64)
    requires
        c < 256,
        i < 8,
        j < 8,
    ensures
        (c | (1u64 << i)) < 256,
        (c | (1u64 << i)) != 0,
        ((((c | (1u64 << i)) >> j) & 1) == 1) <==> (j == i || ((c >> j) & 1) == 1),
{
    assert((c | (1u64 << i)) < 256 && (c | (1u64 << i)) != 0 && (((((c | (1u64 << i)) >> j) & 1)
        == 1) <==> (j == i || ((c >> j) & 1) == 1))) by (bit_vector)
        requires
            c < 256,
            i < 8,
            j < 8,
    ;
}

proof fn lemma_bit_of_clear(c: u64, i: u64, j: u64)
    requires
        c < 256,
        i < 8,
        j < 8,
    ensures
        (c & !(1u64 << i)) < 256,
        ((((c & !(1u64 << i)) >> j) & 1) == 1) <==> (j != i && ((c >> j) & 1) == 1),
{
    assert((c & !(1u64 << i)) < 256 && (((((c & !(1u64 << i)) >> j) & 1) == 1) <==> (j != i && ((c
        >> j) & 1) == 1))) by (bit_vector)
        requires
            c < 256,
            i < 8,
            j < 8,
    ;
}

proof fn lemma_shift_chain(m: u64, s: u64, t: u64)
    requires
        s <= 57,
        t == s + 3,
    ensures
        (((m >> t) << 3) | ((m >> s) & 7)) == (m >> s),
        ((m >> s) >> 3) == (m >> t),
        ((m >> s) & 7) < 8,
{
    assert(((((m >> t) << 3) | ((m >> s) & 7)) == (m >> s)) && (((m >> s) >> 3) == (m >> t)) && (((
    m >> s) & 7) < 8)) by (bit_vector)
        requires
            s <= 57,
            t == s + 3,
    ;
}

proof fn lemma_decompose(mp: u64, ip: u64)
    requires
        ip < 8,
        mp < 0x1000000000000000,
    ensures
        (((mp << 3) | ip) >> 3) == mp,
        (((mp << 3) | ip) & 7) == ip,
{
    assert(((((mp << 3) | ip) >> 3) == mp) && ((((mp << 3) | ip) & 7) == ip)) by (bit_vector)
        requires
            ip < 8,
            mp < 0x1000000000000000,
    ;
}

proof fn lemma_key_shift_bound(m: u64, t: u64)
    requires
        m < 0x1000000000000000,
        3 <= t <= 63,
    ensures
        (m >> t) < 0x200000000000000,
{
    assert((m >> t) < 0x200000000000000) by (bit_vector)
        requires
            m < 0x1000000000000000,
            3 <= t <= 63,
    ;
}

proof fn lemma_low_octant(m: u64, sh: u64)
    ensures
        ((m >> sh) & 7) < 8,
{
    assert(((m >> sh) & 7) < 8) by (bit_vector);
}

proof fn lemma_zero_bit(i: u64)
    ensures
        ((0u64 >> i) & 1) != 1,
{
    assert(((0u64 >> i) & 1) != 1) by (bit_vector);
}

proof fn lemma_u8_roundtrip(x: u64)
    requires
        x < 256,
    ensures
        ((x as u8) as u64) == x,
        x != 0 ==> (x as u8) != 0,
{
    assert(x < 256 ==> (((x as u8) as u64) == x)) by (bit_vector);
}

proof fn lemma_rebuild(m: u64)
    ensures
        (((m >> 3) << 3) | (m & 7)) == m,
        (m & 7) < 8,
{
    assert(((((m >> 3) << 3) | (m & 7)) == m) && ((m & 7) < 8)) by (bit_vector);
}

proof fn lemma_u8_bits(c: u8)
    ensures
        (c as u64) < 256,
        c != 0 ==> (c as u64) != 0,
{
}

/// A sparse octree set of occupied leaf chunks over the cube of side
/// `1 << height` (in chunk units). Level `h` of `levels` maps the morton
/// code of a node at height `h + 1` to the bitmask of its occupied
/// children; a leaf is occupied exactly when its bit is set in its parent's
/// mask. Every internal node's mask is the OR of its children's presence.
pub struct OctreeSet {
    height: u8,
    levels: Vec<ahash::AHashMap<u64, u8>>,
}

impl OctreeSet {
    pub closed spec fn height_spec(self) -> u8 {
        self.height
    }

    pub closed spec fn level_map(self, h: int) -> Map<u64, u8> {
        node_map_contents(self.levels@[h])
    }

    /// Whether the node at height `h + 1` with morton `m` is present.
    pub open spec fn node_present(self, h: int, m: u64) -> bool {
        self.level_map(h).contains_key(m)
    }

    /// The child mask of the node at height `h + 1` with morton `m`.
    pub open spec fn mask_at(self, h: int, m: u64) -> u8 {
        if self.node_present(h, m) {
            self.level_map(h)[m]
        } else {
            0
        }
    }

    /// Whether child `i` of the height-`h + 1` node `m` is occupied.
    pub open spec fn child_bit(self, h: int, m: u64, i: u64) -> bool {
        (((self.mask_at(h, m) as u64) >> i) & 1) == 1
    }

    /// Whether the leaf with morton code `m` is in the set.
    pub open spec fn leaf_contained(self, m: u64) -> bool {
        self.child_bit(0, m >> 3, m & 7)
    }

    /// Whether the leaf chunk at `p` (chunk units) is in the set.
    pub open spec fn contains_point_spec(self, p: Point3i) -> bool {
        self.leaf_contained(morton_spec(p, self.height_spec() as nat))
    }

    /// Points inside the octree's cube domain.
    pub open spec fn domain_ok(self, p: Point3i) -> bool {
        &&& 0 <= p.x < (1i32 << self.height_spec() as u32)
        &&& 0 <= p.y < (1i32 << self.height_spec() as u32)
        &&& 0 <= p.z < (1i32 << self.height_spec() as u32)
    }

    pub closed spec fn inv_core(self) -> bool {
        &&& 1 <= self.height <= 20
        &&& self.levels@.len() == self.height
        &&& forall|h: int| 0 <= h < self.height ==> (#[trigger] self.level_map(h)).dom().finite()
        &&& forall|h: int, m: u64|
            0 <= h < self.height && #[trigger] self.level_map(h).contains_key(m) ==> self.level_map(
                h,
            )[m] != 0 && m < 0x200000000000000
    }

    /// The structural octree law: a bit in an internal node's mask is set
    /// exactly when the corresponding child node exists one level down.
    pub open spec fn consistent_at(self, h: int, m: u64, i: u64) -> bool {
        self.child_bit(h, m, i) <==> self.node_present(h - 1, ((m << 3) | i))
    }

    pub closed spec fn inv_except(self, bh: int, bm: u64, bi: u64) -> bool {
        &&& self.inv_core()
        &&& forall|h: int, m: u64, i: u64|
            1 <= h < self.height && m < 0x1000000000000000 && i < 8 && !(h == bh && m == bm && i
                == bi) ==> #[trigger] self.consistent_at(h, m, i)
    }

    pub open spec fn inv(self) -> bool {
        self.inv_except(-1, 0, 0)
    }

    /// Every internal bit agrees with its child's presence (the octree
    /// invariant, exported).
    pub proof fn lemma_node_bit_or(self, h: int, m: u64, i: u64)
        requires
            self.inv(),
            1 <= h < self.height_spec(),
            m < 0x1000000000000000,
            i < 8,
        ensures
            self.child_bit(h, m, i) <==> self.node_present(h - 1, ((m << 3) | i)),
    {
        assert(self.consistent_at(h, m, i));
    }

    /// An empty octree set over the cube of side `1 << height`.
    pub fn new(height: u8) -> (r: OctreeSet)
        requires
            1 <= height <= 20,
        ensures
            r.inv(),
            r.height_spec() == height,
            forall|m: u64| !r.leaf_contained(m),
    {
        let mut levels: Vec<ahash::AHashMap<u64, u8>> = Vec::new();
        let mut h: usize = 0;
        while h < height as usize
            invariant
                h <= height,
                levels@.len() == h,
                forall|j: int|
                    0 <= j < h ==> node_map_contents(#[trigger] levels@[j]) == Map::<
                        u64,
                        u8,
                    >::empty(),
            decreases height as int - h,
        {
            let mut m = node_map_new();
            node_map_clear(&mut m);
            levels.push(m);
            h = h + 1;
        }
        let r = OctreeSet { height, levels };
        proof {
            assert forall|m: u64| !r.leaf_contained(m) by {
                assert(r.mask_at(0, m >> 3) == 0);
                let i = m & 7;
                lemma_zero_bit(i);
            }
            assert forall|h2: int, m: u64, i: u64|
                1 <= h2 < r.height && m < 0x1000000000000000 && i < 8 implies #[trigger] r
                .consistent_at(h2, m, i) by {
                assert(r.mask_at(h2, m) == 0);
                lemma_zero_bit(i);
            }
        }
        r
    }

    pub fn height(&self) -> (r: u8)
        ensures
            r == self.height_spec(),
    {
        self.height
    }

    /// Add the leaf with morton code `m`, propagating presence bits up to
    /// the root.
    fn insert_leaf(&mut self, m: u64)
        requires
            old(self).inv(),
            m < 0x1000000000000000,
        ensures
            final(self).inv(),
            final(self).height_spec() == old(self).height_spec(),
            forall|m2: u64|
                final(self).leaf_contained(m2) <==> (old(self).leaf_contained(m2) || m2 == m),
    {
        let ghost orig = *self;
        let hgt = self.height as usize;
        let mut h: usize = 0;
        while h < hgt
            invariant
                orig.inv(),
                self.height == orig.height,
                hgt == self.height,
                self.levels@.len() == orig.levels@.len(),
                orig.levels@.len() == hgt,
                m < 0x1000000000000000,
                h <= hgt,
                forall|lv: int| h <= lv < hgt ==> self.level_map(lv) == orig.level_map(lv),
                forall|lv: int|
                    0 <= lv < h ==> self.level_map(lv) == orig.level_map(lv).insert(
                        path_key(m, lv),
                        set_bit_mask(orig.mask_at(lv, path_key(m, lv)), path_bit(m, lv)),
                    ),
            decreases hgt - h,
        {
            let sh: u64 = 3 * (h as u64);
            let key: u64 = m >> (sh + 3);
            let bit: u64 = (m >> sh) & 7;
            proof {
                lemma_low_octant(m, sh);
            }
            let ghost head = *self;
            let mut lvl = self.levels.remove(h);
            let cur: u8 = match node_map_get(&lvl, key) {
                Some(v) => v,
                None => 0,
            };
            proof {
                assert(node_map_contents(lvl) == head.level_map(h as int));
                assert(head.level_map(h as int) == orig.level_map(h as int));
                assert(cur == orig.mask_at(h as int, key));
                let c = cur as u64;
                let i = bit;
                assert(c < 256 && i < 8 ==> (c | (1u64 << i)) < 256) by (bit_vector);
            }
            let nm: u8 = ((cur as u64) | (1u64 << bit)) as u8;
            node_map_insert(&mut lvl, key, nm);
            self.levels.insert(h, lvl);
            proof {
                assert(self.levels@ =~= head.levels@.update(h as int, lvl));
                assert(key == path_key(m, h as int));
                assert(bit == path_bit(m, h as int));
                assert(nm == set_bit_mask(orig.mask_at(h as int, key), bit));
                assert forall|lv: int| h + 1 <= lv < hgt implies self.level_map(lv)
                    == orig.level_map(lv) by {
                    assert(self.levels@[lv] == head.levels@[lv]);
                }
                assert forall|lv: int|
                    0 <= lv < h + 1 implies self.level_map(lv) == orig.level_map(lv).insert(
                    path_key(m, lv),
                    set_bit_mask(orig.mask_at(lv, path_key(m, lv)), path_bit(m, lv)),
                ) by {
                    if lv < h {
                        assert(self.levels@[lv] == head.levels@[lv]);
                        assert(self.level_map(lv) == head.level_map(lv));
                    } else {
                        assert(self.levels@[lv] == lvl);
                    }
                }
            }
            h = h + 1;
        }
        proof {
            lemma_insert_leaf_ok(orig, *self, m);
        }
    }

    /// Remove the leaf with morton code `m`; nodes whose masks become empty
    /// disappear, and their parents' bits are cleared.
    fn remove_leaf(&mut self, m: u64)
        requires
            old(self).inv(),
            m < 0x1000000000000000,
        ensures
            final(self).inv(),
            final(self).height_spec() == old(self).height_spec(),
            forall|m2: u64|
                final(self).leaf_contained(m2) <==> (old(self).leaf_contained(m2) && m2 != m),
    {
        let ghost orig = *self;
        let hgt = self.height as usize;
        let mut h: usize = 0;
        let mut stopped = false;
        while h < hgt && !stopped
            invariant
                orig.inv(),
                self.height == orig.height,
                hgt == self.height,
                self.levels@.len() == orig.levels@.len(),
                orig.levels@.len() == hgt,
                m < 0x1000000000000000,
                h <= hgt,
                !stopped ==> forall|lv: int|
                    h <= lv < hgt ==> self.level_map(lv) == orig.level_map(lv),
                !stopped ==> forall|lv: int|
                    0 <= lv < h ==> self.level_map(lv) == orig.level_map(lv).remove(
                        path_key(m, lv),
                    ) && orig.mask_at(lv, path_key(m, lv)) == set_bit_mask(0, path_bit(m, lv)),
                stopped ==> remove_done(orig, *self, m),
            decreases hgt - h,
        {
            let sh: u64 = 3 * (h as u64);
            let key: u64 = m >> (sh + 3);
            let bit: u64 = (m >> sh) & 7;
            proof {
                lemma_low_octant(m, sh);
            }
            let ghost head = *self;
            let mut lvl = self.levels.remove(h);
            let got = node_map_get(&lvl, key);
            proof {
                assert(node_map_contents(lvl) == head.level_map(h as int));
                assert(head.level_map(h as int) == orig.level_map(h as int));
            }
            match got {
                Some(cur) => {
                    proof {
                        assert(cur == orig.mask_at(h as int, key));
                        let c = cur as u64;
                        let i = bit;
                        assert(c < 256 && i < 8 ==> (c & !(1u64 << i)) < 256) by (bit_vector);
                    }
                    let nm: u8 = ((cur as u64) & !(1u64 << bit)) as u8;
                    if nm == 0 {
                        node_map_remove(&mut lvl, key);
                        self.levels.insert(h, lvl);
                        proof {
                            assert(self.levels@ =~= head.levels@.update(h as int, lvl));
                            assert(key == path_key(m, h as int));
                            assert(bit == path_bit(m, h as int));
                            let c = cur as u64;
                            let i = bit;
                            assert(c != 0);
                            assert((c & !(1u64 << i)) == 0 && i < 8 && c < 256 && c != 0 ==> c == (
                            0u64 | (1u64 << i))) by (bit_vector);
                            lemma_u8_roundtrip(0u64 | (1u64 << i));
                            assert(orig.mask_at(h as int, key) == set_bit_mask(0, bit));
                            assert forall|lv: int| h + 1 <= lv < hgt implies self.level_map(lv)
                                == orig.level_map(lv) by {
                                assert(self.levels@[lv] == head.levels@[lv]);
                            }
                            assert forall|lv: int|
                                0 <= lv < h + 1 implies self.level_map(lv) == orig.level_map(
                                lv,
                            ).remove(path_key(m, lv)) && orig.mask_at(lv, path_key(m, lv))
                                == set_bit_mask(0, path_bit(m, lv)) by {
                                if lv < h {
                                    assert(self.levels@[lv] == head.levels@[lv]);
                                    assert(self.level_map(lv) == head.level_map(lv));
                                } else {
                                    assert(self.levels@[lv] == lvl);
                                }
                            }
                        }
                    } else {
                        node_map_insert(&mut lvl, key, nm);
                        self.levels.insert(h, lvl);
                        stopped = true;
                        proof {
                            assert(self.levels@ =~= head.levels@.update(h as int, lvl));
                            assert(self.level_map(h as int) == orig.level_map(h as int).insert(
                                key,
                                nm,
                            ));
                            assert forall|lv: int| h + 1 <= lv < hgt implies self.level_map(lv)
                                == orig.level_map(lv) by {
                                assert(self.levels@[lv] == head.levels@[lv]);
                            }
                            assert forall|lv: int|
                                0 <= lv < h implies self.level_map(lv) == orig.level_map(
                                lv,
                            ).remove(path_key(m, lv)) && orig.mask_at(lv, path_key(m, lv))
                                == set_bit_mask(0, path_bit(m, lv)) by {
                                assert(self.levels@[lv] == head.levels@[lv]);
                                assert(self.level_map(lv) == head.level_map(lv));
                            }
                            lemma_remove_stops(orig, *self, m, h as int, cur, nm);
                        }
                    }
                },
                None => {
                    self.levels.insert(h, lvl);
                    stopped = true;
                    proof {
                        assert(self.levels@ =~= head.levels@);
                        assert(forall|lv: int|
                            0 <= lv < hgt ==> self.level_map(lv) == head.level_map(lv));
                        if h > 0 {
                            // a removed child implies the parent bit was
                            // set, so the parent entry must exist
                            let pk = path_key(m, h as int);
                            let pb = path_bit(m, h as int);
                            let trigp = head.level_map(h as int - 1);
                            lemma_level_path(m, h as int);
                            lemma_level_path(m, h as int - 1);
                            assert(((pk << 3) | pb) == path_key(m, h as int - 1));
                            lemma_bit_of_set(
                                0,
                                path_bit(m, h as int - 1),
                                path_bit(m, h as int - 1),
                            );
                            lemma_u8_roundtrip(0u64 | (1u64 << path_bit(m, h as int - 1)));
                            assert(orig.mask_at(h as int - 1, path_key(m, h as int - 1)) != 0);
                            assert(orig.node_present(h as int - 1, path_key(m, h as int - 1)));
                            assert(orig.consistent_at(h as int, pk, pb));
                            assert(orig.child_bit(h as int, pk, pb));
                            lemma_mask_bit_nonzero(orig, h as int, pk, pb);
                            assert(false);
                        } else {
                            lemma_remove_absent(orig, *self, m);
                        }
                    }
                },
            }
            h = h + 1;
        }
        proof {
            if !stopped {
                lemma_remove_leaf_full(orig, *self, m);
            }
        }
    }

    /// The number of stored nodes at height `h + 1`.
    pub fn level_node_count(&self, h: usize) -> (r: usize)
        requires
            self.inv(),
            h < self.height_spec(),
        ensures
            r == self.level_map(h as int).dom().len(),
    {
        node_map_len(&self.levels[h])
    }


    /// Points of `e` lie inside this octree's cube.
    pub open spec fn extent_in_domain(self, e: Extent3i) -> bool {
        forall|p: Point3i| e.contains_spec(p) ==> self.domain_ok(p)
    }

    /// Add every leaf chunk of `e` (chunk units) to the set, propagating
    /// presence bits up to the roots.
    pub fn add_extent(&mut self, e: Extent3i)
        requires
            old(self).inv(),
            e.wf(),
            old(self).extent_in_domain(e),
        ensures
            final(self).inv(),
            final(self).height_spec() == old(self).height_spec(),
            forall|p: Point3i|
                old(self).domain_ok(p) ==> (final(self).contains_point_spec(p) <==> (old(
                    self,
                ).contains_point_spec(p) || e.contains_spec(p))),
    {
        let hgt = self.height;
        let pts = e.points();
        let mut i: usize = 0;
        let n = pts.len();
        while i < n
            invariant
                self.inv(),
                self.height_spec() == old(self).height_spec(),
                hgt == self.height_spec(),
                e.wf(),
                old(self).extent_in_domain(e),
                n == pts@.len(),
                i <= n,
                pts@.len() == e.volume(),
                forall|j: int|
                    0 <= j < pts@.len() ==> e.contains_spec(#[trigger] pts@[j]) && e.linear_index(
                        pts@[j],
                    ) == j,
                forall|p: Point3i|
                    old(self).domain_ok(p) ==> ((#[trigger] self.contains_point_spec(p)) <==> (old(
                        self,
                    ).contains_point_spec(p) || (e.contains_spec(p) && e.linear_index(p) < i))),
            decreases n - i,
        {
            let p = pts[i];
            let ghost prev = *self;
            proof {
                assert(prev == *self);
                assert forall|p2: Point3i| old(self).domain_ok(p2) implies (
                prev.contains_point_spec(p2) <==> (old(self).contains_point_spec(p2) || (
                e.contains_spec(p2) && e.linear_index(p2) < i))) by {
                    assert(prev.contains_point_spec(p2) == self.contains_point_spec(p2));
                }
                lemma_morton_bound(p, hgt as nat);
                let s3: u64 = (3 * hgt) as u64;
                assert(s3 <= 60 ==> (1u64 << s3) <= (1u64 << 60)) by (bit_vector);
                assert((1u64 << 60) == 0x1000000000000000) by (bit_vector);
            }
            let m = morton_code(p, hgt);
            self.insert_leaf(m);
            i = i + 1;
            proof {
                assert forall|p2: Point3i| old(self).domain_ok(p2) implies ((
                #[trigger] self.contains_point_spec(p2)) <==> (old(self).contains_point_spec(p2)
                    || (e.contains_spec(p2) && e.linear_index(p2) < i))) by {
                    let m2 = morton_spec(p2, hgt as nat);
                    assert(prev.contains_point_spec(p2) <==> (old(self).contains_point_spec(p2)
                        || (e.contains_spec(p2) && e.linear_index(p2) < i - 1)));
                    assert(self.leaf_contained(m2) <==> (prev.leaf_contained(m2) || m2 == m));
                    if m2 == m {
                        lemma_morton_injective(p2, p, hgt as nat);
                        assert(p2 == p);
                    } else {
                        if e.contains_spec(p2) && e.linear_index(p2) == i - 1 {
                            crate::extent::lemma_linear_index_injective(e, p2, p);
                        }
                    }
                }
            }
        }
        proof {
            assert forall|p2: Point3i| old(self).domain_ok(p2) implies (self.contains_point_spec(
                p2,
            ) <==> (old(self).contains_point_spec(p2) || e.contains_spec(p2))) by {
                if e.contains_spec(p2) {
                    crate::extent::lemma_linear_index_bounds(e, p2);
                }
            }
        }
    }

    /// Remove every leaf chunk of `e` from the set; nodes left without
    /// descendants disappear.
    pub fn remove_extent(&mut self, e: Extent3i)
        requires
            old(self).inv(),
            e.wf(),
            old(self).extent_in_domain(e),
        ensures
            final(self).inv(),
            final(self).height_spec() == old(self).height_spec(),
            forall|p: Point3i|
                old(self).domain_ok(p) ==> (final(self).contains_point_spec(p) <==> (old(
                    self,
                ).contains_point_spec(p) && !e.contains_spec(p))),
    {
        let hgt = self.height;
        let pts = e.points();
        let mut i: usize = 0;
        let n = pts.len();
        while i < n
            invariant
                self.inv(),
                self.height_spec() == old(self).height_spec(),
                hgt == self.height_spec(),
                e.wf(),
                old(self).extent_in_domain(e),
                n == pts@.len(),
                i <= n,
                pts@.len() == e.volume(),
                forall|j: int|
                    0 <= j < pts@.len() ==> e.contains_spec(#[trigger] pts@[j]) && e.linear_index(
                        pts@[j],
                    ) == j,
                forall|p: Point3i|
                    old(self).domain_ok(p) ==> ((#[trigger] self.contains_point_spec(p)) <==> (old(
                        self,
                    ).contains_point_spec(p) && !(e.contains_spec(p) && e.linear_index(p) < i))),
            decreases n - i,
        {
            let p = pts[i];
            proof {
                lemma_morton_bound(p, hgt as nat);
                let s3: u64 = (3 * hgt) as u64;
                assert(s3 <= 60 ==> (1u64 << s3) <= (1u64 << 60)) by (bit_vector);
                assert((1u64 << 60) == 0x1000000000000000) by (bit_vector);
            }
            let ghost prev = *self;
            proof {
                assert forall|p2: Point3i| old(self).domain_ok(p2) implies (
                prev.contains_point_spec(p2) <==> (old(self).contains_point_spec(p2) && !(
                e.contains_spec(p2) && e.linear_index(p2) < i))) by {
                    assert(prev.contains_point_spec(p2) == self.contains_point_spec(p2));
                }
            }
            let m = morton_code(p, hgt);
            self.remove_leaf(m);
            i = i + 1;
            proof {
                assert forall|p2: Point3i| old(self).domain_ok(p2) implies ((
                #[trigger] self.contains_point_spec(p2)) <==> (old(self).contains_point_spec(p2)
                    && !(e.contains_spec(p2) && e.linear_index(p2) < i))) by {
                    let m2 = morton_spec(p2, hgt as nat);
                    assert(prev.contains_point_spec(p2) <==> (old(self).contains_point_spec(p2)
                        && !(e.contains_spec(p2) && e.linear_index(p2) < i - 1)));
                    assert(self.leaf_contained(m2) <==> (prev.leaf_contained(m2) && m2 != m));
                    if m2 == m {
                        lemma_morton_injective(p2, p, hgt as nat);
                        assert(p2 == p);
                    } else {
                        if e.contains_spec(p2) && e.linear_index(p2) == i - 1 {
                            crate::extent::lemma_linear_index_injective(e, p2, p);
                        }
                    }
                }
            }
        }
        proof {
            assert forall|p2: Point3i| old(self).domain_ok(p2) implies (self.contains_point_spec(
                p2,
            ) <==> (old(self).contains_point_spec(p2) && !e.contains_spec(p2))) by {
                if e.contains_spec(p2) {
                    crate::extent::lemma_linear_index_bounds(e, p2);
                }
            }
        }
    }

    /// Whether the set holds no leaf at all.
    pub fn is_empty(&self) -> (r: bool)
        requires
            self.inv(),
        ensures
            r == (forall|m: u64| !self.leaf_contained(m)),
    {
        let n = self.level_node_count(0);
        if n == 0 {
            proof {
                assert forall|m: u64| !self.leaf_contained(m) by {
                    if self.level_map(0).contains_key(m >> 3) {
                        assert(self.level_map(0).dom().contains(m >> 3));
                        vstd::set_lib::lemma_set_empty_equivalency_len(self.level_map(0).dom());
                    }
                    assert(self.mask_at(0, m >> 3) == 0);
                    lemma_zero_bit(m & 7);
                }
            }
            true
        } else {
            proof {
                let dom = self.level_map(0).dom();
                if dom =~= Set::<u64>::empty() {
                    assert(dom.len() == 0);
                }
                let k = dom.choose();
                assert(dom.contains(k));
                let c: u64 = self.level_map(0)[k] as u64;
                assert(c != 0 && c < 256 ==> (((c >> 0) & 1) == 1 || ((c >> 1) & 1) == 1 || ((c
                    >> 2) & 1) == 1 || ((c >> 3) & 1) == 1 || ((c >> 4) & 1) == 1 || ((c >> 5) & 1)
                    == 1 || ((c >> 6) & 1) == 1 || ((c >> 7) & 1) == 1)) by (bit_vector);
                lemma_u8_bits(self.level_map(0)[k]);
                let i: u64 = choose|i: u64| i < 8 && ((c >> i) & 1) == 1;
                assert(i < 8 && ((c >> i) & 1) == 1);
                lemma_decompose(k, i);
                let leaf = (k << 3) | i;
                assert(self.leaf_contained(leaf));
            }
            false
        }
    }

    /// Whether the leaf chunk at `p` is in the set.
    pub fn contains_point(&self, p: Point3i) -> (r: bool)
        requires
            self.inv(),
            self.domain_ok(p),
        ensures
            r == self.contains_point_spec(p),
    {
        let m = morton_code(p, self.height);
        let key = m >> 3;
        let bit = m & 7;
        let msk: u8 = match node_map_get(&self.levels[0], key) {
            Some(v) => v,
            None => 0,
        };
        proof {
            assert(msk == self.mask_at(0, key));
            let mm = m;
            assert((mm & 7) < 8) by (bit_vector);
        }
        let r = (((msk as u64) >> bit) & 1) == 1;
        r
    }
}

/// The target of a finished removal: `s` is a consistent octree whose leaf
/// set is `o`'s without `m`.
pub open spec fn remove_done(o: OctreeSet, s: OctreeSet, m: u64) -> bool {
    &&& s.inv()
    &&& s.height_spec() == o.height_spec()
    &&& forall|m2: u64| s.leaf_contained(m2) <==> (o.leaf_contained(m2) && m2 != m)
}

proof fn lemma_mask_bit_nonzero(o: OctreeSet, h: int, mk: u64, i: u64)
    requires
        o.child_bit(h, mk, i),
    ensures
        o.node_present(h, mk),
{
    if !o.node_present(h, mk) {
        assert(o.mask_at(h, mk) == 0);
        assert(((0u64 >> i) & 1) != 1) by (bit_vector);
    }
}

/// The per-level facts shared by the insert and remove proofs.
proof fn lemma_level_path(m: u64, lv: int)
    requires
        m < 0x1000000000000000,
        0 <= lv <= 19,
    ensures
        path_bit(m, lv) < 8,
        path_key(m, lv) < 0x200000000000000,
        lv >= 1 ==> ((path_key(m, lv) << 3) | path_bit(m, lv)) == path_key(m, lv - 1),
        ((path_key(m, 0) << 3) | path_bit(m, 0)) == m && path_key(m, 0) == (m >> 3) && path_bit(
            m,
            0,
        ) == (m & 7),
{
    let sh: u64 = (3 * lv) as u64;
    let t: u64 = (3 * lv + 3) as u64;
    assert(t == sh + 3);
    lemma_shift_chain(m, sh, t);
    lemma_key_shift_bound(m, t);
    assert(path_key(m, lv) == m >> t);
    assert(path_bit(m, lv) == (m >> sh) & 7);
    if lv >= 1 {
        assert(path_key(m, lv - 1) == m >> sh);
    }
    assert(path_key(m, 0) == m >> 3);
    assert(m >> 0 == m) by (bit_vector);
    assert(path_bit(m, 0) == m & 7);
    lemma_rebuild(m);
}

proof fn lemma_insert_leaf_ok(o: OctreeSet, s: OctreeSet, m: u64)
    requires
        o.inv(),
        m < 0x1000000000000000,
        s.height_spec() == o.height_spec(),
        s.levels@.len() == o.levels@.len(),
        forall|lv: int|
            0 <= lv < o.height_spec() ==> #[trigger] s.level_map(lv) == o.level_map(lv).insert(
                path_key(m, lv),
                set_bit_mask(o.mask_at(lv, path_key(m, lv)), path_bit(m, lv)),
            ),
    ensures
        s.inv(),
        forall|m2: u64| s.leaf_contained(m2) <==> (o.leaf_contained(m2) || m2 == m),
{
    let hh = o.height_spec() as int;
    assert forall|lv: int, mk: u64|
        0 <= lv < hh && #[trigger] s.level_map(lv).contains_key(mk) implies s.level_map(lv)[mk]
        != 0 && mk < 0x200000000000000 by {
        lemma_level_path(m, lv);
        if mk == path_key(m, lv) {
            lemma_bit_of_set(o.mask_at(lv, mk) as u64, path_bit(m, lv), 0);
            lemma_u8_roundtrip((o.mask_at(lv, mk) as u64) | (1u64 << path_bit(m, lv)));
        }
    }
    assert forall|h2: int, m2k: u64, i2: u64|
        1 <= h2 < hh && m2k < 0x1000000000000000 && i2 < 8 implies #[trigger] s.consistent_at(
        h2,
        m2k,
        i2,
    ) by {
        lemma_level_path(m, h2);
        lemma_level_path(m, h2 - 1);
        let pk = path_key(m, h2);
        let pb = path_bit(m, h2);
        let pkc = path_key(m, h2 - 1);
        let k2 = (m2k << 3) | i2;
        lemma_decompose(m2k, i2);
        assert(o.consistent_at(h2, m2k, i2));
        if m2k == pk {
            let c_old = o.mask_at(h2, pk) as u64;
            lemma_bit_of_set(c_old, pb, i2);
            lemma_u8_roundtrip(c_old | (1u64 << pb));
            assert(s.mask_at(h2, pk) == set_bit_mask(o.mask_at(h2, pk), pb));
            if i2 == pb {
                assert(k2 == pkc);
                assert(s.level_map(h2 - 1).contains_key(pkc));
                assert(s.child_bit(h2, m2k, i2));
            } else {
                lemma_decompose(pk, pb);
                assert(k2 != pkc);
                assert(s.node_present(h2 - 1, k2) == o.node_present(h2 - 1, k2));
                assert(s.child_bit(h2, m2k, i2) == o.child_bit(h2, m2k, i2));
            }
        } else {
            assert(s.mask_at(h2, m2k) == o.mask_at(h2, m2k));
            lemma_decompose(pk, pb);
            assert(k2 != pkc);
            assert(s.node_present(h2 - 1, k2) == o.node_present(h2 - 1, k2));
            assert(s.child_bit(h2, m2k, i2) == o.child_bit(h2, m2k, i2));
        }
    }
    assert forall|m2: u64| s.leaf_contained(m2) <==> (o.leaf_contained(m2) || m2 == m) by {
        lemma_level_path(m, 0);
        lemma_rebuild(m2);
        let c_old = o.mask_at(0, m >> 3) as u64;
        if m2 >> 3 == m >> 3 {
            assert(s.mask_at(0, m2 >> 3) == set_bit_mask(o.mask_at(0, m >> 3), m & 7));
            lemma_bit_of_set(c_old, m & 7, m2 & 7);
            lemma_u8_roundtrip(c_old | (1u64 << (m & 7)));
            if m2 & 7 == m & 7 {
                assert(m2 == m);
            } else {
                assert(m2 != m);
            }
        } else {
            assert(s.mask_at(0, m2 >> 3) == o.mask_at(0, m2 >> 3));
            assert(m2 != m);
        }
    }
}

proof fn lemma_remove_absent(o: OctreeSet, s: OctreeSet, m: u64)
    requires
        o.inv(),
        m < 0x1000000000000000,
        s.height_spec() == o.height_spec(),
        s.levels@.len() == o.levels@.len(),
        forall|lv: int| 0 <= lv < o.height_spec() ==> #[trigger] s.level_map(lv) == o.level_map(lv),
        !o.level_map(0).contains_key(m >> 3),
    ensures
        remove_done(o, s, m),
{
    assert forall|h2: int, m2k: u64, i2: u64|
        1 <= h2 < s.height_spec() && m2k < 0x1000000000000000 && i2 < 8 implies #[trigger] s
        .consistent_at(h2, m2k, i2) by {
        assert(o.consistent_at(h2, m2k, i2));
        assert(s.mask_at(h2, m2k) == o.mask_at(h2, m2k));
        assert(s.node_present(h2 - 1, (m2k << 3) | i2) == o.node_present(h2 - 1, (m2k << 3) | i2));
    }
    assert(!o.leaf_contained(m)) by {
        assert(o.mask_at(0, m >> 3) == 0);
        let i = m & 7;
        lemma_zero_bit(i);
    }
    assert forall|m2: u64| s.leaf_contained(m2) <==> (o.leaf_contained(m2) && m2 != m) by {
        assert(s.mask_at(0, m2 >> 3) == o.mask_at(0, m2 >> 3));
        if m2 == m {
        }
    }
}

proof fn lemma_remove_stops(o: OctreeSet, s: OctreeSet, m: u64, j: int, cur: u8, nm: u8)
    requires
        o.inv(),
        m < 0x1000000000000000,
        0 <= j < o.height_spec(),
        s.height_spec() == o.height_spec(),
        s.levels@.len() == o.levels@.len(),
        forall|lv: int|
            0 <= lv < j ==> #[trigger] s.level_map(lv) == o.level_map(lv).remove(path_key(m, lv))
                && o.mask_at(lv, path_key(m, lv)) == set_bit_mask(0, path_bit(m, lv)),
        s.level_map(j) == o.level_map(j).insert(path_key(m, j), nm),
        forall|lv: int|
            j < lv < o.height_spec() ==> #[trigger] s.level_map(lv) == o.level_map(lv),
        o.level_map(j).contains_key(path_key(m, j)),
        cur == o.level_map(j)[path_key(m, j)],
        (nm as u64) == ((cur as u64) & !(1u64 << path_bit(m, j))),
        nm != 0,
    ensures
        remove_done(o, s, m),
{
    let hh = o.height_spec() as int;
    assert forall|lv: int, mk: u64|
        0 <= lv < hh && #[trigger] s.level_map(lv).contains_key(mk) implies s.level_map(lv)[mk]
        != 0 && mk < 0x200000000000000 by {
        lemma_level_path(m, lv);
    }
    assert forall|h2: int, m2k: u64, i2: u64|
        1 <= h2 < hh && m2k < 0x1000000000000000 && i2 < 8 implies #[trigger] s.consistent_at(
        h2,
        m2k,
        i2,
    ) by {
        lemma_level_path(m, h2);
        lemma_level_path(m, h2 - 1);
        let pk = path_key(m, h2);
        let pb = path_bit(m, h2);
        let pkc = path_key(m, h2 - 1);
        let k2 = (m2k << 3) | i2;
        lemma_decompose(m2k, i2);
        lemma_decompose(pk, pb);
        assert(o.consistent_at(h2, m2k, i2));
        let c_old = o.mask_at(h2, pk) as u64;
        if h2 < j {
            // both levels are in the removed zone
            if m2k == pk {
                assert(s.mask_at(h2, pk) == 0);
                if i2 == pb {
                    assert(k2 == pkc);
                    assert(!s.node_present(h2 - 1, pkc));
                    lemma_zero_bit(i2);
                } else {
                    assert(k2 != pkc);
                    // the old mask held only the path bit, so this bit was
                    // clear and the child node did not exist
                    lemma_bit_of_set(0, pb, i2);
                    lemma_u8_roundtrip(0u64 | (1u64 << pb));
                    lemma_zero_bit(i2);
                    assert(!o.child_bit(h2, pk, i2));
                    assert(!o.node_present(h2 - 1, k2));
                    assert(s.node_present(h2 - 1, k2) == o.node_present(h2 - 1, k2));
                }
            } else {
                assert(s.mask_at(h2, m2k) == o.mask_at(h2, m2k));
                assert(k2 != pkc);
                assert(s.node_present(h2 - 1, k2) == o.node_present(h2 - 1, k2));
            }
        } else if h2 == j {
            if m2k == pk {
                assert(s.mask_at(h2, pk) == nm);
                lemma_bit_of_clear(c_old, pb, i2);
                if i2 == pb {
                    assert(!s.child_bit(h2, pk, i2));
                    if j >= 1 {
                        assert(k2 == pkc);
                        assert(!s.node_present(h2 - 1, pkc));
                    }
                } else {
                    assert(s.child_bit(h2, pk, i2) == o.child_bit(h2, pk, i2));
                    assert(k2 != pkc);
                    assert(s.node_present(h2 - 1, k2) == o.node_present(h2 - 1, k2));
                }
            } else {
                assert(s.mask_at(h2, m2k) == o.mask_at(h2, m2k));
                assert(k2 != pkc);
                assert(s.node_present(h2 - 1, k2) == o.node_present(h2 - 1, k2));
            }
        } else if h2 == j + 1 {
            // the parent level is unchanged; the child level j regained an
            // entry for the path key, which already existed
            assert(s.mask_at(h2, m2k) == o.mask_at(h2, m2k));
            assert(s.node_present(j, k2) == o.node_present(j, k2));
        } else {
            assert(s.mask_at(h2, m2k) == o.mask_at(h2, m2k));
            assert(s.node_present(h2 - 1, k2) == o.node_present(h2 - 1, k2));
        }
    }
    assert forall|m2: u64| s.leaf_contained(m2) <==> (o.leaf_contained(m2) && m2 != m) by {
        lemma_level_path(m, 0);
        lemma_rebuild(m2);
        let c_old = o.mask_at(0, m >> 3) as u64;
        if j == 0 {
            if m2 >> 3 == m >> 3 {
                assert(s.mask_at(0, m2 >> 3) == nm);
                lemma_bit_of_clear(c_old, m & 7, m2 & 7);
                if m2 & 7 == m & 7 {
                    assert(m2 == m);
                } else {
                    assert(m2 != m);
                }
            } else {
                assert(s.mask_at(0, m2 >> 3) == o.mask_at(0, m2 >> 3));
                assert(m2 != m);
            }
        } else {
            // level 0 lies in the removed zone and held only leaf `m`
            if m2 >> 3 == m >> 3 {
                assert(s.mask_at(0, m2 >> 3) == 0);
                lemma_bit_of_set(0, m & 7, m2 & 7);
                lemma_u8_roundtrip(0u64 | (1u64 << (m & 7)));
                lemma_zero_bit(m2 & 7);
                if m2 & 7 == m & 7 {
                    assert(m2 == m);
                } else {
                    assert(!o.leaf_contained(m2));
                }
            } else {
                assert(s.mask_at(0, m2 >> 3) == o.mask_at(0, m2 >> 3));
                assert(m2 != m);
            }
        }
    }
}

proof fn lemma_remove_leaf_full(o: OctreeSet, s: OctreeSet, m: u64)
    requires
        o.inv(),
        m < 0x1000000000000000,
        s.height_spec() == o.height_spec(),
        s.levels@.len() == o.levels@.len(),
        forall|lv: int|
            0 <= lv < o.height_spec() ==> #[trigger] s.level_map(lv) == o.level_map(lv).remove(
                path_key(m, lv),
            ) && o.mask_at(lv, path_key(m, lv)) == set_bit_mask(0, path_bit(m, lv)),
    ensures
        remove_done(o, s, m),
{
    let hh = o.height_spec() as int;
    assert forall|lv: int, mk: u64|
        0 <= lv < hh && #[trigger] s.level_map(lv).contains_key(mk) implies s.level_map(lv)[mk]
        != 0 && mk < 0x200000000000000 by {
        lemma_level_path(m, lv);
    }
    assert forall|h2: int, m2k: u64, i2: u64|
        1 <= h2 < hh && m2k < 0x1000000000000000 && i2 < 8 implies #[trigger] s.consistent_at(
        h2,
        m2k,
        i2,
    ) by {
        lemma_level_path(m, h2);
        lemma_level_path(m, h2 - 1);
        let pk = path_key(m, h2);
        let pb = path_bit(m, h2);
        let pkc = path_key(m, h2 - 1);
        let k2 = (m2k << 3) | i2;
        lemma_decompose(m2k, i2);
        lemma_decompose(pk, pb);
        assert(o.consistent_at(h2, m2k, i2));
        if m2k == pk {
            assert(s.mask_at(h2, pk) == 0);
            if i2 == pb {
                assert(k2 == pkc);
                assert(!s.node_present(h2 - 1, pkc));
                lemma_zero_bit(i2);
            } else {
                assert(k2 != pkc);
                lemma_bit_of_set(0, pb, i2);
                lemma_u8_roundtrip(0u64 | (1u64 << pb));
                lemma_zero_bit(i2);
                assert(!o.child_bit(h2, pk, i2));
                assert(!o.node_present(h2 - 1, k2));
                assert(s.node_present(h2 - 1, k2) == o.node_present(h2 - 1, k2));
            }
        } else {
            assert(s.mask_at(h2, m2k) == o.mask_at(h2, m2k));
            assert(k2 != pkc);
            assert(s.node_present(h2 - 1, k2) == o.node_present(h2 - 1, k2));
        }
    }
    assert forall|m2: u64| s.leaf_contained(m2) <==> (o.leaf_contained(m2) && m2 != m) by {
        lemma_level_path(m, 0);
        lemma_rebuild(m2);
        if m2 >> 3 == m >> 3 {
            assert(s.mask_at(0, m2 >> 3) == 0);
            lemma_bit_of_set(0, m & 7, m2 & 7);
            lemma_u8_roundtrip(0u64 | (1u64 << (m & 7)));
            lemma_zero_bit(m2 & 7);
            if m2 & 7 == m & 7 {
                assert(m2 == m);
            } else {
                assert(!o.leaf_contained(m2));
            }
        } else {
            assert(s.mask_at(0, m2 >> 3) == o.mask_at(0, m2 >> 3));
            assert(m2 != m);
        }
    }
}

} // verus!
