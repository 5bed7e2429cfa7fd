use vstd::prelude::*;
use crate::extent::Extent3i;
use crate::point::Point3i;
use crate::point::linf_dist;
use crate::storage::ChunkKey;

verus! {

/// Clipmap configuration: the number of detail levels and the clip-box
/// radius in chunk units at level 0.
#[derive(Clone, Copy, PartialEq, Eq, Structural, Debug)]
pub struct ClipMapConfig {
    pub num_lods: u8,
    pub clip_radius: i32,
}

impl ClipMapConfig {
    pub open spec fn wf(self) -> bool {
        1 <= self.num_lods <= 8 && 0 <= self.clip_radius <= 0x100000
    }
}

/// A chunk at `old_chunk` splits into its eight children, which become the
/// rendered detail.
#[derive(Clone, Copy, PartialEq, Eq, Debug)]
pub struct SplitUpdate {
    pub old_chunk: ChunkKey,
    pub new_chunks: [ChunkKey; 8],
}

/// Eight sibling chunks merge into their parent, which becomes the
/// rendered detail.
#[derive(Clone, Copy, PartialEq, Eq, Debug)]
pub struct MergeUpdate {
    pub old_chunks: [ChunkKey; 8],
    pub new_chunk: ChunkKey,
}

#[derive(Clone, Copy, PartialEq, Eq, Debug)]
pub enum ClipUpdate {
    Split(SplitUpdate),
    Merge(MergeUpdate),
}

/// Whether the chunk with level-`lod` coordinate `q` lies inside the clip
/// region of its level for the viewer center `c` (level-0 chunk units).
pub open spec fn near_spec(lod: u8, q: Point3i, c: Point3i, r: i32) -> bool {
    q.linf_dist(c.shr_spec(lod)) <= (r >> lod)
}

/// Whether the node `(lod, q)` is split (rendered at finer detail) under
/// center `c`: it is not at the finest level and the viewer is near it.
pub open spec fn splits_spec(lod: u8, q: Point3i, c: Point3i, r: i32) -> bool {
    lod > 0 && near_spec(lod, q, c, r)
}

/// A chunk key is an active render leaf for center `c`: its own node does
/// not split, and every ancestor below the coarsest level does.
pub open spec fn active_spec(cfg: ClipMapConfig, k: ChunkKey, c: Point3i) -> bool {
    &&& k.lod < cfg.num_lods
    &&& !splits_spec(k.lod, k.minimum, c, cfg.clip_radius)
    &&& forall|l2: int|
        k.lod < l2 < cfg.num_lods ==> #[trigger] splits_spec(
            l2 as u8,
            k.minimum.shr_spec((l2 - k.lod) as u8),
            c,
            cfg.clip_radius,
        )
}

/// Coordinate bound for a node at `lod`: fine enough levels stay well
/// inside `i32` after repeated doubling.
pub open spec fn node_ok(cfg: ClipMapConfig, lod: u8, q: Point3i) -> bool {
    let b = 1i32 << ((20 + cfg.num_lods - 1 - lod) as u32);
    -b < q.x < b && -b < q.y < b && -b < q.z < b
}

proof fn lemma_child_ok(cfg: ClipMapConfig, lod: u8, q: Point3i, cx: i32, cy: i32, cz: i32)
    requires
        cfg.wf(),
        1 <= lod < cfg.num_lods,
        node_ok(cfg, lod, q),
        cx == (q.x << 1) || cx == (q.x << 1) + 1,
        cy == (q.y << 1) || cy == (q.y << 1) + 1,
        cz == (q.z << 1) || cz == (q.z << 1) + 1,
    ensures
        node_ok(cfg, (lod - 1) as u8, Point3i { x: cx, y: cy, z: cz }),
        (Point3i { x: cx, y: cy, z: cz }).bounded(),
{
    let k: u32 = (20 + cfg.num_lods - 1 - lod) as u32;
    let x = q.x;
    let y = q.y;
    let z = q.z;
    assert(((-(1i32 << k) < x < (1i32 << k) && k <= 26) ==> (-(1i32 << (k + 1)) < (x << 1) < (
    1i32 << (k + 1)) && -(1i32 << (k + 1)) < (x << 1) + 1 < (1i32 << (k + 1)) && -0x10000000 <= (x
        << 1) <= 0x10000000 && -0x10000000 <= (x << 1) + 1 <= 0x10000000)) && ((-(1i32 << k) < y
        < (1i32 << k) && k <= 26) ==> (-(1i32 << (k + 1)) < (y << 1) < (1i32 << (k + 1)) && -(1i32
        << (k + 1)) < (y << 1) + 1 < (1i32 << (k + 1)) && -0x10000000 <= (y << 1) <= 0x10000000
        && -0x10000000 <= (y << 1) + 1 <= 0x10000000)) && ((-(1i32 << k) < z < (1i32 << k) && k
        <= 26) ==> (-(1i32 << (k + 1)) < (z << 1) < (1i32 << (k + 1)) && -(1i32 << (k + 1)) < (z
        << 1) + 1 < (1i32 << (k + 1)) && -0x10000000 <= (z << 1) <= 0x10000000 && -0x10000000 <= (
    z << 1) + 1 <= 0x10000000))) by (bit_vector);
}

proof fn lemma_node_ok_bounded(cfg: ClipMapConfig, lod: u8, q: Point3i)
    requires
        cfg.wf(),
        lod < cfg.num_lods,
        node_ok(cfg, lod, q),
    ensures
        q.bounded(),
        -0x8000000 <= q.x <= 0x8000000,
        -0x8000000 <= q.y <= 0x8000000,
        -0x8000000 <= q.z <= 0x8000000,
{
    let k: u32 = (20 + cfg.num_lods - 1 - lod) as u32;
    let x = q.x;
    let y = q.y;
    let z = q.z;
    assert(((-(1i32 << k) < x < (1i32 << k) && k <= 27) ==> -0x8000000 <= x <= 0x8000000) && ((-(
    1i32 << k) < y < (1i32 << k) && k <= 27) ==> -0x8000000 <= y <= 0x8000000) && ((-(1i32 << k)
        < z < (1i32 << k) && k <= 27) ==> -0x8000000 <= z <= 0x8000000)) by (bit_vector);
}

/// Whether the viewer at `c` is near node `(lod, q)`.
fn near(lod: u8, q: Point3i, c: Point3i, r: i32) -> (res: bool)
    requires
        lod < 32,
        q.bounded(),
        c.bounded(),
        0 <= r,
    ensures
        res == near_spec(lod, q, c, r),
{
    let cs = c.scalar_shr(lod);
    proof {
        let cx = c.x;
        let cy = c.y;
        let cz = c.z;
        assert(((-0x10000000 <= cx <= 0x10000000) ==> (-0x10000000 <= (cx >> lod) <= 0x10000000))
            && ((-0x10000000 <= cy <= 0x10000000) ==> (-0x10000000 <= (cy >> lod) <= 0x10000000))
            && ((-0x10000000 <= cz <= 0x10000000) ==> (-0x10000000 <= (cz >> lod) <= 0x10000000)))
            by (bit_vector)
            requires
                lod < 32,
        ;
    }
    let d = linf_dist(q, cs);
    d <= (r >> lod) as i64
}

/// The eight children of node `(lod, q)`, in morton order (x fastest).
fn children_of(cfg: &ClipMapConfig, lod: u8, q: Point3i) -> (r: [ChunkKey; 8])
    requires
        cfg.wf(),
        1 <= lod < cfg.num_lods,
        node_ok(*cfg, lod, q),
    ensures
        forall|i: int|
            0 <= i < 8 ==> (#[trigger] r[i]).lod == lod - 1 && node_ok(*cfg, (lod - 1) as u8, r[i].minimum)
                && r[i].minimum.bounded(),
        forall|i: int| 0 <= i < 8 ==> (#[trigger] r[i]).minimum.shr_spec(1) == q,
        forall|i1: int, i2: int|
            0 <= i1 < i2 < 8 ==> (#[trigger] r[i1]).minimum != (#[trigger] r[i2]).minimum,
        forall|a: Point3i|
            (exists|i: int| 0 <= i < 8 && (#[trigger] r[i]).minimum == a) <==> ((a.x == (q.x
                << 1u8) || a.x == (q.x << 1u8) + 1) && (a.y == (q.y << 1u8) || a.y == (q.y << 1u8)
                + 1) && (a.z == (q.z << 1u8) || a.z == (q.z << 1u8) + 1)),
{
    proof {
        lemma_node_ok_bounded(*cfg, lod, q);
    }
    let bx = q.x << 1;
    let by = q.y << 1;
    let bz = q.z << 1;
    proof {
        let k: u32 = (20 + cfg.num_lods - 1 - lod) as u32;
        let x = q.x;
        let y = q.y;
        let z = q.z;
        assert(((-(1i32 << k) < x < (1i32 << k) && k <= 26) ==> (-0x20000000 < (x << 1)
            < 0x20000000)) && ((-(1i32 << k) < y < (1i32 << k) && k <= 26) ==> (-0x20000000 < (y
            << 1) < 0x20000000)) && ((-(1i32 << k) < z < (1i32 << k) && k <= 26) ==> (-0x20000000
            < (z << 1) < 0x20000000))) by (bit_vector);
    }
    let nl = lod - 1;
    let r: [ChunkKey; 8] = [
        ChunkKey { lod: nl, minimum: Point3i { x: bx, y: by, z: bz } },
        ChunkKey { lod: nl, minimum: Point3i { x: bx + 1, y: by, z: bz } },
        ChunkKey { lod: nl, minimum: Point3i { x: bx, y: by + 1, z: bz } },
        ChunkKey { lod: nl, minimum: Point3i { x: bx + 1, y: by + 1, z: bz } },
        ChunkKey { lod: nl, minimum: Point3i { x: bx, y: by, z: bz + 1 } },
        ChunkKey { lod: nl, minimum: Point3i { x: bx + 1, y: by, z: bz + 1 } },
        ChunkKey { lod: nl, minimum: Point3i { x: bx, y: by + 1, z: bz + 1 } },
        ChunkKey { lod: nl, minimum: Point3i { x: bx + 1, y: by + 1, z: bz + 1 } },
    ];
    proof {
        assert forall|i: int|
            0 <= i < 8 implies (#[trigger] r[i]).lod == lod - 1 && node_ok(
            *cfg,
            (lod - 1) as u8,
            r[i].minimum,
        ) && r[i].minimum.bounded() by {
            lemma_child_ok(*cfg, lod, q, r[i].minimum.x, r[i].minimum.y, r[i].minimum.z);
        }
        let qx = q.x;
        let qy = q.y;
        let qz = q.z;
        assert((qx << 1) == (qx << 1u8) && (qy << 1) == (qy << 1u8) && (qz << 1) == (qz << 1u8))
            by (bit_vector);
        assert forall|i: int| 0 <= i < 8 implies (#[trigger] r[i]).minimum.shr_spec(1) == q by {
            lemma_parent_iff(r[i].minimum.x, qx);
            lemma_parent_iff(r[i].minimum.y, qy);
            lemma_parent_iff(r[i].minimum.z, qz);
            assert(r[i].minimum.shr_spec(1) =~= q);
        }
        assert forall|a: Point3i|
            (exists|i: int| 0 <= i < 8 && (#[trigger] r[i]).minimum == a) <==> ((a.x == (qx << 1u8)
                || a.x == (qx << 1u8) + 1) && (a.y == (qy << 1u8) || a.y == (qy << 1u8) + 1) && (
            a.z == (qz << 1u8) || a.z == (qz << 1u8) + 1)) by {
            if (a.x == (qx << 1u8) || a.x == (qx << 1u8) + 1) && (a.y == (qy << 1u8) || a.y == (qy
                << 1u8) + 1) && (a.z == (qz << 1u8) || a.z == (qz << 1u8) + 1) {
                if a.x == bx {
                    if a.y == by {
                        if a.z == bz {
                            assert(r[0].minimum =~= a);
                        } else {
                            assert(r[4].minimum =~= a);
                        }
                    } else {
                        if a.z == bz {
                            assert(r[2].minimum =~= a);
                        } else {
                            assert(r[6].minimum =~= a);
                        }
                    }
                } else {
                    if a.y == by {
                        if a.z == bz {
                            assert(r[1].minimum =~= a);
                        } else {
                            assert(r[5].minimum =~= a);
                        }
                    } else {
                        if a.z == bz {
                            assert(r[3].minimum =~= a);
                        } else {
                            assert(r[7].minimum =~= a);
                        }
                    }
                }
            }
        }
    }
    r
}

/// A key of a child's subtree lies in the parent's subtree.
proof fn lemma_subtree_lift(lod: u8, q: Point3i, a: Point3i, k: ChunkKey)
    requires
        1 <= lod <= 8,
        a.shr_spec(1) == q,
        in_subtree((lod - 1) as u8, a, k),
    ensures
        in_subtree(lod, q, k),
{
    lemma_shr_succ_point(k.minimum, (lod - 1 - k.lod) as u8, (lod - k.lod) as u8);
}

/// Append the elements of `d` to `out`.
fn append_updates(out: &mut Vec<ClipUpdate>, d: Vec<ClipUpdate>)
    ensures
        final(out)@ == old(out)@ + d@,
{
    let mut j: usize = 0;
    let n = d.len();
    while j < n
        invariant
            n == d@.len(),
            j <= n,
            out@ == old(out)@ + d@.subrange(0, j as int),
        decreases n - j,
    {
        let u = d[j];
        out.push(u);
        proof {
            assert(d@.subrange(0, j + 1) =~= d@.subrange(0, j as int).push(d@[j as int]));
            assert(out@ =~= old(out)@ + d@.subrange(0, j + 1));
        }
        j = j + 1;
    }
    proof {
        assert(d@.subrange(0, n as int) =~= d@);
    }
}

/// Slot `j` of the mixed set during a child sweep: already-rewritten
/// children contribute their active subtrees, the rest their own keys.
pub open spec fn kid_slot(
    cfg: ClipMapConfig,
    lod: u8,
    kids: [ChunkKey; 8],
    c: Point3i,
    n: int,
    j: int,
    k: ChunkKey,
) -> bool {
    if j < n {
        subtree_active(cfg, (lod - 1) as u8, kids[j].minimum, c).contains(k)
    } else {
        k == kids[j]
    }
}

/// The mixed set after rewriting the first `n` children.
pub open spec fn kids_mix(
    cfg: ClipMapConfig,
    lod: u8,
    kids: [ChunkKey; 8],
    c: Point3i,
    n: int,
) -> Set<ChunkKey> {
    Set::new(
        |k: ChunkKey| exists|j: int| 0 <= j < 8 && #[trigger] kid_slot(cfg, lod, kids, c, n, j, k),
    )
}

/// Slot `j` of the reverse sweep: already-collapsed children contribute
/// their keys, the rest their active subtrees.
pub open spec fn kid_slot_rev(
    cfg: ClipMapConfig,
    lod: u8,
    kids: [ChunkKey; 8],
    c: Point3i,
    n: int,
    j: int,
    k: ChunkKey,
) -> bool {
    if j < n {
        k == kids[j]
    } else {
        subtree_active(cfg, (lod - 1) as u8, kids[j].minimum, c).contains(k)
    }
}

pub open spec fn kids_mix_rev(
    cfg: ClipMapConfig,
    lod: u8,
    kids: [ChunkKey; 8],
    c: Point3i,
    n: int,
) -> Set<ChunkKey> {
    Set::new(
        |k: ChunkKey| exists|j: int|
            0 <= j < 8 && #[trigger] kid_slot_rev(cfg, lod, kids, c, n, j, k),
    )
}

/// Slot `j` of the rewrite sweep: rewritten children are active under the
/// new center, the rest under the old one.
pub open spec fn kid_slot2(
    cfg: ClipMapConfig,
    lod: u8,
    kids: [ChunkKey; 8],
    c_old: Point3i,
    c_new: Point3i,
    n: int,
    j: int,
    k: ChunkKey,
) -> bool {
    if j < n {
        subtree_active(cfg, (lod - 1) as u8, kids[j].minimum, c_new).contains(k)
    } else {
        subtree_active(cfg, (lod - 1) as u8, kids[j].minimum, c_old).contains(k)
    }
}

pub open spec fn kids_mix2(
    cfg: ClipMapConfig,
    lod: u8,
    kids: [ChunkKey; 8],
    c_old: Point3i,
    c_new: Point3i,
    n: int,
) -> Set<ChunkKey> {
    Set::new(
        |k: ChunkKey| exists|j: int|
            0 <= j < 8 && #[trigger] kid_slot2(cfg, lod, kids, c_old, c_new, n, j, k),
    )
}

/// An update confined to a child's subtree is confined to the parent's.
proof fn lemma_update_lift(lod: u8, q: Point3i, a: Point3i, u: ClipUpdate)
    requires
        1 <= lod <= 8,
        a.shr_spec(1) == q,
        update_in((lod - 1) as u8, a, u),
    ensures
        update_in(lod, q, u),
{
    match u {
        ClipUpdate::Split(sp) => {
            lemma_subtree_lift(lod, q, a, sp.old_chunk);
            assert forall|i: int| 0 <= i < 8 implies in_subtree(lod, q, #[trigger] sp.new_chunks[i]) by {
                lemma_subtree_lift(lod, q, a, sp.new_chunks[i]);
            }
        },
        ClipUpdate::Merge(mg) => {
            lemma_subtree_lift(lod, q, a, mg.new_chunk);
            assert forall|i: int| 0 <= i < 8 implies in_subtree(lod, q, #[trigger] mg.old_chunks[i]) by {
                lemma_subtree_lift(lod, q, a, mg.old_chunks[i]);
            }
        },
    }
}

/// Emit the splits that refine the current leaf `(lod, q)` into the active
/// leaves for `c_new`.
fn emit_splits(cfg: &ClipMapConfig, lod: u8, q: Point3i, c_new: Point3i) -> (r: Vec<ClipUpdate>)
    requires
        cfg.wf(),
        1 <= lod < cfg.num_lods,
        node_ok(*cfg, lod, q),
        c_new.bounded(),
        splits_spec(lod, q, c_new, cfg.clip_radius),
    ensures
        updates_in(lod, q, r@),
        replay(Set::<ChunkKey>::empty().insert(ChunkKey { lod, minimum: q }), r@)
            == subtree_active(*cfg, lod, q, c_new),
    decreases lod,
{
    let kids = children_of(cfg, lod, q);
    let me = ChunkKey { lod, minimum: q };
    let ghost s0 = Set::<ChunkKey>::empty().insert(me);
    let mut out: Vec<ClipUpdate> = Vec::new();
    let sp = SplitUpdate { old_chunk: me, new_chunks: kids };
    let first = ClipUpdate::Split(sp);
    out.push(first);
    proof {
        lemma_shr_zero_point(q);
        assert(in_subtree(lod, q, me));
        assert forall|i: int| 0 <= i < 8 implies in_subtree(lod, q, #[trigger] kids[i]) by {
            lemma_shr_zero_point(kids[i].minimum);
            lemma_subtree_lift(lod, q, kids[i].minimum, kids[i]);
        }
        assert(update_in(lod, q, first));
        assert(out@ =~= Seq::<ClipUpdate>::empty().push(first));
        lemma_replay_one(s0, first);
        assert(replay(s0, out@) == apply_update(s0, first));
        assert forall|k: ChunkKey| true implies (#[trigger] apply_update(s0, first).contains(k)
            <==> kids_mix(*cfg, lod, kids, c_new, 0).contains(k)) by {
            assert(apply_update(s0, first) == s0.remove(me).union(split_children(sp)));
            if split_children(sp).contains(k) {
                let j = choose|j: int| 0 <= j < 8 && sp.new_chunks[j] == k;
                assert(kid_slot(*cfg, lod, kids, c_new, 0, j, k));
            }
            if kids_mix(*cfg, lod, kids, c_new, 0).contains(k) {
                let j = choose|j: int|
                    0 <= j < 8 && #[trigger] kid_slot(*cfg, lod, kids, c_new, 0, j, k);
                assert(kids[j] == k);
                assert(sp.new_chunks[j] == k);
                assert(split_children(sp).contains(k));
            }
        }
        assert(replay(s0, out@) =~= kids_mix(*cfg, lod, kids, c_new, 0));
    }
    let mut i: usize = 0;
    while i < 8
        invariant
            cfg.wf(),
            1 <= lod < cfg.num_lods,
            c_new.bounded(),
            i <= 8,
            forall|j: int|
                0 <= j < 8 ==> (#[trigger] kids[j]).lod == lod - 1 && node_ok(
                    *cfg,
                    (lod - 1) as u8,
                    kids[j].minimum,
                ) && kids[j].minimum.bounded(),
            forall|j: int| 0 <= j < 8 ==> (#[trigger] kids[j]).minimum.shr_spec(1) == q,
            forall|j1: int, j2: int|
                0 <= j1 < j2 < 8 ==> (#[trigger] kids[j1]).minimum != (#[trigger] kids[j2]).minimum,
            updates_in(lod, q, out@),
            replay(s0, out@) == kids_mix(*cfg, lod, kids, c_new, i as int),
        decreases 8 - i,
    {
        let k = kids[i];
        let kmin = k.minimum;
        let ghost m = kids_mix(*cfg, lod, kids, c_new, i as int);
        let splits_here = lod - 1 > 0 && near(lod - 1, kmin, c_new, cfg.clip_radius);
        if splits_here {
            let d = emit_splits(cfg, lod - 1, kmin, c_new);
            proof {
                lemma_shr_zero_point(kmin);
                let ghost x = Set::<ChunkKey>::empty().insert(k);
                assert forall|kk: ChunkKey|
                    x.contains(kk) <==> (m.contains(kk) && in_subtree((lod - 1) as u8, kmin, kk))
                    by {
                    if m.contains(kk) && in_subtree((lod - 1) as u8, kmin, kk) {
                        let j = choose|j: int|
                            0 <= j < 8 && #[trigger] kid_slot(*cfg, lod, kids, c_new, i as int, j, kk);
                        if j < i {
                            assert(in_subtree((lod - 1) as u8, kids[j].minimum, kk));
                            assert(kids[j].minimum == kmin);
                            assert(false);
                        } else if j != i {
                            lemma_shr_zero_point(kk.minimum);
                            assert(kids[j].minimum == kmin);
                            assert(false);
                        }
                    }
                    if x.contains(kk) {
                        assert(kid_slot(*cfg, lod, kids, c_new, i as int, i as int, kk));
                        lemma_shr_zero_point(kk.minimum);
                    }
                }
                lemma_replay_frame(m, x, (lod - 1) as u8, kmin, d@);
                lemma_replay_concat(s0, out@, d@);
                assert(replay(x, d@) == subtree_active(*cfg, (lod - 1) as u8, kmin, c_new));
                assert forall|kk: ChunkKey| true implies (#[trigger] replay(m, d@).contains(kk)
                    <==> kids_mix(*cfg, lod, kids, c_new, i + 1).contains(kk)) by {
                    if replay(m, d@).contains(kk) {
                        if m.contains(kk) && !in_subtree((lod - 1) as u8, kmin, kk) {
                            let j = choose|j: int|
                                0 <= j < 8 && #[trigger] kid_slot(
                                    *cfg,
                                    lod,
                                    kids,
                                    c_new,
                                    i as int,
                                    j,
                                    kk,
                                );
                            assert(j != i);
                            assert(kid_slot(*cfg, lod, kids, c_new, i + 1, j, kk));
                        } else {
                            assert(kid_slot(*cfg, lod, kids, c_new, i + 1, i as int, kk));
                        }
                    }
                    if kids_mix(*cfg, lod, kids, c_new, i + 1).contains(kk) {
                        let j = choose|j: int|
                            0 <= j < 8 && #[trigger] kid_slot(*cfg, lod, kids, c_new, i + 1, j, kk);
                        if j == i {
                            assert(replay(x, d@).contains(kk));
                        } else if j < i {
                            assert(kid_slot(*cfg, lod, kids, c_new, i as int, j, kk));
                            assert(in_subtree((lod - 1) as u8, kids[j].minimum, kk));
                            if in_subtree((lod - 1) as u8, kmin, kk) {
                                assert(kids[j].minimum == kmin);
                                assert(false);
                            }
                        } else {
                            assert(kid_slot(*cfg, lod, kids, c_new, i as int, j, kk));
                            if in_subtree((lod - 1) as u8, kmin, kk) {
                                lemma_shr_zero_point(kk.minimum);
                                assert(kids[j].minimum == kmin);
                                assert(false);
                            }
                        }
                    }
                }
                assert forall|j: int| 0 <= j < d@.len() implies update_in(
                    lod,
                    q,
                    #[trigger] d@[j],
                ) by {
                    lemma_update_lift(lod, q, kmin, d@[j]);
                }
                assert(updates_in(lod, q, out@ + d@)) by {
                    assert(forall|j: int|
                        0 <= j < out@.len() ==> (out@ + d@)[j] == out@[j]);
                    assert(forall|j: int|
                        out@.len() <= j < out@.len() + d@.len() ==> (out@ + d@)[j] == d@[j
                            - out@.len()]);
                }
                assert(replay(s0, out@ + d@) =~= kids_mix(*cfg, lod, kids, c_new, i + 1));
            }
            append_updates(&mut out, d);
        } else {
            proof {
                lemma_active_leaf(*cfg, (lod - 1) as u8, kmin, c_new);
                assert forall|kk: ChunkKey| true implies (kids_mix(
                    *cfg,
                    lod,
                    kids,
                    c_new,
                    i + 1,
                ).contains(kk) <==> m.contains(kk)) by {
                    if kids_mix(*cfg, lod, kids, c_new, i + 1).contains(kk) {
                        let j = choose|j: int|
                            0 <= j < 8 && #[trigger] kid_slot(*cfg, lod, kids, c_new, i + 1, j, kk);
                        if j == i {
                            assert(kk == k);
                        }
                        assert(kid_slot(*cfg, lod, kids, c_new, i as int, j, kk));
                    }
                    if m.contains(kk) {
                        let j = choose|j: int|
                            0 <= j < 8 && #[trigger] kid_slot(*cfg, lod, kids, c_new, i as int, j, kk);
                        if j == i {
                            assert(kk == k);
                            assert(subtree_active(*cfg, (lod - 1) as u8, kmin, c_new).contains(kk));
                        }
                        assert(kid_slot(*cfg, lod, kids, c_new, i + 1, j, kk));
                    }
                }
                assert(kids_mix(*cfg, lod, kids, c_new, i + 1) =~= m);
            }
        }
        i = i + 1;
    }
    proof {
        lemma_active_split(*cfg, lod, q, c_new, kids);
        assert forall|kk: ChunkKey| true implies (kids_mix(*cfg, lod, kids, c_new, 8).contains(kk)
            <==> subtree_active(*cfg, lod, q, c_new).contains(kk)) by {
            if kids_mix(*cfg, lod, kids, c_new, 8).contains(kk) {
                let j = choose|j: int|
                    0 <= j < 8 && #[trigger] kid_slot(*cfg, lod, kids, c_new, 8, j, kk);
                assert(subtree_active(*cfg, (lod - 1) as u8, kids[j].minimum, c_new).contains(kk));
            }
            if subtree_active(*cfg, lod, q, c_new).contains(kk) {
                let j = choose|j: int|
                    0 <= j < 8 && subtree_active(
                        *cfg,
                        (lod - 1) as u8,
                        (#[trigger] kids[j]).minimum,
                        c_new,
                    ).contains(kk);
                assert(kid_slot(*cfg, lod, kids, c_new, 8, j, kk));
            }
        }
        assert(replay(s0, out@) =~= subtree_active(*cfg, lod, q, c_new));
    }
    out
}

/// Emit the merges that collapse the active leaves of `c_old` under
/// `(lod, q)` into the single leaf `(lod, q)`.
fn emit_merges(cfg: &ClipMapConfig, lod: u8, q: Point3i, c_old: Point3i) -> (r: Vec<ClipUpdate>)
    requires
        cfg.wf(),
        1 <= lod < cfg.num_lods,
        node_ok(*cfg, lod, q),
        c_old.bounded(),
        splits_spec(lod, q, c_old, cfg.clip_radius),
    ensures
        updates_in(lod, q, r@),
        replay(subtree_active(*cfg, lod, q, c_old), r@) == Set::<ChunkKey>::empty().insert(
            ChunkKey { lod, minimum: q },
        ),
    decreases lod,
{
    let kids = children_of(cfg, lod, q);
    let me = ChunkKey { lod, minimum: q };
    let ghost s0 = subtree_active(*cfg, lod, q, c_old);
    let mut out: Vec<ClipUpdate> = Vec::new();
    proof {
        lemma_shr_zero_point(q);
        lemma_active_split(*cfg, lod, q, c_old, kids);
        assert(out@ =~= Seq::<ClipUpdate>::empty());
        assert forall|kk: ChunkKey| true implies (s0.contains(kk) <==> kids_mix_rev(
            *cfg,
            lod,
            kids,
            c_old,
            0,
        ).contains(kk)) by {
            if s0.contains(kk) {
                let j = choose|j: int|
                    0 <= j < 8 && subtree_active(
                        *cfg,
                        (lod - 1) as u8,
                        (#[trigger] kids[j]).minimum,
                        c_old,
                    ).contains(kk);
                assert(kid_slot_rev(*cfg, lod, kids, c_old, 0, j, kk));
            }
            if kids_mix_rev(*cfg, lod, kids, c_old, 0).contains(kk) {
                let j = choose|j: int|
                    0 <= j < 8 && #[trigger] kid_slot_rev(*cfg, lod, kids, c_old, 0, j, kk);
                assert(subtree_active(*cfg, (lod - 1) as u8, kids[j].minimum, c_old).contains(kk));
            }
        }
        assert(replay(s0, out@) =~= kids_mix_rev(*cfg, lod, kids, c_old, 0));
    }
    let mut i: usize = 0;
    while i < 8
        invariant
            cfg.wf(),
            1 <= lod < cfg.num_lods,
            c_old.bounded(),
            i <= 8,
            s0 == subtree_active(*cfg, lod, q, c_old),
            forall|j: int|
                0 <= j < 8 ==> (#[trigger] kids[j]).lod == lod - 1 && node_ok(
                    *cfg,
                    (lod - 1) as u8,
                    kids[j].minimum,
                ) && kids[j].minimum.bounded(),
            forall|j: int| 0 <= j < 8 ==> (#[trigger] kids[j]).minimum.shr_spec(1) == q,
            forall|j1: int, j2: int|
                0 <= j1 < j2 < 8 ==> (#[trigger] kids[j1]).minimum != (#[trigger] kids[j2]).minimum,
            updates_in(lod, q, out@),
            replay(s0, out@) == kids_mix_rev(*cfg, lod, kids, c_old, i as int),
        decreases 8 - i,
    {
        let k = kids[i];
        let kmin = k.minimum;
        let ghost m = kids_mix_rev(*cfg, lod, kids, c_old, i as int);
        let splits_here = lod - 1 > 0 && near(lod - 1, kmin, c_old, cfg.clip_radius);
        if splits_here {
            let d = emit_merges(cfg, lod - 1, kmin, c_old);
            proof {
                lemma_shr_zero_point(kmin);
                let ghost x = subtree_active(*cfg, (lod - 1) as u8, kmin, c_old);
                assert forall|kk: ChunkKey|
                    x.contains(kk) <==> (m.contains(kk) && in_subtree((lod - 1) as u8, kmin, kk))
                    by {
                    if m.contains(kk) && in_subtree((lod - 1) as u8, kmin, kk) {
                        let j = choose|j: int|
                            0 <= j < 8 && #[trigger] kid_slot_rev(
                                *cfg,
                                lod,
                                kids,
                                c_old,
                                i as int,
                                j,
                                kk,
                            );
                        if j < i {
                            lemma_shr_zero_point(kk.minimum);
                            assert(kids[j].minimum == kmin);
                            assert(false);
                        } else if j != i {
                            assert(in_subtree((lod - 1) as u8, kids[j].minimum, kk));
                            assert(kids[j].minimum == kmin);
                            assert(false);
                        }
                    }
                    if x.contains(kk) {
                        assert(kid_slot_rev(*cfg, lod, kids, c_old, i as int, i as int, kk));
                    }
                }
                lemma_replay_frame(m, x, (lod - 1) as u8, kmin, d@);
                lemma_replay_concat(s0, out@, d@);
                assert(replay(x, d@) == Set::<ChunkKey>::empty().insert(k));
                assert forall|kk: ChunkKey| true implies (#[trigger] replay(m, d@).contains(kk)
                    <==> kids_mix_rev(*cfg, lod, kids, c_old, i + 1).contains(kk)) by {
                    if replay(m, d@).contains(kk) {
                        if m.contains(kk) && !in_subtree((lod - 1) as u8, kmin, kk) {
                            let j = choose|j: int|
                                0 <= j < 8 && #[trigger] kid_slot_rev(
                                    *cfg,
                                    lod,
                                    kids,
                                    c_old,
                                    i as int,
                                    j,
                                    kk,
                                );
                            assert(j != i);
                            assert(kid_slot_rev(*cfg, lod, kids, c_old, i + 1, j, kk));
                        } else {
                            assert(kk == k);
                            assert(kid_slot_rev(*cfg, lod, kids, c_old, i + 1, i as int, kk));
                        }
                    }
                    if kids_mix_rev(*cfg, lod, kids, c_old, i + 1).contains(kk) {
                        let j = choose|j: int|
                            0 <= j < 8 && #[trigger] kid_slot_rev(
                                *cfg,
                                lod,
                                kids,
                                c_old,
                                i + 1,
                                j,
                                kk,
                            );
                        if j == i {
                            assert(kk == k);
                            assert(replay(x, d@).contains(kk));
                        } else if j < i {
                            assert(kid_slot_rev(*cfg, lod, kids, c_old, i as int, j, kk));
                            if in_subtree((lod - 1) as u8, kmin, kk) {
                                lemma_shr_zero_point(kk.minimum);
                                assert(kids[j].minimum == kmin);
                                assert(false);
                            }
                        } else {
                            assert(kid_slot_rev(*cfg, lod, kids, c_old, i as int, j, kk));
                            if in_subtree((lod - 1) as u8, kmin, kk) {
                                assert(in_subtree((lod - 1) as u8, kids[j].minimum, kk));
                                assert(kids[j].minimum == kmin);
                                assert(false);
                            }
                        }
                    }
                }
                assert forall|j: int| 0 <= j < d@.len() implies update_in(
                    lod,
                    q,
                    #[trigger] d@[j],
                ) by {
                    lemma_update_lift(lod, q, kmin, d@[j]);
                }
                assert(updates_in(lod, q, out@ + d@)) by {
                    assert(forall|j: int|
                        0 <= j < out@.len() ==> (out@ + d@)[j] == out@[j]);
                    assert(forall|j: int|
                        out@.len() <= j < out@.len() + d@.len() ==> (out@ + d@)[j] == d@[j
                            - out@.len()]);
                }
                assert(replay(s0, out@ + d@) =~= kids_mix_rev(*cfg, lod, kids, c_old, i + 1));
            }
            append_updates(&mut out, d);
        } else {
            proof {
                lemma_active_leaf(*cfg, (lod - 1) as u8, kmin, c_old);
                assert forall|kk: ChunkKey| true implies (kids_mix_rev(
                    *cfg,
                    lod,
                    kids,
                    c_old,
                    i + 1,
                ).contains(kk) <==> m.contains(kk)) by {
                    if kids_mix_rev(*cfg, lod, kids, c_old, i + 1).contains(kk) {
                        let j = choose|j: int|
                            0 <= j < 8 && #[trigger] kid_slot_rev(
                                *cfg,
                                lod,
                                kids,
                                c_old,
                                i + 1,
                                j,
                                kk,
                            );
                        if j == i {
                            assert(subtree_active(*cfg, (lod - 1) as u8, kmin, c_old).contains(kk));
                        }
                        assert(kid_slot_rev(*cfg, lod, kids, c_old, i as int, j, kk));
                    }
                    if m.contains(kk) {
                        let j = choose|j: int|
                            0 <= j < 8 && #[trigger] kid_slot_rev(
                                *cfg,
                                lod,
                                kids,
                                c_old,
                                i as int,
                                j,
                                kk,
                            );
                        if j == i {
                            assert(kk == k);
                        }
                        assert(kid_slot_rev(*cfg, lod, kids, c_old, i + 1, j, kk));
                    }
                }
                assert(kids_mix_rev(*cfg, lod, kids, c_old, i + 1) =~= m);
            }
        }
        i = i + 1;
    }
    let mg = MergeUpdate { old_chunks: kids, new_chunk: me };
    let last = ClipUpdate::Merge(mg);
    let ghost prefix = out@;
    out.push(last);
    proof {
        lemma_shr_zero_point(q);
        assert(in_subtree(lod, q, me));
        assert forall|i2: int| 0 <= i2 < 8 implies in_subtree(lod, q, #[trigger] kids[i2]) by {
            lemma_shr_zero_point(kids[i2].minimum);
            lemma_subtree_lift(lod, q, kids[i2].minimum, kids[i2]);
        }
        assert(update_in(lod, q, last));
        assert(out@ =~= prefix + Seq::<ClipUpdate>::empty().push(last));
        lemma_replay_concat(s0, prefix, Seq::<ClipUpdate>::empty().push(last));
        let ghost m8 = kids_mix_rev(*cfg, lod, kids, c_old, 8);
        assert(replay(s0, prefix) == m8);
        lemma_replay_one(m8, last);
        assert forall|kk: ChunkKey| true implies (#[trigger] apply_update(m8, last).contains(kk)
            <==> kk == me) by {
            assert(apply_update(m8, last) == m8.difference(merge_children(mg)).insert(me));
            if m8.contains(kk) {
                let j = choose|j: int|
                    0 <= j < 8 && #[trigger] kid_slot_rev(*cfg, lod, kids, c_old, 8, j, kk);
                assert(kk == kids[j]);
                assert(mg.old_chunks[j] == kk);
                assert(merge_children(mg).contains(kk));
            }
        }
        assert(replay(s0, out@) =~= Set::<ChunkKey>::empty().insert(me));
        assert(updates_in(lod, q, out@)) by {
            assert(forall|j: int| 0 <= j < prefix.len() ==> out@[j] == prefix[j]);
            assert(out@[out@.len() - 1] == last);
        }
    }
    out
}

/// Walk the subtree under `(lod, q)` comparing the active trees of `c_old`
/// and `c_new`, returning the split and merge updates that carry the old
/// rendered leaves of the subtree exactly to the new ones.
fn update_rec(cfg: &ClipMapConfig, lod: u8, q: Point3i, c_old: Point3i, c_new: Point3i) -> (r: Vec<
    ClipUpdate,
>)
    requires
        cfg.wf(),
        lod < cfg.num_lods,
        node_ok(*cfg, lod, q),
        c_old.bounded(),
        c_new.bounded(),
    ensures
        updates_in(lod, q, r@),
        replay(subtree_active(*cfg, lod, q, c_old), r@) == subtree_active(*cfg, lod, q, c_new),
        c_old == c_new ==> r@.len() == 0,
    decreases lod,
{
    proof {
        lemma_node_ok_bounded(*cfg, lod, q);
    }
    if lod == 0 {
        let out: Vec<ClipUpdate> = Vec::new();
        proof {
            lemma_active_leaf(*cfg, lod, q, c_old);
            lemma_active_leaf(*cfg, lod, q, c_new);
            assert(out@ =~= Seq::<ClipUpdate>::empty());
        }
        return out;
    }
    let so = near(lod, q, c_old, cfg.clip_radius);
    let sn = near(lod, q, c_new, cfg.clip_radius);
    if so && sn {
        let kids = children_of(cfg, lod, q);
        let mut out: Vec<ClipUpdate> = Vec::new();
        let ghost s0 = subtree_active(*cfg, lod, q, c_old);
        proof {
            lemma_active_split(*cfg, lod, q, c_old, kids);
            assert(out@ =~= Seq::<ClipUpdate>::empty());
            assert forall|kk: ChunkKey| true implies (s0.contains(kk) <==> kids_mix2(
                *cfg,
                lod,
                kids,
                c_old,
                c_new,
                0,
            ).contains(kk)) by {
                if s0.contains(kk) {
                    let j = choose|j: int|
                        0 <= j < 8 && subtree_active(
                            *cfg,
                            (lod - 1) as u8,
                            (#[trigger] kids[j]).minimum,
                            c_old,
                        ).contains(kk);
                    assert(kid_slot2(*cfg, lod, kids, c_old, c_new, 0, j, kk));
                }
                if kids_mix2(*cfg, lod, kids, c_old, c_new, 0).contains(kk) {
                    let j = choose|j: int|
                        0 <= j < 8 && #[trigger] kid_slot2(*cfg, lod, kids, c_old, c_new, 0, j, kk);
                    assert(subtree_active(*cfg, (lod - 1) as u8, kids[j].minimum, c_old).contains(
                        kk,
                    ));
                }
            }
            assert(replay(s0, out@) =~= kids_mix2(*cfg, lod, kids, c_old, c_new, 0));
        }
        let mut i: usize = 0;
        while i < 8
            invariant
                cfg.wf(),
                1 <= lod < cfg.num_lods,
                c_old.bounded(),
                c_new.bounded(),
                i <= 8,
                s0 == subtree_active(*cfg, lod, q, c_old),
                forall|j: int|
                    0 <= j < 8 ==> (#[trigger] kids[j]).lod == lod - 1 && node_ok(
                        *cfg,
                        (lod - 1) as u8,
                        kids[j].minimum,
                    ) && kids[j].minimum.bounded(),
                forall|j: int| 0 <= j < 8 ==> (#[trigger] kids[j]).minimum.shr_spec(1) == q,
                forall|j1: int, j2: int|
                    0 <= j1 < j2 < 8 ==> (#[trigger] kids[j1]).minimum != (
                    #[trigger] kids[j2]).minimum,
                updates_in(lod, q, out@),
                replay(s0, out@) == kids_mix2(*cfg, lod, kids, c_old, c_new, i as int),
                c_old == c_new ==> out@.len() == 0,
            decreases 8 - i,
        {
            let k = kids[i];
            let kmin = k.minimum;
            let ghost m = kids_mix2(*cfg, lod, kids, c_old, c_new, i as int);
            let d = update_rec(cfg, lod - 1, kmin, c_old, c_new);
            proof {
                let ghost x = subtree_active(*cfg, (lod - 1) as u8, kmin, c_old);
                assert forall|kk: ChunkKey|
                    x.contains(kk) <==> (m.contains(kk) && in_subtree((lod - 1) as u8, kmin, kk))
                    by {
                    if m.contains(kk) && in_subtree((lod - 1) as u8, kmin, kk) {
                        let j = choose|j: int|
                            0 <= j < 8 && #[trigger] kid_slot2(
                                *cfg,
                                lod,
                                kids,
                                c_old,
                                c_new,
                                i as int,
                                j,
                                kk,
                            );
                        if j != i {
                            assert(in_subtree((lod - 1) as u8, kids[j].minimum, kk));
                            assert(kids[j].minimum == kmin);
                            assert(false);
                        }
                    }
                    if x.contains(kk) {
                        assert(kid_slot2(*cfg, lod, kids, c_old, c_new, i as int, i as int, kk));
                    }
                }
                lemma_replay_frame(m, x, (lod - 1) as u8, kmin, d@);
                lemma_replay_concat(s0, out@, d@);
                assert(replay(x, d@) == subtree_active(*cfg, (lod - 1) as u8, kmin, c_new));
                assert forall|kk: ChunkKey| true implies (#[trigger] replay(m, d@).contains(kk)
                    <==> kids_mix2(*cfg, lod, kids, c_old, c_new, i + 1).contains(kk)) by {
                    if replay(m, d@).contains(kk) {
                        if m.contains(kk) && !in_subtree((lod - 1) as u8, kmin, kk) {
                            let j = choose|j: int|
                                0 <= j < 8 && #[trigger] kid_slot2(
                                    *cfg,
                                    lod,
                                    kids,
                                    c_old,
                                    c_new,
                                    i as int,
                                    j,
                                    kk,
                                );
                            assert(j != i);
                            assert(kid_slot2(*cfg, lod, kids, c_old, c_new, i + 1, j, kk));
                        } else {
                            assert(kid_slot2(*cfg, lod, kids, c_old, c_new, i + 1, i as int, kk));
                        }
                    }
                    if kids_mix2(*cfg, lod, kids, c_old, c_new, i + 1).contains(kk) {
                        let j = choose|j: int|
                            0 <= j < 8 && #[trigger] kid_slot2(
                                *cfg,
                                lod,
                                kids,
                                c_old,
                                c_new,
                                i + 1,
                                j,
                                kk,
                            );
                        if j == i {
                            assert(replay(x, d@).contains(kk));
                        } else {
                            assert(kid_slot2(*cfg, lod, kids, c_old, c_new, i as int, j, kk));
                            if in_subtree((lod - 1) as u8, kmin, kk) {
                                assert(in_subtree((lod - 1) as u8, kids[j].minimum, kk));
                                assert(kids[j].minimum == kmin);
                                assert(false);
                            }
                        }
                    }
                }
                assert forall|j: int| 0 <= j < d@.len() implies update_in(
                    lod,
                    q,
                    #[trigger] d@[j],
                ) by {
                    lemma_update_lift(lod, q, kmin, d@[j]);
                }
                assert(updates_in(lod, q, out@ + d@)) by {
                    assert(forall|j: int| 0 <= j < out@.len() ==> (out@ + d@)[j] == out@[j]);
                    assert(forall|j: int|
                        out@.len() <= j < out@.len() + d@.len() ==> (out@ + d@)[j] == d@[j
                            - out@.len()]);
                }
                assert(replay(s0, out@ + d@) =~= kids_mix2(*cfg, lod, kids, c_old, c_new, i + 1));
            }
            append_updates(&mut out, d);
            i = i + 1;
        }
        proof {
            lemma_active_split(*cfg, lod, q, c_new, kids);
            assert forall|kk: ChunkKey| true implies (kids_mix2(
                *cfg,
                lod,
                kids,
                c_old,
                c_new,
                8,
            ).contains(kk) <==> subtree_active(*cfg, lod, q, c_new).contains(kk)) by {
                if kids_mix2(*cfg, lod, kids, c_old, c_new, 8).contains(kk) {
                    let j = choose|j: int|
                        0 <= j < 8 && #[trigger] kid_slot2(*cfg, lod, kids, c_old, c_new, 8, j, kk);
                    assert(subtree_active(*cfg, (lod - 1) as u8, kids[j].minimum, c_new).contains(
                        kk,
                    ));
                }
                if subtree_active(*cfg, lod, q, c_new).contains(kk) {
                    let j = choose|j: int|
                        0 <= j < 8 && subtree_active(
                            *cfg,
                            (lod - 1) as u8,
                            (#[trigger] kids[j]).minimum,
                            c_new,
                        ).contains(kk);
                    assert(kid_slot2(*cfg, lod, kids, c_old, c_new, 8, j, kk));
                }
            }
            assert(replay(s0, out@) =~= subtree_active(*cfg, lod, q, c_new));
        }
        out
    } else if !so && sn {
        proof {
            lemma_active_leaf(*cfg, lod, q, c_old);
        }
        emit_splits(cfg, lod, q, c_new)
    } else if so && !sn {
        proof {
            lemma_active_leaf(*cfg, lod, q, c_new);
        }
        emit_merges(cfg, lod, q, c_old)
    } else {
        let out: Vec<ClipUpdate> = Vec::new();
        proof {
            lemma_active_leaf(*cfg, lod, q, c_old);
            lemma_active_leaf(*cfg, lod, q, c_new);
            assert(out@ =~= Seq::<ClipUpdate>::empty());
        }
        out
    }
}

/// The rendered leaves for center `c`, over every coarsest-level chunk
/// whose coordinate lies in `roots`.
pub open spec fn active_set_spec(cfg: ClipMapConfig, roots: Extent3i, c: Point3i) -> Set<
    ChunkKey,
> {
    Set::new(
        |k: ChunkKey| exists|p: Point3i|
            roots.contains_spec(p) && #[trigger] subtree_active(
                cfg,
                (cfg.num_lods - 1) as u8,
                p,
                c,
            ).contains(k),
    )
}

/// A key is in the rendered set exactly when it is an active leaf whose
/// coarsest ancestor lies in `roots`.
pub proof fn lemma_active_set_members(
    cfg: ClipMapConfig,
    roots: Extent3i,
    c: Point3i,
    k: ChunkKey,
)
    requires
        cfg.wf(),
    ensures
        active_set_spec(cfg, roots, c).contains(k) <==> (active_spec(cfg, k, c) && (exists|
            p: Point3i,
        |
            roots.contains_spec(p) && #[trigger] in_subtree((cfg.num_lods - 1) as u8, p, k))),
{
    let top = (cfg.num_lods - 1) as u8;
    if active_set_spec(cfg, roots, c).contains(k) {
        let p = choose|p: Point3i|
            roots.contains_spec(p) && #[trigger] subtree_active(cfg, top, p, c).contains(k);
        assert(in_subtree(top, p, k));
        assert forall|l2: int| k.lod < l2 < cfg.num_lods implies #[trigger] splits_spec(
            l2 as u8,
            k.minimum.shr_spec((l2 - k.lod) as u8),
            c,
            cfg.clip_radius,
        ) by {
            assert(l2 <= top);
        }
    }
    if active_spec(cfg, k, c) && (exists|p: Point3i|
        roots.contains_spec(p) && #[trigger] in_subtree(top, p, k)) {
        let p = choose|p: Point3i|
            roots.contains_spec(p) && #[trigger] in_subtree(top, p, k);
        assert forall|l2: int| k.lod < l2 <= top implies #[trigger] splits_spec(
            l2 as u8,
            k.minimum.shr_spec((l2 - k.lod) as u8),
            c,
            cfg.clip_radius,
        ) by {
            assert(l2 < cfg.num_lods);
        }
        assert(subtree_active(cfg, top, p, c).contains(k));
    }
}

/// Slot of the root sweep: roots already walked contribute their active
/// leaves under the new center, the rest under the old one.
pub open spec fn root_slot(
    cfg: ClipMapConfig,
    roots: Extent3i,
    c_old: Point3i,
    c_new: Point3i,
    n: int,
    p: Point3i,
    k: ChunkKey,
) -> bool {
    roots.contains_spec(p) && if roots.linear_index(p) < n {
        subtree_active(cfg, (cfg.num_lods - 1) as u8, p, c_new).contains(k)
    } else {
        subtree_active(cfg, (cfg.num_lods - 1) as u8, p, c_old).contains(k)
    }
}

pub open spec fn roots_mix(
    cfg: ClipMapConfig,
    roots: Extent3i,
    c_old: Point3i,
    c_new: Point3i,
    n: int,
) -> Set<ChunkKey> {
    Set::new(
        |k: ChunkKey| exists|p: Point3i| #[trigger] root_slot(cfg, roots, c_old, c_new, n, p, k),
    )
}

/// Compute the split/merge stream that brings the rendered detail from the
/// active set of `c_old` exactly to the active set of `c_new`, for every
/// coarsest-level chunk whose coordinate lies in `roots`. The centers are
/// level-0 chunk coordinates. Replaying the stream on the old active set
/// yields the new one; equal centers produce an empty stream.
pub fn find_clipmap_chunk_updates(
    cfg: &ClipMapConfig,
    roots: Extent3i,
    c_old: Point3i,
    c_new: Point3i,
) -> (r: Vec<ClipUpdate>)
    requires
        cfg.wf(),
        roots.wf(),
        forall|p: Point3i| roots.contains_spec(p) ==> node_ok(*cfg, (cfg.num_lods - 1) as u8, p),
        c_old.bounded(),
        c_new.bounded(),
    ensures
        replay(active_set_spec(*cfg, roots, c_old), r@) == active_set_spec(*cfg, roots, c_new),
        c_old == c_new ==> r@.len() == 0,
{
    let mut out: Vec<ClipUpdate> = Vec::new();
    let top = cfg.num_lods - 1;
    let ghost s0 = active_set_spec(*cfg, roots, c_old);
    let pts = roots.points();
    proof {
        assert(out@ =~= Seq::<ClipUpdate>::empty());
        assert forall|k: ChunkKey| true implies (s0.contains(k) <==> roots_mix(
            *cfg,
            roots,
            c_old,
            c_new,
            0,
        ).contains(k)) by {
            if s0.contains(k) {
                let p = choose|p: Point3i|
                    roots.contains_spec(p) && #[trigger] subtree_active(
                        *cfg,
                        (cfg.num_lods - 1) as u8,
                        p,
                        c_old,
                    ).contains(k);
                crate::extent::lemma_linear_index_bounds(roots, p);
                assert(root_slot(*cfg, roots, c_old, c_new, 0, p, k));
            }
            if roots_mix(*cfg, roots, c_old, c_new, 0).contains(k) {
                let p = choose|p: Point3i| #[trigger] root_slot(*cfg, roots, c_old, c_new, 0, p, k);
                crate::extent::lemma_linear_index_bounds(roots, p);
                assert(subtree_active(*cfg, (cfg.num_lods - 1) as u8, p, c_old).contains(k));
            }
        }
        assert(replay(s0, out@) =~= roots_mix(*cfg, roots, c_old, c_new, 0));
    }
    let mut i: usize = 0;
    let n = pts.len();
    while i < n
        invariant
            cfg.wf(),
            roots.wf(),
            top == cfg.num_lods - 1,
            c_old.bounded(),
            c_new.bounded(),
            s0 == active_set_spec(*cfg, roots, c_old),
            n == pts@.len(),
            i <= n,
            pts@.len() == roots.volume(),
            forall|j: int|
                0 <= j < pts@.len() ==> roots.contains_spec(#[trigger] pts@[j])
                    && roots.linear_index(pts@[j]) == j,
            forall|p: Point3i|
                roots.contains_spec(p) ==> node_ok(*cfg, (cfg.num_lods - 1) as u8, p),
            replay(s0, out@) == roots_mix(*cfg, roots, c_old, c_new, i as int),
            c_old == c_new ==> out@.len() == 0,
        decreases n - i,
    {
        let p = pts[i];
        let ghost m = roots_mix(*cfg, roots, c_old, c_new, i as int);
        let d = update_rec(cfg, top, p, c_old, c_new);
        proof {
            let tl = (cfg.num_lods - 1) as u8;
            let ghost x = subtree_active(*cfg, tl, p, c_old);
            assert forall|kk: ChunkKey|
                x.contains(kk) <==> (m.contains(kk) && in_subtree(tl, p, kk)) by {
                if m.contains(kk) && in_subtree(tl, p, kk) {
                    let p2 = choose|p2: Point3i| #[trigger] root_slot(
                        *cfg,
                        roots,
                        c_old,
                        c_new,
                        i as int,
                        p2,
                        kk,
                    );
                    assert(in_subtree(tl, p2, kk));
                    assert(p2 == p);
                    crate::extent::lemma_linear_index_bounds(roots, p2);
                }
                if x.contains(kk) {
                    assert(root_slot(*cfg, roots, c_old, c_new, i as int, p, kk));
                }
            }
            lemma_replay_frame(m, x, tl, p, d@);
            lemma_replay_concat(s0, out@, d@);
            assert(replay(x, d@) == subtree_active(*cfg, tl, p, c_new));
            assert forall|kk: ChunkKey| true implies (#[trigger] replay(m, d@).contains(kk)
                <==> roots_mix(*cfg, roots, c_old, c_new, i + 1).contains(kk)) by {
                if replay(m, d@).contains(kk) {
                    if m.contains(kk) && !in_subtree(tl, p, kk) {
                        let p2 = choose|p2: Point3i| #[trigger] root_slot(
                            *cfg,
                            roots,
                            c_old,
                            c_new,
                            i as int,
                            p2,
                            kk,
                        );
                        assert(p2 != p);
                        if roots.linear_index(p2) == roots.linear_index(p) {
                            crate::extent::lemma_linear_index_injective(roots, p2, p);
                        }
                        assert(roots.linear_index(p2) != i);
                        assert(root_slot(*cfg, roots, c_old, c_new, i + 1, p2, kk));
                    } else {
                        assert(root_slot(*cfg, roots, c_old, c_new, i + 1, p, kk));
                    }
                }
                if roots_mix(*cfg, roots, c_old, c_new, i + 1).contains(kk) {
                    let p2 = choose|p2: Point3i| #[trigger] root_slot(
                        *cfg,
                        roots,
                        c_old,
                        c_new,
                        i + 1,
                        p2,
                        kk,
                    );
                    if p2 == p {
                        assert(replay(x, d@).contains(kk));
                    } else {
                        if roots.linear_index(p2) == roots.linear_index(p) {
                            crate::extent::lemma_linear_index_injective(roots, p2, p);
                        }
                        assert(roots.linear_index(p2) != i);
                        assert(root_slot(*cfg, roots, c_old, c_new, i as int, p2, kk));
                        if in_subtree(tl, p, kk) {
                            assert(in_subtree(tl, p2, kk));
                            assert(p2 == p);
                            assert(false);
                        }
                    }
                }
            }
            assert(replay(s0, out@ + d@) =~= roots_mix(*cfg, roots, c_old, c_new, i + 1));
        }
        append_updates(&mut out, d);
        i = i + 1;
    }
    proof {
        assert forall|k: ChunkKey| true implies (roots_mix(
            *cfg,
            roots,
            c_old,
            c_new,
            n as int,
        ).contains(k) <==> active_set_spec(*cfg, roots, c_new).contains(k)) by {
            if roots_mix(*cfg, roots, c_old, c_new, n as int).contains(k) {
                let p = choose|p: Point3i| #[trigger] root_slot(
                    *cfg,
                    roots,
                    c_old,
                    c_new,
                    n as int,
                    p,
                    k,
                );
                crate::extent::lemma_linear_index_bounds(roots, p);
                assert(subtree_active(*cfg, (cfg.num_lods - 1) as u8, p, c_new).contains(k));
            }
            if active_set_spec(*cfg, roots, c_new).contains(k) {
                let p = choose|p: Point3i|
                    roots.contains_spec(p) && #[trigger] subtree_active(
                        *cfg,
                        (cfg.num_lods - 1) as u8,
                        p,
                        c_new,
                    ).contains(k);
                crate::extent::lemma_linear_index_bounds(roots, p);
                assert(root_slot(*cfg, roots, c_old, c_new, n as int, p, k));
            }
        }
        assert(replay(s0, out@) =~= active_set_spec(*cfg, roots, c_new));
    }
    out
}

/// The set of a split's eight new chunks.
pub open spec fn split_children(sp: SplitUpdate) -> Set<ChunkKey> {
    Set::new(|k: ChunkKey| exists|i: int| 0 <= i < 8 && sp.new_chunks[i] == k)
}

/// The set of a merge's eight old chunks.
pub open spec fn merge_children(mg: MergeUpdate) -> Set<ChunkKey> {
    Set::new(|k: ChunkKey| exists|i: int| 0 <= i < 8 && mg.old_chunks[i] == k)
}

/// What one update does to a set of rendered leaves: a split retires the
/// parent and renders its children, a merge retires the children and
/// renders the parent.
pub open spec fn apply_update(s: Set<ChunkKey>, u: ClipUpdate) -> Set<ChunkKey> {
    match u {
        ClipUpdate::Split(sp) => s.remove(sp.old_chunk).union(split_children(sp)),
        ClipUpdate::Merge(mg) => s.difference(merge_children(mg)).insert(mg.new_chunk),
    }
}

/// The set reached by applying every update of `us` in order.
pub open spec fn replay(s: Set<ChunkKey>, us: Seq<ClipUpdate>) -> Set<ChunkKey>
    decreases us.len(),
{
    if us.len() == 0 {
        s
    } else {
        replay(apply_update(s, us[0]), us.subrange(1, us.len() as int))
    }
}

/// Replaying a concatenation replays the parts in order.
pub proof fn lemma_replay_concat(s: Set<ChunkKey>, us1: Seq<ClipUpdate>, us2: Seq<ClipUpdate>)
    ensures
        replay(s, us1 + us2) == replay(replay(s, us1), us2),
    decreases us1.len(),
{
    if us1.len() == 0 {
        assert(us1 + us2 =~= us2);
    } else {
        assert((us1 + us2)[0] == us1[0]);
        assert((us1 + us2).subrange(1, (us1 + us2).len() as int) =~= us1.subrange(
            1,
            us1.len() as int,
        ) + us2);
        lemma_replay_concat(apply_update(s, us1[0]), us1.subrange(1, us1.len() as int), us2);
    }
}

/// Replaying a single update applies it.
pub proof fn lemma_replay_one(s: Set<ChunkKey>, u: ClipUpdate)
    ensures
        replay(s, Seq::<ClipUpdate>::empty().push(u)) == apply_update(s, u),
{
    let us = Seq::<ClipUpdate>::empty().push(u);
    assert(us[0] == u);
    assert(us.subrange(1, 1) =~= Seq::<ClipUpdate>::empty());
    assert(replay(s, us) == replay(apply_update(s, u), us.subrange(1, 1)));
}

/// Whether `k` lies in the subtree rooted at the level-`lod` node `q`.
pub open spec fn in_subtree(lod: u8, q: Point3i, k: ChunkKey) -> bool {
    k.lod <= lod && k.minimum.shr_spec((lod - k.lod) as u8) == q
}

/// Whether an update touches only keys of the subtree at `(lod, q)`.
pub open spec fn update_in(lod: u8, q: Point3i, u: ClipUpdate) -> bool {
    match u {
        ClipUpdate::Split(sp) => in_subtree(lod, q, sp.old_chunk) && forall|i: int|
            0 <= i < 8 ==> in_subtree(lod, q, #[trigger] sp.new_chunks[i]),
        ClipUpdate::Merge(mg) => in_subtree(lod, q, mg.new_chunk) && forall|i: int|
            0 <= i < 8 ==> in_subtree(lod, q, #[trigger] mg.old_chunks[i]),
    }
}

pub open spec fn updates_in(lod: u8, q: Point3i, us: Seq<ClipUpdate>) -> bool {
    forall|j: int| 0 <= j < us.len() ==> update_in(lod, q, #[trigger] us[j])
}

/// One update confined to a subtree acts only on the part of the set
/// inside that subtree.
proof fn lemma_apply_frame(s: Set<ChunkKey>, x: Set<ChunkKey>, lod: u8, q: Point3i, u: ClipUpdate)
    requires
        update_in(lod, q, u),
        forall|k: ChunkKey| x.contains(k) <==> (s.contains(k) && in_subtree(lod, q, k)),
        forall|k: ChunkKey| #[trigger] x.contains(k) ==> in_subtree(lod, q, k),
    ensures
        forall|k: ChunkKey|
            #[trigger] apply_update(s, u).contains(k) <==> ((s.contains(k) && !in_subtree(
                lod,
                q,
                k,
            )) || apply_update(x, u).contains(k)),
        forall|k: ChunkKey| #[trigger] apply_update(x, u).contains(k) ==> in_subtree(lod, q, k),
{
    match u {
        ClipUpdate::Split(sp) => {
            assert forall|k: ChunkKey| #[trigger] apply_update(x, u).contains(k) implies in_subtree(
                lod,
                q,
                k,
            ) by {
                if split_children(sp).contains(k) {
                    let i = choose|i: int| 0 <= i < 8 && sp.new_chunks[i] == k;
                    assert(in_subtree(lod, q, sp.new_chunks[i]));
                }
            }
            assert forall|k: ChunkKey| true implies (#[trigger] apply_update(s, u).contains(k)
                <==> ((s.contains(k) && !in_subtree(lod, q, k)) || apply_update(x, u).contains(
                k,
            ))) by {
                if split_children(sp).contains(k) {
                    let i = choose|i: int| 0 <= i < 8 && sp.new_chunks[i] == k;
                    assert(in_subtree(lod, q, sp.new_chunks[i]));
                }
            }
        },
        ClipUpdate::Merge(mg) => {
            assert forall|k: ChunkKey| #[trigger] apply_update(x, u).contains(k) implies in_subtree(
                lod,
                q,
                k,
            ) by {
            }
            assert forall|k: ChunkKey| true implies (#[trigger] apply_update(s, u).contains(k)
                <==> ((s.contains(k) && !in_subtree(lod, q, k)) || apply_update(x, u).contains(
                k,
            ))) by {
            }
        },
    }
}

/// A stream confined to a subtree rewrites only the part of the set inside
/// that subtree; everything outside rides along.
proof fn lemma_replay_frame(
    s: Set<ChunkKey>,
    x: Set<ChunkKey>,
    lod: u8,
    q: Point3i,
    us: Seq<ClipUpdate>,
)
    requires
        updates_in(lod, q, us),
        forall|k: ChunkKey| x.contains(k) <==> (s.contains(k) && in_subtree(lod, q, k)),
    ensures
        forall|k: ChunkKey|
            #[trigger] replay(s, us).contains(k) <==> ((s.contains(k) && !in_subtree(lod, q, k))
                || replay(x, us).contains(k)),
        forall|k: ChunkKey| #[trigger] replay(x, us).contains(k) ==> in_subtree(lod, q, k),
    decreases us.len(),
{
    if us.len() == 0 {
        assert(replay(s, us) == s);
        assert(replay(x, us) == x);
    } else {
        let u = us[0];
        assert(update_in(lod, q, u));
        lemma_apply_frame(s, x, lod, q, u);
        let s1 = apply_update(s, u);
        let x1 = apply_update(x, u);
        assert forall|k: ChunkKey|
            x1.contains(k) <==> (s1.contains(k) && in_subtree(lod, q, k)) by {
            assert(s1.contains(k) <==> ((s.contains(k) && !in_subtree(lod, q, k)) || x1.contains(
                k,
            )));
        }
        assert(updates_in(lod, q, us.subrange(1, us.len() as int))) by {
            assert(forall|j: int|
                0 <= j < us.len() - 1 ==> us.subrange(1, us.len() as int)[j] == us[j + 1]);
        }
        let rest = us.subrange(1, us.len() as int);
        lemma_replay_frame(s1, x1, lod, q, rest);
        assert(replay(s, us) == replay(s1, rest));
        assert(replay(x, us) == replay(x1, rest));
        assert forall|k: ChunkKey|
            #[trigger] replay(s, us).contains(k) <==> ((s.contains(k) && !in_subtree(lod, q, k))
                || replay(x, us).contains(k)) by {
            assert(replay(s1, rest).contains(k) <==> ((s1.contains(k) && !in_subtree(lod, q, k))
                || replay(x1, rest).contains(k)));
            assert(s1.contains(k) <==> ((s.contains(k) && !in_subtree(lod, q, k)) || x1.contains(
                k,
            )));
        }
    }
}

/// The active render leaves inside the subtree of the level-`lod` node
/// `q`: keys of the subtree whose own node does not split while every
/// ancestor up to `(lod, q)` does.
pub open spec fn subtree_active(cfg: ClipMapConfig, lod: u8, q: Point3i, c: Point3i) -> Set<
    ChunkKey,
> {
    Set::new(
        |k: ChunkKey|
            in_subtree(lod, q, k) && !splits_spec(k.lod, k.minimum, c, cfg.clip_radius) && (
            forall|l2: int|
                k.lod < l2 <= lod ==> #[trigger] splits_spec(
                    l2 as u8,
                    k.minimum.shr_spec((l2 - k.lod) as u8),
                    c,
                    cfg.clip_radius,
                )),
    )
}

proof fn lemma_shr_zero_point(p: Point3i)
    ensures
        p.shr_spec(0) == p,
{
    let x = p.x;
    let y = p.y;
    let z = p.z;
    assert((x >> 0u8) == x && (y >> 0u8) == y && (z >> 0u8) == z) by (bit_vector);
    assert(p.shr_spec(0) =~= p);
}

proof fn lemma_shr_succ_point(p: Point3i, a: u8, b: u8)
    requires
        b == a + 1,
        b <= 10,
    ensures
        p.shr_spec(a).shr_spec(1) == p.shr_spec(b),
{
    let x = p.x;
    let y = p.y;
    let z = p.z;
    assert((((x >> a) >> 1u8) == (x >> b)) && (((y >> a) >> 1u8) == (y >> b)) && (((z >> a) >> 1u8)
        == (z >> b))) by (bit_vector)
        requires
            b == a + 1,
            b <= 10,
    ;
    assert(p.shr_spec(a).shr_spec(1) =~= p.shr_spec(b));
}

proof fn lemma_parent_iff(a: i32, qc: i32)
    requires
        -0x8000000 <= qc <= 0x8000000,
    ensures
        ((a >> 1u8) == qc) <==> (a == (qc << 1u8) || a == (qc << 1u8) + 1),
{
    assert((((a >> 1u8) == qc) <==> (a == (qc << 1u8) || a == (qc << 1u8) + 1)) && true)
        by (bit_vector)
        requires
            -0x8000000 <= qc <= 0x8000000,
    ;
}

/// A node that does not split renders itself: its subtree's active set is
/// just its own key.
proof fn lemma_active_leaf(cfg: ClipMapConfig, lod: u8, q: Point3i, c: Point3i)
    requires
        !splits_spec(lod, q, c, cfg.clip_radius),
    ensures
        subtree_active(cfg, lod, q, c) == Set::<ChunkKey>::empty().insert(
            ChunkKey { lod, minimum: q },
        ),
{
    let me = ChunkKey { lod, minimum: q };
    assert forall|k: ChunkKey| true implies (subtree_active(cfg, lod, q, c).contains(k) <==> k
        == me) by {
        lemma_shr_zero_point(k.minimum);
        lemma_shr_zero_point(q);
        if subtree_active(cfg, lod, q, c).contains(k) {
            if k.lod < lod {
                assert(splits_spec(
                    lod as u8,
                    k.minimum.shr_spec((lod - k.lod) as u8),
                    c,
                    cfg.clip_radius,
                ));
                assert(false);
            }
            assert(k.minimum == q);
            assert(k =~= me);
        }
    }
    assert(subtree_active(cfg, lod, q, c) =~= Set::<ChunkKey>::empty().insert(me));
}

/// A node that splits renders the union of its children's subtrees.
proof fn lemma_active_split(
    cfg: ClipMapConfig,
    lod: u8,
    q: Point3i,
    c: Point3i,
    kids: [ChunkKey; 8],
)
    requires
        cfg.wf(),
        1 <= lod < cfg.num_lods,
        node_ok(cfg, lod, q),
        splits_spec(lod, q, c, cfg.clip_radius),
        forall|i: int| 0 <= i < 8 ==> (#[trigger] kids[i]).lod == lod - 1,
        forall|a: Point3i|
            (exists|i: int| 0 <= i < 8 && (#[trigger] kids[i]).minimum == a) <==> ((a.x == (q.x
                << 1u8) || a.x == (q.x << 1u8) + 1) && (a.y == (q.y << 1u8) || a.y == (q.y << 1u8)
                + 1) && (a.z == (q.z << 1u8) || a.z == (q.z << 1u8) + 1)),
    ensures
        forall|k: ChunkKey|
            #[trigger] subtree_active(cfg, lod, q, c).contains(k) <==> (exists|i: int|
                0 <= i < 8 && subtree_active(cfg, (lod - 1) as u8, (#[trigger] kids[i]).minimum, c)
                    .contains(k)),
{
    assert forall|k: ChunkKey| true implies (subtree_active(cfg, lod, q, c).contains(k) <==> (
    exists|i: int|
        0 <= i < 8 && subtree_active(cfg, (lod - 1) as u8, (#[trigger] kids[i]).minimum, c)
            .contains(k))) by {
        lemma_shr_zero_point(k.minimum);
        lemma_shr_zero_point(q);
        if subtree_active(cfg, lod, q, c).contains(k) {
            // the key cannot be the node itself, which splits
            assert(k.lod < lod);
            let a = k.minimum.shr_spec((lod - 1 - k.lod) as u8);
            lemma_shr_succ_point(k.minimum, (lod - 1 - k.lod) as u8, (lod - k.lod) as u8);
            assert(a.shr_spec(1) == q);
            lemma_node_ok_bounded(cfg, lod, q);
            lemma_parent_iff(a.x, q.x);
            lemma_parent_iff(a.y, q.y);
            lemma_parent_iff(a.z, q.z);
            let i = choose|i: int| 0 <= i < 8 && (#[trigger] kids[i]).minimum == a;
            assert(kids[i].minimum == a);
            assert(in_subtree((lod - 1) as u8, a, k));
            assert forall|l2: int|
                k.lod < l2 <= lod - 1 implies #[trigger] splits_spec(
                l2 as u8,
                k.minimum.shr_spec((l2 - k.lod) as u8),
                c,
                cfg.clip_radius,
            ) by {
            }
            assert(subtree_active(cfg, (lod - 1) as u8, kids[i].minimum, c).contains(k));
        }
        if exists|i: int|
            0 <= i < 8 && subtree_active(cfg, (lod - 1) as u8, (#[trigger] kids[i]).minimum, c)
                .contains(k) {
            let i = choose|i: int|
                0 <= i < 8 && subtree_active(cfg, (lod - 1) as u8, (#[trigger] kids[i]).minimum, c)
                    .contains(k);
            let a = kids[i].minimum;
            assert(in_subtree((lod - 1) as u8, a, k));
            assert(k.minimum.shr_spec((lod - 1 - k.lod) as u8) == a);
            lemma_shr_succ_point(k.minimum, (lod - 1 - k.lod) as u8, (lod - k.lod) as u8);
            lemma_node_ok_bounded(cfg, lod, q);
            lemma_parent_iff(a.x, q.x);
            lemma_parent_iff(a.y, q.y);
            lemma_parent_iff(a.z, q.z);
            assert(a.shr_spec(1) =~= q);
            assert(in_subtree(lod, q, k));
            assert forall|l2: int|
                k.lod < l2 <= lod implies #[trigger] splits_spec(
                l2 as u8,
                k.minimum.shr_spec((l2 - k.lod) as u8),
                c,
                cfg.clip_radius,
            ) by {
                if l2 == lod {
                    assert(k.minimum.shr_spec((lod - k.lod) as u8) == q);
                } else {
                    assert(splits_spec(
                        l2 as u8,
                        k.minimum.shr_spec((l2 - k.lod) as u8),
                        c,
                        cfg.clip_radius,
                    ));
                }
            }
            assert(subtree_active(cfg, lod, q, c).contains(k));
        }
    }
}

} // verus!
