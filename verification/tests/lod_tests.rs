use std::collections::HashSet;

use building_blocks_storage::array::Array3;
use building_blocks_storage::clipmap::ClipMapConfig;
use building_blocks_storage::clipmap::ClipUpdate;
use building_blocks_storage::clipmap::find_clipmap_chunk_updates;
use building_blocks_storage::codec::ByteCodec;
use building_blocks_storage::codec::StorageError;
use building_blocks_storage::chunk_map::ChunkMapBuilder;
use building_blocks_storage::compressible::CompressibleStorage;
use building_blocks_storage::compression::ArrayEncoding;
use building_blocks_storage::extent::Extent3i;
use building_blocks_storage::octree::OctreeSet;
use building_blocks_storage::point::Point3i;
use building_blocks_storage::storage::ChunkKey;
use building_blocks_storage::storage::ChunkStorage;

fn extent(min: (i32, i32, i32), shape: (i32, i32, i32)) -> Extent3i {
    Extent3i::new(
        Point3i::new(min.0, min.1, min.2),
        Point3i::new(shape.0, shape.1, shape.2),
    )
}

fn chunk(value: i32) -> Array3 {
    Array3::new_fill(extent((0, 0, 0), (4, 4, 4)), 1, value)
}

fn key(x: i32, y: i32, z: i32) -> ChunkKey {
    ChunkKey {
        lod: 0,
        minimum: Point3i::new(x, y, z),
    }
}

#[test]
fn lru_eviction_and_promotion() {
    // capacity 2: after inserting A, B, C the oldest entry A sits
    // compressed in the cold store; reading A promotes it and evicts B
    let mut s = CompressibleStorage::new(2, ArrayEncoding::FastChannels, ByteCodec::Lz4 {
        level: 4,
    })
    .unwrap();
    let a = key(0, 0, 0);
    let b = key(1, 0, 0);
    let c = key(2, 0, 0);
    s.store(a, chunk(1)).unwrap();
    s.store(b, chunk(2)).unwrap();
    s.store(c, chunk(3)).unwrap();
    assert_eq!(s.cached_keys(), vec![b, c]);
    assert!(s.cold_contains(a));
    assert!(!s.cold_contains(b));
    // promote a by reading one of its cells
    let v = s.get_cell(a, 0, Point3i::new(0, 0, 0));
    assert_eq!(v, Some(1));
    assert_eq!(s.cached_keys(), vec![c, a]);
    assert!(s.cold_contains(b));
    assert!(!s.cold_contains(a));
    // values are unchanged by the cache/cold split
    assert_eq!(s.get_cell(b, 0, Point3i::new(1, 1, 1)), Some(2));
    assert_eq!(s.get_cell(c, 0, Point3i::new(2, 2, 2)), Some(3));
}

#[test]
fn compressible_backend_capacity_zero() {
    let r = CompressibleStorage::new(0, ArrayEncoding::FastChannels, ByteCodec::Snappy);
    assert!(matches!(r, Err(StorageError::CacheCapacityZero)));
    let r2 = ChunkMapBuilder::new(4, 0).build_compressible(
        0,
        ArrayEncoding::FastChannels,
        ByteCodec::Snappy,
    );
    assert!(matches!(r2, Err(StorageError::CacheCapacityZero)));
}

#[test]
fn compressible_map_reads_write_through_compression() {
    let mut m = ChunkMapBuilder::new(4, 0)
        .build_compressible(1, ArrayEncoding::FastChannels, ByteCodec::Lz4 { level: 4 })
        .unwrap();
    // write into three different chunks so two of them are compressed
    m.set_point(0, Point3i::new(0, 0, 0), 10).unwrap();
    m.set_point(0, Point3i::new(100, 0, 0), 11).unwrap();
    m.set_point(0, Point3i::new(0, 200, 0), 12).unwrap();
    assert_eq!(m.get_point(0, Point3i::new(0, 0, 0)), 10);
    assert_eq!(m.get_point(0, Point3i::new(100, 0, 0)), 11);
    assert_eq!(m.get_point(0, Point3i::new(0, 200, 0)), 12);
    assert_eq!(m.get_point(0, Point3i::new(5, 5, 5)), 0);
}

#[test]
fn octree_add_remove_round_trip() {
    // a 32^3 voxel box with chunk exponent 4 covers 2x2x2 chunks
    let mut set = OctreeSet::new(3);
    let chunks = extent((0, 0, 0), (2, 2, 2));
    set.add_extent(chunks);
    let mut leaves = 0;
    for p in extent((0, 0, 0), (8, 8, 8)).points() {
        if set.contains_point(p) {
            leaves += 1;
            assert!(chunks.contains(p));
        }
    }
    assert_eq!(leaves, 8);
    assert!(!set.is_empty());
    // the 8 chunks share one height-1 node
    assert_eq!(set.level_node_count(0), 1);
    set.remove_extent(chunks);
    assert!(set.is_empty());
    for h in 0..3 {
        assert_eq!(set.level_node_count(h), 0, "internal nodes must be gone");
    }
}

#[test]
fn octree_partial_remove() {
    let mut set = OctreeSet::new(4);
    set.add_extent(extent((0, 0, 0), (4, 4, 1)));
    set.remove_extent(extent((0, 0, 0), (2, 4, 1)));
    for p in extent((0, 0, 0), (8, 8, 2)).points() {
        let expect = p.x >= 2 && p.x < 4 && p.y < 4 && p.z < 1;
        assert_eq!(set.contains_point(p), expect);
    }
}

fn active_set(cfg: &ClipMapConfig, roots: Extent3i, c: Point3i) -> HashSet<ChunkKey> {
    // mirror of the rendered-leaf rule: a node splits when the viewer is
    // near it at its level; leaves are unsplit nodes under split ancestors
    fn near(lod: u8, q: Point3i, c: Point3i, r: i32) -> bool {
        let cs = (c.x >> lod, c.y >> lod, c.z >> lod);
        let d = (q.x - cs.0).abs().max((q.y - cs.1).abs()).max((q.z - cs.2).abs());
        d <= (r >> lod)
    }
    fn descend(cfg: &ClipMapConfig, lod: u8, q: Point3i, c: Point3i, out: &mut HashSet<ChunkKey>) {
        if lod > 0 && near(lod, q, c, cfg.clip_radius) {
            for dz in 0..2 {
                for dy in 0..2 {
                    for dx in 0..2 {
                        let child = Point3i::new(2 * q.x + dx, 2 * q.y + dy, 2 * q.z + dz);
                        descend(cfg, lod - 1, child, c, out);
                    }
                }
            }
        } else {
            out.insert(ChunkKey { lod, minimum: q });
        }
    }
    let mut out = HashSet::new();
    for p in roots.points() {
        descend(cfg, cfg.num_lods - 1, p, c, &mut out);
    }
    out
}

#[test]
fn clipmap_split_and_merge() {
    let cfg = ClipMapConfig {
        num_lods: 2,
        clip_radius: 2,
    };
    let roots = extent((-3, -3, -3), (58, 7, 7));
    let c_old = Point3i::new(100, 0, 0);
    let c_new = Point3i::new(0, 0, 0);
    let updates = find_clipmap_chunk_updates(&cfg, roots, c_old, c_new);
    let mut saw_split_near_origin = false;
    let mut saw_merge_near_old = false;
    for u in updates.iter() {
        match u {
            ClipUpdate::Split(s) => {
                assert_eq!(s.old_chunk.lod, 1);
                for k in s.new_chunks.iter() {
                    assert_eq!(k.lod, 0);
                    assert_eq!(k.minimum.x >> 1, s.old_chunk.minimum.x);
                }
                if s.old_chunk.minimum.x.abs() <= 1 {
                    saw_split_near_origin = true;
                }
            }
            ClipUpdate::Merge(m) => {
                assert_eq!(m.new_chunk.lod, 1);
                if (m.new_chunk.minimum.x - 50).abs() <= 1 {
                    saw_merge_near_old = true;
                }
            }
        }
    }
    assert!(saw_split_near_origin);
    assert!(saw_merge_near_old);
    // replaying the stream on the active set of c_old yields the active
    // set of c_new
    let mut active = active_set(&cfg, roots, c_old);
    for u in updates.iter() {
        match u {
            ClipUpdate::Split(s) => {
                assert!(active.remove(&s.old_chunk));
                for k in s.new_chunks.iter() {
                    assert!(active.insert(*k));
                }
            }
            ClipUpdate::Merge(m) => {
                for k in m.old_chunks.iter() {
                    assert!(active.remove(k));
                }
                assert!(active.insert(m.new_chunk));
            }
        }
    }
    assert_eq!(active, active_set(&cfg, roots, c_new));
}

#[test]
fn clipmap_same_center_is_empty() {
    let cfg = ClipMapConfig {
        num_lods: 3,
        clip_radius: 2,
    };
    let roots = extent((-2, -2, -2), (5, 5, 5));
    let c = Point3i::new(3, -1, 2);
    let updates = find_clipmap_chunk_updates(&cfg, roots, c, c);
    assert_eq!(updates.len(), 0);
}
