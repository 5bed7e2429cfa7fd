use building_blocks_storage::array::Array3;
use building_blocks_storage::chunk_map::ChunkMapBuilder;
use building_blocks_storage::codec::ByteCodec;
use building_blocks_storage::codec::StorageError;
use building_blocks_storage::compression::ArrayEncoding;
use building_blocks_storage::compression::Compressed;
use building_blocks_storage::extent::Extent3i;
use building_blocks_storage::point::Point3i;
use building_blocks_storage::storage::ChunkKey;
use building_blocks_storage::IsEmpty;

fn extent(min: (i32, i32, i32), shape: (i32, i32, i32)) -> Extent3i {
    Extent3i::new(
        Point3i::new(min.0, min.1, min.2),
        Point3i::new(shape.0, shape.1, shape.2),
    )
}

fn test_array_16() -> Array3 {
    let e = extent((0, 0, 0), (16, 16, 16));
    let mut a = Array3::new_fill(e, 1, 0);
    for p in e.points() {
        a.set_point(0, p, p.x % 3 + p.y % 3 + p.z % 3);
    }
    a
}

fn arrays_equal(a: &Array3, b: &Array3) -> bool {
    if a.get_extent() != b.get_extent() || a.channel_count() != b.channel_count() {
        return false;
    }
    for p in a.get_extent().points() {
        for ci in 0..a.channel_count() {
            if a.get_point(ci, p) != b.get_point(ci, p) {
                return false;
            }
        }
    }
    true
}

#[test]
fn is_empty_for_bool() {
    assert!(false.is_empty());
    assert!(!true.is_empty());
}

#[test]
fn extent_iteration_visits_each_point_once() {
    let e = extent((-2, 1, 0), (3, 4, 5));
    let pts = e.points();
    assert_eq!(pts.len(), 60);
    for (i, p) in pts.iter().enumerate() {
        assert!(e.contains(*p));
        for q in pts.iter().skip(i + 1) {
            assert_ne!(p, q);
        }
    }
}

#[test]
fn extent_intersection() {
    let a = extent((0, 0, 0), (4, 4, 4));
    let b = extent((2, 2, 2), (4, 4, 4));
    let i = a.intersection(&b);
    assert_eq!(i.minimum, Point3i::new(2, 2, 2));
    assert_eq!(i.shape, Point3i::new(2, 2, 2));
    assert_eq!(i.num_points(), 8);
}

#[test]
fn array_set_then_get() {
    let e = extent((0, 0, 0), (8, 8, 8));
    let mut a = Array3::new_fill(e, 2, 1);
    let p = Point3i::new(3, 4, 5);
    a.set_point(1, p, 42);
    assert_eq!(a.get_point(1, p), 42);
    assert_eq!(a.get_point(0, p), 1);
    assert_eq!(a.get_point(1, Point3i::new(3, 4, 6)), 1);
}

#[test]
fn array_copy_extent() {
    let e = extent((0, 0, 0), (4, 4, 4));
    let mut dst = Array3::new_fill(e, 1, 0);
    let mut src = Array3::new_fill(e, 1, 0);
    for p in e.points() {
        src.set_point(0, p, p.x + 10 * p.y + 100 * p.z);
    }
    let region = extent((1, 1, 1), (2, 2, 2));
    dst.copy_extent(&src, region);
    for p in e.points() {
        if region.contains(p) {
            assert_eq!(dst.get_point(0, p), src.get_point(0, p));
        } else {
            assert_eq!(dst.get_point(0, p), 0);
        }
    }
}

#[test]
fn compression_round_trip() {
    // a 16^3 array with a small repeating pattern compresses well and
    // restores exactly
    let a = test_array_16();
    let c = Compressed::compress_array(&a, ArrayEncoding::FastChannels, ByteCodec::Lz4 {
        level: 10,
    })
    .unwrap();
    let bytes = c.to_bytes();
    assert!(bytes.len() < 4 * 4096);
    let back = c.decompress();
    assert!(arrays_equal(&a, &back));
}

#[test]
fn compression_round_trip_serialized_snappy() {
    let a = test_array_16();
    let c = Compressed::compress_array(&a, ArrayEncoding::Serialized, ByteCodec::Snappy).unwrap();
    let back = c.decompress();
    assert!(arrays_equal(&a, &back));
    assert!(c.to_bytes().len() < 4 * 4096);
}

#[test]
fn compression_deterministic() {
    let a = test_array_16();
    for (enc, codec) in [
        (ArrayEncoding::FastChannels, ByteCodec::Lz4 { level: 10 }),
        (ArrayEncoding::FastChannels, ByteCodec::Snappy),
        (ArrayEncoding::Serialized, ByteCodec::Lz4 { level: 10 }),
    ] {
        let c1 = Compressed::compress_array(&a, enc, codec).unwrap();
        let c2 = Compressed::compress_array(&a, enc, codec).unwrap();
        assert_eq!(c1.to_bytes(), c2.to_bytes());
        assert!(arrays_equal(&c1.decompress(), &c2.decompress()));
    }
}

#[test]
fn codec_errors_on_garbage() {
    let garbage: Vec<u8> = vec![0xde, 0xad, 0xbe, 0xef, 0x01, 0x02];
    let lz4 = ByteCodec::Lz4 { level: 1 };
    assert_eq!(lz4.decompress(&garbage).unwrap_err(), StorageError::CorruptedBlob);
    let snappy = ByteCodec::Snappy;
    assert_eq!(snappy.decompress(&garbage).unwrap_err(), StorageError::CorruptedBlob);
}

#[test]
fn codec_raw_round_trip() {
    let data: Vec<u8> = (0..200u8).map(|b| b % 17).collect();
    for codec in [ByteCodec::Lz4 { level: 4 }, ByteCodec::Snappy] {
        let comp = codec.compress(&data).unwrap();
        assert_ne!(comp, data);
        let back = codec.decompress(&comp).unwrap();
        assert_eq!(back, data);
    }
}

#[test]
fn map_set_then_get() {
    let mut m = ChunkMapBuilder::new(4, 0).build_hash();
    let p = Point3i::new(-7, 100, 3);
    m.set_point(0, p, 55).unwrap();
    assert_eq!(m.get_point(0, p), 55);
    assert_eq!(m.get_point(0, Point3i::new(-7, 100, 4)), 0);
    assert_eq!(m.get_point(1, p), 0);
}

#[test]
fn cross_chunk_fill() {
    // chunk exponent 4 (16^3 chunks), ambient 0: a 2x2x2 fill at the
    // corner (15,15,15) touches exactly 8 chunks, one written cell each
    let mut m = ChunkMapBuilder::new(4, 0).build_hash();
    let region = extent((15, 15, 15), (2, 2, 2));
    m.fill_extent(0, region, 7).unwrap();
    let mut existing = 0;
    for cx in 0..2 {
        for cy in 0..2 {
            for cz in 0..2 {
                let key = ChunkKey {
                    lod: 0,
                    minimum: Point3i::new(cx, cy, cz),
                };
                if !m.is_ambient(key) {
                    existing += 1;
                    // count the written cells of this chunk
                    let chunk_extent = extent((cx * 16, cy * 16, cz * 16), (16, 16, 16));
                    let mut sevens = 0;
                    let mut others = 0;
                    for p in chunk_extent.points() {
                        let v = m.get_point(0, p);
                        if v == 7 {
                            sevens += 1;
                        } else if v != 0 {
                            others += 1;
                        }
                    }
                    assert_eq!(sevens, 1);
                    assert_eq!(others, 0);
                }
            }
        }
    }
    assert_eq!(existing, 8);
    assert!(m.is_ambient(ChunkKey {
        lod: 0,
        minimum: Point3i::new(2, 0, 0)
    }));
}

#[test]
fn map_copy_extent_from_array() {
    let mut m = ChunkMapBuilder::new(4, 0).build_hash();
    let e = extent((0, 0, 0), (20, 4, 4));
    let mut src = Array3::new_fill(e, 1, 0);
    for p in e.points() {
        src.set_point(0, p, p.x + p.y + p.z);
    }
    let region = extent((10, 0, 0), (8, 2, 2));
    m.copy_extent_from(0, region, &src).unwrap();
    for p in e.points() {
        if region.contains(p) {
            assert_eq!(m.get_point(0, p), p.x + p.y + p.z);
        } else {
            assert_eq!(m.get_point(0, p), 0);
        }
    }
}

#[test]
fn map_remove_chunk() {
    let mut m = ChunkMapBuilder::new(4, 0).build_hash();
    let p = Point3i::new(1, 2, 3);
    m.set_point(0, p, 9).unwrap();
    let key = ChunkKey {
        lod: 0,
        minimum: Point3i::new(0, 0, 0),
    };
    assert!(!m.is_ambient(key));
    let removed = m.remove_chunk(key);
    assert!(removed.is_some());
    assert!(m.is_ambient(key));
    assert_eq!(m.get_point(0, p), 0);
}

#[test]
fn map_read_extent_snapshot() {
    let mut m = ChunkMapBuilder::new(4, 9).build_hash();
    m.set_point(0, Point3i::new(3, 3, 3), 1).unwrap();
    m.set_point(0, Point3i::new(20, 0, 0), 2).unwrap();
    let region = extent((0, 0, 0), (24, 4, 4));
    let snap = m.read_extent(0, region);
    for p in region.points() {
        let expect = if p == Point3i::new(3, 3, 3) {
            1
        } else if p == Point3i::new(20, 0, 0) {
            2
        } else {
            9
        };
        assert_eq!(snap.get_point(0, p), expect);
    }
}
