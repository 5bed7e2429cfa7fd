use vstd::prelude::*;
use std::collections::HashMap;
use crate::array::Array3;
use crate::array::ArrayV;
use crate::codec::StorageError;
use crate::point::Point3i;
use vstd::arithmetic::div_mod::lemma_fundamental_div_mod_converse;

verus! {

broadcast use vstd::std_specs::hash::group_hash_axioms;

/// The address of a chunk: a level of detail and the chunk-unit coordinate
/// of its minimum corner.
#[derive(Clone, Copy, PartialEq, Eq, Structural, Hash, Debug)]
pub struct ChunkKey {
    pub lod: u8,
    pub minimum: Point3i,
}

/// Keys a backend can hold: a small level of detail and chunk coordinates
/// that fit the packed 20-bit fields of `key_code`.
pub open spec fn key_ok(k: ChunkKey) -> bool {
    &&& k.lod < 16
    &&& -0x80000 <= k.minimum.x < 0x80000
    &&& -0x80000 <= k.minimum.y < 0x80000
    &&& -0x80000 <= k.minimum.z < 0x80000
}

pub open spec fn bias(c: i32) -> int {
    c + 0x80000
}

/// The injective packing of a chunk key into a hashable `u64`.
pub open spec fn key_code_spec(k: ChunkKey) -> u64 {
    ((k.lod as int) * 0x1000000000000000 + bias(k.minimum.x) * 0x10000000000 + bias(k.minimum.y)
        * 0x100000 + bias(k.minimum.z)) as u64
}

pub fn key_code(k: ChunkKey) -> (r: u64)
    requires
        key_ok(k),
    ensures
        r == key_code_spec(k),
{
    (k.lod as u64) * 0x1000000000000000 + ((k.minimum.x + 0x80000) as u64) * 0x10000000000 + ((
    k.minimum.y + 0x80000) as u64) * 0x100000 + ((k.minimum.z + 0x80000) as u64)
}

/// Two keys with the same packed code are the same key.
pub proof fn lemma_key_code_injective(k1: ChunkKey, k2: ChunkKey)
    requires
        key_ok(k1),
        key_ok(k2),
        key_code_spec(k1) == key_code_spec(k2),
    ensures
        k1 == k2,
{
    let c = key_code_spec(k1) as int;
    let q1 = (k1.lod as int) * 0x10000000000 + bias(k1.minimum.x) * 0x100000 + bias(k1.minimum.y);
    let q2 = (k2.lod as int) * 0x10000000000 + bias(k2.minimum.x) * 0x100000 + bias(k2.minimum.y);
    lemma_fundamental_div_mod_converse(c, 0x100000, q1, bias(k1.minimum.z));
    lemma_fundamental_div_mod_converse(c, 0x100000, q2, bias(k2.minimum.z));
    let q = c / 0x100000;
    let r1 = (k1.lod as int) * 0x100000 + bias(k1.minimum.x);
    let r2 = (k2.lod as int) * 0x100000 + bias(k2.minimum.x);
    lemma_fundamental_div_mod_converse(q, 0x100000, r1, bias(k1.minimum.y));
    lemma_fundamental_div_mod_converse(q, 0x100000, r2, bias(k2.minimum.y));
    let q3 = q / 0x100000;
    lemma_fundamental_div_mod_converse(q3, 0x100000, k1.lod as int, bias(k1.minimum.x));
    lemma_fundamental_div_mod_converse(q3, 0x100000, k2.lod as int, bias(k2.minimum.x));
}

/// The capability set of a chunk storage backend. The mathematical model is
/// a finite map from chunk keys to array values; promotion, compression and
/// eviction inside a backend never change the model.
pub trait ChunkStorage: Sized {
    spec fn contents(&self) -> Map<ChunkKey, ArrayV>;

    spec fn inv(&self) -> bool;

    /// Whether the next `store` may fail: the backend cannot make room
    /// (for the compressible backend, the cache is full and its coldest
    /// chunk does not compress under the configured encoding).
    spec fn store_may_fail(&self) -> bool;

    /// Whether this backend can never fail a write (no codec stands in the
    /// way). Fixed for each backend type.
    spec fn infallible(&self) -> bool;

    /// Remove and return the chunk at `key`, decompressing it if needed.
    fn take(&mut self, key: ChunkKey) -> (r: Option<Array3>)
        requires
            old(self).inv(),
            key_ok(key),
        ensures
            final(self).inv(),
            final(self).infallible() == old(self).infallible(),
            match r {
                Some(a) => old(self).contents().contains_key(key) && a.wf() && a@ == old(
                    self,
                ).contents()[key] && final(self).contents() == old(self).contents().remove(key),
                None => !old(self).contents().contains_key(key) && final(self).contents() == old(
                    self,
                ).contents(),
            },
    ;

    /// Store a chunk at `key`, which must be absent. A compressible
    /// backend fails with `CodecFailure` exactly when it is full and
    /// cannot compress its coldest chunk to make room; the model is then
    /// unchanged.
    fn store(&mut self, key: ChunkKey, chunk: Array3) -> (r: Result<(), StorageError>)
        requires
            old(self).inv(),
            key_ok(key),
            chunk.wf(),
            !old(self).contents().contains_key(key),
        ensures
            final(self).inv(),
            final(self).infallible() == old(self).infallible(),
            match r {
                Ok(u) => final(self).contents() == old(self).contents().insert(key, chunk@),
                Err(e) => e == StorageError::CodecFailure && final(self).contents() == old(
                    self,
                ).contents() && old(self).store_may_fail() && !old(self).infallible(),
            },
    ;

    /// Write one cell in place. Returns `Ok(true)` when the chunk exists
    /// and the cell is in range (exactly that cell changes), `Ok(false)`
    /// when there is nothing to write (the model is unchanged), and fails
    /// only as `store` does, leaving the model unchanged.
    fn set_cell(&mut self, key: ChunkKey, ci: u8, p: Point3i, v: i32) -> (r: Result<
        bool,
        StorageError,
    >)
        requires
            old(self).inv(),
            key_ok(key),
        ensures
            final(self).inv(),
            final(self).infallible() == old(self).infallible(),
            match r {
                Ok(b) => if b {
                    old(self).contents().contains_key(key) && ci < old(
                        self,
                    ).contents()[key].channels.len() && old(
                        self,
                    ).contents()[key].extent.contains_spec(p) && final(self).contents() == old(
                        self,
                    ).contents().insert(key, old(self).contents()[key].with_cell(ci as int, p, v))
                } else {
                    (!old(self).contents().contains_key(key) || ci >= old(
                        self,
                    ).contents()[key].channels.len() || !old(
                        self,
                    ).contents()[key].extent.contains_spec(p)) && final(self).contents() == old(
                        self,
                    ).contents() && (!old(self).contents().contains_key(key) ==> old(
                        self,
                    ).store_may_fail() == final(self).store_may_fail())
                },
                Err(e) => e == StorageError::CodecFailure && final(self).contents() == old(
                    self,
                ).contents() && old(self).store_may_fail() && !old(self).infallible(),
            },
    ;

    /// Read one cell. The backend may internally promote or reorder, but
    /// the model is unchanged.
    fn get_cell(&mut self, key: ChunkKey, ci: u8, p: Point3i) -> (r: Option<i32>)
        requires
            old(self).inv(),
            key_ok(key),
        ensures
            final(self).inv(),
            final(self).infallible() == old(self).infallible(),
            final(self).contents() == old(self).contents(),
            match r {
                Some(v) => old(self).contents().contains_key(key) && ci < old(
                    self,
                ).contents()[key].channels.len() && old(
                    self,
                ).contents()[key].extent.contains_spec(p) && v == old(self).contents()[key].cell(
                    ci as int,
                    p,
                ),
                None => !old(self).contents().contains_key(key) || ci >= old(
                    self,
                ).contents()[key].channels.len() || !old(self).contents()[key].extent.contains_spec(
                    p,
                ),
            },
    ;

    /// Whether a chunk exists at `key`.
    fn contains(&self, key: ChunkKey) -> (r: bool)
        requires
            self.inv(),
            key_ok(key),
        ensures
            r == self.contents().contains_key(key),
    ;
}

/// The hash-map backend: every chunk stays decompressed.
pub struct HashMapStorage {
    map: HashMap<u64, Array3>,
}

impl HashMapStorage {
    pub fn new() -> (r: HashMapStorage)
        ensures
            r.inv(),
            r.contents() == Map::<ChunkKey, ArrayV>::empty(),
    {
        let r = HashMapStorage { map: HashMap::new() };
        proof {
            assert(r.contents() =~= Map::<ChunkKey, ArrayV>::empty());
        }
        r
    }
}

impl ChunkStorage for HashMapStorage {
    closed spec fn contents(&self) -> Map<ChunkKey, ArrayV> {
        Map::new(
            |k: ChunkKey| key_ok(k) && self.map@.contains_key(key_code_spec(k)),
            |k: ChunkKey| self.map@[key_code_spec(k)]@,
        )
    }

    closed spec fn inv(&self) -> bool {
        forall|c: u64| self.map@.contains_key(c) ==> (#[trigger] self.map@[c]).wf()
    }

    closed spec fn store_may_fail(&self) -> bool {
        false
    }

    closed spec fn infallible(&self) -> bool {
        true
    }

    #[verifier::spinoff_prover]
    #[verifier::rlimit(100)]
    fn take(&mut self, key: ChunkKey) -> (r: Option<Array3>)
    {
        let code = key_code(key);
        let r = self.map.remove(&code);
        match r {
            Some(a) => {
                proof {
                    let m1 = self.contents();
                    let m2 = old(self).contents().remove(key);
                    assert forall|k2: ChunkKey|
                        m1.contains_key(k2) == m2.contains_key(k2) && (m1.contains_key(k2)
                            ==> m1[k2] == m2[k2]) by {
                        if key_ok(k2) && key_code_spec(k2) == key_code_spec(key) {
                            lemma_key_code_injective(k2, key);
                        }
                    }
                    assert(m1 =~= m2);
                }
                Some(a)
            },
            None => {
                proof {
                    assert(self.contents() =~= old(self).contents());
                }
                None
            },
        }
    }

    #[verifier::spinoff_prover]
    #[verifier::rlimit(100)]
    fn store(&mut self, key: ChunkKey, chunk: Array3) -> (r: Result<(), StorageError>)
    {
        let code = key_code(key);
        self.map.insert(code, chunk);
        proof {
            let m1 = self.contents();
            let m2 = old(self).contents().insert(key, chunk@);
            assert forall|k2: ChunkKey|
                m1.contains_key(k2) == m2.contains_key(k2) && (m1.contains_key(k2) ==> m1[k2]
                    == m2[k2]) by {
                if key_ok(k2) && key_code_spec(k2) == key_code_spec(key) {
                    lemma_key_code_injective(k2, key);
                }
            }
            assert(m1 =~= m2);
        }
        Ok(())
    }

    fn get_cell(&mut self, key: ChunkKey, ci: u8, p: Point3i) -> (r: Option<i32>)
    {
        let code = key_code(key);
        match self.map.get(&code) {
            Some(a) => {
                if ci < a.channel_count() && a.get_extent().contains(p) {
                    Some(a.get_point(ci, p))
                } else {
                    None
                }
            },
            None => None,
        }
    }

    #[verifier::rlimit(100)]
    fn set_cell(&mut self, key: ChunkKey, ci: u8, p: Point3i, v: i32) -> (r: Result<
        bool,
        StorageError,
    >)
    {
        let code = key_code(key);
        match self.map.remove(&code) {
            Some(mut a) => {
                if ci < a.channel_count() && a.get_extent().contains(p) {
                    a.set_point(ci, p, v);
                    self.map.insert(code, a);
                    proof {
                        let m1 = self.contents();
                        let m2 = old(self).contents().insert(
                            key,
                            old(self).contents()[key].with_cell(ci as int, p, v),
                        );
                        assert forall|k2: ChunkKey|
                            m1.contains_key(k2) == m2.contains_key(k2) && (m1.contains_key(k2)
                                ==> m1[k2] == m2[k2]) by {
                            if key_ok(k2) && key_code_spec(k2) == key_code_spec(key) {
                                lemma_key_code_injective(k2, key);
                            }
                        }
                        assert(m1 =~= m2);
                    }
                    Ok(true)
                } else {
                    self.map.insert(code, a);
                    proof {
                        let m1 = self.contents();
                        let m2 = old(self).contents();
                        assert forall|k2: ChunkKey|
                            m1.contains_key(k2) == m2.contains_key(k2) && (m1.contains_key(k2)
                                ==> m1[k2] == m2[k2]) by {
                            if key_ok(k2) && key_code_spec(k2) == key_code_spec(key) {
                                lemma_key_code_injective(k2, key);
                            }
                        }
                        assert(m1 =~= m2);
                    }
                    Ok(false)
                }
            },
            None => {
                proof {
                    assert(self.contents() =~= old(self).contents());
                }
                Ok(false)
            },
        }
    }

    fn contains(&self, key: ChunkKey) -> (r: bool)
    {
        let code = key_code(key);
        self.map.contains_key(&code)
    }
}

} // verus!
