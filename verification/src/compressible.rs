use vstd::prelude::*;
use std::collections::HashMap;
use crate::array::Array3;
use crate::array::ArrayV;
use crate::codec::ByteCodec;
use crate::codec::StorageError;
use crate::compression::ArrayEncoding;
use crate::compression::Compressed;
use crate::point::Point3i;
use crate::storage::ChunkKey;
use crate::storage::ChunkStorage;
use crate::storage::key_ok;
use crate::storage::key_code;
use crate::storage::key_code_spec;
use crate::storage::lemma_key_code_injective;

verus! {

broadcast use vstd::std_specs::hash::group_hash_axioms;

/// Whether some cache entry holds `k`.
pub open spec fn seq_has_key(s: Seq<(ChunkKey, Array3)>, k: ChunkKey) -> bool {
    exists|i: int| 0 <= i < s.len() && s[i].0 == k
}

/// The index of the entry holding `k`.
pub open spec fn seq_key_at(s: Seq<(ChunkKey, Array3)>, k: ChunkKey) -> int {
    choose|i: int| 0 <= i < s.len() && s[i].0 == k
}

/// With pairwise-distinct keys, any entry holding `k` is the chosen one.
pub proof fn lemma_seq_value(s: Seq<(ChunkKey, Array3)>, k: ChunkKey, j: int)
    requires
        forall|i1: int, i2: int|
            0 <= i1 < i2 < s.len() ==> (#[trigger] s[i1]).0 != (#[trigger] s[i2]).0,
        0 <= j < s.len(),
        s[j].0 == k,
    ensures
        seq_has_key(s, k),
        seq_key_at(s, k) == j,
{
    assert(seq_has_key(s, k));
    let i = seq_key_at(s, k);
    if i < j {
        assert(s[i].0 != s[j].0);
    } else if j < i {
        assert(s[j].0 != s[i].0);
    }
}

/// The least-recently-used shape of a store: the stored key becomes the
/// most recently used; a full cache first retires its coldest entry.
pub open spec fn lru_store_shape(
    pre: Seq<ChunkKey>,
    post: Seq<ChunkKey>,
    capacity: int,
    key: ChunkKey,
) -> bool {
    if pre.len() < capacity {
        post == pre.push(key)
    } else {
        post == pre.drop_first().push(key)
    }
}

/// The most-recently-used bump of a read: the touched key moves to the
/// back of the recency order, everything else keeps its relative order.
pub open spec fn lru_bump_shape(pre: Seq<ChunkKey>, post: Seq<ChunkKey>, key: ChunkKey) -> bool {
    exists|i: int| 0 <= i < pre.len() && pre[i] == key && post == pre.remove(i).push(key)
}

/// The compressible backend: a bounded cache of decompressed chunks in
/// least-recently-used order (index 0 is coldest, the back is most recently
/// used) and a cold store of compressed chunks. Every key lives in exactly
/// one of the two; reads promote cold entries into the cache, and inserting
/// into a full cache evicts the least recently used entry into the cold
/// store through the configured encoding.
pub struct CompressibleStorage {
    cache: Vec<(ChunkKey, Array3)>,
    cold: HashMap<u64, Compressed>,
    capacity: usize,
    encoding: ArrayEncoding,
    codec: ByteCodec,
}

impl CompressibleStorage {
    /// The cached keys, coldest first.
    pub closed spec fn cached_spec(self) -> Seq<ChunkKey> {
        self.cache@.map_values(|e: (ChunkKey, Array3)| e.0)
    }

    pub closed spec fn capacity_spec(self) -> int {
        self.capacity as int
    }

    pub closed spec fn in_cache(self, k: ChunkKey) -> bool {
        seq_has_key(self.cache@, k)
    }

    pub closed spec fn in_cold(self, k: ChunkKey) -> bool {
        self.cold@.contains_key(key_code_spec(k))
    }

    /// Build a backend; a zero capacity is refused.
    pub fn new(capacity: usize, encoding: ArrayEncoding, codec: ByteCodec) -> (r: Result<
        CompressibleStorage,
        StorageError,
    >)
        ensures
            match r {
                Ok(s) => capacity >= 1 && s.inv() && s.contents() == Map::<
                    ChunkKey,
                    ArrayV,
                >::empty() && s.capacity_spec() == capacity,
                Err(e) => capacity == 0 && e == StorageError::CacheCapacityZero,
            },
    {
        if capacity == 0 {
            return Err(StorageError::CacheCapacityZero);
        }
        let r = CompressibleStorage {
            cache: Vec::new(),
            cold: HashMap::new(),
            capacity,
            encoding,
            codec,
        };
        proof {
            assert(r.contents() =~= Map::<ChunkKey, ArrayV>::empty());
        }
        Ok(r)
    }

    /// The index of `key` in the cache, if cached.
    fn find(&self, key: ChunkKey) -> (r: Option<usize>)
        ensures
            match r {
                Some(i) => i < self.cache@.len() && self.cache@[i as int].0 == key,
                None => !seq_has_key(self.cache@, key),
            },
    {
        let mut i: usize = 0;
        let n = self.cache.len();
        while i < n
            invariant
                n == self.cache@.len(),
                i <= n,
                forall|j: int| 0 <= j < i ==> (#[trigger] self.cache@[j]).0 != key,
            decreases n - i,
        {
            let e = &self.cache[i];
            if e.0.lod == key.lod && e.0.minimum.x == key.minimum.x && e.0.minimum.y
                == key.minimum.y && e.0.minimum.z == key.minimum.z {
                return Some(i);
            }
            i = i + 1;
        }
        None
    }

    /// The cached keys, coldest first, as a vector.
    pub fn cached_keys(&self) -> (r: Vec<ChunkKey>)
        ensures
            r@ == self.cached_spec(),
    {
        let mut r: Vec<ChunkKey> = Vec::new();
        let mut i: usize = 0;
        let n = self.cache.len();
        while i < n
            invariant
                n == self.cache@.len(),
                i <= n,
                r@.len() == i,
                forall|j: int| 0 <= j < i ==> r@[j] == (#[trigger] self.cache@[j]).0,
            decreases n - i,
        {
            let e = &self.cache[i];
            r.push(e.0);
            i = i + 1;
        }
        proof {
            assert(r@ =~= self.cached_spec());
        }
        r
    }

    /// Whether `key` currently sits in the cold store.
    pub fn cold_contains(&self, key: ChunkKey) -> (r: bool)
        requires
            key_ok(key),
        ensures
            r == self.in_cold(key),
    {
        let code = key_code(key);
        self.cold.contains_key(&code)
    }

    /// Whether `key` currently sits in the cache.
    pub fn cache_contains(&self, key: ChunkKey) -> (r: bool)
        ensures
            r == self.in_cache(key),
    {
        match self.find(key) {
            Some(i) => {
                proof {
                    assert(seq_has_key(self.cache@, key));
                }
                true
            },
            None => false,
        }
    }
}

impl ChunkStorage for CompressibleStorage {
    closed spec fn contents(&self) -> Map<ChunkKey, ArrayV> {
        Map::new(
            |k: ChunkKey| key_ok(k) && (self.in_cache(k) || self.in_cold(k)),
            |k: ChunkKey|
                if self.in_cache(k) {
                    self.cache@[seq_key_at(self.cache@, k)].1@
                } else {
                    self.cold@[key_code_spec(k)]@
                },
        )
    }

    closed spec fn store_may_fail(&self) -> bool {
        self.cache@.len() >= self.capacity && crate::compression::encode_spec(
            self.cache@[0].1@,
            self.encoding,
            self.codec,
        ).is_none()
    }

    closed spec fn infallible(&self) -> bool {
        false
    }

    closed spec fn inv(&self) -> bool {
        &&& 1 <= self.capacity
        &&& self.cache@.len() <= self.capacity
        &&& forall|i: int|
            0 <= i < self.cache@.len() ==> key_ok((#[trigger] self.cache@[i]).0)
                && self.cache@[i].1.wf()
        &&& forall|i1: int, i2: int|
            0 <= i1 < i2 < self.cache@.len() ==> (#[trigger] self.cache@[i1]).0 != (
            #[trigger] self.cache@[i2]).0
        &&& forall|i: int|
            0 <= i < self.cache@.len() ==> !self.cold@.contains_key(
                key_code_spec((#[trigger] self.cache@[i]).0),
            )
    }

    #[verifier::rlimit(100)]
    fn take(&mut self, key: ChunkKey) -> (r: Option<Array3>)
    {
        match self.find(key) {
            Some(i) => {
                proof {
                    lemma_seq_value(self.cache@, key, i as int);
                }
                let e = self.cache.remove(i);
                proof {
                    let pre = old(self).cache@;
                    let post = self.cache@;
                    assert forall|j1: int, j2: int|
                        0 <= j1 < j2 < post.len() implies (#[trigger] post[j1]).0 != (
                    #[trigger] post[j2]).0 by {
                        if j1 < i as int {
                            assert(post[j1] == pre[j1]);
                        } else {
                            assert(post[j1] == pre[j1 + 1]);
                        }
                        if j2 < i as int {
                            assert(post[j2] == pre[j2]);
                        } else {
                            assert(post[j2] == pre[j2 + 1]);
                        }
                    }
                    assert forall|k2: ChunkKey| true implies (seq_has_key(post, k2) <==> (
                    seq_has_key(pre, k2) && k2 != key)) by {
                        if seq_has_key(post, k2) {
                            let j = seq_key_at(post, k2);
                            if j < i as int {
                                assert(pre[j].0 == k2);
                                lemma_seq_value(pre, k2, j);
                            } else {
                                assert(pre[j + 1].0 == k2);
                                lemma_seq_value(pre, k2, j + 1);
                            }
                        }
                        if seq_has_key(pre, k2) && k2 != key {
                            let j = seq_key_at(pre, k2);
                            assert(pre[j].0 == k2);
                            lemma_seq_value(pre, k2, j);
                            if j < i as int {
                                assert(post[j].0 == k2);
                            } else {
                                assert(post[j - 1] == pre[j]);
                                assert(post[j - 1].0 == k2);
                            }
                        }
                    }
                    assert forall|k2: ChunkKey| seq_has_key(post, k2) implies post[seq_key_at(
                        post,
                        k2,
                    )].1 == pre[seq_key_at(pre, k2)].1 by {
                        let j = seq_key_at(post, k2);
                        assert(post[j].0 == k2);
                        if j < i as int {
                            assert(post[j] == pre[j]);
                            lemma_seq_value(pre, k2, j);
                        } else {
                            assert(post[j] == pre[j + 1]);
                            lemma_seq_value(pre, k2, j + 1);
                        }
                    }
                    assert(self.contents() =~= old(self).contents().remove(key));
                    assert(old(self).contents()[key] == e.1@);
                }
                Some(e.1)
            },
            None => {
                let code = key_code(key);
                let taken = self.cold.remove(&code);
                match taken {
                    Some(c) => {
                        let a = c.decompress();
                        proof {
                            assert forall|k2: ChunkKey| key_ok(k2) implies (self.in_cold(k2) <==> (old(
                                self,
                            ).in_cold(k2) && k2 != key)) by {
                                if key_code_spec(k2) == key_code_spec(key) {
                                    lemma_key_code_injective(k2, key);
                                }
                            }
                            assert(self.contents() =~= old(self).contents().remove(key));
                            assert(old(self).contents()[key] == c@);
                        }
                        Some(a)
                    },
                    None => {
                        proof {
                            assert(self.contents() =~= old(self).contents());
                        }
                        None
                    },
                }
            },
        }
    }

    #[verifier::rlimit(100)]
    fn store(&mut self, key: ChunkKey, chunk: Array3) -> (r: Result<(), StorageError>)
        ensures
            (match r {
                Ok(u) => lru_store_shape(
                    old(self).cached_spec(),
                    final(self).cached_spec(),
                    old(self).capacity_spec(),
                    key,
                ),
                Err(e) => final(self).cached_spec() == old(self).cached_spec(),
            }),
    {
        proof {
            assert(!self.in_cache(key));
        }
        if self.cache.len() == self.capacity {
            let lru = &self.cache[0];
            let comp_res = Compressed::compress_array(&lru.1, self.encoding, self.codec);
            match comp_res {
                Ok(comp) => {
                    let e = self.cache.remove(0);
                    let ecode = key_code(e.0);
                    self.cold.insert(ecode, comp);
                    proof {
                        let pre = old(self).cache@;
                        let post = self.cache@;
                        let ek = pre[0].0;
                        assert(forall|j: int| 0 <= j < post.len() ==> post[j] == pre[j + 1]);
                        assert forall|k2: ChunkKey| true implies (seq_has_key(post, k2) <==> (
                        seq_has_key(pre, k2) && k2 != ek)) by {
                            if seq_has_key(post, k2) {
                                let j = seq_key_at(post, k2);
                                lemma_seq_value(pre, k2, j + 1);
                            }
                            if seq_has_key(pre, k2) && k2 != ek {
                                let j = seq_key_at(pre, k2);
                                assert(pre[j].0 == k2);
                                lemma_seq_value(pre, k2, j);
                                assert(j >= 1);
                                assert(post[j - 1].0 == k2);
                            }
                        }
                        assert forall|k2: ChunkKey| seq_has_key(post, k2) implies post[seq_key_at(
                            post,
                            k2,
                        )].1 == pre[seq_key_at(pre, k2)].1 by {
                            let j = seq_key_at(post, k2);
                            assert(post[j].0 == k2);
                            assert(post[j] == pre[j + 1]);
                            lemma_seq_value(pre, k2, j + 1);
                        }
                        assert forall|k2: ChunkKey| key_ok(k2) implies (self.in_cold(k2) <==> (old(
                            self,
                        ).in_cold(k2) || k2 == ek)) by {
                            if key_code_spec(k2) == key_code_spec(ek) {
                                lemma_key_code_injective(k2, ek);
                            }
                        }
                        lemma_seq_value(pre, ek, 0);
                        assert(self.contents() =~= old(self).contents());
                    }
                },
                Err(_) => {
                    proof {
                        assert(old(self).store_may_fail());
                    }
                    return Err(StorageError::CodecFailure);
                },
            }
        }
        let ghost mid = *self;
        self.cache.push((key, chunk));
        proof {
            let pre = mid.cache@;
            let post = self.cache@;
            assert(post == pre.push((key, chunk)));
            assert forall|k2: ChunkKey| true implies (seq_has_key(post, k2) <==> (seq_has_key(
                pre,
                k2,
            ) || k2 == key)) by {
                if seq_has_key(post, k2) {
                    let j = seq_key_at(post, k2);
                    if j < pre.len() {
                        lemma_seq_value(pre, k2, j);
                    }
                }
                if seq_has_key(pre, k2) {
                    let j = seq_key_at(pre, k2);
                    assert(post[j].0 == k2);
                }
                if k2 == key {
                    assert(post[post.len() - 1].0 == k2);
                }
            }
            assert(!seq_has_key(pre, key));
            assert forall|j1: int, j2: int|
                0 <= j1 < j2 < post.len() implies (#[trigger] post[j1]).0 != (
            #[trigger] post[j2]).0 by {
                if j2 < post.len() - 1 {
                    assert(post[j1] == pre[j1] && post[j2] == pre[j2]);
                } else {
                    assert(post[j2].0 == key);
                    if j1 < post.len() - 1 {
                        assert(post[j1] == pre[j1]);
                        if pre[j1].0 == key {
                            lemma_seq_value(pre, key, j1);
                        }
                    }
                }
            }
            assert forall|k2: ChunkKey| seq_has_key(post, k2) && k2 != key implies post[seq_key_at(
                post,
                k2,
            )].1 == pre[seq_key_at(pre, k2)].1 by {
                let j = seq_key_at(post, k2);
                assert(post[j].0 == k2);
                assert(j < pre.len());
                assert(post[j] == pre[j]);
                lemma_seq_value(pre, k2, j);
            }
            lemma_seq_value(post, key, post.len() - 1);
            assert(self.contents() =~= mid.contents().insert(key, chunk@));
            assert(self.contents() =~= old(self).contents().insert(key, chunk@));
            if old(self).cache@.len() < old(self).capacity {
                assert(mid.cache@ == old(self).cache@);
                assert(self.cached_spec() =~= old(self).cached_spec().push(key));
            } else {
                assert(mid.cache@ == old(self).cache@.remove(0));
                assert(forall|j: int|
                    0 <= j < mid.cache@.len() ==> mid.cache@[j] == old(self).cache@[j + 1]);
                assert(self.cached_spec() =~= old(self).cached_spec().drop_first().push(key));
            }
        }
        Ok(())
    }

    #[verifier::rlimit(100)]
    fn get_cell(&mut self, key: ChunkKey, ci: u8, p: Point3i) -> (r: Option<i32>)
        ensures
            old(self).in_cache(key) ==> lru_bump_shape(
                old(self).cached_spec(),
                final(self).cached_spec(),
                key,
            ),
    {
        match self.find(key) {
            Some(i) => {
                proof {
                    lemma_seq_value(self.cache@, key, i as int);
                }
                let e = self.cache.remove(i);
                let v = if ci < e.1.channel_count() && e.1.get_extent().contains(p) {
                    Some(e.1.get_point(ci, p))
                } else {
                    None
                };
                self.cache.push(e);
                proof {
                    let pre = old(self).cache@;
                    let post = self.cache@;
                    assert(post == pre.remove(i as int).push(pre[i as int]));
                    assert forall|k2: ChunkKey| true implies (seq_has_key(post, k2) <==> seq_has_key(
                        pre,
                        k2,
                    )) by {
                        if seq_has_key(post, k2) {
                            let j = seq_key_at(post, k2);
                            if j < post.len() - 1 {
                                if j < i as int {
                                    lemma_seq_value(pre, k2, j);
                                } else {
                                    lemma_seq_value(pre, k2, j + 1);
                                }
                            } else {
                                lemma_seq_value(pre, k2, i as int);
                            }
                        }
                        if seq_has_key(pre, k2) {
                            let j = seq_key_at(pre, k2);
                            assert(pre[j].0 == k2);
                            if j == i as int {
                                assert(post[post.len() - 1].0 == k2);
                            } else if j < i as int {
                                assert(post[j].0 == k2);
                            } else {
                                assert(post[j - 1] == pre[j]);
                                assert(post[j - 1].0 == k2);
                            }
                        }
                    }
                    assert forall|j1: int, j2: int|
                        0 <= j1 < j2 < post.len() implies (#[trigger] post[j1]).0 != (
                    #[trigger] post[j2]).0 by {
                        let a1 = if j1 < post.len() - 1 {
                            if j1 < i as int {
                                j1
                            } else {
                                j1 + 1
                            }
                        } else {
                            i as int
                        };
                        let a2 = if j2 < post.len() - 1 {
                            if j2 < i as int {
                                j2
                            } else {
                                j2 + 1
                            }
                        } else {
                            i as int
                        };
                        assert(post[j1] == pre[a1]);
                        assert(post[j2] == pre[a2]);
                        if pre[a1].0 == pre[a2].0 {
                            if a1 < a2 {
                                assert(pre[a1].0 != pre[a2].0);
                            } else if a2 < a1 {
                                assert(pre[a2].0 != pre[a1].0);
                            }
                        }
                    }
                    assert forall|k2: ChunkKey| seq_has_key(post, k2) implies post[seq_key_at(
                        post,
                        k2,
                    )].1 == pre[seq_key_at(pre, k2)].1 by {
                        let j = seq_key_at(post, k2);
                        assert(post[j].0 == k2);
                        if j < post.len() - 1 {
                            if j < i as int {
                                assert(post[j] == pre[j]);
                                lemma_seq_value(pre, k2, j);
                            } else {
                                assert(post[j] == pre[j + 1]);
                                lemma_seq_value(pre, k2, j + 1);
                            }
                        } else {
                            lemma_seq_value(pre, k2, i as int);
                        }
                    }
                    assert(self.contents() =~= old(self).contents());
                    assert(old(self).contents()[key] == pre[i as int].1@);
                    assert(old(self).cached_spec()[i as int] == key);
                    assert(self.cached_spec() =~= old(self).cached_spec().remove(i as int).push(
                        key,
                    ));
                }
                v
            },
            None => {
                proof {
                    assert(!old(self).in_cache(key));
                }
                let code = key_code(key);
                let taken = self.cold.remove(&code);
                match taken {
                    Some(c) => {
                        let a = c.decompress();
                        let v = if ci < a.channel_count() && a.get_extent().contains(p) {
                            Some(a.get_point(ci, p))
                        } else {
                            None
                        };
                        proof {
                            assert forall|k2: ChunkKey| key_ok(k2) implies (self.in_cold(k2) <==> (old(
                                self,
                            ).in_cold(k2) && k2 != key)) by {
                                if key_code_spec(k2) == key_code_spec(key) {
                                    lemma_key_code_injective(k2, key);
                                }
                            }
                            assert(self.contents() =~= old(self).contents().remove(key));
                            assert(old(self).contents()[key] == c@);
                        }
                        // promote `key`, evicting if the cache is full; if the
                        // eviction codec fails, put the entry back untouched.
                        let ghost mid = *self;
                        if self.cache.len() == self.capacity {
                            let lru = &self.cache[0];
                            let comp_res = Compressed::compress_array(
                                &lru.1,
                                self.encoding,
                                self.codec,
                            );
                            match comp_res {
                                Ok(comp) => {
                                    let e = self.cache.remove(0);
                                    let ecode = key_code(e.0);
                                    self.cold.insert(ecode, comp);
                                    proof {
                                        let pre = mid.cache@;
                                        let post = self.cache@;
                                        let ek = pre[0].0;
                                        assert(forall|j: int|
                                            0 <= j < post.len() ==> post[j] == pre[j + 1]);
                                        assert forall|k2: ChunkKey| true implies (seq_has_key(
                                            post,
                                            k2,
                                        ) <==> (seq_has_key(pre, k2) && k2 != ek)) by {
                                            if seq_has_key(post, k2) {
                                                let j = seq_key_at(post, k2);
                                                lemma_seq_value(pre, k2, j + 1);
                                            }
                                            if seq_has_key(pre, k2) && k2 != ek {
                                                let j = seq_key_at(pre, k2);
                                                assert(pre[j].0 == k2);
                                                lemma_seq_value(pre, k2, j);
                                                assert(j >= 1);
                                                assert(post[j - 1].0 == k2);
                                            }
                                        }
                                        assert forall|k2: ChunkKey|
                                            seq_has_key(post, k2) implies post[seq_key_at(
                                            post,
                                            k2,
                                        )].1 == pre[seq_key_at(pre, k2)].1 by {
                                            let j = seq_key_at(post, k2);
                                            assert(post[j].0 == k2);
                                            assert(post[j] == pre[j + 1]);
                                            lemma_seq_value(pre, k2, j + 1);
                                        }
                                        assert forall|k2: ChunkKey| key_ok(k2) implies (self.in_cold(k2)
                                            <==> (mid.in_cold(k2) || k2 == ek)) by {
                                            if key_code_spec(k2) == key_code_spec(ek) {
                                                lemma_key_code_injective(k2, ek);
                                            }
                                        }
                                        lemma_seq_value(pre, ek, 0);
                                        assert(self.contents() =~= mid.contents());
                                    }
                                    let ghost mid2 = *self;
                                    self.cache.push((key, a));
                                    proof {
                                        lemma_push_contents(mid2, *self, key, a);
                                        assert(self.contents() =~= old(self).contents());
                                    }
                                },
                                Err(_) => {
                                    self.cold.insert(code, c);
                                    proof {
                                        assert forall|k2: ChunkKey| key_ok(k2) implies (self.in_cold(k2)
                                            <==> (mid.in_cold(k2) || k2 == key)) by {
                                            if key_code_spec(k2) == key_code_spec(key) {
                                                lemma_key_code_injective(k2, key);
                                            }
                                        }
                                        assert(self.contents() =~= old(self).contents());
                                    }
                                },
                            }
                        } else {
                            self.cache.push((key, a));
                            proof {
                                lemma_push_contents(mid, *self, key, a);
                                assert(self.contents() =~= old(self).contents());
                            }
                        }
                        v
                    },
                    None => {
                        proof {
                            assert(self.contents() =~= old(self).contents());
                        }
                        None
                    },
                }
            },
        }
    }

    #[verifier::spinoff_prover]
    #[verifier::rlimit(100)]
    fn set_cell(&mut self, key: ChunkKey, ci: u8, p: Point3i, v: i32) -> (r: Result<
        bool,
        StorageError,
    >)
    {
        match self.find(key) {
            Some(i) => {
                proof {
                    lemma_seq_value(self.cache@, key, i as int);
                }
                let e = self.cache.remove(i);
                let (k0, mut arr) = e;
                let fits = ci < arr.channel_count() && arr.get_extent().contains(p);
                if fits {
                    arr.set_point(ci, p, v);
                }
                self.cache.push((k0, arr));
                proof {
                    let pre = old(self).cache@;
                    let post = self.cache@;
                    let ghost w = if fits {
                        pre[i as int].1@.with_cell(ci as int, p, v)
                    } else {
                        pre[i as int].1@
                    };
                    assert(arr@ == w);
                    assert(post == pre.remove(i as int).push((key, arr)));
                    assert forall|k2: ChunkKey| true implies (seq_has_key(post, k2) <==> seq_has_key(
                        pre,
                        k2,
                    )) by {
                        if seq_has_key(post, k2) {
                            let j = seq_key_at(post, k2);
                            if j < post.len() - 1 {
                                if j < i as int {
                                    lemma_seq_value(pre, k2, j);
                                } else {
                                    lemma_seq_value(pre, k2, j + 1);
                                }
                            } else {
                                lemma_seq_value(pre, k2, i as int);
                            }
                        }
                        if seq_has_key(pre, k2) {
                            let j = seq_key_at(pre, k2);
                            assert(pre[j].0 == k2);
                            if j == i as int {
                                assert(post[post.len() - 1].0 == k2);
                            } else if j < i as int {
                                assert(post[j].0 == k2);
                            } else {
                                assert(post[j - 1] == pre[j]);
                                assert(post[j - 1].0 == k2);
                            }
                        }
                    }
                    assert forall|j1: int, j2: int|
                        0 <= j1 < j2 < post.len() implies (#[trigger] post[j1]).0 != (
                    #[trigger] post[j2]).0 by {
                        let a1 = if j1 < post.len() - 1 {
                            if j1 < i as int {
                                j1
                            } else {
                                j1 + 1
                            }
                        } else {
                            i as int
                        };
                        let a2 = if j2 < post.len() - 1 {
                            if j2 < i as int {
                                j2
                            } else {
                                j2 + 1
                            }
                        } else {
                            i as int
                        };
                        assert(post[j1].0 == pre[a1].0);
                        assert(post[j2].0 == pre[a2].0);
                        if pre[a1].0 == pre[a2].0 {
                            if a1 < a2 {
                                assert(pre[a1].0 != pre[a2].0);
                            } else if a2 < a1 {
                                assert(pre[a2].0 != pre[a1].0);
                            }
                        }
                    }
                    assert forall|k2: ChunkKey| seq_has_key(post, k2) && k2 != key implies
                        post[seq_key_at(post, k2)].1 == pre[seq_key_at(pre, k2)].1 by {
                        let j = seq_key_at(post, k2);
                        assert(post[j].0 == k2);
                        assert(j < post.len() - 1);
                        if j < i as int {
                            assert(post[j] == pre[j]);
                            lemma_seq_value(pre, k2, j);
                        } else {
                            assert(post[j] == pre[j + 1]);
                            lemma_seq_value(pre, k2, j + 1);
                        }
                    }
                    lemma_seq_value(post, key, post.len() - 1);
                    if fits {
                        assert(self.contents() =~= old(self).contents().insert(
                            key,
                            old(self).contents()[key].with_cell(ci as int, p, v),
                        ));
                    } else {
                        assert(self.contents() =~= old(self).contents());
                    }
                }
                if fits {
                    Ok(true)
                } else {
                    Ok(false)
                }
            },
            None => {
                let code = key_code(key);
                let taken = self.cold.remove(&code);
                match taken {
                    Some(c) => {
                        let mut a = c.decompress();
                        proof {
                            assert forall|k2: ChunkKey| key_ok(k2) implies (self.in_cold(k2) <==> (
                            old(self).in_cold(k2) && k2 != key)) by {
                                if key_code_spec(k2) == key_code_spec(key) {
                                    lemma_key_code_injective(k2, key);
                                }
                            }
                            assert(self.contents() =~= old(self).contents().remove(key));
                            assert(old(self).contents()[key] == c@);
                        }
                        let fits = ci < a.channel_count() && a.get_extent().contains(p);
                        if !fits {
                            self.cold.insert(code, c);
                            proof {
                                assert forall|k2: ChunkKey| key_ok(k2) implies (self.in_cold(k2)
                                    <==> (old(self).in_cold(k2) || k2 == key)) by {
                                    if key_code_spec(k2) == key_code_spec(key) {
                                        lemma_key_code_injective(k2, key);
                                    }
                                }
                                assert(self.contents() =~= old(self).contents());
                            }
                            return Ok(false);
                        }
                        a.set_point(ci, p, v);
                        let ghost w = old(self).contents()[key].with_cell(ci as int, p, v);
                        proof {
                            assert(a@ == w);
                        }
                        // place the written chunk in the cache, evicting if
                        // full; if the eviction codec fails, put the old
                        // compressed entry back untouched.
                        let ghost mid = *self;
                        if self.cache.len() == self.capacity {
                            let lru = &self.cache[0];
                            let comp_res = Compressed::compress_array(
                                &lru.1,
                                self.encoding,
                                self.codec,
                            );
                            match comp_res {
                                Ok(comp) => {
                                    let e = self.cache.remove(0);
                                    let ecode = key_code(e.0);
                                    self.cold.insert(ecode, comp);
                                    proof {
                                        let pre = mid.cache@;
                                        let post = self.cache@;
                                        let ek = pre[0].0;
                                        assert(forall|j: int|
                                            0 <= j < post.len() ==> post[j] == pre[j + 1]);
                                        assert forall|k2: ChunkKey| true implies (seq_has_key(
                                            post,
                                            k2,
                                        ) <==> (seq_has_key(pre, k2) && k2 != ek)) by {
                                            if seq_has_key(post, k2) {
                                                let j = seq_key_at(post, k2);
                                                lemma_seq_value(pre, k2, j + 1);
                                            }
                                            if seq_has_key(pre, k2) && k2 != ek {
                                                let j = seq_key_at(pre, k2);
                                                assert(pre[j].0 == k2);
                                                lemma_seq_value(pre, k2, j);
                                                assert(j >= 1);
                                                assert(post[j - 1].0 == k2);
                                            }
                                        }
                                        assert forall|k2: ChunkKey|
                                            seq_has_key(post, k2) implies post[seq_key_at(
                                            post,
                                            k2,
                                        )].1 == pre[seq_key_at(pre, k2)].1 by {
                                            let j = seq_key_at(post, k2);
                                            assert(post[j].0 == k2);
                                            assert(post[j] == pre[j + 1]);
                                            lemma_seq_value(pre, k2, j + 1);
                                        }
                                        assert forall|k2: ChunkKey| key_ok(k2) implies (
                                        self.in_cold(k2) <==> (mid.in_cold(k2) || k2 == ek)) by {
                                            if key_code_spec(k2) == key_code_spec(ek) {
                                                lemma_key_code_injective(k2, ek);
                                            }
                                        }
                                        lemma_seq_value(pre, ek, 0);
                                        assert(self.contents() =~= mid.contents());
                                    }
                                    let ghost mid2 = *self;
                                    self.cache.push((key, a));
                                    proof {
                                        lemma_push_contents(mid2, *self, key, a);
                                        assert(self.contents() =~= old(self).contents().insert(
                                            key,
                                            w,
                                        ));
                                    }
                                    Ok(true)
                                },
                                Err(_) => {
                                    self.cold.insert(code, c);
                                    proof {
                                        assert(old(self).store_may_fail());
                                        assert forall|k2: ChunkKey| key_ok(k2) implies (
                                        self.in_cold(k2) <==> (mid.in_cold(k2) || k2 == key)) by {
                                            if key_code_spec(k2) == key_code_spec(key) {
                                                lemma_key_code_injective(k2, key);
                                            }
                                        }
                                        assert(self.contents() =~= old(self).contents());
                                    }
                                    Err(StorageError::CodecFailure)
                                },
                            }
                        } else {
                            self.cache.push((key, a));
                            proof {
                                lemma_push_contents(mid, *self, key, a);
                                assert(self.contents() =~= old(self).contents().insert(key, w));
                            }
                            Ok(true)
                        }
                    },
                    None => {
                        proof {
                            assert(self.contents() =~= old(self).contents());
                            assert(self.cache@ == old(self).cache@);
                        }
                        Ok(false)
                    },
                }
            },
        }
    }

    fn contains(&self, key: ChunkKey) -> (r: bool)
    {
        match self.find(key) {
            Some(i) => {
                proof {
                    lemma_seq_value(self.cache@, key, i as int);
                }
                true
            },
            None => {
                let code = key_code(key);
                self.cold.contains_key(&code)
            },
        }
    }
}

/// Pushing a fresh key onto the cache adds exactly that entry to the model.
proof fn lemma_push_contents(
    pre: CompressibleStorage,
    post: CompressibleStorage,
    key: ChunkKey,
    a: Array3,
)
    requires
        pre.inv(),
        key_ok(key),
        a.wf(),
        !seq_has_key(pre.cache_seq(), key),
        post.cache_seq() == pre.cache_seq().push((key, a)),
        post.cold_view() == pre.cold_view(),
    ensures
        forall|j1: int, j2: int|
            0 <= j1 < j2 < post.cache_seq().len() ==> (#[trigger] post.cache_seq()[j1]).0 != (
            #[trigger] post.cache_seq()[j2]).0,
        post.contents() == pre.contents().insert(key, a@),
{
    let s = pre.cache_seq();
    let t = post.cache_seq();
    assert forall|k2: ChunkKey| true implies (seq_has_key(t, k2) <==> (seq_has_key(s, k2) || k2
        == key)) by {
        if seq_has_key(t, k2) {
            let j = seq_key_at(t, k2);
            if j < s.len() {
                lemma_seq_value(s, k2, j);
            }
        }
        if seq_has_key(s, k2) {
            let j = seq_key_at(s, k2);
            assert(t[j].0 == k2);
        }
        if k2 == key {
            assert(t[t.len() - 1].0 == k2);
        }
    }
    assert forall|j1: int, j2: int|
        0 <= j1 < j2 < t.len() implies (#[trigger] t[j1]).0 != (#[trigger] t[j2]).0 by {
        if j2 < t.len() - 1 {
            assert(t[j1] == s[j1] && t[j2] == s[j2]);
        } else {
            assert(t[j2].0 == key);
            if j1 < t.len() - 1 {
                assert(t[j1] == s[j1]);
                if s[j1].0 == key {
                    lemma_seq_value(s, key, j1);
                }
            }
        }
    }
    assert forall|k2: ChunkKey| seq_has_key(t, k2) && k2 != key implies t[seq_key_at(t, k2)].1
        == s[seq_key_at(s, k2)].1 by {
        let j = seq_key_at(t, k2);
        assert(t[j].0 == k2);
        assert(j < s.len());
        assert(t[j] == s[j]);
        lemma_seq_value(s, k2, j);
    }
    lemma_seq_value(t, key, t.len() - 1);
    assert(post.contents() =~= pre.contents().insert(key, a@));
}

/// The cache of decompressed chunks never outgrows its configured
/// capacity: after every operation at most `capacity` chunks are held
/// decompressed, the rest stay compressed in the cold store.
pub proof fn lemma_cache_bounded(s: CompressibleStorage)
    requires
        s.inv(),
    ensures
        s.cached_spec().len() <= s.capacity_spec(),
{
}

impl CompressibleStorage {
    /// The raw cache entries (ghost view), coldest first.
    pub closed spec fn cache_seq(self) -> Seq<(ChunkKey, Array3)> {
        self.cache@
    }

    /// The cold store (ghost view), keyed by packed key code.
    pub closed spec fn cold_view(self) -> Map<u64, Compressed> {
        self.cold@
    }
}

} // verus!
