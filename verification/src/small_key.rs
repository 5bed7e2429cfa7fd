use vstd::prelude::*;

verus! {

/// The hash map used for small keys (packed morton codes): `ahash`'s map.
#[verifier::external_type_specification]
#[verifier::external_body]
#[verifier::reject_recursive_types(K)]
#[verifier::reject_recursive_types(V)]
#[verifier::reject_recursive_types(S)]
pub struct ExAHashMap<K, V, S>(ahash::AHashMap<K, V, S>);

/// The hasher state `ahash` seeds its maps with.
#[verifier::external_type_specification]
#[verifier::external_body]
pub struct ExAHashRandomState(ahash::RandomState);

/// What a node map holds: a finite map from packed node codes to child
/// bitmasks.
pub uninterp spec fn node_map_contents(m: ahash::AHashMap<u64, u8>) -> Map<u64, u8>;

/// The empty node map.
pub open spec fn empty_node_map() -> Map<u64, u8> {
    Map::empty()
}

/// Relies on `ahash::AHashMap::new`. Nothing is assumed of the fresh map;
/// callers clear it to learn that it is empty.
#[verifier::external_body]
pub fn node_map_new() -> ahash::AHashMap<u64, u8> {
    ahash::AHashMap::new()
}

/// Relies on `ahash::AHashMap::clear` (through the `HashMap` it wraps): the
/// map holds nothing afterwards.
#[verifier::external_body]
pub fn node_map_clear(m: &mut ahash::AHashMap<u64, u8>)
    ensures
        node_map_contents(*final(m)) == empty_node_map(),
{
    m.clear();
}

/// Relies on `ahash::AHashMap::insert`: hash-map semantics over `u64` keys.
#[verifier::external_body]
pub fn node_map_insert(m: &mut ahash::AHashMap<u64, u8>, k: u64, v: u8)
    ensures
        node_map_contents(*final(m)) == node_map_contents(*old(m)).insert(k, v),
{
    m.insert(k, v);
}

/// Relies on `ahash::AHashMap::get`: returns the mapped value exactly when
/// the key is present.
#[verifier::external_body]
pub fn node_map_get(m: &ahash::AHashMap<u64, u8>, k: u64) -> (r: Option<u8>)
    ensures
        match r {
            Some(v) => node_map_contents(*m).contains_key(k) && node_map_contents(*m)[k] == v,
            None => !node_map_contents(*m).contains_key(k),
        },
{
    match m.get(&k) {
        Some(v) => Some(*v),
        None => None,
    }
}

/// Relies on `ahash::AHashMap::remove`: removes and returns the mapped
/// value exactly when the key is present.
#[verifier::external_body]
pub fn node_map_remove(m: &mut ahash::AHashMap<u64, u8>, k: u64) -> (r: Option<u8>)
    ensures
        node_map_contents(*final(m)) == node_map_contents(*old(m)).remove(k),
        match r {
            Some(v) => node_map_contents(*old(m)).contains_key(k) && node_map_contents(*old(m))[k]
                == v,
            None => !node_map_contents(*old(m)).contains_key(k),
        },
{
    m.remove(&k)
}

/// Relies on `ahash::AHashMap::len`: the number of entries.
#[verifier::external_body]
pub fn node_map_len(m: &ahash::AHashMap<u64, u8>) -> (r: usize)
    ensures
        node_map_contents(*m).dom().finite() ==> r == node_map_contents(*m).dom().len(),
{
    m.len()
}

} // verus!
