//! The reader's cache of decoded clusters, an `FxHashMap` keyed by cluster number.

use rustc_hash::{FxBuildHasher, FxHashMap};
use vstd::prelude::*;

verus! {

#[verifier::external_type_specification]
#[verifier::external_body]
pub struct ExFxBuildHasher(FxBuildHasher);

/// One decoded cluster: its uncompressed bytes and whether its blob offsets
/// are eight bytes wide.
pub struct CacheEntry {
    pub data: Vec<u8>,
    pub extended: bool,
}

/// A cluster number's place in the cache: the decoded bytes and the width flag.
pub open spec fn entry_view(e: CacheEntry) -> (Seq<u8>, bool) {
    (e.data@, e.extended)
}

/// The empty cache.
pub open spec fn empty_cache() -> Map<u32, CacheEntry> {
    Map::empty()
}

/// Makes an empty map with `FxHashMap::default()`. The contract claims it is empty.
#[verifier::external_body]
pub(crate) fn cache_new() -> (m: FxHashMap<u32, CacheEntry>)
    ensures
        m@ == empty_cache(),
{
    FxHashMap::default()
}

/// Looks `k` up with `HashMap::get`. The contract claims the map semantics
/// that std's `HashMap` has for any deterministic hasher such as `FxHasher`.
#[verifier::external_body]
pub(crate) fn cache_get(m: &FxHashMap<u32, CacheEntry>, k: u32) -> (r: Option<&CacheEntry>)
    ensures
        match r {
            Some(e) => m@.contains_key(k) && *e == m@[k],
            None => !m@.contains_key(k),
        },
{
    m.get(&k)
}

/// Stores `v` under `k` with `HashMap::insert`. The contract claims the map
/// is updated at `k` and nowhere else.
#[verifier::external_body]
pub(crate) fn cache_insert(m: &mut FxHashMap<u32, CacheEntry>, k: u32, v: CacheEntry)
    ensures
        final(m)@ == old(m)@.insert(k, v),
{
    m.insert(k, v);
}

/// Empties the map with `HashMap::clear`. The contract claims it is empty.
#[verifier::external_body]
pub(crate) fn cache_clear(m: &mut FxHashMap<u32, CacheEntry>)
    ensures
        final(m)@ == empty_cache(),
{
    m.clear();
}

/// Counts the entries with `HashMap::len`. The contract claims the count of
/// keys in the map.
#[verifier::external_body]
pub(crate) fn cache_len(m: &FxHashMap<u32, CacheEntry>) -> (n: usize)
    ensures
        n == m@.dom().len(),
{
    m.len()
}

} // verus!
