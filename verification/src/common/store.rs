//! The hash table of a cache: a `dashmap::DashMap` from keys to numbers of entries.
//!
//! A cache is the only owner of its hash table and changes it through `&mut` alone, so the
//! contents of the table are those that the cache has put there.
use dashmap::DashMap;

use vstd::prelude::*;

verus! {

#[verifier::external_type_specification]
#[verifier::external_body]
#[verifier::reject_recursive_types(K)]
#[verifier::reject_recursive_types(V)]
#[verifier::reject_recursive_types(S)]
pub struct ExDashMap<K, V, S>(DashMap<K, V, S>);

/// The keys in a hash table, each with the number of its entry.
pub uninterp spec fn stored(m: DashMap<u64, usize>) -> Map<u64, usize>;

/// The number of the entry of a key.
pub open spec fn found(m: DashMap<u64, usize>, key: u64) -> Option<usize> {
    if stored(m).dom().contains(key) {
        Some(stored(m)[key])
    } else {
        None
    }
}

/// `DashMap::with_capacity` makes a table without keys, which has room for some. It panics where
/// the bytes for these are more than can be counted.
#[verifier::external_body]
pub(crate) fn new_store(capacity: usize) -> (r: DashMap<u64, usize>)
    requires
        capacity <= usize::MAX / 128,
    ensures
        stored(r).dom() == Set::<u64>::empty(),
{
    DashMap::with_capacity(capacity)
}

/// `DashMap::get` finds the value of a key, if the key is in the table.
#[verifier::external_body]
pub(crate) fn store_get(m: &DashMap<u64, usize>, key: u64) -> (r: Option<usize>)
    ensures
        r == found(*m, key),
{
    m.get(&key).map(|r| *r.value())
}

/// `DashMap::insert` gives a key a value, and returns the value that it had.
#[verifier::external_body]
pub(crate) fn store_insert(m: &mut DashMap<u64, usize>, key: u64, e: usize) -> (r: Option<usize>)
    ensures
        r == found(*old(m), key),
        stored(*final(m)) == stored(*old(m)).insert(key, e),
{
    m.insert(key, e)
}

/// `DashMap::remove` takes a key out of the table, and returns the value that it had.
#[verifier::external_body]
pub(crate) fn store_remove(m: &mut DashMap<u64, usize>, key: u64) -> (r: Option<usize>)
    ensures
        r == found(*old(m), key),
        stored(*final(m)) == stored(*old(m)).remove(key),
{
    m.remove(&key).map(|p| p.1)
}

/// `DashMap::iter` walks over every key of the table once, in an order that is left open.
#[verifier::external_body]
pub(crate) fn store_keys(m: &DashMap<u64, usize>) -> (r: Vec<u64>)
    ensures
        r@.no_duplicates(),
        r@.to_set() == stored(*m).dom(),
{
    m.iter().map(|r| *r.key()).collect()
}

} // verus!
