//! What is shown of a cache.
use vstd::prelude::*;

use super::base_cache::BaseCache;
use super::iter::live_entries;
use super::mapref::EntryRef;
use super::state::CacheState;
use crate::common::time::Instant;

verus! {

/// Shows a cache, in one way or another.
pub struct DebugFmt<'a, V> {
    cache: &'a BaseCache<V>,
}

impl<'a, V> DebugFmt<'a, V> {
    pub closed spec fn view(&self) -> CacheState<V> {
        self.cache@
    }

    pub closed spec fn wf(&self) -> bool {
        self.cache.wf()
    }

    pub fn new(cache: &'a BaseCache<V>) -> (r: Self)
        requires
            cache.wf(),
        ensures
            r.wf(),
            r@ == cache@,
    {
        DebugFmt { cache }
    }

    /// Shows how large the cache is.
    pub fn default_fmt(&self) -> (r: DefaultDebugFmt)
        ensures
            r.name@ == "Cache"@,
            r.max_capacity == self@.max_capacity,
            r.entry_count == self@.counters.entry_count,
            r.weighted_size == self@.counters.weighted_size,
    {
        DefaultDebugFmt::new(
            "Cache",
            self.cache.policy().max_capacity(),
            self.cache.estimated_entry_count(),
            self.cache.weighted_size(),
        )
    }

    /// Shows the entries of the cache.
    pub fn entries(&self) -> (r: EntriesDebugFmt<'a, V>)
        requires
            self.wf(),
        ensures
            r.wf(),
            r@ == self@,
    {
        EntriesDebugFmt { cache: self.cache }
    }
}

/// How large a cache is.
#[derive(Debug)]
pub struct DefaultDebugFmt {
    pub name: &'static str,
    pub max_capacity: Option<u64>,
    pub entry_count: u64,
    pub weighted_size: u64,
}

impl DefaultDebugFmt {
    fn new(name: &'static str, max_capacity: Option<u64>, entry_count: u64, weighted_size: u64) -> (r:
        Self)
        ensures
            r.name == name,
            r.max_capacity == max_capacity,
            r.entry_count == entry_count,
            r.weighted_size == weighted_size,
    {
        DefaultDebugFmt { name, max_capacity, entry_count, weighted_size }
    }
}

/// The entries of a cache.
pub struct EntriesDebugFmt<'a, V> {
    cache: &'a BaseCache<V>,
}

impl<'a, V> EntriesDebugFmt<'a, V> {
    pub closed spec fn view(&self) -> CacheState<V> {
        self.cache@
    }

    pub closed spec fn wf(&self) -> bool {
        self.cache.wf()
    }

    /// The keys and values to show: those that are not expired, each key once.
    pub fn fmt(&self, now: Instant) -> (r: Vec<EntryRef<'a, V>>)
        requires
            self.wf(),
        ensures
            exists|keys: Seq<u64>|
                keys.no_duplicates() && keys.to_set() == self@.cache.dom() && r@.map_values(
                    |e: EntryRef<'a, V>| e@,
                ) == #[trigger] live_entries(self@, keys, now),
    {
        let mut shown: Vec<EntryRef<'a, V>> = Vec::new();
        let keys: Vec<u64> = self.cache.keys();
        let mut i: usize = 0;
        while i < keys.len()
            invariant
                self.wf(),
                i <= keys.len(),
                shown@.map_values(|e: EntryRef<'a, V>| e@) == live_entries(
                    self@,
                    keys@.take(i as int),
                    now,
                ),
            decreases keys.len() - i,
        {
            let key: u64 = keys[i];
            let ghost before = shown@;
            proof {
                assert(keys@.take(i + 1).drop_last() == keys@.take(i as int));
            }
            if self.cache.contains_key(key, now) {
                shown.push(EntryRef::new(key, self.cache.peek(key).unwrap()));
                proof {
                    assert(shown@.map_values(|e: EntryRef<'a, V>| e@) == before.map_values(
                        |e: EntryRef<'a, V>| e@,
                    ).push((key, self@.lookup(key, now)->0)));
                }
            }
            i = i + 1;
        }
        proof {
            assert(keys@.take(i as int) == keys@);
        }
        shown
    }
}

} // verus!
