//! Walks over the entries of a cache.
use vstd::prelude::*;

use super::base_cache::BaseCache;
use super::mapref::EntryRef;
use super::state::CacheState;
use crate::common::time::Instant;

verus! {

/// Hands out the entries of a cache that are not expired, in an order that is left open.
pub struct Iter<'a, V> {
    cache: &'a BaseCache<V>,
    keys: Vec<u64>,
    pos: usize,
}

/// The first of the keys, from `i` on, that has a value; the number of keys if there is none.
pub open spec fn next_live<V>(s: CacheState<V>, keys: Seq<u64>, i: int, now: Instant) -> int
    decreases keys.len() - i,
{
    if 0 <= i < keys.len() && s.lookup(keys[i], now) is None {
        next_live(s, keys, i + 1, now)
    } else {
        i
    }
}

impl<'a, V> Iter<'a, V> {
    /// The cache that is walked over.
    pub closed spec fn spec_cache(&self) -> CacheState<V> {
        self.cache@
    }

    /// The keys of the cache, in the order of the walk.
    pub closed spec fn spec_keys(&self) -> Seq<u64> {
        self.keys@
    }

    /// How many of the keys are behind.
    pub closed spec fn spec_pos(&self) -> int {
        self.pos as int
    }

    pub closed spec fn wf(&self) -> bool {
        &&& self.cache.wf()
        &&& self.pos <= self.keys@.len()
        &&& self.keys@.no_duplicates()
        &&& self.keys@.to_set() == self.cache@.cache.dom()
    }

    /// Every key of the cache is met once.
    pub proof fn lemma_wf(&self)
        requires
            self.wf(),
        ensures
            0 <= self.spec_pos() <= self.spec_keys().len(),
            self.spec_keys().no_duplicates(),
            self.spec_keys().to_set() == self.spec_cache().cache.dom(),
    {
    }

    pub fn new(cache: &'a BaseCache<V>) -> (r: Self)
        requires
            cache.wf(),
        ensures
            r.wf(),
            r.spec_cache() == cache@,
            r.spec_pos() == 0,
    {
        Iter { cache, keys: cache.keys(), pos: 0 }
    }

    /// The next entry that is not expired.
    pub fn next(&mut self, now: Instant) -> (r: Option<EntryRef<'a, V>>)
        requires
            old(self).wf(),
        ensures
            final(self).wf(),
            final(self).spec_cache() == old(self).spec_cache(),
            final(self).spec_keys() == old(self).spec_keys(),
            ({
                let keys = old(self).spec_keys();
                let i = next_live(old(self).spec_cache(), keys, old(self).spec_pos(), now);
                if i < keys.len() {
                    &&& r matches Some(entry) && Some(entry@.1) == old(self).spec_cache().lookup(
                        keys[i],
                        now,
                    ) && entry@.0 == keys[i]
                    &&& final(self).spec_pos() == i + 1
                } else {
                    &&& r is None
                    &&& final(self).spec_pos() == keys.len()
                }
            }),
    {
        let ghost before = *self;
        while self.pos < self.keys.len()
            invariant
                before == *old(self),
                self.wf(),
                self.spec_cache() == before.spec_cache(),
                self.spec_keys() == before.spec_keys(),
                next_live(self.spec_cache(), self.spec_keys(), self.spec_pos(), now) == next_live(
                    before.spec_cache(),
                    before.spec_keys(),
                    before.spec_pos(),
                    now,
                ),
            decreases self.keys@.len() - self.pos,
        {
            let key: u64 = self.keys[self.pos];
            self.pos = self.pos + 1;
            if self.cache.contains_key(key, now) {
                return Some(EntryRef::new(key, self.cache.peek(key).unwrap()));
            }
        }
        None
    }
}

/// All entries of a cache that are not expired, with their keys.
pub open spec fn live_entries<V>(s: CacheState<V>, keys: Seq<u64>, now: Instant) -> Seq<(u64, V)>
    decreases keys.len(),
{
    if keys.len() == 0 {
        Seq::empty()
    } else {
        let rest = live_entries(s, keys.drop_last(), now);
        match s.lookup(keys.last(), now) {
            Some(v) => rest.push((keys.last(), v)),
            None => rest,
        }
    }
}

/// Exactly the keys that have a value are handed out, with that value.
pub proof fn live_entries_are_all<V>(s: CacheState<V>, keys: Seq<u64>, now: Instant, key: u64, value: V)
    requires
        keys.to_set() == s.cache.dom(),
    ensures
        live_entries(s, keys, now).contains((key, value)) <==> s.lookup(key, now) == Some(value),
{
    lemma_live_entries(s, keys, now, key, value);
    if s.lookup(key, now) == Some(value) {
        assert(keys.to_set().contains(key));
    }
}

proof fn lemma_live_entries<V>(s: CacheState<V>, keys: Seq<u64>, now: Instant, key: u64, value: V)
    ensures
        live_entries(s, keys, now).contains((key, value)) <==> keys.contains(key) && s.lookup(
            key,
            now,
        ) == Some(value),
    decreases keys.len(),
{
    if keys.len() > 0 {
        let front = keys.drop_last();
        lemma_live_entries(s, front, now, key, value);
        assert(keys == front.push(keys.last()));
        assert(keys.contains(key) <==> front.contains(key) || key == keys.last()) by {
            if front.contains(key) {
                let i = choose|i: int| 0 <= i < front.len() && front[i] == key;
                assert(keys[i] == key);
            }
            if keys.contains(key) && key != keys.last() {
                let i = choose|i: int| 0 <= i < keys.len() && keys[i] == key;
                assert(front[i] == key);
            }
            if key == keys.last() {
                assert(keys[keys.len() - 1] == key);
            }
        }
        let rest = live_entries(s, front, now);
        match s.lookup(keys.last(), now) {
            Some(v) => {
                let all = rest.push((keys.last(), v));
                assert(all.contains((key, value)) <==> rest.contains((key, value)) || (key, value)
                    == (keys.last(), v)) by {
                    if rest.contains((key, value)) {
                        let i = choose|i: int| 0 <= i < rest.len() && rest[i] == (key, value);
                        assert(all[i] == (key, value));
                    }
                    if (key, value) == (keys.last(), v) {
                        assert(all[all.len() - 1] == (key, value));
                    }
                }
            },
            None => {},
        }
    }
}

/// The walk goes to the next key that has a value, and passes only keys that have none.
pub proof fn walk_passes_no_value<V>(s: CacheState<V>, keys: Seq<u64>, i: int, now: Instant, j: int)
    requires
        0 <= i <= keys.len(),
    ensures
        i <= next_live(s, keys, i, now) <= keys.len(),
        i <= j < next_live(s, keys, i, now) ==> s.lookup(keys[j], now) is None,
        next_live(s, keys, i, now) < keys.len() ==> s.lookup(keys[next_live(s, keys, i, now)], now) is Some,
    decreases keys.len() - i,
{
    if i < keys.len() && s.lookup(keys[i], now) is None {
        walk_passes_no_value(s, keys, i + 1, now, j);
    }
}

} // verus!
