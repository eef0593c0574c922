//! A cache that counts its entries.
use std::time::Duration;

use vstd::prelude::*;

use super::ConcurrentCacheExt;
use crate::common::base_cache::parts::Inner;
use crate::common::base_cache::state::{
    QueueState, READ_LOG_FLUSH_POINT, WRITE_LOG_FLUSH_POINT,
};
use crate::common::concurrent::deques::Queues;
use crate::common::estimator::{Estimator, SketchModel};
use crate::common::frequency_sketch::{FrequencySketch, SketchState};
use crate::common::op_log::{QueueOp, ReadOp};
use crate::common::time::Instant;

verus! {

/// How often housekeeping goes over the logs at most.
pub const MAX_SYNC_REPEATS: usize = 4;

/// The number of reads that the log takes.
pub const READ_LOG_SIZE: usize = READ_LOG_FLUSH_POINT * (MAX_SYNC_REPEATS + 2);

/// The number of writes that the log takes.
pub const WRITE_LOG_SIZE: usize = WRITE_LOG_FLUSH_POINT * (MAX_SYNC_REPEATS + 2);

/// The capacity of the frequency sketch: thirty-two times that of the cache, but at least one
/// hundred, and at most the largest `u32`.
pub open spec fn sketch_capacity_for(max_capacity: usize) -> u32 {
    if max_capacity * 32 <= 100 {
        100
    } else if max_capacity * 32 <= u32::MAX {
        (max_capacity * 32) as u32
    } else {
        u32::MAX
    }
}

/// The sketch has counted nothing, and has room for `cap` hashes.
pub open spec fn is_fresh_sketch(s: SketchState, cap: u32) -> bool {
    s == (SketchState { table: Seq::empty(), sample_size: 0, size: 0 }).with_capacity(cap)
}

/// A cache that counts its entries. Keys are numbers, each with a hash that its user gives;
/// the current time is given too.
pub struct Cache<V> {
    inner: Inner<V, FrequencySketch>,
}

impl<V> Cache<V> {
    pub closed spec fn view(&self) -> QueueState<V, SketchState> {
        self.inner@
    }

    pub closed spec fn wf(&self) -> bool {
        self.inner.wf()
    }

    /// What every cache has.
    pub proof fn lemma_wf(&self)
        requires
            self.wf(),
        ensures
            self@.wf(),
            self@.reads.len() <= self@.read_log_size,
            self@.writes.len() <= self@.write_log_size,
    {
        self.inner.lemma_wf();
    }

    /// A cache of up to `capacity` entries, which do not expire.
    pub fn new(capacity: usize) -> (r: Self)
        ensures
            r.wf(),
            r.is_empty_cache(capacity, None, None),
    {
        Self::with_everything(capacity, None, None)
    }

    /// The cache holds nothing, and is of these settings.
    pub open spec fn is_empty_cache(
        &self,
        capacity: usize,
        time_to_live: Option<Duration>,
        time_to_idle: Option<Duration>,
    ) -> bool {
        &&& self@.cache.dom() == Set::<u64>::empty()
        &&& self@.entries.dom() == Set::<usize>::empty()
        &&& self@.queues == Queues::empty()
        &&& is_fresh_sketch(self@.sketch, sketch_capacity_for(capacity))
        &&& self@.reads.len() == 0
        &&& self@.writes.len() == 0
        &&& self@.max_capacity == capacity
        &&& self@.time_to_live == time_to_live
        &&& self@.time_to_idle == time_to_idle
        &&& self@.read_log_size == READ_LOG_SIZE
        &&& self@.write_log_size == WRITE_LOG_SIZE
    }

    pub fn with_everything(
        capacity: usize,
        time_to_live: Option<Duration>,
        time_to_idle: Option<Duration>,
    ) -> (r: Self)
        ensures
            r.wf(),
            r.is_empty_cache(capacity, time_to_live, time_to_idle),
    {
        let skt_capacity: u32 = if capacity <= 3 {
            100
        } else if capacity <= (u32::MAX / 32) as usize {
            capacity as u32 * 32
        } else {
            u32::MAX
        };
        let mut frequency_sketch = FrequencySketch::default();
        frequency_sketch.ensure_capacity(skt_capacity);
        Cache {
            inner: Inner::new(
                capacity,
                frequency_sketch,
                READ_LOG_SIZE,
                WRITE_LOG_SIZE,
                time_to_live,
                time_to_idle,
            ),
        }
    }

    /// Reads the value of a key. The entry that is found counts as used, and the read is logged,
    /// unless the log is full.
    pub fn get_with_hash(&mut self, key: u64, hash: u64, now: Instant) -> (r: Option<&V>)
        requires
            old(self).wf(),
        ensures
            final(self).wf(),
            match old(self)@.lookup(key, now) {
                Some(v) => r == Some(&v),
                None => r is None,
            },
            final(self)@ == old(self)@.read_at(key, hash, now),
    {
        match self.inner.find(key) {
            None => {
                self.inner.push_read(ReadOp::Miss(hash));
                None
            },
            Some(entry) => {
                if !self.inner.has_expiry() {
                    self.inner.push_read(ReadOp::Hit { hash, entry });
                    Some(self.inner.value(entry))
                } else if self.inner.is_expired_wo(entry, now) || self.inner.is_expired_ao(
                    entry,
                    now,
                ) {
                    self.inner.push_read(ReadOp::Miss(hash));
                    None
                } else {
                    self.inner.set_last_accessed(entry, Some(now));
                    self.inner.push_read(ReadOp::Hit { hash, entry });
                    Some(self.inner.value(entry))
                }
            },
        }
    }

    /// Gives a key a value, logs the write, and returns the value. When the log is full,
    /// housekeeping is done first.
    pub fn insert_with_hash(&mut self, key: u64, hash: u64, value: V, now: Instant) -> (r: &V)
        requires
            old(self).wf(),
        ensures
            *r == value,
            final(self).wf(),
            old(self)@.with_room(now).put(
                final(self)@,
                key,
                hash,
                value,
                old(self)@.time_at(now),
            ),
    {
        let time = if self.inner.has_expiry() {
            Some(now)
        } else {
            None
        };
        self.inner.make_room(now);
        match self.inner.find(key) {
            Some(entry) => {
                self.inner.replace_value(entry, value, time);
                let logged = self.inner.push_write(QueueOp::Update { entry });
                self.inner.value(entry)
            },
            None => {
                let entry: usize = self.inner.insert_entry(key, hash, value, time);
                let logged = self.inner.push_write(QueueOp::Insert { key, hash, entry });
                self.inner.value(entry)
            },
        }
    }

    /// Takes the value of a key away, logs the write, and returns the value. When the log is
    /// full, housekeeping is done first.
    pub fn remove(&mut self, key: u64, now: Instant) -> (r: Option<&V>)
        requires
            old(self).wf(),
        ensures
            final(self).wf(),
            final(self)@ == old(self)@.with_room(now).taken(key),
            match old(self)@.with_room(now).find(key) {
                Some(e) => r == Some(&old(self)@.with_room(now).entries[e].value),
                None => r is None,
            },
    {
        self.inner.make_room(now);
        let ghost before = self@;
        match self.inner.remove_from_cache(key) {
            Some(entry) => {
                let logged = self.inner.push_write(QueueOp::Remove { entry });
                Some(self.inner.value(entry))
            },
            None => {
                assert(before.cache.remove(key) =~= before.cache);
                None
            },
        }
    }

    /// The value that a key has in the hash table, be it expired or not.
    pub fn peek(&self, key: u64) -> (r: Option<&V>)
        requires
            self.wf(),
        ensures
            match self@.find(key) {
                Some(e) => r == Some(&self@.entries[e].value),
                None => r is None,
            },
    {
        match self.inner.find(key) {
            Some(entry) => Some(self.inner.value(entry)),
            None => None,
        }
    }

    /// Whether the log of reads is long enough for housekeeping to be due.
    pub fn should_apply_reads(&self) -> (r: bool)
        requires
            self.wf(),
        ensures
            r == (self@.reads.len() >= READ_LOG_FLUSH_POINT),
            r == (self@.reads.len() >= 512),
    {
        self.inner.read_log_len() >= READ_LOG_FLUSH_POINT
    }

    /// Whether the log of writes is long enough for housekeeping to be due.
    pub fn should_apply_writes(&self) -> (r: bool)
        requires
            self.wf(),
        ensures
            r == (self@.writes.len() >= WRITE_LOG_FLUSH_POINT),
            r == (self@.writes.len() >= 512),
    {
        self.inner.write_log_len() >= WRITE_LOG_FLUSH_POINT
    }

    pub fn capacity(&self) -> (r: usize)
        ensures
            r == self@.max_capacity,
    {
        self.inner.max_capacity()
    }

    pub fn time_to_live(&self) -> (r: Option<Duration>)
        ensures
            r == self@.time_to_live,
    {
        self.inner.time_to_live()
    }

    pub fn time_to_idle(&self) -> (r: Option<Duration>)
        ensures
            r == self@.time_to_idle,
    {
        self.inner.time_to_idle()
    }

    pub fn num_segments(&self) -> (r: usize)
        ensures
            r == 1,
    {
        1
    }
}

impl<V> ConcurrentCacheExt for Cache<V> {
    open spec fn in_order(&self) -> bool {
        self.wf()
    }

    open spec fn is_synced_from(&self, before: &Self, now: Instant) -> bool {
        self@ == before@.synced(now)
    }

    fn sync(&mut self, now: Instant) {
        let pace = self.inner.sync(MAX_SYNC_REPEATS, now);
    }
}

/// A frequency sketch has room for thirty-two hashes for each entry that the cache may have, wherever it
/// can, and for a hundred at least.
pub proof fn sketch_grows_with_the_cache(capacity: usize)
    ensures
        4 <= capacity <= 134_217_727 ==> sketch_capacity_for(capacity) == 32 * capacity,
        capacity < 4 ==> sketch_capacity_for(capacity) == 100,
        capacity > 134_217_727 ==> sketch_capacity_for(capacity) == 4_294_967_295,
{
}

/// A new cache is empty: nothing is read in it, and its sketch has seen no hash.
pub proof fn new_cache_has_nothing<V>(cache: Cache<V>, capacity: usize, key: u64, hash: u64, now: Instant)
    requires
        cache.is_empty_cache(capacity, None, None),
    ensures
        cache@.lookup(key, now) is None,
        cache@.max_capacity == capacity,
        cache@.sketch.frequency(hash) == 0,
        cache@.read_log_size == 3072,
        cache@.write_log_size == 3072,
{
    let cap = sketch_capacity_for(capacity);
    let none = SketchState { table: Seq::empty(), sample_size: 0, size: 0 };
    assert(cache@.sketch == none.with_capacity(cap));
    cache@.sketch.lemma_fresh(cap);
}

} // verus!
