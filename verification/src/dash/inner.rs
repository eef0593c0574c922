//! The parts of a cache, and the steps by which the parts change together.
use std::time::Duration;

use dashmap::DashMap;

use vstd::prelude::*;

use super::state::{CacheState, READ_LOG_SIZE, WRITE_LOG_SIZE};
use crate::common::concurrent::admission::EvictionCounters;
use crate::common::concurrent::deques::{moved_back, Deques, Queues};
use crate::common::concurrent::entry_info::EntryInfo;
use crate::common::concurrent::entry_table::EntryTable;
use crate::common::concurrent::{entry_states, new_entry, EntryState, KeyHash, ValueEntry};
use crate::common::frequency_sketch::FrequencySketch;
use crate::common::op_log::{ReadLog, ReadOp, WriteLog, WriteOp};
use crate::common::store::{new_store, store_get, store_insert, store_keys, store_remove, stored};
use crate::common::time::{AtomicInstant, Instant};
use crate::common::{sketch_capacity, CacheRegion};

verus! {

/// The hash table, the entries and the policies of a cache.
pub struct Inner<V> {
    max_capacity: Option<u64>,
    counters: EvictionCounters,
    cache: DashMap<u64, usize>,
    entries: EntryTable<u64, V>,
    /// The entries that were removed from the hash table and are still in `entries`.
    removed: Vec<usize>,
    deques: Deques,
    frequency_sketch: FrequencySketch,
    frequency_sketch_enabled: bool,
    read_ops: ReadLog,
    write_ops: WriteLog,
    time_to_live: Option<Duration>,
    time_to_idle: Option<Duration>,
    valid_after: AtomicInstant,
    has_weigher: bool,
}

/// A hash table with room for so many entries can be had.
pub open spec fn can_hold(initial_capacity: Option<usize>) -> bool {
    initial_capacity is Some ==> initial_capacity->0 + WRITE_LOG_SIZE <= usize::MAX / 128
}

impl<V> Inner<V> {
    pub closed spec fn view(&self) -> CacheState<V> {
        CacheState {
            cache: stored(self.cache),
            entries: entry_states(self.entries@),
            queues: self.deques@,
            counters: self.counters,
            sketch: self.frequency_sketch@,
            sketch_enabled: self.frequency_sketch_enabled,
            reads: self.read_ops@,
            writes: self.write_ops@,
            max_capacity: self.max_capacity,
            time_to_live: self.time_to_live,
            time_to_idle: self.time_to_idle,
            valid_after: self.valid_after@,
            has_weigher: self.has_weigher,
        }
    }

    /// The entries that the hash table does not have are those that were removed from it.
    spec fn removed_ok(&self) -> bool {
        &&& self.removed@.no_duplicates()
        &&& forall|e: usize| #[trigger]
            self.removed@.contains(e) ==> self.entries@.dom().contains(e) && !self@.in_cache(e)
        &&& forall|e: usize| #[trigger]
            self.entries@.dom().contains(e) ==> self@.in_cache(e) || self.removed@.contains(e)
    }

    /// The parts agree with each other.
    pub closed spec fn wf(&self) -> bool {
        &&& self.entries.wf()
        &&& self.deques.wf()
        &&& self.deques.linked(self.entries@)
        &&& self.frequency_sketch.wf()
        &&& self.read_ops.wf()
        &&& self.write_ops.wf()
        &&& self.read_ops.capacity() == READ_LOG_SIZE
        &&& self.write_ops.capacity() == WRITE_LOG_SIZE
        &&& self@.wf()
        &&& self.removed_ok()
    }

    /// What every cache has.
    pub proof fn lemma_wf(&self)
        requires
            self.wf(),
        ensures
            self@.wf(),
            self@.entries.dom().finite(),
            self@.entries.dom().len() <= u64::MAX,
            self@.reads.len() <= READ_LOG_SIZE,
            self@.writes.len() <= WRITE_LOG_SIZE,
    {
        self.entries.lemma_count();
        assert(self@.entries.dom() =~= self.entries@.dom());
        self.read_ops.lemma_wf();
        self.write_ops.lemma_wf();
    }

    /// An empty cache, whose hash table has room for `initial_capacity` entries and a log of
    /// writes.
    pub fn new(
        max_capacity: Option<u64>,
        initial_capacity: Option<usize>,
        has_weigher: bool,
        time_to_live: Option<Duration>,
        time_to_idle: Option<Duration>,
    ) -> (r: Self)
        requires
            can_hold(initial_capacity),
        ensures
            r.wf(),
            r@.cache.dom() == Set::<u64>::empty(),
            r@.entries.dom() == Set::<usize>::empty(),
            r@.queues == Queues::empty(),
            r@.counters == (EvictionCounters {
                entry_count: 0,
                weighted_size: 0,
                eviction_count: 0,
            }),
            r@.sketch.table.len() == 0,
            !r@.sketch_enabled,
            r@.reads.len() == 0,
            r@.writes.len() == 0,
            r@.max_capacity == max_capacity,
            r@.time_to_live == time_to_live,
            r@.time_to_idle == time_to_idle,
            r@.valid_after is None,
            r@.has_weigher == has_weigher,
    {
        let deques = Deques::default();
        let entries: EntryTable<u64, V> = EntryTable::new();
        let capacity: usize = match initial_capacity {
            Some(n) => n + WRITE_LOG_SIZE,
            None => 0,
        };
        let r = Inner {
            max_capacity,
            counters: EvictionCounters::new(0, 0),
            cache: new_store(capacity),
            entries,
            removed: Vec::new(),
            deques,
            frequency_sketch: FrequencySketch::default(),
            frequency_sketch_enabled: false,
            read_ops: ReadLog::new(READ_LOG_SIZE),
            write_ops: WriteLog::new(WRITE_LOG_SIZE),
            time_to_live,
            time_to_idle,
            valid_after: AtomicInstant::default(),
            has_weigher,
        };
        proof {
            deques.lemma_empty_linked(entries@);
            assert(r@.entries.dom() =~= Set::<usize>::empty());
        }
        r
    }

    /// A change of one entry that leaves its nodes, its key and its admission alone.
    proof fn lemma_info_changed(&self, before: &Self, e: usize)
        requires
            before.wf(),
            before.entries@.dom().contains(e),
            self.entries.wf(),
            self.entries@ == before.entries@.insert(e, self.entries@[e]),
            self.entries@[e].nodes == before.entries@[e].nodes,
            self.entries@[e].info.key_hash == before.entries@[e].info.key_hash,
            self.entries@[e].info.is_admitted == before.entries@[e].info.is_admitted,
            *self == (Inner { entries: self.entries, ..*before }),
        ensures
            self.wf(),
            self@.entries == before@.entries.insert(
                e,
                EntryState { value: self.entries@[e].value, info: self.entries@[e].info },
            ),
            self@ == (CacheState { entries: self@.entries, ..before@ }),
    {
        assert(self@.entries =~= before@.entries.insert(
            e,
            EntryState { value: self.entries@[e].value, info: self.entries@[e].info },
        ));
        self.deques.lemma_same_nodes(before.entries@, self.entries@);
        before@.lemma_entry_wf(self@, e);
        assert forall|x: usize| #[trigger] self.removed@.contains(x) implies self.entries@.dom().contains(x)
            && !self@.in_cache(x) by {
            assert(before.removed@.contains(x));
        }
        assert forall|x: usize| #[trigger] self.entries@.dom().contains(x) implies self@.in_cache(x)
            || self.removed@.contains(x) by {
            assert(before.entries@.dom().contains(x));
        }
    }

    pub(crate) fn set_last_accessed(&mut self, e: usize, ts: Instant)
        requires
            old(self).wf(),
            old(self)@.entries.dom().contains(e),
        ensures
            final(self).wf(),
            final(self)@ == old(self)@.accessed(e, ts),
    {
        self.entries.get_mut(e).info.set_last_accessed(ts);
        proof {
            self.lemma_info_changed(old(self), e);
        }
    }

    /// A change of the order of the queues.
    proof fn lemma_queues_changed(&self, before: &Self)
        requires
            before.wf(),
            self.deques.wf(),
            self.deques.linked(self.entries@),
            *self == (Inner { deques: self.deques, ..*before }),
            (CacheState { queues: self.deques@, ..before@ }).wf(),
        ensures
            self.wf(),
            self@ == (CacheState { queues: self.deques@, ..before@ }),
    {
        assert forall|x: usize| #[trigger] self.removed@.contains(x) implies self.entries@.dom().contains(x)
            && !self@.in_cache(x) by {
            assert(before.removed@.contains(x));
        }
        assert forall|x: usize| #[trigger] self.entries@.dom().contains(x) implies self@.in_cache(x)
            || self.removed@.contains(x) by {
            assert(before.entries@.dom().contains(x));
        }
    }

    /// An entry that is in a queue of a region other than the probation is none of ours.
    proof fn lemma_region(&self, e: usize)
        requires
            self.wf(),
            self@.entries.dom().contains(e),
        ensures
            self.entries@[e].nodes.access_order_q_node is Some <==> self@.info(e).is_admitted,
            self.entries@[e].nodes.access_order_q_node is Some
                ==> self.entries@[e].nodes.access_order_q_node->0.region == CacheRegion::MainProbation,
            self.entries@[e].nodes.write_order_q_node is Some <==> (self@.info(e).is_admitted
                && self@.time_to_live is Some),
            self@.queues.probation.contains(e) <==> self@.info(e).is_admitted,
    {
        self.deques.lemma_linked(self.entries@);
        assert(self.deques@.access_order(CacheRegion::MainProbation) == self.deques@.probation);
        assert(self@.queues.write_order.contains(e) <==> (self@.time_to_live is Some
            && self@.queues.probation.contains(e)));
        assert(self@.entries.dom().contains(e));
        if self.entries@[e].nodes.access_order_q_node is Some {
            let region = self.entries@[e].nodes.access_order_q_node->0.region;
            assert(self.deques@.access_order(region).contains(e));
        }
    }

    pub(crate) fn move_to_back_ao(&mut self, e: usize)
        requires
            old(self).wf(),
            old(self)@.entries.dom().contains(e),
        ensures
            final(self).wf(),
            final(self)@ == old(self)@.to_back_ao(e),
    {
        proof {
            self.lemma_region(e);
            self@.lemma_to_back_wf(e);
        }
        self.deques.move_to_back_ao(&self.entries, e);
        proof {
            self.lemma_queues_changed(old(self));
        }
    }

    pub(crate) fn move_to_back_wo(&mut self, e: usize)
        requires
            old(self).wf(),
            old(self)@.entries.dom().contains(e),
        ensures
            final(self).wf(),
            final(self)@ == old(self)@.to_back_wo(e),
    {
        proof {
            self@.lemma_to_back_wf(e);
        }
        self.deques.move_to_back_wo(&self.entries, e);
        proof {
            self.lemma_queues_changed(old(self));
        }
    }

    /// Takes a key out of the hash table, and returns its entry.
    pub(crate) fn remove_from_cache(&mut self, key: u64) -> (r: Option<usize>)
        requires
            old(self).wf(),
        ensures
            final(self).wf(),
            final(self)@ == old(self)@.without_key(key),
            r == old(self)@.find(key),
            r is Some ==> old(self)@.entries.dom().contains(r->0) && old(self)@.info(
                r->0,
            ).key_hash.key == key,
    {
        let r = store_remove(&mut self.cache, key);
        proof {
            old(self)@.lemma_without_key_wf(key);
            if r is Some {
                assert(old(self)@.cache.dom().contains(key));
            }
        }
        match r {
            Some(e) => {
                assert(old(self)@.in_cache(e));
                assert(!self.removed@.contains(e));
                self.removed.push(e);
                proof {
                    lemma_pushed_members(old(self).removed@, e);
                }
            },
            None => {},
        }
        proof {
            assert forall|x: usize| #[trigger] self.removed@.contains(x) implies self.entries@.dom().contains(x)
                && !self@.in_cache(x) by {
                assert(old(self).removed@.contains(x) || r == Some(x));
            }
            assert forall|x: usize| #[trigger] self.entries@.dom().contains(x) implies self@.in_cache(x)
                || self.removed@.contains(x) by {
                assert(old(self).entries@.dom().contains(x));
                if old(self)@.in_cache(x) && !self@.in_cache(x) {
                    assert(r == Some(x));
                }
            }
        }
        r
    }
}

impl<V> Inner<V> {
    /// Takes an entry into the queues.
    pub(crate) fn handle_admit(&mut self, e: usize, policy_weight: u32)
        requires
            old(self).wf(),
            old(self)@.entries.dom().contains(e),
            !old(self)@.info(e).is_admitted,
        ensures
            final(self).wf(),
            final(self)@ == old(self)@.admitted(e, policy_weight),
    {
        proof {
            self.lemma_region(e);
        }
        self.deques.push_back_ao(&mut self.entries, CacheRegion::MainProbation, e);
        if self.is_write_order_queue_enabled() {
            self.deques.push_back_wo(&mut self.entries, e);
        }
        proof {
            self.deques.lemma_linked(self.entries@);
            old(self)@.lemma_admitted_wf(e, policy_weight);
        }
        let ghost m1 = self.entries@;
        self.counters.saturating_add(1, policy_weight);
        self.entries.get_mut(e).set_admitted(true);
        proof {
            self.deques.lemma_same_nodes(m1, self.entries@);
            assert(self@.entries =~= old(self)@.admitted(e, policy_weight).entries);
            self.lemma_removed_kept(old(self));
        }
    }

    /// Takes an entry out of the queues, if it is in them.
    pub(crate) fn handle_remove(&mut self, e: usize)
        requires
            old(self).wf(),
            old(self)@.entries.dom().contains(e),
        ensures
            final(self).wf(),
            final(self)@ == old(self)@.dismissed(e),
    {
        proof {
            self.lemma_region(e);
            self@.lemma_dismissed_wf(e);
        }
        if self.entries.get(e).is_admitted() {
            let weight: u32 = self.entries.get(e).policy_weight();
            self.counters.saturating_sub(1, weight);
            self.deques.unlink_ao(&mut self.entries, e);
            self.deques.unlink_wo(&mut self.entries, e);
            let ghost m1 = self.entries@;
            self.entries.get_mut(e).set_admitted(false);
            proof {
                self.deques.lemma_same_nodes(m1, self.entries@);
                assert(self@.entries =~= old(self)@.dismissed(e).entries);
                self.lemma_removed_kept(old(self));
            }
        } else {
            self.entries.get_mut(e).unset_q_nodes();
            proof {
                self.deques.lemma_same_nodes(old(self).entries@, self.entries@);
                assert(self@.entries =~= old(self)@.entries);
                self.lemma_removed_kept(old(self));
            }
        }
    }

    /// Which entries were removed from the hash table depends on the hash table and the keys
    /// alone.
    proof fn lemma_removed_kept(&self, before: &Self)
        requires
            before.removed_ok(),
            self.removed == before.removed,
            self@.cache == before@.cache,
            self@.entries.dom() =~= before@.entries.dom(),
            forall|e: usize|
                before@.entries.dom().contains(e) ==> (#[trigger] self@.info(e)).key_hash
                    == before@.info(e).key_hash,
        ensures
            self.removed_ok(),
    {
        assert forall|x: usize| #[trigger] self.removed@.contains(x) implies self.entries@.dom().contains(x)
            && !self@.in_cache(x) by {
            assert(before.removed@.contains(x));
            assert(before@.entries.dom().contains(x));
            assert(self@.info(x).key_hash == before@.info(x).key_hash);
        }
        assert forall|x: usize| #[trigger] self.entries@.dom().contains(x) implies self@.in_cache(x)
            || self.removed@.contains(x) by {
            assert(self@.entries.dom().contains(x));
            assert(before@.entries.dom().contains(x));
            assert(before.entries@.dom().contains(x));
            assert(self@.info(x).key_hash == before@.info(x).key_hash);
        }
    }

    pub(crate) fn is_write_order_queue_enabled(&self) -> (r: bool)
        ensures
            r == (self@.time_to_live is Some),
    {
        self.time_to_live.is_some()
    }

    pub(crate) fn has_expiry(&self) -> (r: bool)
        ensures
            r == (self@.time_to_live is Some || self@.time_to_idle is Some),
    {
        self.time_to_live.is_some() || self.time_to_idle.is_some()
    }

    pub fn time_to_live(&self) -> (r: Option<Duration>)
        ensures
            r == self@.time_to_live,
    {
        self.time_to_live
    }

    pub fn time_to_idle(&self) -> (r: Option<Duration>)
        ensures
            r == self@.time_to_idle,
    {
        self.time_to_idle
    }

    pub fn max_capacity(&self) -> (r: Option<u64>)
        ensures
            r == self@.max_capacity,
    {
        self.max_capacity
    }

    /// The time before which entries are invalid.
    pub fn valid_after(&self) -> (r: Option<Instant>)
        ensures
            r == self@.valid_after,
    {
        self.valid_after.instant()
    }

    pub(crate) fn has_valid_after(&self) -> (r: bool)
        ensures
            r == (self@.valid_after is Some),
    {
        self.valid_after.is_set()
    }

    /// The number of admitted entries.
    pub fn estimated_entry_count(&self) -> (r: u64)
        ensures
            r == self@.counters.entry_count,
    {
        self.counters.entry_count
    }

    /// The sum of the weights of the admitted entries.
    pub fn weighted_size(&self) -> (r: u64)
        ensures
            r == self@.counters.weighted_size,
    {
        self.counters.weighted_size
    }

    pub(crate) fn has_enough_capacity(&self, candidate_weight: u32) -> (r: bool)
        ensures
            r == self@.has_room_for(candidate_weight),
    {
        match self.max_capacity {
            Some(limit) => match self.counters.weighted_size.checked_add(candidate_weight as u64) {
                Some(total) => total <= limit,
                None => false,
            },
            None => true,
        }
    }

    pub(crate) fn weights_to_evict(&self) -> (r: u64)
        ensures
            r == self@.overweight(),
    {
        match self.max_capacity {
            Some(limit) => self.counters.weighted_size.saturating_sub(limit),
            None => 0,
        }
    }
}

impl<V> Inner<V> {
    /// The entry of a key.
    pub(crate) fn find(&self, key: u64) -> (r: Option<usize>)
        requires
            self.wf(),
        ensures
            r == self@.find(key),
            r is Some ==> self@.entries.dom().contains(r->0) && self@.info(r->0).key_hash.key == key,
    {
        proof {
            assert(self@.cache.dom().contains(key) ==> self@.entries.dom().contains(self@.cache[key]));
        }
        store_get(&self.cache, key)
    }

    /// What the policies know of an entry.
    pub(crate) fn info(&self, e: usize) -> (r: &EntryInfo<u64>)
        requires
            self.wf(),
            self@.entries.dom().contains(e),
        ensures
            *r == self@.info(e),
    {
        self.entries.get(e).entry_info()
    }

    /// The value of an entry.
    pub(crate) fn value(&self, e: usize) -> (r: &V)
        requires
            self.wf(),
            self@.entries.dom().contains(e),
        ensures
            *r == self@.entries[e].value,
    {
        &self.entries.get(e).value
    }

    /// The first entry of the access-order queue of a region.
    pub(crate) fn front_ao(&self, region: CacheRegion) -> (r: Option<usize>)
        requires
            self.wf(),
        ensures
            r == if self@.queues.access_order(region).len() == 0 {
                None::<usize>
            } else {
                Some(self@.queues.access_order(region)[0])
            },
            r is Some ==> self@.entries.dom().contains(r->0),
    {
        let r = self.deques.peek_front_ao(region);
        proof {
            self.deques.lemma_linked(self.entries@);
            if r is Some {
                assert(self.deques@.access_order(region)[0] == r->0);
                assert(self.deques@.access_order(region).contains(r->0));
            }
        }
        r
    }

    /// The first entry of the write-order queue.
    pub(crate) fn front_wo(&self) -> (r: Option<usize>)
        requires
            self.wf(),
        ensures
            r == if self@.queues.write_order.len() == 0 {
                None::<usize>
            } else {
                Some(self@.queues.write_order[0])
            },
            r is Some ==> self@.entries.dom().contains(r->0),
    {
        let r = self.deques.peek_front_wo();
        proof {
            self.deques.lemma_linked(self.entries@);
            if r is Some {
                assert(self.deques@.write_order[0] == r->0);
                assert(self.deques@.write_order.contains(r->0));
            }
        }
        r
    }

    /// The entry behind the one at `i` in the access-order queue.
    pub(crate) fn next_ao(&self, e: usize, Ghost(i): Ghost<int>) -> (r: Option<usize>)
        requires
            self.wf(),
            0 <= i < self@.queues.probation.len(),
            self@.queues.probation[i] == e,
        ensures
            r == if i + 1 < self@.queues.probation.len() {
                Some(self@.queues.probation[i + 1])
            } else {
                None::<usize>
            },
            r is Some ==> self@.entries.dom().contains(r->0),
    {
        proof {
            self.deques.lemma_linked(self.entries@);
            let queue = self@.queues.probation;
            assert(self.deques@.access_order(CacheRegion::MainProbation) == queue);
            assert(queue.contains(e));
            assert(self.deques@.access_order(CacheRegion::MainProbation).contains(e));
            self.lemma_region(e);
            assert(queue.index_of(e) == i);
        }
        let r = self.deques.next_ao(&self.entries, e);
        proof {
            if r is Some {
                assert(self@.queues.probation[i + 1] == r->0);
                assert(self.deques@.access_order(CacheRegion::MainProbation).contains(r->0));
            }
        }
        r
    }

    /// Moves the first entry of the access-order queue of a region to the back.
    pub(crate) fn front_to_back_ao(&mut self, region: CacheRegion)
        requires
            old(self).wf(),
        ensures
            final(self).wf(),
            final(self)@ == if old(self)@.queues.access_order(region).len() == 0 {
                old(self)@
            } else {
                CacheState {
                    queues: old(self)@.queues.with_access_order(
                        region,
                        moved_back(
                            old(self)@.queues.access_order(region),
                            old(self)@.queues.access_order(region)[0],
                        ),
                    ),
                    ..old(self)@
                }
            },
    {
        match self.front_ao(region) {
            Some(e) => {
                self.move_to_back_ao(e);
            },
            None => {},
        }
    }

    /// The estimate of how often a hash was seen.
    pub(crate) fn frequency(&self, hash: u64) -> (r: u64)
        requires
            self.wf(),
        ensures
            r == self@.sketch.frequency(hash),
            r <= 15,
    {
        self.frequency_sketch.frequency(hash) as u64
    }

    /// Counts a hash once more.
    pub(crate) fn increment_frequency(&mut self, hash: u64)
        requires
            old(self).wf(),
        ensures
            final(self).wf(),
            final(self)@ == (CacheState {
                sketch: old(self)@.sketch.incremented(hash),
                ..old(self)@
            }),
    {
        self.frequency_sketch.increment(hash);
        proof {
            old(self)@.lemma_rest_wf(self@);
            self.lemma_removed_kept(old(self));
        }
    }

    /// Takes the oldest read out of the log.
    pub(crate) fn pop_read(&mut self) -> (r: Option<ReadOp>)
        requires
            old(self).wf(),
        ensures
            final(self).wf(),
            r == if old(self)@.reads.len() == 0 {
                None::<ReadOp>
            } else {
                Some(old(self)@.reads[0])
            },
            r is Some ==> old(self)@.read_ok(r->0),
            final(self)@ == if old(self)@.reads.len() == 0 {
                old(self)@
            } else {
                CacheState { reads: old(self)@.reads.remove(0), ..old(self)@ }
            },
    {
        let r = self.read_ops.try_recv();
        proof {
            if r is Some {
                assert(old(self)@.read_ok(old(self)@.reads[0]));
                assert forall|i: int| 0 <= i < self@.reads.len() implies old(self)@.read_ok(
                    #[trigger] self@.reads[i],
                ) by {
                    assert(old(self)@.read_ok(old(self)@.reads[i + 1]));
                }
            }
            old(self)@.lemma_logs_wf(self@);
            self.lemma_removed_kept(old(self));
        }
        r
    }

    /// Takes the oldest write out of the log.
    pub(crate) fn pop_write(&mut self) -> (r: Option<WriteOp>)
        requires
            old(self).wf(),
        ensures
            final(self).wf(),
            r == if old(self)@.writes.len() == 0 {
                None::<WriteOp>
            } else {
                Some(old(self)@.writes[0])
            },
            r is Some ==> old(self)@.write_ok(r->0),
            final(self)@ == if old(self)@.writes.len() == 0 {
                old(self)@
            } else {
                CacheState { writes: old(self)@.writes.remove(0), ..old(self)@ }
            },
    {
        let r = self.write_ops.try_recv();
        proof {
            if r is Some {
                assert(old(self)@.write_ok(old(self)@.writes[0]));
                assert forall|i: int| 0 <= i < self@.writes.len() implies old(self)@.write_ok(
                    #[trigger] self@.writes[i],
                ) by {
                    assert(old(self)@.write_ok(old(self)@.writes[i + 1]));
                }
            }
            old(self)@.lemma_logs_wf(self@);
            self.lemma_removed_kept(old(self));
        }
        r
    }

    /// Logs a read, unless the log is full.
    pub(crate) fn push_read(&mut self, op: ReadOp) -> (r: bool)
        requires
            old(self).wf(),
            old(self)@.read_ok(op),
        ensures
            final(self).wf(),
            r == (old(self)@.reads.len() < READ_LOG_SIZE),
            final(self)@ == if r {
                CacheState { reads: old(self)@.reads.push(op), ..old(self)@ }
            } else {
                old(self)@
            },
    {
        let r = self.read_ops.try_send(op);
        proof {
            assert forall|i: int| 0 <= i < self@.reads.len() implies old(self)@.read_ok(
                #[trigger] self@.reads[i],
            ) by {
                if i < old(self)@.reads.len() {
                    assert(old(self)@.read_ok(old(self)@.reads[i]));
                }
            }
            old(self)@.lemma_logs_wf(self@);
            self.lemma_removed_kept(old(self));
        }
        r
    }

    /// Logs a write, unless the log is full.
    pub(crate) fn push_write(&mut self, op: WriteOp) -> (r: bool)
        requires
            old(self).wf(),
            old(self)@.write_ok(op),
        ensures
            final(self).wf(),
            r == (old(self)@.writes.len() < WRITE_LOG_SIZE),
            final(self)@ == if r {
                CacheState { writes: old(self)@.writes.push(op), ..old(self)@ }
            } else {
                old(self)@
            },
    {
        let r = self.write_ops.try_send(op);
        proof {
            assert forall|i: int| 0 <= i < self@.writes.len() implies old(self)@.write_ok(
                #[trigger] self@.writes[i],
            ) by {
                if i < old(self)@.writes.len() {
                    assert(old(self)@.write_ok(old(self)@.writes[i]));
                }
            }
            old(self)@.lemma_logs_wf(self@);
            self.lemma_removed_kept(old(self));
        }
        r
    }

    /// The number of logged reads.
    pub fn read_log_len(&self) -> (r: usize)
        requires
            self.wf(),
        ensures
            r == self@.reads.len(),
            r <= READ_LOG_SIZE,
    {
        self.read_ops.len()
    }

    /// The number of logged writes.
    pub fn write_log_len(&self) -> (r: usize)
        requires
            self.wf(),
        ensures
            r == self@.writes.len(),
            r <= WRITE_LOG_SIZE,
    {
        self.write_ops.len()
    }

    /// Makes entries that were touched before `timestamp` invalid.
    pub fn set_valid_after(&mut self, timestamp: Instant)
        requires
            old(self).wf(),
        ensures
            final(self).wf(),
            final(self)@ == (CacheState {
                valid_after: AtomicInstant { instant: timestamp.nanos }@,
                ..old(self)@
            }),
    {
        self.valid_after.set_instant(timestamp);
        proof {
            old(self)@.lemma_rest_wf(self@);
            self.lemma_removed_kept(old(self));
        }
    }
}

impl<V> Inner<V> {
    /// Replaces the value of an entry, at the time `now`.
    pub(crate) fn replace_value(&mut self, e: usize, value: V, policy_weight: u32, now: Instant)
        requires
            old(self).wf(),
            old(self)@.entries.dom().contains(e),
        ensures
            final(self).wf(),
            final(self)@ == old(self)@.replaced(e, value, policy_weight, now),
    {
        let entry = self.entries.get_mut(e);
        entry.value = value;
        entry.info.set_policy_weight(policy_weight);
        entry.info.set_last_accessed(now);
        entry.info.set_last_modified(now);
        proof {
            self.lemma_info_changed(old(self), e);
        }
    }

    /// Puts a new entry under a key that has none, at the time `now`.
    pub(crate) fn insert_entry(
        &mut self,
        key: u64,
        hash: u64,
        value: V,
        policy_weight: u32,
        now: Instant,
    ) -> (r: usize)
        requires
            old(self).wf(),
            old(self)@.find(key) is None,
        ensures
            final(self).wf(),
            !old(self)@.entries.dom().contains(r),
            final(self)@ == old(self)@.inserted(r, final(self)@.entries[r]),
            new_entry(final(self)@.entries[r], key, hash, value, policy_weight, Some(now)),
    {
        let info = EntryInfo::new(KeyHash::new(key, hash), now, policy_weight);
        let entry = ValueEntry::new(value, info);
        let ghost state = EntryState { value: entry.value, info: entry.info };
        let e: usize = self.entries.insert(entry);
        let prev = store_insert(&mut self.cache, key, e);
        proof {
            old(self)@.lemma_inserted_wf(e, state);
            assert(self@.entries =~= old(self)@.inserted(e, state).entries);
            self.deques.lemma_entry_without_nodes(old(self).entries@, self.entries@, e);
            assert forall|x: usize| #[trigger] self.removed@.contains(x) implies self.entries@.dom().contains(x)
                && !self@.in_cache(x) by {
                assert(old(self).removed@.contains(x));
                assert(old(self).entries@.dom().contains(x));
                assert(x != e);
            }
            assert forall|x: usize| #[trigger] self.entries@.dom().contains(x) implies self@.in_cache(x)
                || self.removed@.contains(x) by {
                if x != e {
                    assert(old(self).entries@.dom().contains(x));
                    if old(self)@.in_cache(x) {
                        assert(self@.info(x) == old(self)@.info(x));
                        assert(self@.info(x).key_hash.key != key);
                    }
                }
            }
        }
        e
    }

    pub fn is_frequency_sketch_enabled(&self) -> (r: bool)
        ensures
            r == self@.sketch_enabled,
    {
        self.frequency_sketch_enabled
    }

    /// The number of words of the frequency sketch.
    pub fn sketch_table_len(&self) -> (r: usize)
        ensures
            r == self@.sketch.table.len(),
    {
        self.frequency_sketch.table_len()
    }

    pub fn has_weigher(&self) -> (r: bool)
        ensures
            r == self@.has_weigher,
    {
        self.has_weigher
    }

    /// Gives the cache a frequency sketch for a capacity.
    pub(crate) fn do_enable_frequency_sketch(&mut self, cache_capacity: u64)
        requires
            old(self).wf(),
        ensures
            final(self).wf(),
            final(self)@ == old(self)@.with_sketch(cache_capacity),
    {
        let skt_capacity: u32 = sketch_capacity(cache_capacity);
        self.frequency_sketch.ensure_capacity(skt_capacity);
        self.frequency_sketch_enabled = true;
        proof {
            old(self)@.lemma_rest_wf(self@);
            self.lemma_removed_kept(old(self));
        }
    }

    /// Replaces the counted weight of an entry by a new one.
    pub(crate) fn recount_weight(&mut self, old_weight: u32, new_weight: u32)
        requires
            old(self).wf(),
        ensures
            final(self).wf(),
            final(self)@ == (CacheState {
                counters: old(self)@.counters.subtracted(0, old_weight).added(0, new_weight),
                ..old(self)@
            }),
    {
        self.counters.saturating_sub(0, old_weight);
        self.counters.saturating_add(0, new_weight);
        proof {
            old(self)@.lemma_rest_wf(self@);
            self.lemma_removed_kept(old(self));
        }
    }

    /// The keys of the hash table, in an order that is left open.
    pub fn keys(&self) -> (r: Vec<u64>)
        requires
            self.wf(),
        ensures
            r@.no_duplicates(),
            r@.to_set() == self@.cache.dom(),
    {
        store_keys(&self.cache)
    }

    /// Drops the entries that neither the hash table nor the queues have.
    pub(crate) fn release_removed_entries(&mut self)
        requires
            old(self).wf(),
            old(self)@.reads.len() == 0,
            old(self)@.writes.len() == 0,
        ensures
            final(self).wf(),
            final(self)@ == old(self)@.collected(),
    {
        let mut removed: Vec<usize> = Vec::new();
        std::mem::swap(&mut self.removed, &mut removed);
        let ghost all = removed@;
        let mut kept: Vec<usize> = Vec::new();
        let mut i: usize = 0;
        let ghost m0 = self.entries@;
        assert forall|j: int| 0 <= j < all.len() implies m0.dom().contains(#[trigger] all[j]) by {
            assert(old(self).removed@.contains(all[j]));
        }
        while i < removed.len()
            invariant
                removed@ == all,
                i <= all.len(),
                all == old(self).removed@,
                old(self).wf(),
                m0 == old(self).entries@,
                *self == (Inner { entries: self.entries, removed: self.removed, ..*old(self) }),
                self.entries.wf(),
                self.deques.linked(self.entries@),
                forall|x: usize| #[trigger]
                    self.entries@.dom().contains(x) ==> m0.dom().contains(x) && self.entries@[x] == m0[x],
                forall|x: usize| #[trigger]
                    m0.dom().contains(x) && !self.entries@.dom().contains(x) ==> !old(self)@.in_cache(x)
                        && !m0[x].info.is_admitted,
                forall|j: int|
                    i <= j < all.len() ==> self.entries@.dom().contains(#[trigger] all[j]),
                forall|j: int|
                    0 <= j < i && self.entries@.dom().contains(#[trigger] all[j]) ==> m0[all[j]].info.is_admitted
                        && kept@.contains(all[j]),
                forall|x: usize| #[trigger]
                    kept@.contains(x) ==> self.entries@.dom().contains(x) && !old(self)@.in_cache(x)
                        && m0[x].info.is_admitted && exists|j: int| 0 <= j < i && all[j] == x,
                kept@.no_duplicates(),
            decreases all.len() - i,
        {
            let e: usize = removed[i];
            proof {
                assert(all[i as int] == e);
                assert(old(self).removed@.contains(e));
                assert(old(self)@.entries.dom().contains(e));
                assert(!kept@.contains(e)) by {
                    if kept@.contains(e) {
                        let j = choose|j: int| 0 <= j < i && all[j] == e;
                        assert(all[j] == all[i as int]);
                    }
                }
                old(self).lemma_region(e);
            }
            if self.entries.get(e).is_admitted() {
                let ghost kept0 = kept@;
                kept.push(e);
                proof {
                    lemma_pushed_members(kept0, e);
                    assert forall|x: usize| #[trigger] kept@.contains(x) implies self.entries@.dom().contains(x)
                        && !old(self)@.in_cache(x) && m0[x].info.is_admitted && exists|j: int|
                        0 <= j < i + 1 && all[j] == x by {
                        if x == e {
                            assert(all[i as int] == x);
                        } else {
                            assert(kept0.contains(x));
                            let j = choose|j: int| 0 <= j < i && all[j] == x;
                            assert(all[j] == x);
                        }
                    }
                }
            } else {
                let ghost m1 = self.entries@;
                let dropped = self.entries.remove(e);
                proof {
                    self.deques.lemma_entry_without_nodes(m1, self.entries@, e);
                    assert forall|x: usize| #[trigger] kept@.contains(x) implies self.entries@.dom().contains(x)
                        && !old(self)@.in_cache(x) && m0[x].info.is_admitted && exists|j: int|
                        0 <= j < i + 1 && all[j] == x by {
                        let j = choose|j: int| 0 <= j < i && all[j] == x;
                        assert(all[j] == x);
                    }
                    assert forall|j: int| i + 1 <= j < all.len() implies self.entries@.dom().contains(
                        #[trigger] all[j],
                    ) by {
                        assert(all[j] != all[i as int]);
                    }
                }
            }
            i = i + 1;
        }
        self.removed = kept;
        proof {
            let s0 = old(self)@;
            let s1 = s0.collected();
            assert forall|x: usize| self.entries@.dom().contains(x) <==> s1.entries.dom().contains(x) by {
                if self.entries@.dom().contains(x) {
                    assert(old(self).entries@.dom().contains(x));
                    if !s0.in_cache(x) {
                        assert(old(self).removed@.contains(x));
                        let j = choose|j: int| 0 <= j < all.len() && all[j] == x;
                        assert(self.entries@.dom().contains(all[j]));
                    }
                }
                if s1.entries.dom().contains(x) {
                    assert(m0.dom().contains(x));
                }
            }
            assert(self@.entries =~= s1.entries) by {
                assert forall|x: usize| self.entries@.dom().contains(x) implies self@.entries[x] == s1.entries[x] by {
                    assert(m0.dom().contains(x));
                }
            }
            s0.lemma_collected_wf();
            assert forall|x: usize| #[trigger] self.removed@.contains(x) implies self.entries@.dom().contains(x)
                && !self@.in_cache(x) by {
                assert(self.entries@[x] == m0[x]);
            }
            assert forall|x: usize| #[trigger] self.entries@.dom().contains(x) implies self@.in_cache(x)
                || self.removed@.contains(x) by {
                assert(self.entries@[x] == m0[x]);
                assert(old(self).entries@.dom().contains(x));
                if !s0.in_cache(x) {
                    assert(old(self).removed@.contains(x));
                    let j = choose|j: int| 0 <= j < all.len() && all[j] == x;
                    assert(self.entries@.dom().contains(all[j]));
                }
            }
        }
    }
}

proof fn lemma_pushed_members(s: Seq<usize>, e: usize)
    ensures
        forall|x: usize| #[trigger] s.push(e).contains(x) <==> s.contains(x) || x == e,
        s.no_duplicates() && !s.contains(e) ==> s.push(e).no_duplicates(),
{
    let r = s.push(e);
    assert(r[s.len() as int] == e);
    assert forall|x: usize| #[trigger] r.contains(x) <==> s.contains(x) || x == e by {
        if s.contains(x) {
            let j = choose|j: int| 0 <= j < s.len() && s[j] == x;
            assert(r[j] == x);
        }
        if r.contains(x) && x != e {
            let i = choose|i: int| 0 <= i < r.len() && r[i] == x;
            assert(s[i] == x);
        }
    }
}

} // verus!
