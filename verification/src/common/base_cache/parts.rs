//! The parts of a cache that counts its entries, and the steps by which the parts change
//! together.
use std::collections::HashMap;
use std::time::Duration;

use vstd::prelude::*;

use super::state::QueueState;
use crate::common::concurrent::deques::{Deques, Queues};
use crate::common::concurrent::entry_info::EntryInfo;
use crate::common::concurrent::entry_table::EntryTable;
use crate::common::concurrent::{entry_states, new_entry, EntryState, KeyHash, ValueEntry};
use crate::common::estimator::{Estimator, SketchModel};
use crate::common::op_log::{QueueLog, QueueOp, ReadLog, ReadOp};
use crate::common::time::{AtomicInstant, Instant};
use crate::common::CacheRegion;

verus! {

broadcast use vstd::std_specs::hash::group_hash_axioms;

/// The hash table, the entries and the policies of a cache that counts its entries.
pub struct Inner<V, F> {
    max_capacity: usize,
    cache: HashMap<u64, usize>,
    entries: EntryTable<u64, V>,
    /// The entries that were removed from the hash table and are still in `entries`.
    removed: Vec<usize>,
    deques: Deques,
    frequency_sketch: F,
    read_ops: ReadLog,
    write_ops: QueueLog,
    time_to_live: Option<Duration>,
    time_to_idle: Option<Duration>,
}

impl<V, F: Estimator> Inner<V, F> {
    pub closed spec fn view(&self) -> QueueState<V, F::Model> {
        QueueState {
            cache: self.cache@,
            entries: entry_states(self.entries@),
            queues: self.deques@,
            sketch: self.frequency_sketch.model(),
            reads: self.read_ops@,
            writes: self.write_ops@,
            max_capacity: self.max_capacity,
            time_to_live: self.time_to_live,
            time_to_idle: self.time_to_idle,
            read_log_size: self.read_ops.capacity(),
            write_log_size: self.write_ops.capacity(),
        }
    }

    /// The entries that the hash table does not have are those that were removed from it.
    spec fn removed_ok(&self) -> bool {
        &&& self.removed@.no_duplicates()
        &&& forall|e: usize| #[trigger]
            self.removed@.contains(e) ==> self.entries@.dom().contains(e) && !self@.in_cache(e)
        &&& forall|e: usize| #[trigger]
            self.entries@.dom().contains(e) ==> self@.in_cache(e) || self.removed@.contains(e)
    }

    /// The parts agree with each other.
    pub closed spec fn wf(&self) -> bool {
        &&& self.entries.wf()
        &&& self.deques.wf()
        &&& self.deques.linked(self.entries@)
        &&& self.frequency_sketch.in_order()
        &&& self.read_ops.wf()
        &&& self.write_ops.wf()
        &&& self.write_ops.capacity() > 0
        &&& self@.wf()
        &&& self.removed_ok()
    }

    /// What every cache has.
    pub proof fn lemma_wf(&self)
        requires
            self.wf(),
        ensures
            self@.wf(),
            self@.reads.len() <= self@.read_log_size,
            self@.writes.len() <= self@.write_log_size,
            self@.write_log_size > 0,
    {
        self.read_ops.lemma_wf();
        self.write_ops.lemma_wf();
    }

    pub fn new(
        max_capacity: usize,
        frequency_sketch: F,
        read_log_size: usize,
        write_log_size: usize,
        time_to_live: Option<Duration>,
        time_to_idle: Option<Duration>,
    ) -> (r: Self)
        requires
            frequency_sketch.in_order(),
            1 <= read_log_size <= 65536,
            1 <= write_log_size <= 65536,
        ensures
            r.wf(),
            r@.cache.dom() == Set::<u64>::empty(),
            r@.entries.dom() == Set::<usize>::empty(),
            r@.queues == Queues::empty(),
            r@.sketch == frequency_sketch.model(),
            r@.reads.len() == 0,
            r@.writes.len() == 0,
            r@.max_capacity == max_capacity,
            r@.time_to_live == time_to_live,
            r@.time_to_idle == time_to_idle,
            r@.read_log_size == read_log_size,
            r@.write_log_size == write_log_size,
    {
        let deques = Deques::default();
        let entries: EntryTable<u64, V> = EntryTable::new();
        let r = Inner {
            max_capacity,
            cache: HashMap::new(),
            entries,
            removed: Vec::new(),
            deques,
            frequency_sketch,
            read_ops: ReadLog::new(read_log_size),
            write_ops: QueueLog::new(write_log_size),
            time_to_live,
            time_to_idle,
        };
        proof {
            deques.lemma_empty_linked(entries@);
            assert(r@.entries.dom() =~= Set::<usize>::empty());
        }
        r
    }

    /// Which entries were removed from the hash table depends on the hash table and the keys
    /// alone.
    proof fn lemma_removed_kept(&self, before: &Self)
        requires
            before.removed_ok(),
            self.removed == before.removed,
            self@.cache == before@.cache,
            self@.entries.dom() =~= before@.entries.dom(),
            forall|e: usize|
                before@.entries.dom().contains(e) ==> (#[trigger] self@.info(e)).key_hash
                    == before@.info(e).key_hash,
        ensures
            self.removed_ok(),
    {
        assert forall|x: usize| #[trigger] self.removed@.contains(x) implies self.entries@.dom().contains(x)
            && !self@.in_cache(x) by {
            assert(before.removed@.contains(x));
            assert(before@.entries.dom().contains(x));
            assert(self@.info(x).key_hash == before@.info(x).key_hash);
        }
        assert forall|x: usize| #[trigger] self.entries@.dom().contains(x) implies self@.in_cache(x)
            || self.removed@.contains(x) by {
            assert(self@.entries.dom().contains(x));
            assert(before@.entries.dom().contains(x));
            assert(before.entries@.dom().contains(x));
            assert(self@.info(x).key_hash == before@.info(x).key_hash);
        }
    }

    /// A change of one entry that leaves its nodes and its key alone.
    proof fn lemma_info_changed(&self, before: &Self, e: usize)
        requires
            before.wf(),
            before.entries@.dom().contains(e),
            self.entries.wf(),
            self.entries@ == before.entries@.insert(e, self.entries@[e]),
            self.entries@[e].nodes == before.entries@[e].nodes,
            self.entries@[e].info.key_hash == before.entries@[e].info.key_hash,
            *self == (Inner { entries: self.entries, ..*before }),
        ensures
            self.wf(),
            self@.entries == before@.entries.insert(
                e,
                EntryState { value: self.entries@[e].value, info: self.entries@[e].info },
            ),
            self@ == (QueueState { entries: self@.entries, ..before@ }),
    {
        assert(self@.entries =~= before@.entries.insert(
            e,
            EntryState { value: self.entries@[e].value, info: self.entries@[e].info },
        ));
        self.deques.lemma_same_nodes(before.entries@, self.entries@);
        before@.lemma_fewer_wf(self@);
        self.lemma_removed_kept(before);
    }

    /// Who is in a queue has a node there.
    proof fn lemma_nodes(&self, e: usize)
        requires
            self.wf(),
            self@.entries.dom().contains(e),
        ensures
            self.entries@[e].nodes.access_order_q_node is Some <==> self@.queues.probation.contains(e),
            self.entries@[e].nodes.access_order_q_node is Some
                ==> self.entries@[e].nodes.access_order_q_node->0.region == CacheRegion::MainProbation,
            self.entries@[e].nodes.write_order_q_node is Some <==> self@.queues.write_order.contains(e),
    {
        self.deques.lemma_linked(self.entries@);
        assert(self.deques@.access_order(CacheRegion::MainProbation) == self.deques@.probation);
        if self.entries@[e].nodes.access_order_q_node is Some {
            let region = self.entries@[e].nodes.access_order_q_node->0.region;
            assert(self.deques@.access_order(region).contains(e));
        }
        if self@.queues.probation.contains(e) {
            assert(self.deques@.access_order(CacheRegion::MainProbation).contains(e));
        }
    }

    pub(crate) fn set_last_accessed(&mut self, e: usize, ts: Option<Instant>)
        requires
            old(self).wf(),
            old(self)@.entries.dom().contains(e),
        ensures
            final(self).wf(),
            final(self)@ == old(self)@.accessed(e, ts),
    {
        match ts {
            Some(ts) => {
                self.entries.get_mut(e).info.set_last_accessed(ts);
                proof {
                    self.lemma_info_changed(old(self), e);
                }
            },
            None => {},
        }
    }

    pub(crate) fn move_to_back_ao(&mut self, e: usize)
        requires
            old(self).wf(),
            old(self)@.entries.dom().contains(e),
        ensures
            final(self).wf(),
            final(self)@ == old(self)@.to_back_ao(e),
    {
        proof {
            self.lemma_nodes(e);
            self@.lemma_queue_steps_wf(e);
        }
        self.deques.move_to_back_ao(&self.entries, e);
        proof {
            self.lemma_removed_kept(old(self));
        }
    }

    pub(crate) fn move_to_back_wo(&mut self, e: usize)
        requires
            old(self).wf(),
            old(self)@.entries.dom().contains(e),
        ensures
            final(self).wf(),
            final(self)@ == old(self)@.to_back_wo(e),
    {
        proof {
            self@.lemma_queue_steps_wf(e);
        }
        self.deques.move_to_back_wo(&self.entries, e);
        proof {
            self.lemma_removed_kept(old(self));
        }
    }

    pub(crate) fn unlink_ao(&mut self, e: usize)
        requires
            old(self).wf(),
            old(self)@.entries.dom().contains(e),
        ensures
            final(self).wf(),
            final(self)@ == old(self)@.unlinked_ao(e),
    {
        proof {
            self.lemma_nodes(e);
            self@.lemma_queue_steps_wf(e);
        }
        self.deques.unlink_ao(&mut self.entries, e);
        proof {
            assert(self@.entries =~= old(self)@.entries);
            self.lemma_removed_kept(old(self));
        }
    }

    pub(crate) fn unlink_wo(&mut self, e: usize)
        requires
            old(self).wf(),
            old(self)@.entries.dom().contains(e),
        ensures
            final(self).wf(),
            final(self)@ == old(self)@.unlinked_wo(e),
    {
        proof {
            self@.lemma_queue_steps_wf(e);
        }
        self.deques.unlink_wo(&mut self.entries, e);
        proof {
            assert(self@.entries =~= old(self)@.entries);
            self.lemma_removed_kept(old(self));
        }
    }

    /// Takes an entry into the queues.
    pub(crate) fn push_back(&mut self, e: usize)
        requires
            old(self).wf(),
            old(self)@.entries.dom().contains(e),
            !old(self)@.queues.probation.contains(e),
            !old(self)@.queues.write_order.contains(e),
            forall|i: int|
                0 <= i < old(self)@.writes.len() && (#[trigger] old(self)@.writes[i]) is Insert
                    ==> old(self)@.writes[i]->Insert_entry != e,
        ensures
            final(self).wf(),
            final(self)@ == old(self)@.queued(e),
    {
        proof {
            self.lemma_nodes(e);
            self@.lemma_queued_wf(e);
        }
        self.deques.push_back_ao(&mut self.entries, CacheRegion::MainProbation, e);
        if self.time_to_live.is_some() {
            self.deques.push_back_wo(&mut self.entries, e);
        }
        proof {
            assert(self@.entries =~= old(self)@.entries);
            self.lemma_removed_kept(old(self));
        }
    }

    /// Takes a key out of the hash table, and returns its entry.
    pub(crate) fn remove_from_cache(&mut self, key: u64) -> (r: Option<usize>)
        requires
            old(self).wf(),
        ensures
            final(self).wf(),
            final(self)@ == old(self)@.without_key(key),
            r == old(self)@.find(key),
            r is Some ==> old(self)@.entries.dom().contains(r->0),
    {
        let r: Option<usize> = self.cache.remove(&key);
        proof {
            assert(self@.cache =~= old(self)@.cache.remove(key));
            old(self)@.lemma_fewer_wf(old(self)@.without_key(key));
            if r is Some {
                assert(old(self)@.cache.dom().contains(key));
            }
        }
        match r {
            Some(e) => {
                assert(old(self)@.in_cache(e));
                assert(!self.removed@.contains(e));
                self.removed.push(e);
                proof {
                    lemma_pushed_members(old(self).removed@, e);
                }
            },
            None => {},
        }
        proof {
            assert forall|x: usize| #[trigger] self.removed@.contains(x) implies self.entries@.dom().contains(x)
                && !self@.in_cache(x) by {
                assert(old(self).removed@.contains(x) || r == Some(x));
            }
            assert forall|x: usize| #[trigger] self.entries@.dom().contains(x) implies self@.in_cache(x)
                || self.removed@.contains(x) by {
                assert(old(self).entries@.dom().contains(x));
                if old(self)@.in_cache(x) && !self@.in_cache(x) {
                    assert(r == Some(x));
                }
            }
        }
        r
    }

    /// The entry of a key.
    pub(crate) fn find(&self, key: u64) -> (r: Option<usize>)
        requires
            self.wf(),
        ensures
            r == self@.find(key),
            r is Some ==> self@.entries.dom().contains(r->0),
    {
        proof {
            assert(self@.cache.dom().contains(key) ==> self@.entries.dom().contains(self@.cache[key]));
        }
        match self.cache.get(&key) {
            Some(e) => Some(*e),
            None => None,
        }
    }

    /// The number of keys in the hash table.
    pub(crate) fn cache_len(&self) -> (r: usize)
        requires
            self.wf(),
        ensures
            r == self@.cache.len(),
    {
        self.cache.len()
    }

    /// What the policies know of an entry.
    pub(crate) fn info(&self, e: usize) -> (r: &EntryInfo<u64>)
        requires
            self.wf(),
            self@.entries.dom().contains(e),
        ensures
            *r == self@.info(e),
    {
        self.entries.get(e).entry_info()
    }

    /// The value of an entry.
    pub(crate) fn value(&self, e: usize) -> (r: &V)
        requires
            self.wf(),
            self@.entries.dom().contains(e),
        ensures
            *r == self@.entries[e].value,
    {
        &self.entries.get(e).value
    }

    /// The first entry of the access-order queue.
    pub(crate) fn front_ao(&self) -> (r: Option<usize>)
        requires
            self.wf(),
        ensures
            r == if self@.queues.probation.len() == 0 {
                None::<usize>
            } else {
                Some(self@.queues.probation[0])
            },
            r is Some ==> self@.entries.dom().contains(r->0),
    {
        let r = self.deques.peek_front_ao(CacheRegion::MainProbation);
        proof {
            if r is Some {
                assert(self@.queues.probation[0] == r->0);
                assert(self@.queues.probation.contains(r->0));
            }
        }
        r
    }

    /// The first entry of the write-order queue.
    pub(crate) fn front_wo(&self) -> (r: Option<usize>)
        requires
            self.wf(),
        ensures
            r == if self@.queues.write_order.len() == 0 {
                None::<usize>
            } else {
                Some(self@.queues.write_order[0])
            },
            r is Some ==> self@.entries.dom().contains(r->0),
    {
        let r = self.deques.peek_front_wo();
        proof {
            if r is Some {
                assert(self@.queues.write_order[0] == r->0);
                assert(self@.queues.write_order.contains(r->0));
            }
        }
        r
    }

    /// The estimate of how often a hash was seen.
    pub(crate) fn frequency(&self, hash: u64) -> (r: u8)
        requires
            self.wf(),
        ensures
            r == self@.sketch.estimate(hash),
    {
        self.frequency_sketch.estimate_of(hash)
    }

    /// Counts a hash once more.
    pub(crate) fn increment_frequency(&mut self, hash: u64)
        requires
            old(self).wf(),
        ensures
            final(self).wf(),
            final(self)@ == (QueueState {
                sketch: old(self)@.sketch.counted(hash),
                ..old(self)@
            }),
    {
        self.frequency_sketch.count(hash);
        proof {
            old(self)@.lemma_fewer_wf(self@);
            self.lemma_removed_kept(old(self));
        }
    }

    /// Takes the oldest read out of the log.
    pub(crate) fn pop_read(&mut self) -> (r: Option<ReadOp>)
        requires
            old(self).wf(),
        ensures
            final(self).wf(),
            r == if old(self)@.reads.len() == 0 {
                None::<ReadOp>
            } else {
                Some(old(self)@.reads[0])
            },
            r is Some ==> old(self)@.read_ok(r->0),
            final(self)@ == if old(self)@.reads.len() == 0 {
                old(self)@
            } else {
                QueueState { reads: old(self)@.reads.remove(0), ..old(self)@ }
            },
    {
        let r = self.read_ops.try_recv();
        proof {
            if r is Some {
                old(self)@.lemma_read_popped_wf();
            }
            self.lemma_removed_kept(old(self));
        }
        r
    }

    /// Takes the oldest write out of the log.
    pub(crate) fn pop_write(&mut self) -> (r: Option<QueueOp>)
        requires
            old(self).wf(),
        ensures
            final(self).wf(),
            r == if old(self)@.writes.len() == 0 {
                None::<QueueOp>
            } else {
                Some(old(self)@.writes[0])
            },
            r is Some ==> old(self)@.write_ok(r->0),
            r is Some && r->0 is Insert ==> forall|i: int|
                0 <= i < final(self)@.writes.len() && (#[trigger] final(self)@.writes[i]) is Insert
                    ==> final(self)@.writes[i]->Insert_entry != r->0->Insert_entry,
            final(self)@ == if old(self)@.writes.len() == 0 {
                old(self)@
            } else {
                QueueState { writes: old(self)@.writes.remove(0), ..old(self)@ }
            },
    {
        let r = self.write_ops.try_recv();
        proof {
            if r is Some {
                old(self)@.lemma_write_popped_wf();
                assert(self@.writes == old(self)@.writes.remove(0));
            }
            self.lemma_removed_kept(old(self));
        }
        r
    }

    /// Logs a read, unless the log is full.
    pub(crate) fn push_read(&mut self, op: ReadOp)
        requires
            old(self).wf(),
            old(self)@.read_ok(op),
        ensures
            final(self).wf(),
            final(self)@ == old(self)@.read_logged(op),
    {
        let logged = self.read_ops.try_send(op);
        proof {
            old(self)@.lemma_read_logged_wf(op);
            self.lemma_removed_kept(old(self));
        }
    }

    /// Logs a write, unless the log is full.
    pub(crate) fn push_write(&mut self, op: QueueOp) -> (r: bool)
        requires
            old(self).wf(),
            old(self)@.write_ok(op),
            op is Insert ==> forall|i: int|
                0 <= i < old(self)@.writes.len() && (#[trigger] old(self)@.writes[i]) is Insert
                    ==> old(self)@.writes[i]->Insert_entry != op->Insert_entry,
        ensures
            final(self).wf(),
            r == (old(self)@.writes.len() < old(self)@.write_log_size),
            final(self)@ == if r {
                old(self)@.write_logged(op)
            } else {
                old(self)@
            },
    {
        let r = self.write_ops.try_send(op);
        proof {
            old(self)@.lemma_write_logged_wf(op);
            self.lemma_removed_kept(old(self));
        }
        r
    }

    /// The number of logged reads.
    pub fn read_log_len(&self) -> (r: usize)
        requires
            self.wf(),
        ensures
            r == self@.reads.len(),
    {
        self.read_ops.len()
    }

    /// The number of logged writes.
    pub fn write_log_len(&self) -> (r: usize)
        requires
            self.wf(),
        ensures
            r == self@.writes.len(),
    {
        self.write_ops.len()
    }

    /// Whether the log of writes is full.
    pub(crate) fn is_write_log_full(&self) -> (r: bool)
        requires
            self.wf(),
        ensures
            r == (self@.writes.len() >= self@.write_log_size),
    {
        self.write_ops.is_full()
    }

    pub fn max_capacity(&self) -> (r: usize)
        ensures
            r == self@.max_capacity,
    {
        self.max_capacity
    }

    pub fn time_to_live(&self) -> (r: Option<Duration>)
        ensures
            r == self@.time_to_live,
    {
        self.time_to_live
    }

    pub fn time_to_idle(&self) -> (r: Option<Duration>)
        ensures
            r == self@.time_to_idle,
    {
        self.time_to_idle
    }

    /// Replaces the value of an entry, at this time.
    pub(crate) fn replace_value(&mut self, e: usize, value: V, time: Option<Instant>)
        requires
            old(self).wf(),
            old(self)@.entries.dom().contains(e),
        ensures
            final(self).wf(),
            final(self)@ == old(self)@.replaced(e, value, time),
    {
        let nanos: u64 = stamp(time);
        let entry = self.entries.get_mut(e);
        entry.value = value;
        entry.info.last_accessed.instant = nanos;
        entry.info.last_modified.instant = nanos;
        proof {
            self.lemma_info_changed(old(self), e);
        }
    }

    /// Puts a new entry under a key that has none, at this time.
    pub(crate) fn insert_entry(&mut self, key: u64, hash: u64, value: V, time: Option<Instant>) -> (r: usize)
        requires
            old(self).wf(),
            old(self)@.find(key) is None,
        ensures
            final(self).wf(),
            !old(self)@.entries.dom().contains(r),
            final(self)@ == old(self)@.inserted(r, final(self)@.entries[r]),
            new_entry(final(self)@.entries[r], key, hash, value, 1, time),
            !final(self)@.queues.probation.contains(r),
            !final(self)@.queues.write_order.contains(r),
            forall|i: int|
                0 <= i < final(self)@.writes.len() && (#[trigger] final(self)@.writes[i]) is Insert
                    ==> final(self)@.writes[i]->Insert_entry != r,
    {
        let info = EntryInfo::new(KeyHash::new(key, hash), Instant::from_nanos(stamp(time)), 1);
        let entry = ValueEntry::new(value, info);
        let ghost state = EntryState { value: entry.value, info: entry.info };
        let e: usize = self.entries.insert(entry);
        let prev = self.cache.insert(key, e);
        proof {
            old(self)@.lemma_inserted_wf(e, state);
            assert(self@.entries =~= old(self)@.inserted(e, state).entries);
            self.deques.lemma_entry_without_nodes(old(self).entries@, self.entries@, e);
            assert forall|x: usize| #[trigger] self.removed@.contains(x) implies self.entries@.dom().contains(x)
                && !self@.in_cache(x) by {
                assert(old(self).removed@.contains(x));
                assert(old(self).entries@.dom().contains(x));
                assert(x != e);
            }
            assert forall|x: usize| #[trigger] self.entries@.dom().contains(x) implies self@.in_cache(x)
                || self.removed@.contains(x) by {
                if x != e {
                    assert(old(self).entries@.dom().contains(x));
                    if old(self)@.in_cache(x) {
                        assert(self@.info(x) == old(self)@.info(x));
                        assert(self@.info(x).key_hash.key != key);
                    }
                }
            }
        }
        e
    }

    /// Drops the entries that neither the hash table nor the queues have.
    pub(crate) fn release_removed_entries(&mut self)
        requires
            old(self).wf(),
            old(self)@.reads.len() == 0,
            old(self)@.writes.len() == 0,
        ensures
            final(self).wf(),
            final(self)@ == old(self)@.collected(),
    {
        let mut removed: Vec<usize> = Vec::new();
        std::mem::swap(&mut self.removed, &mut removed);
        let ghost all = removed@;
        let mut kept: Vec<usize> = Vec::new();
        let mut i: usize = 0;
        let ghost m0 = self.entries@;
        assert forall|j: int| 0 <= j < all.len() implies m0.dom().contains(#[trigger] all[j]) by {
            assert(old(self).removed@.contains(all[j]));
        }
        while i < removed.len()
            invariant
                removed@ == all,
                i <= all.len(),
                all == old(self).removed@,
                old(self).wf(),
                m0 == old(self).entries@,
                *self == (Inner { entries: self.entries, removed: self.removed, ..*old(self) }),
                self.entries.wf(),
                self.deques.linked(self.entries@),
                forall|x: usize| #[trigger]
                    self.entries@.dom().contains(x) ==> m0.dom().contains(x) && self.entries@[x] == m0[x],
                forall|x: usize| #[trigger]
                    m0.dom().contains(x) && !self.entries@.dom().contains(x) ==> !old(self)@.in_cache(x)
                        && !in_queues(m0[x]),
                forall|j: int|
                    i <= j < all.len() ==> self.entries@.dom().contains(#[trigger] all[j]),
                forall|j: int|
                    0 <= j < i && self.entries@.dom().contains(#[trigger] all[j]) ==> in_queues(
                        m0[all[j]],
                    ) && kept@.contains(all[j]),
                forall|x: usize| #[trigger]
                    kept@.contains(x) ==> self.entries@.dom().contains(x) && !old(self)@.in_cache(x)
                        && in_queues(m0[x]) && exists|j: int| 0 <= j < i && all[j] == x,
                kept@.no_duplicates(),
            decreases all.len() - i,
        {
            let e: usize = removed[i];
            proof {
                assert(all[i as int] == e);
                assert(old(self).removed@.contains(e));
                assert(old(self)@.entries.dom().contains(e));
                assert(!kept@.contains(e)) by {
                    if kept@.contains(e) {
                        let j = choose|j: int| 0 <= j < i && all[j] == e;
                        assert(all[j] == all[i as int]);
                    }
                }
            }
            let nodes = &self.entries.get(e).nodes;
            if nodes.access_order_q_node.is_some() || nodes.write_order_q_node.is_some() {
                let ghost kept0 = kept@;
                kept.push(e);
                proof {
                    lemma_pushed_members(kept0, e);
                    assert forall|x: usize| #[trigger] kept@.contains(x) implies self.entries@.dom().contains(x)
                        && !old(self)@.in_cache(x) && in_queues(m0[x]) && exists|j: int|
                        0 <= j < i + 1 && all[j] == x by {
                        if x == e {
                            assert(all[i as int] == x);
                        } else {
                            assert(kept0.contains(x));
                            let j = choose|j: int| 0 <= j < i && all[j] == x;
                            assert(all[j] == x);
                        }
                    }
                }
            } else {
                let ghost m1 = self.entries@;
                let dropped = self.entries.remove(e);
                proof {
                    self.deques.lemma_entry_without_nodes(m1, self.entries@, e);
                    assert forall|x: usize| #[trigger] kept@.contains(x) implies self.entries@.dom().contains(x)
                        && !old(self)@.in_cache(x) && in_queues(m0[x]) && exists|j: int|
                        0 <= j < i + 1 && all[j] == x by {
                        let j = choose|j: int| 0 <= j < i && all[j] == x;
                        assert(all[j] == x);
                    }
                    assert forall|j: int| i + 1 <= j < all.len() implies self.entries@.dom().contains(
                        #[trigger] all[j],
                    ) by {
                        assert(all[j] != all[i as int]);
                    }
                }
            }
            i = i + 1;
        }
        self.removed = kept;
        proof {
            let s0 = old(self)@;
            let s1 = s0.collected();
            assert forall|x: usize| self.entries@.dom().contains(x) <==> s1.entries.dom().contains(x) by {
                if m0.dom().contains(x) {
                    old(self).lemma_nodes(x);
                    if self.entries@.dom().contains(x) && !s0.in_cache(x) {
                        assert(old(self).entries@.dom().contains(x));
                        assert(old(self).removed@.contains(x));
                        let j = choose|j: int| 0 <= j < all.len() && all[j] == x;
                        assert(self.entries@.dom().contains(all[j]));
                    }
                }
            }
            assert(self@.entries =~= s1.entries) by {
                assert forall|x: usize| self.entries@.dom().contains(x) implies self@.entries[x] == s1.entries[x] by {
                    assert(m0.dom().contains(x));
                    assert(self.entries@[x] == m0[x]);
                    assert(s1.entries.dom().contains(x));
                    assert(s1.entries[x] == s0.entries[x]);
                }
            }
            s0.lemma_collected_wf();
            assert forall|x: usize| #[trigger] self.removed@.contains(x) implies self.entries@.dom().contains(x)
                && !self@.in_cache(x) by {
                assert(self.entries@[x] == m0[x]);
            }
            assert forall|x: usize| #[trigger] self.entries@.dom().contains(x) implies self@.in_cache(x)
                || self.removed@.contains(x) by {
                assert(self.entries@[x] == m0[x]);
                assert(old(self).entries@.dom().contains(x));
                if !s0.in_cache(x) {
                    assert(old(self).removed@.contains(x));
                    let j = choose|j: int| 0 <= j < all.len() && all[j] == x;
                    assert(self.entries@.dom().contains(all[j]));
                }
            }
        }
    }
}

spec fn in_queues<V>(v: ValueEntry<u64, V>) -> bool {
    v.nodes.access_order_q_node is Some || v.nodes.write_order_q_node is Some
}

proof fn lemma_pushed_members(s: Seq<usize>, e: usize)
    ensures
        forall|x: usize| #[trigger] s.push(e).contains(x) <==> s.contains(x) || x == e,
        s.no_duplicates() && !s.contains(e) ==> s.push(e).no_duplicates(),
{
    let r = s.push(e);
    assert(r[s.len() as int] == e);
    assert forall|x: usize| #[trigger] r.contains(x) <==> s.contains(x) || x == e by {
        if s.contains(x) {
            let j = choose|j: int| 0 <= j < s.len() && s[j] == x;
            assert(r[j] == x);
        }
        if r.contains(x) && x != e {
            let i = choose|i: int| 0 <= i < r.len() && r[i] == x;
            assert(s[i] == x);
        }
    }
}

/// The nanoseconds of a point in time, or the highest number if there is none.
fn stamp(time: Option<Instant>) -> (r: u64)
    ensures
        r == AtomicInstant::spec_of(time).instant,
{
    match time {
        Some(t) => t.as_nanos(),
        None => u64::MAX,
    }
}

} // verus!
