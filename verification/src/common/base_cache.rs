//! A cache that counts its entries, and whose entries may expire.
use vstd::prelude::*;

use self::parts::Inner;
use self::state::{
    QueueState, EVICTION_BATCH_SIZE, READ_LOG_FLUSH_POINT, WRITE_LOG_FLUSH_POINT,
};
use crate::common::concurrent::deques::lemma_unlinked;
use crate::common::concurrent::expiry::{is_expired_entry_ao, is_expired_entry_wo};
use crate::common::concurrent::housekeeper::{pace_for, sync_pace, SyncPace};
use crate::common::estimator::{Estimator, SketchModel};
use crate::common::op_log::{QueueOp, ReadOp};
use crate::common::time::Instant;
use crate::sync::cache::MAX_SYNC_REPEATS;

pub mod bound_laws;
pub mod laws;
pub mod parts;
pub mod state;
pub mod use_laws;

verus! {

impl<V, F: Estimator> Inner<V, F> {
    pub fn has_expiry(&self) -> (r: bool)
        ensures
            r == self@.has_expiry(),
    {
        self.time_to_live().is_some() || self.time_to_idle().is_some()
    }

    /// Whether an entry is expired by the time-to-idle.
    pub(crate) fn is_expired_ao(&self, e: usize, now: Instant) -> (r: bool)
        requires
            self.wf(),
            self@.entries.dom().contains(e),
        ensures
            r == self@.expired_ao(e, now),
    {
        is_expired_entry_ao(&self.time_to_idle(), &None, self.info(e), now)
    }

    /// Whether an entry is expired by the time-to-live.
    pub(crate) fn is_expired_wo(&self, e: usize, now: Instant) -> (r: bool)
        requires
            self.wf(),
            self@.entries.dom().contains(e),
        ensures
            r == self@.expired_wo(e, now),
    {
        is_expired_entry_wo(&self.time_to_live(), &None, self.info(e), now)
    }

    /// Whether a key was used more often than that of the victim.
    pub(crate) fn is_used_more_often(&self, candidate_hash: u64, victim: usize) -> (r: bool)
        requires
            self.wf(),
            self@.entries.dom().contains(victim),
        ensures
            r == (self@.sketch.estimate(candidate_hash) > self@.sketch.estimate(
                self@.info(victim).key_hash.hash,
            )),
    {
        self.frequency(candidate_hash) > self.frequency(self.info(victim).key_hash.hash)
    }

    /// The entry that is to give way to another: the one that was used longest ago.
    pub(crate) fn find_cache_victim(&self) -> (r: Option<usize>)
        requires
            self.wf(),
        ensures
            r == if self@.queues.probation.len() == 0 {
                None::<usize>
            } else {
                Some(self@.queues.probation[0])
            },
            r is Some ==> self@.entries.dom().contains(r->0),
    {
        self.front_ao()
    }

    /// Shows the policies that an entry was put under a key.
    fn handle_insert(&mut self, key: u64, hash: u64, entry: usize)
        requires
            old(self).wf(),
            old(self)@.entries.dom().contains(entry),
            !old(self)@.queues.probation.contains(entry),
            !old(self)@.queues.write_order.contains(entry),
            forall|i: int|
                0 <= i < old(self)@.writes.len() && (#[trigger] old(self)@.writes[i]) is Insert
                    ==> old(self)@.writes[i]->Insert_entry != entry,
        ensures
            final(self).wf(),
            final(self)@ == old(self)@.insert_handled(key, hash, entry),
    {
        let ghost s = self@;
        proof {
            self.lemma_wf();
        }
        if self.cache_len() <= self.max_capacity() {
            self.push_back(entry);
            return;
        }
        match self.find_cache_victim() {
            Some(victim) => {
                if self.is_used_more_often(hash, victim) {
                    let victim_key: u64 = self.info(victim).key_hash.key;
                    match self.remove_from_cache(victim_key) {
                        Some(vic_entry) => {
                            self.unlink_ao(vic_entry);
                            self.unlink_wo(vic_entry);
                            proof {
                                lemma_unlinked(
                                    s.queues.probation,
                                    vic_entry,
                                );
                                lemma_unlinked(
                                    s.queues.write_order,
                                    vic_entry,
                                );
                            }
                        },
                        None => {
                            assert(s.cache.remove(victim_key) =~= s.cache);
                            self.unlink_ao(victim);
                            proof {
                                lemma_unlinked(
                                    s.queues.probation,
                                    victim,
                                );
                            }
                        },
                    }
                    self.push_back(entry);
                } else {
                    let removed = self.remove_from_cache(key);
                }
            },
            None => {
                let removed = self.remove_from_cache(key);
            },
        }
    }

    /// Shows the oldest of the logged reads to the policies. Returns whether there was one.
    fn apply_read(&mut self) -> (r: bool)
        requires
            old(self).wf(),
        ensures
            final(self).wf(),
            r == (old(self)@.reads.len() > 0),
            final(self)@ == if r {
                old(self)@.read_applied()
            } else {
                old(self)@
            },
    {
        match self.pop_read() {
            Some(ReadOp::Hit { hash, entry }) => {
                self.increment_frequency(hash);
                self.move_to_back_ao(entry);
                true
            },
            Some(ReadOp::Miss(hash)) => {
                self.increment_frequency(hash);
                true
            },
            None => false,
        }
    }

    /// Shows up to `count` of the logged reads to the policies.
    pub(crate) fn apply_reads(&mut self, count: usize)
        requires
            old(self).wf(),
        ensures
            final(self).wf(),
            final(self)@ == old(self)@.reads_applied(count as nat),
    {
        let mut i: usize = 0;
        while i < count
            invariant
                i <= count,
                self.wf(),
                self@.reads_applied((count - i) as nat) == old(self)@.reads_applied(count as nat),
            ensures
                self.wf(),
                self@ == old(self)@.reads_applied(count as nat),
            decreases count - i,
        {
            if !self.apply_read() {
                break;
            }
            i = i + 1;
        }
    }

    /// Shows the oldest of the logged writes to the policies. Returns whether there was one.
    fn apply_write(&mut self) -> (r: bool)
        requires
            old(self).wf(),
        ensures
            final(self).wf(),
            r == (old(self)@.writes.len() > 0),
            final(self)@ == if r {
                old(self)@.write_applied()
            } else {
                old(self)@
            },
    {
        match self.pop_write() {
            Some(QueueOp::Insert { key, hash, entry }) => {
                self.handle_insert(key, hash, entry);
                true
            },
            Some(QueueOp::Update { entry }) => {
                self.move_to_back_ao(entry);
                self.move_to_back_wo(entry);
                true
            },
            Some(QueueOp::Remove { entry }) => {
                self.unlink_ao(entry);
                self.unlink_wo(entry);
                true
            },
            None => false,
        }
    }

    /// Shows up to `count` of the logged writes to the policies.
    fn apply_writes(&mut self, count: usize)
        requires
            old(self).wf(),
        ensures
            final(self).wf(),
            final(self)@ == old(self)@.writes_applied(count as nat),
    {
        let mut i: usize = 0;
        while i < count
            invariant
                i <= count,
                self.wf(),
                self@.writes_applied((count - i) as nat) == old(self)@.writes_applied(count as nat),
            ensures
                self.wf(),
                self@ == old(self)@.writes_applied(count as nat),
            decreases count - i,
        {
            if !self.apply_write() {
                break;
            }
            i = i + 1;
        }
    }

    /// Removes up to `batch_size` expired entries from the front of the access-order queue.
    fn remove_expired_ao(&mut self, batch_size: usize, now: Instant)
        requires
            old(self).wf(),
        ensures
            final(self).wf(),
            final(self)@ == old(self)@.expired_ao_removed(batch_size as nat, now),
    {
        let mut i: usize = 0;
        while i < batch_size
            invariant
                i <= batch_size,
                self.wf(),
                self@.expired_ao_removed((batch_size - i) as nat, now) == old(self)@.expired_ao_removed(batch_size as nat, now),
            ensures
                self.wf(),
                self@ == old(self)@.expired_ao_removed(batch_size as nat, now),
            decreases batch_size - i,
        {
            let front: usize = match self.front_ao() {
                Some(front) => front,
                None => {
                    break;
                },
            };
            if !self.is_expired_ao(front, now) {
                break;
            }
            let key: u64 = self.info(front).key_hash.key;
            let ghost before = self@;
            match self.remove_from_cache(key) {
                Some(entry) => {
                    self.unlink_ao(entry);
                    self.unlink_wo(entry);
                },
                None => {
                    assert(before.cache.remove(key) =~= before.cache);
                    self.unlink_ao(front);
                },
            }
            i = i + 1;
        }
    }

    /// Removes up to `batch_size` expired entries from the front of the write-order queue.
    fn remove_expired_wo(&mut self, batch_size: usize, now: Instant)
        requires
            old(self).wf(),
        ensures
            final(self).wf(),
            final(self)@ == old(self)@.expired_wo_removed(batch_size as nat, now),
    {
        let mut i: usize = 0;
        while i < batch_size
            invariant
                i <= batch_size,
                self.wf(),
                self@.expired_wo_removed((batch_size - i) as nat, now) == old(self)@.expired_wo_removed(batch_size as nat, now),
            ensures
                self.wf(),
                self@ == old(self)@.expired_wo_removed(batch_size as nat, now),
            decreases batch_size - i,
        {
            let front: usize = match self.front_wo() {
                Some(front) => front,
                None => {
                    break;
                },
            };
            if !self.is_expired_wo(front, now) {
                break;
            }
            let key: u64 = self.info(front).key_hash.key;
            let ghost before = self@;
            match self.remove_from_cache(key) {
                Some(entry) => {
                    self.unlink_ao(entry);
                    self.unlink_wo(entry);
                },
                None => {
                    assert(before.cache.remove(key) =~= before.cache);
                    self.unlink_wo(front);
                },
            }
            i = i + 1;
        }
    }

    /// Removes the expired entries, up to a batch from each queue.
    fn evict(&mut self, batch_size: usize, now: Instant)
        requires
            old(self).wf(),
        ensures
            final(self).wf(),
            final(self)@ == old(self)@.expired_removed(batch_size as nat, now),
    {
        if self.time_to_live().is_some() {
            self.remove_expired_wo(batch_size, now);
        }
        if self.time_to_idle().is_some() {
            self.remove_expired_ao(batch_size, now);
        }
    }

    /// Goes over the logs and the expired entries.
    fn do_sync(&mut self, max_repeats: usize, now: Instant) -> (r: Option<SyncPace>)
        requires
            old(self).wf(),
        ensures
            final(self).wf(),
            final(self)@ == old(self)@.logs_applied(now).collected(),
            final(self)@.reads.len() == 0,
            final(self)@.writes.len() == 0,
            r == pace_for(false, 0),
    {
        let mut calls: usize = 0;
        let mut should_sync = true;
        while should_sync && calls <= max_repeats
            invariant
                self.wf(),
                should_sync ==> calls == 0 && self@ == old(self)@,
                !should_sync ==> calls == 1 && self@ == old(self)@.logs_applied(now) && self@.reads.len()
                    == 0 && self@.writes.len() == 0,
            decreases 1 - calls,
        {
            let ghost s0 = self@;
            proof {
                s0.lemma_logs_applied(now);
            }
            let r_len: usize = self.read_log_len();
            if r_len > 0 {
                self.apply_reads(r_len);
            }
            let w_len: usize = self.write_log_len();
            if w_len > 0 {
                self.apply_writes(w_len);
            }
            if self.has_expiry() {
                self.evict(EVICTION_BATCH_SIZE, now);
            }
            calls = calls + 1;
            should_sync = self.read_log_len() >= READ_LOG_FLUSH_POINT || self.write_log_len()
                >= WRITE_LOG_FLUSH_POINT;
        }
        self.release_removed_entries();
        sync_pace(should_sync, self.write_log_len())
    }

    /// Does one round of housekeeping.
    pub fn sync(&mut self, max_repeats: usize, now: Instant) -> (r: Option<SyncPace>)
        requires
            old(self).wf(),
        ensures
            final(self).wf(),
            final(self)@ == old(self)@.synced(now),
            final(self)@.reads.len() == 0,
            final(self)@.writes.len() == 0,
            r == if old(self)@.reads.len() == 0 && old(self)@.writes.len() == 0 && !old(self)@.has_expiry() {
                None
            } else {
                pace_for(false, 0)
            },
    {
        reveal(QueueState::synced);
        if self.read_log_len() == 0 && self.write_log_len() == 0 && !self.has_expiry() {
            return None;
        }
        self.do_sync(max_repeats, now)
    }

    /// Does housekeeping if the log of writes is full.
    pub(crate) fn make_room(&mut self, now: Instant)
        requires
            old(self).wf(),
        ensures
            final(self).wf(),
            final(self)@ == old(self)@.with_room(now),
            final(self)@.writes.len() < final(self)@.write_log_size,
    {
        proof {
            self.lemma_wf();
        }
        if self.is_write_log_full() {
            let pace = self.sync(MAX_SYNC_REPEATS, now);
            proof {
                self.lemma_wf();
            }
        }
    }
}

} // verus!
