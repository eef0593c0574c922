//! A cache whose hash table is a `DashMap`.
//!
//! Reads and writes work on the hash table at once, and are logged. Housekeeping shows what
//! was logged to the policies, which admit and evict entries.
use std::time::Duration;

use vstd::prelude::*;

use super::count_laws::is_sound;
use super::inner::{can_hold, Inner};
use super::state::{
    weighed_capacity, CacheState, Victims, EVICTION_BATCH_SIZE, MAX_CONSECUTIVE_RETRIES,
    MAX_SYNC_REPEATS, READ_LOG_FLUSH_POINT, READ_LOG_SIZE, WRITE_LOG_FLUSH_POINT,
    WRITE_LOG_SIZE,
};
use crate::common::concurrent::admission::{EntrySizeAndFrequency, EvictionCounters};
use crate::common::concurrent::deques::Queues;
use crate::common::concurrent::expiry::{
    is_entry_expired_ao_or_invalid, is_entry_expired_wo_or_invalid, is_expired_entry_ao,
    is_expired_entry_wo,
};
use crate::common::concurrent::housekeeper::{pace_for, sync_pace, SyncPace};
use crate::common::concurrent::new_entry;
use crate::common::double::DoubleParts;
use crate::common::op_log::{ReadOp, WriteOp};
use crate::common::small_list::SmallList;
use crate::common::time::{AtomicInstant, Instant};
use crate::common::CacheRegion;
use crate::notification::RemovalCause;
use crate::policy::{Policy, PolicyState};

verus! {

impl<V> Inner<V> {
    /// Looks for victims that a candidate may replace.
    fn decide_admission(&self, candidate: &EntrySizeAndFrequency) -> (r: AdmissionResult)
        requires
            self.wf(),
            candidate.policy_weight + u32::MAX <= u64::MAX,
            candidate.freq + 15 <= u64::MAX,
        ensures
            ({
                let v = self@.victims(candidate.policy_weight as int, candidate.freq as int);
                match r {
                    AdmissionResult::Admitted { victim_nodes, skipped_nodes } => {
                        &&& v.policy_weight >= candidate.policy_weight && candidate.freq > v.freq
                        &&& victim_nodes@ == v.nodes
                        &&& skipped_nodes@ == v.skipped
                    },
                    AdmissionResult::Rejected { skipped_nodes } => {
                        &&& !(v.policy_weight >= candidate.policy_weight && candidate.freq > v.freq)
                        &&& skipped_nodes@ == v.skipped
                    },
                }
            }),
    {
        let mut retries: usize = 0;
        let mut victims = EntrySizeAndFrequency::default();
        let mut victim_nodes = SmallList::new();
        let mut skipped_nodes = SmallList::new();
        let mut next_victim: Option<usize> = self.front_ao(CacheRegion::MainProbation);
        let ghost weight = candidate.policy_weight as int;
        let ghost freq = candidate.freq as int;
        let ghost queue = self@.queues.probation;
        let ghost mut i: int = 0;
        let mut done = false;
        while !done && victims.policy_weight < candidate.policy_weight
            invariant
                self.wf(),
                queue == self@.queues.probation,
                weight == candidate.policy_weight,
                freq == candidate.freq,
                weight + u32::MAX <= u64::MAX,
                freq + 15 <= u64::MAX,
                0 <= i <= queue.len(),
                next_victim == if i < queue.len() {
                    Some(queue[i])
                } else {
                    None::<usize>
                },
                next_victim is Some ==> self@.entries.dom().contains(next_victim->0),
                retries <= MAX_CONSECUTIVE_RETRIES + 1,
                ({
                    let v = Victims {
                        nodes: victim_nodes@,
                        policy_weight: victims.policy_weight as int,
                        freq: victims.freq as int,
                        skipped: skipped_nodes@,
                        retries: retries as int,
                    };
                    &&& self@.victims(weight, freq) == self@.search(weight, freq, i, v)
                    &&& done ==> self@.search(weight, freq, i, v) == v
                    &&& !done ==> retries <= MAX_CONSECUTIVE_RETRIES
                }),
            decreases (if done {
                0int
            } else {
                1int
            }), queue.len() - i,
        {
            if candidate.freq < victims.freq {
                done = true;
                continue;
            }
            match next_victim {
                Some(victim) => {
                    next_victim = self.next_ao(victim, Ghost(i));
                    let key: u64 = self.info(victim).key_hash.key;
                    let hash: u64 = self.info(victim).key_hash.hash;
                    match self.find(key) {
                        Some(vic_entry) => {
                            victims.add_policy_weight(self.info(vic_entry).policy_weight());
                            victims.freq = victims.freq + self.frequency(hash);
                            victim_nodes.push(victim);
                            retries = 0;
                        },
                        None => {
                            skipped_nodes.push(victim);
                            retries = retries + 1;
                            if retries > MAX_CONSECUTIVE_RETRIES {
                                done = true;
                            }
                        },
                    }
                    proof {
                        i = i + 1;
                    }
                },
                None => {
                    done = true;
                },
            }
        }
        if victims.policy_weight >= candidate.policy_weight && candidate.freq > victims.freq {
            AdmissionResult::Admitted { victim_nodes, skipped_nodes }
        } else {
            AdmissionResult::Rejected { skipped_nodes }
        }
    }
}

impl<V> Inner<V> {
    /// Shows the policies that an entry was put under a key, or that its value was replaced.
    pub(crate) fn handle_upsert(
        &mut self,
        key: u64,
        hash: u64,
        entry: usize,
        old_weight: u32,
        new_weight: u32,
    )
        requires
            old(self).wf(),
            old(self)@.entries.dom().contains(entry),
        ensures
            final(self).wf(),
            final(self)@ == old(self)@.upserted(key, hash, entry, old_weight, new_weight),
    {
        if self.info(entry).is_admitted() {
            self.recount_weight(old_weight, new_weight);
            self.move_to_back_ao(entry);
            self.move_to_back_wo(entry);
            return;
        }
        if self.has_enough_capacity(new_weight) {
            self.handle_admit(entry, new_weight);
            return;
        }
        match self.max_capacity() {
            Some(max) => {
                if new_weight as u64 > max {
                    let removed = self.remove_from_cache(key);
                    return;
                }
            },
            None => {},
        }
        let mut candidate = EntrySizeAndFrequency::new(new_weight);
        candidate.freq = self.frequency(hash);
        let ghost s0 = self@;
        let ghost v = s0.victims(new_weight as int, candidate.freq as int);
        proof {
            self.lemma_wf();
            s0.lemma_victims(new_weight as int, candidate.freq as int);
        }
        let skipped_nodes = match self.decide_admission(&candidate) {
            AdmissionResult::Admitted { victim_nodes, skipped_nodes } => {
                let mut skipped = skipped_nodes;
                let n: usize = victim_nodes.len();
                let mut i: usize = 0;
                proof {
                    s0.lemma_evicted(v.nodes, v.skipped, 0, entry);
                }
                while i < n
                    invariant
                        i <= n,
                        n == victim_nodes@.len(),
                        victim_nodes@ == v.nodes,
                        self.wf(),
                        s0.wf(),
                        s0.entries.dom().contains(entry),
                        !s0.info(entry).is_admitted,
                        s0.all_known(v.nodes),
                        s0.all_known(v.skipped),
                        (self@, skipped@) == s0.evicted(v.nodes, v.skipped, i as int),
                    decreases n - i,
                {
                    let victim: usize = victim_nodes.at(i);
                    proof {
                        s0.lemma_evicted(v.nodes, v.skipped, i as int, entry);
                        assert(s0.entries.dom().contains(v.nodes[i as int]));
                    }
                    let vic_key: u64 = self.info(victim).key_hash.key;
                    let ghost before = self@;
                    match self.remove_from_cache(vic_key) {
                        Some(vic_entry) => {
                            self.handle_remove(vic_entry);
                        },
                        None => {
                            skipped.push(victim);
                            assert(before.cache.remove(vic_key) =~= before.cache);
                        },
                    }
                    i = i + 1;
                }
                proof {
                    s0.lemma_evicted(v.nodes, v.skipped, n as int, entry);
                }
                self.handle_admit(entry, new_weight);
                skipped
            },
            AdmissionResult::Rejected { skipped_nodes } => {
                let removed = self.remove_from_cache(key);
                skipped_nodes
            },
        };
        let ghost s1 = self@;
        let n: usize = skipped_nodes.len();
        let mut i: usize = 0;
        while i < n
            invariant
                i <= n,
                n == skipped_nodes@.len(),
                self.wf(),
                s1.all_known(skipped_nodes@),
                self@ == s1.all_to_back_ao(skipped_nodes@, i as int),
            decreases n - i,
        {
            let node: usize = skipped_nodes.at(i);
            proof {
                s1.lemma_all_to_back(skipped_nodes@, i as int);
                assert(s1.entries.dom().contains(skipped_nodes@[i as int]));
            }
            self.move_to_back_ao(node);
            i = i + 1;
        }
    }
}

/// Whether the log of reads is long enough for housekeeping to go over it.
pub fn should_apply_reads(ch_len: usize) -> (r: bool)
    ensures
        r == (ch_len >= READ_LOG_FLUSH_POINT),
        r == (ch_len >= 512),
{
    ch_len >= READ_LOG_FLUSH_POINT
}

/// Whether the log of writes is long enough for housekeeping to go over it.
pub fn should_apply_writes(ch_len: usize) -> (r: bool)
    ensures
        r == (ch_len >= WRITE_LOG_FLUSH_POINT),
        r == (ch_len >= 512),
{
    ch_len >= WRITE_LOG_FLUSH_POINT
}

/// The capacity that a frequency sketch is made for when entries have weights.
pub fn weighed_capacity_of(entry_count: u64, weighted_size: u64, max_capacity: u64) -> (r: u64)
    ensures
        r == weighed_capacity(entry_count, weighted_size, max_capacity),
{
    if max_capacity == 0 {
        if entry_count == 0 || weighted_size == 0 {
            0
        } else {
            u64::MAX
        }
    } else {
        let ratio = DoubleParts::of(weighted_size).over(DoubleParts::of(max_capacity));
        DoubleParts::of(entry_count).times(ratio).floor()
    }
}

impl<V> Inner<V> {
    /// Shows the oldest of the logged reads to the policies. Returns whether there was one.
    fn apply_read(&mut self) -> (r: bool)
        requires
            old(self).wf(),
        ensures
            final(self).wf(),
            r == (old(self)@.reads.len() > 0),
            final(self)@ == if r {
                old(self)@.read_applied()
            } else {
                old(self)@
            },
    {
        match self.pop_read() {
            Some(ReadOp::Hit { hash, entry }) => {
                self.increment_frequency(hash);
                self.move_to_back_ao(entry);
                true
            },
            Some(ReadOp::Miss(hash)) => {
                self.increment_frequency(hash);
                true
            },
            None => false,
        }
    }

    /// Shows up to `count` of the logged reads to the policies.
    fn apply_reads(&mut self, count: usize)
        requires
            old(self).wf(),
        ensures
            final(self).wf(),
            final(self)@ == old(self)@.reads_applied(count as nat),
    {
        let mut i: usize = 0;
        while i < count
            invariant
                i <= count,
                self.wf(),
                self@.reads_applied((count - i) as nat) == old(self)@.reads_applied(count as nat),
            ensures
                self.wf(),
                self@ == old(self)@.reads_applied(count as nat),
            decreases count - i,
        {
            if !self.apply_read() {
                break;
            }
            i = i + 1;
        }
    }

    /// Shows the oldest of the logged writes to the policies. Returns whether there was one.
    fn apply_write(&mut self) -> (r: bool)
        requires
            old(self).wf(),
        ensures
            final(self).wf(),
            r == (old(self)@.writes.len() > 0),
            final(self)@ == if r {
                old(self)@.write_applied()
            } else {
                old(self)@
            },
    {
        match self.pop_write() {
            Some(WriteOp::Upsert { key, hash, entry, old_weight, new_weight }) => {
                self.handle_upsert(key, hash, entry, old_weight, new_weight);
                true
            },
            Some(WriteOp::Remove { key, entry }) => {
                self.handle_remove(entry);
                true
            },
            None => false,
        }
    }

    /// Shows up to `count` of the logged writes to the policies.
    fn apply_writes(&mut self, count: usize)
        requires
            old(self).wf(),
        ensures
            final(self).wf(),
            final(self)@ == old(self)@.writes_applied(count as nat),
    {
        let mut i: usize = 0;
        while i < count
            invariant
                i <= count,
                self.wf(),
                self@.writes_applied((count - i) as nat) == old(self)@.writes_applied(count as nat),
            ensures
                self.wf(),
                self@ == old(self)@.writes_applied(count as nat),
            decreases count - i,
        {
            if !self.apply_write() {
                break;
            }
            i = i + 1;
        }
    }

    /// Moves the first entry of a queue to the back if it was updated or removed since it was
    /// queued. Returns whether that was so.
    fn try_skip_updated_entry(&mut self, key: u64, region: CacheRegion) -> (r: bool)
        requires
            old(self).wf(),
        ensures
            final(self).wf(),
            (final(self)@, r) == old(self)@.skipped_updated(key, region),
    {
        match self.find(key) {
            Some(entry) => {
                if self.info(entry).last_accessed().is_none() {
                    self.move_to_back_ao(entry);
                    self.move_to_back_wo(entry);
                    true
                } else {
                    false
                }
            },
            None => {
                self.front_to_back_ao(region);
                true
            },
        }
    }

    fn is_expired_ao(&self, e: usize, now: Instant) -> (r: bool)
        requires
            self.wf(),
            self@.entries.dom().contains(e),
        ensures
            r == self@.expired_ao(e, now),
    {
        is_expired_entry_ao(&self.time_to_idle(), &self.valid_after(), self.info(e), now)
    }

    fn is_expired_wo(&self, e: usize, now: Instant) -> (r: bool)
        requires
            self.wf(),
            self@.entries.dom().contains(e),
        ensures
            r == self@.expired_wo(e, now),
    {
        is_expired_entry_wo(&self.time_to_live(), &self.valid_after(), self.info(e), now)
    }

    /// Removes up to `batch_size` expired entries from the front of an access-order queue.
    fn remove_expired_ao(&mut self, region: CacheRegion, batch_size: usize, now: Instant)
        requires
            old(self).wf(),
        ensures
            final(self).wf(),
            final(self)@ == old(self)@.expired_ao_removed(region, batch_size as nat, now),
    {
        let mut i: usize = 0;
        while i < batch_size
            invariant
                i <= batch_size,
                self.wf(),
                self@.expired_ao_removed(region, (batch_size - i) as nat, now) == old(self)@.expired_ao_removed(region, batch_size as nat, now),
            ensures
                self.wf(),
                self@ == old(self)@.expired_ao_removed(region, batch_size as nat, now),
            decreases batch_size - i,
        {
            let key: u64 = match self.front_ao(region) {
                Some(node) => {
                    if !self.is_expired_ao(node, now) {
                        break;
                    }
                    self.info(node).key_hash.key
                },
                None => {
                    break;
                },
            };
            let expired: Option<usize> = match self.find(key) {
                Some(entry) => {
                    if self.is_expired_ao(entry, now) {
                        Some(entry)
                    } else {
                        None
                    }
                },
                None => None,
            };
            match expired {
                Some(entry) => {
                    let removed = self.remove_from_cache(key);
                    self.handle_remove(entry);
                },
                None => {
                    if !self.try_skip_updated_entry(key, region) {
                        break;
                    }
                },
            }
            i = i + 1;
        }
    }

    /// Removes up to `batch_size` expired entries from the front of the write-order queue.
    fn remove_expired_wo(&mut self, batch_size: usize, now: Instant)
        requires
            old(self).wf(),
        ensures
            final(self).wf(),
            final(self)@ == old(self)@.expired_wo_removed(batch_size as nat, now),
    {
        let mut i: usize = 0;
        while i < batch_size
            invariant
                i <= batch_size,
                self.wf(),
                self@.expired_wo_removed((batch_size - i) as nat, now) == old(self)@.expired_wo_removed(batch_size as nat, now),
            ensures
                self.wf(),
                self@ == old(self)@.expired_wo_removed(batch_size as nat, now),
            decreases batch_size - i,
        {
            let front: usize = match self.front_wo() {
                Some(node) => {
                    if !self.is_expired_wo(node, now) {
                        break;
                    }
                    node
                },
                None => {
                    break;
                },
            };
            let key: u64 = self.info(front).key_hash.key;
            match self.find(key) {
                Some(entry) => {
                    if self.is_expired_wo(entry, now) {
                        let removed = self.remove_from_cache(key);
                        self.handle_remove(entry);
                    } else if self.info(entry).last_modified().is_none() {
                        self.move_to_back_ao(entry);
                        self.move_to_back_wo(entry);
                    } else {
                        break;
                    }
                },
                None => {
                    self.move_to_back_wo(front);
                },
            }
            i = i + 1;
        }
    }

    /// Removes the expired and the invalidated entries, up to a batch from each queue.
    fn evict_expired(&mut self, batch_size: usize, now: Instant)
        requires
            old(self).wf(),
        ensures
            final(self).wf(),
            final(self)@ == old(self)@.expired_removed(batch_size as nat, now),
    {
        if self.is_write_order_queue_enabled() {
            self.remove_expired_wo(batch_size, now);
        }
        if self.time_to_idle().is_some() || self.has_valid_after() {
            self.remove_expired_ao(CacheRegion::Window, batch_size, now);
            self.remove_expired_ao(CacheRegion::MainProbation, batch_size, now);
            self.remove_expired_ao(CacheRegion::MainProtected, batch_size, now);
        }
    }

    /// Removes up to `batch_size` entries from the front of the access-order queue, until
    /// `weights_to_evict` is reached.
    fn evict_lru_entries(&mut self, batch_size: usize, weights_to_evict: u64)
        requires
            old(self).wf(),
        ensures
            final(self).wf(),
            final(self)@ == old(self)@.lru_evicted(batch_size as nat, weights_to_evict, 0),
    {
        let mut evicted: u64 = 0;
        let mut i: usize = 0;
        while i < batch_size
            invariant
                i <= batch_size,
                self.wf(),
                self@.lru_evicted((batch_size - i) as nat, weights_to_evict, evicted) == old(self)@.lru_evicted(batch_size as nat, weights_to_evict, 0),
            ensures
                self.wf(),
                self@ == old(self)@.lru_evicted(batch_size as nat, weights_to_evict, 0),
            decreases batch_size - i,
        {
            if evicted >= weights_to_evict {
                break;
            }
            let front: usize = match self.front_ao(CacheRegion::MainProbation) {
                Some(node) => node,
                None => {
                    break;
                },
            };
            let key: u64 = self.info(front).key_hash.key;
            let ts = self.info(front).last_modified();
            let unchanged: Option<usize> = match (ts, self.find(key)) {
                (Some(ts), Some(entry)) => match self.info(entry).last_modified() {
                    Some(lm) => if lm.nanos == ts.nanos {
                        Some(entry)
                    } else {
                        None
                    },
                    None => None,
                },
                _ => None,
            };
            match unchanged {
                Some(entry) => {
                    let weight: u32 = self.info(entry).policy_weight();
                    let removed = self.remove_from_cache(key);
                    self.handle_remove(entry);
                    evicted = evicted.saturating_add(weight as u64);
                },
                None => {
                    if !self.try_skip_updated_entry(key, CacheRegion::MainProbation) {
                        break;
                    }
                },
            }
            i = i + 1;
        }
    }

    fn should_enable_frequency_sketch(&self) -> (r: bool)
        ensures
            r == self@.needs_sketch(),
    {
        if self.is_frequency_sketch_enabled() {
            false
        } else {
            match self.max_capacity() {
                Some(max_cap) => self.weighted_size() >= max_cap / 2,
                None => false,
            }
        }
    }

    /// Gives the cache a frequency sketch of a size that suits it.
    fn enable_frequency_sketch(&mut self)
        requires
            old(self).wf(),
            old(self)@.needs_sketch(),
        ensures
            final(self).wf(),
            final(self)@ == old(self)@.sketch_checked(),
    {
        match self.max_capacity() {
            Some(max_cap) => {
                let cap: u64 = if self.has_weigher() {
                    weighed_capacity_of(self.estimated_entry_count(), self.weighted_size(), max_cap)
                } else {
                    max_cap
                };
                self.do_enable_frequency_sketch(cap);
            },
            None => {},
        }
    }

    /// Does one round of housekeeping.
    pub fn sync(&mut self, max_repeats: usize, now: Instant) -> (r: Option<SyncPace>)
        requires
            old(self).wf(),
        ensures
            final(self).wf(),
            final(self)@ == old(self)@.synced(now),
            final(self)@.reads.len() == 0,
            final(self)@.writes.len() == 0,
            r == pace_for(false, 0),
    {
        reveal(CacheState::synced);
        let mut calls: usize = 0;
        let mut should_sync = true;
        while should_sync && calls <= max_repeats
            invariant
                self.wf(),
                should_sync ==> calls == 0 && self@ == old(self)@,
                !should_sync ==> calls == 1 && self@ == old(self)@.logs_applied() && self@.reads.len()
                    == 0 && self@.writes.len() == 0,
            decreases 1 - calls,
        {
            let r_len: usize = self.read_log_len();
            let ghost s0 = self@;
            proof {
                s0.lemma_reads_applied(s0.reads.len());
            }
            if r_len > 0 {
                self.apply_reads(r_len);
            }
            let w_len: usize = self.write_log_len();
            let ghost s1 = self@;
            proof {
                s1.lemma_writes_applied(s1.writes.len());
            }
            if w_len > 0 {
                self.apply_writes(w_len);
            }
            if self.should_enable_frequency_sketch() {
                self.enable_frequency_sketch();
            }
            calls = calls + 1;
            should_sync = should_apply_reads(self.read_log_len()) || should_apply_writes(
                self.write_log_len(),
            );
        }
        let ghost s2 = self@;
        proof {
            s2.lemma_expired_removed(EVICTION_BATCH_SIZE as nat, now);
        }
        if self.has_expiry() || self.has_valid_after() {
            self.evict_expired(EVICTION_BATCH_SIZE, now);
        }
        let weights_to_evict: u64 = self.weights_to_evict();
        proof {
            self@.lemma_lru_evicted(EVICTION_BATCH_SIZE as nat, weights_to_evict, 0);
        }
        if weights_to_evict > 0 {
            self.evict_lru_entries(EVICTION_BATCH_SIZE, weights_to_evict);
        }
        self.release_removed_entries();
        sync_pace(should_sync, self.write_log_len())
    }
}

/// A cache. Keys are numbers, each with a hash that its user gives; the weight of an entry is
/// given with it, and so is the current time.
pub struct BaseCache<V> {
    inner: Inner<V>,
}

impl<V> BaseCache<V> {
    pub closed spec fn view(&self) -> CacheState<V> {
        self.inner@
    }

    pub closed spec fn wf(&self) -> bool {
        self.inner.wf()
    }

    /// What every cache has.
    pub proof fn lemma_wf(&self)
        requires
            self.wf(),
        ensures
            self@.wf(),
            is_sound(self@),
            self@.reads.len() <= READ_LOG_SIZE,
            self@.writes.len() <= WRITE_LOG_SIZE,
    {
        self.inner.lemma_wf();
    }

    pub fn new(
        max_capacity: Option<u64>,
        initial_capacity: Option<usize>,
        has_weigher: bool,
        time_to_live: Option<Duration>,
        time_to_idle: Option<Duration>,
    ) -> (r: Self)
        requires
            can_hold(initial_capacity),
        ensures
            r.wf(),
            r@.cache.dom() == Set::<u64>::empty(),
            r@.entries.dom() == Set::<usize>::empty(),
            r@.queues == Queues::empty(),
            r@.counters == (EvictionCounters {
                entry_count: 0,
                weighted_size: 0,
                eviction_count: 0,
            }),
            r@.sketch.table.len() == 0,
            !r@.sketch_enabled,
            r@.reads.len() == 0,
            r@.writes.len() == 0,
            r@.max_capacity == max_capacity,
            r@.time_to_live == time_to_live,
            r@.time_to_idle == time_to_idle,
            r@.valid_after is None,
            r@.has_weigher == has_weigher,
    {
        BaseCache {
            inner: Inner::new(
                max_capacity,
                initial_capacity,
                has_weigher,
                time_to_live,
                time_to_idle,
            ),
        }
    }

    /// Reads the value of a key. The entry that is found counts as used, and the read is logged,
    /// unless the log is full.
    pub fn get_with_hash(&mut self, key: u64, hash: u64, now: Instant) -> (r: Option<&V>)
        requires
            old(self).wf(),
        ensures
            final(self).wf(),
            match old(self)@.lookup(key, now) {
                Some(v) => r == Some(&v),
                None => r is None,
            },
            final(self)@ == old(self)@.read_at(key, hash, now),
    {
        match self.inner.find(key) {
            None => {
                self.record_read_op(ReadOp::Miss(hash));
                None
            },
            Some(entry) => {
                if self.inner.is_expired_wo(entry, now) || self.inner.is_expired_ao(entry, now) {
                    self.record_read_op(ReadOp::Miss(hash));
                    None
                } else {
                    self.inner.set_last_accessed(entry, now);
                    self.record_read_op(ReadOp::Hit { hash, entry });
                    Some(self.inner.value(entry))
                }
            },
        }
    }

    /// Whether a key has a value that is not expired. This is not logged.
    pub fn contains_key(&self, key: u64, now: Instant) -> (r: bool)
        requires
            self.wf(),
        ensures
            r == (self@.lookup(key, now) is Some),
    {
        match self.inner.find(key) {
            None => false,
            Some(entry) => !self.inner.is_expired_wo(entry, now) && !self.inner.is_expired_ao(
                entry,
                now,
            ),
        }
    }

    /// Why the entry of a key goes, if it goes now. That of a live entry is `live`: it was
    /// replaced, say, or there was no room for it.
    pub fn removal_cause(&self, key: u64, now: Instant, live: RemovalCause) -> (r: Option<RemovalCause>)
        requires
            self.wf(),
        ensures
            r == self@.cause_of_removal(key, now, live),
    {
        let entry = match self.inner.find(key) {
            Some(entry) => entry,
            None => {
                return None;
            },
        };
        let valid_after = self.inner.valid_after();
        let info = self.inner.info(entry);
        let (past_wo, invalid_wo) = match info.last_modified() {
            Some(ts) => is_entry_expired_wo_or_invalid(
                &self.inner.time_to_live(),
                &valid_after,
                ts,
                now,
            ),
            None => (false, false),
        };
        let (past_ao, invalid_ao) = match info.last_accessed() {
            Some(ts) => is_entry_expired_ao_or_invalid(
                &self.inner.time_to_idle(),
                &valid_after,
                ts,
                now,
            ),
            None => (false, false),
        };
        if past_wo || past_ao {
            Some(RemovalCause::Expired)
        } else if invalid_wo || invalid_ao {
            Some(RemovalCause::Explicit)
        } else {
            Some(live)
        }
    }

    /// Logs a read, unless the log is full.
    fn record_read_op(&mut self, op: ReadOp)
        requires
            old(self).wf(),
            old(self)@.read_ok(op),
        ensures
            final(self).wf(),
            final(self)@ == old(self)@.read_logged(op),
    {
        let logged = self.inner.push_read(op);
    }

    /// Gives a key a value of the weight `weight`, and returns what is to be logged of it.
    pub fn do_insert_with_hash(
        &mut self,
        key: u64,
        hash: u64,
        value: V,
        weight: u32,
        now: Instant,
    ) -> (r: WriteOp)
        requires
            old(self).wf(),
        ensures
            final(self).wf(),
            final(self)@.write_ok(r),
            match old(self)@.find(key) {
                Some(e) => {
                    &&& r == (WriteOp::Upsert {
                        key,
                        hash,
                        entry: e,
                        old_weight: old(self)@.info(e).policy_weight,
                        new_weight: weight,
                    })
                    &&& final(self)@ == old(self)@.replaced(e, value, weight, now)
                },
                None => {
                    let e = r->Upsert_entry;
                    &&& r == (WriteOp::Upsert {
                        key,
                        hash,
                        entry: e,
                        old_weight: 0,
                        new_weight: weight,
                    })
                    &&& !old(self)@.entries.dom().contains(e)
                    &&& new_entry(
                        final(self)@.entries[e],
                        key,
                        hash,
                        value,
                        weight,
                        Some(now),
                    )
                    &&& final(self)@ == old(self)@.inserted(e, final(self)@.entries[e])
                },
            },
    {
        match self.inner.find(key) {
            Some(entry) => {
                let old_weight: u32 = self.inner.info(entry).policy_weight();
                self.inner.replace_value(entry, value, weight, now);
                WriteOp::Upsert { key, hash, entry, old_weight, new_weight: weight }
            },
            None => {
                let entry: usize = self.inner.insert_entry(key, hash, value, weight, now);
                WriteOp::Upsert { key, hash, entry, old_weight: 0, new_weight: weight }
            },
        }
    }

    /// Takes a key out of the hash table, and returns what is to be logged of it.
    pub fn remove_entry(&mut self, key: u64) -> (r: Option<WriteOp>)
        requires
            old(self).wf(),
        ensures
            final(self).wf(),
            final(self)@ == old(self)@.without_key(key),
            r is Some ==> final(self)@.write_ok(r->0),
            r == match old(self)@.find(key) {
                Some(entry) => Some(WriteOp::Remove { key, entry }),
                None => None,
            },
    {
        match self.inner.remove_from_cache(key) {
            Some(entry) => Some(WriteOp::Remove { key, entry }),
            None => None,
        }
    }

    /// Logs a write, unless the log is full. Returns whether it was logged.
    pub fn try_schedule_write_op(&mut self, op: WriteOp) -> (r: bool)
        requires
            old(self).wf(),
            old(self)@.write_ok(op),
        ensures
            final(self).wf(),
            r == (old(self)@.writes.len() < WRITE_LOG_SIZE),
            final(self)@ == if r {
                old(self)@.write_logged(op)
            } else {
                old(self)@
            },
    {
        self.inner.push_write(op)
    }

    /// Does housekeeping if the log of writes is full.
    pub fn make_room(&mut self, now: Instant)
        requires
            old(self).wf(),
        ensures
            final(self).wf(),
            final(self)@ == old(self)@.with_room(now),
            final(self)@.writes.len() < WRITE_LOG_SIZE,
    {
        proof {
            self.lemma_wf();
        }
        if self.inner.write_log_len() >= WRITE_LOG_SIZE {
            let pace = self.inner.sync(MAX_SYNC_REPEATS, now);
        }
    }

    /// Gives a key a value of the weight `weight`, and logs the write. When the log is full,
    /// housekeeping is done first.
    pub fn insert_with_hash(&mut self, key: u64, hash: u64, value: V, weight: u32, now: Instant)
        requires
            old(self).wf(),
        ensures
            final(self).wf(),
            old(self)@.with_room(now).put(final(self)@, key, hash, value, weight, now),
    {
        self.make_room(now);
        let op = self.do_insert_with_hash(key, hash, value, weight, now);
        let logged = self.inner.push_write(op);
    }

    /// Takes the value of a key away, and logs the write. When the log is full, housekeeping
    /// is done first.
    pub fn invalidate(&mut self, key: u64, now: Instant)
        requires
            old(self).wf(),
        ensures
            final(self).wf(),
            final(self)@ == old(self)@.with_room(now).taken(key),
    {
        self.make_room(now);
        let ghost before = self@;
        match self.remove_entry(key) {
            Some(op) => {
                let logged = self.inner.push_write(op);
            },
            None => {
                assert(before.cache.remove(key) =~= before.cache);
            },
        }
    }

    /// How many reads are logged.
    pub fn read_log_len(&self) -> (r: usize)
        requires
            self.wf(),
        ensures
            r == self@.reads.len(),
    {
        self.inner.read_log_len()
    }

    /// How many writes are logged.
    pub fn write_log_len(&self) -> (r: usize)
        requires
            self.wf(),
        ensures
            r == self@.writes.len(),
    {
        self.inner.write_log_len()
    }

    /// Whether the log of reads is long enough for housekeeping to be due.
    pub fn apply_reads_if_needed(&self) -> (r: bool)
        requires
            self.wf(),
        ensures
            r == (self@.reads.len() >= READ_LOG_FLUSH_POINT),
    {
        should_apply_reads(self.inner.read_log_len())
    }

    /// Whether the log of writes is long enough for housekeeping to be due.
    pub fn apply_reads_writes_if_needed(&self) -> (r: bool)
        requires
            self.wf(),
        ensures
            r == (self@.writes.len() >= WRITE_LOG_FLUSH_POINT),
    {
        should_apply_writes(self.inner.write_log_len())
    }

    /// Makes all entries invalid that were touched before now.
    pub fn invalidate_all(&mut self, now: Instant)
        requires
            old(self).wf(),
        ensures
            final(self).wf(),
            final(self)@ == (CacheState {
                valid_after: AtomicInstant { instant: now.nanos }@,
                ..old(self)@
            }),
    {
        self.inner.set_valid_after(now);
    }

    pub fn policy(&self) -> (r: Policy)
        ensures
            r@ == (PolicyState {
                max_capacity: self@.max_capacity,
                num_segments: 1,
                time_to_live: self@.time_to_live,
                time_to_idle: self@.time_to_idle,
            }),
    {
        Policy::new(
            self.inner.max_capacity(),
            1,
            self.inner.time_to_live(),
            self.inner.time_to_idle(),
        )
    }

    /// The number of admitted entries.
    pub fn estimated_entry_count(&self) -> (r: u64)
        ensures
            r == self@.counters.entry_count,
    {
        self.inner.estimated_entry_count()
    }

    /// The sum of the weights of the admitted entries.
    pub fn weighted_size(&self) -> (r: u64)
        ensures
            r == self@.counters.weighted_size,
    {
        self.inner.weighted_size()
    }

    /// The keys of the hash table, in an order that is left open.
    pub fn keys(&self) -> (r: Vec<u64>)
        requires
            self.wf(),
        ensures
            r@.no_duplicates(),
            r@.to_set() == self@.cache.dom(),
    {
        self.inner.keys()
    }

    /// The value that a key has in the hash table, be it expired or not.
    pub fn peek(&self, key: u64) -> (r: Option<&V>)
        requires
            self.wf(),
        ensures
            match self@.find(key) {
                Some(e) => r == Some(&self@.entries[e].value),
                None => r is None,
            },
    {
        match self.inner.find(key) {
            Some(entry) => Some(self.inner.value(entry)),
            None => None,
        }
    }

    /// Does one round of housekeeping.
    pub fn sync(&mut self, now: Instant) -> (r: Option<SyncPace>)
        requires
            old(self).wf(),
        ensures
            final(self).wf(),
            final(self)@ == old(self)@.synced(now),
            final(self)@.reads.len() == 0,
            final(self)@.writes.len() == 0,
            r == pace_for(false, 0),
    {
        self.inner.sync(MAX_SYNC_REPEATS, now)
    }

    /// Gives a cache of limited capacity its frequency sketch at once.
    pub fn enable_frequency_sketch_for_testing(&mut self)
        requires
            old(self).wf(),
        ensures
            final(self).wf(),
            final(self)@ == match old(self)@.max_capacity {
                Some(max_cap) => old(self)@.with_sketch(max_cap),
                None => old(self)@,
            },
    {
        match self.inner.max_capacity() {
            Some(max_cap) => {
                self.inner.do_enable_frequency_sketch(max_cap);
            },
            None => {},
        }
    }

    /// The number of words of the frequency sketch.
    pub fn sketch_table_len(&self) -> (r: usize)
        ensures
            r == self@.sketch.table.len(),
    {
        self.inner.sketch_table_len()
    }
}

/// The outcome of a search for victims.
pub enum AdmissionResult {
    /// The candidate is to be admitted in place of the victims. Those skipped were gone.
    Admitted { victim_nodes: SmallList, skipped_nodes: SmallList },
    /// The candidate is to be rejected.
    Rejected { skipped_nodes: SmallList },
}

} // verus!
