//! A cache that keeps the entries that are used most often.
use count_min_sketch::CountMinSketch8;

use vstd::prelude::*;

use crate::common::base_cache::laws::{keeps_values, lemma_reads_step, lemma_steps_trans, steps};
use crate::common::base_cache::parts::Inner;
use crate::common::base_cache::state::QueueState;
use crate::common::concurrent::deques::{lemma_unlinked, Queues};
use crate::common::estimator::SketchModel;
use crate::common::op_log::{QueueOp, ReadOp};

verus! {

/// The number of reads that the log takes.
pub const READ_LOG_SIZE: usize = 64;

/// The number of writes that the log takes.
pub const WRITE_LOG_SIZE: usize = 256;

/// The number of logged reads at which housekeeping is due.
pub const READ_LOG_HIGH_WATER_MARK: usize = 48;

/// The number of logged writes at which housekeeping is due.
pub const WRITE_LOG_HIGH_WATER_MARK: usize = 128;

/// The capacity that the sketch of a cache is to be made for.
pub fn sketch_capacity(capacity: usize) -> (r: usize)
    ensures
        r == if capacity < 100 {
            100
        } else {
            capacity
        },
{
    if capacity < 100 {
        100
    } else {
        capacity
    }
}

/// Whether the log of reads is long enough for housekeeping to be due.
pub fn should_apply_reads(ch_len: usize) -> (r: bool)
    ensures
        r == (ch_len >= READ_LOG_HIGH_WATER_MARK),
        r == (ch_len >= 48),
{
    ch_len >= READ_LOG_HIGH_WATER_MARK
}

/// Whether the log of writes is long enough for housekeeping to be due.
pub fn should_apply_writes(ch_len: usize) -> (r: bool)
    ensures
        r == (ch_len >= WRITE_LOG_HIGH_WATER_MARK),
        r == (ch_len >= 128),
{
    ch_len >= WRITE_LOG_HIGH_WATER_MARK
}

impl<V, S: SketchModel> QueueState<V, S> {
    /// An entry was put under a key.
    ///
    /// While there is room, the entry is taken in. Else the entry that was used longest ago
    /// gives way to it, if the key was used more often than the key of that entry. If not, or
    /// if there is no such entry, the key is taken out of the hash table again.
    pub open spec fn lfu_insert_handled(self, key: u64, e: usize) -> Self {
        if self.cache.len() <= self.max_capacity {
            self.queued(e)
        } else if self.queues.probation.len() > 0 && self.sketch.estimate(key) > self.sketch.estimate(
            self.info(self.queues.probation[0]).key_hash.hash,
        ) {
            let victim = self.queues.probation[0];
            self.without_key(self.info(victim).key_hash.key).unlinked_ao(victim).queued(e)
        } else {
            self.without_key(key)
        }
    }

    /// A write is taken out of the log and shown to the policy.
    pub open spec fn lfu_write_applied(self) -> Self {
        let s = QueueState { writes: self.writes.remove(0), ..self };
        match self.writes[0] {
            QueueOp::Insert { key, hash, entry } => s.lfu_insert_handled(key, entry),
            QueueOp::Update { entry } => s.to_back_ao(entry),
            QueueOp::Remove { entry } => s.unlinked_ao(entry),
        }
    }

    /// Up to `n` writes are taken out of the log and shown to the policy.
    pub open spec fn lfu_writes_applied(self, n: nat) -> Self
        decreases n,
    {
        if n == 0 || self.writes.len() == 0 {
            self
        } else {
            self.lfu_write_applied().lfu_writes_applied((n - 1) as nat)
        }
    }

    /// One round of housekeeping.
    #[verifier::opaque]
    pub open spec fn lfu_synced(self) -> Self {
        let s = self.reads_applied(self.reads.len());
        s.lfu_writes_applied(s.writes.len()).collected()
    }

    /// Housekeeping is done if the log of writes is full.
    pub open spec fn lfu_with_room(self) -> Self {
        if self.writes.len() >= self.write_log_size {
            self.lfu_synced()
        } else {
            self
        }
    }

    pub proof fn lemma_lfu_writes_applied(self, n: nat)
        ensures
            self.lfu_writes_applied(n).reads == self.reads,
            self.lfu_writes_applied(n).time_to_live == self.time_to_live,
            self.lfu_writes_applied(n).time_to_idle == self.time_to_idle,
            self.lfu_writes_applied(n).read_log_size == self.read_log_size,
            self.lfu_writes_applied(n).write_log_size == self.write_log_size,
            n == self.writes.len() ==> self.lfu_writes_applied(n).writes.len() == 0,
        decreases n,
    {
        if n > 0 && self.writes.len() > 0 {
            self.lfu_write_applied().lemma_lfu_writes_applied((n - 1) as nat);
        }
    }
}

/// Where there is no room, a new entry comes in exactly if its key is used more often than the
/// key of the entry that was not used for longest. That entry goes; else the new one goes.
pub proof fn more_frequent_key_comes_in<V, S: SketchModel>(s: QueueState<V, S>, key: u64, e: usize)
    requires
        s.wf(),
        s.cache.len() > s.max_capacity,
        s.queues.probation.len() > 0,
        !s.queues.probation.contains(e),
    ensures
        ({
            let victim = s.info(s.queues.probation[0]).key_hash;
            let after = s.lfu_insert_handled(key, e);
            let more = s.sketch.estimate(key) > s.sketch.estimate(victim.hash);
            &&& after.queues.probation.contains(e) <==> more
            &&& more ==> after.cache == s.cache.remove(victim.key)
            &&& !more ==> after.cache == s.cache.remove(key) && after.queues == s.queues
        }),
{
    let after = s.lfu_insert_handled(key, e);
    if s.sketch.estimate(key) > s.sketch.estimate(s.info(s.queues.probation[0]).key_hash.hash) {
        assert(after.queues.probation.last() == e);
    }
}

/// A cache that has one key too many, with a queue of keys that are in the hash table, has none
/// too many once the policy knows of the newest.
pub proof fn insertion_keeps_capacity<V, S: SketchModel>(s: QueueState<V, S>, key: u64, e: usize)
    requires
        s.wf(),
        s.cache.dom().finite(),
        s.cache.len() <= s.max_capacity + 1,
        s.find(key) == Some(e),
        !s.queues.probation.contains(e),
        forall|i: int| 0 <= i < s.queues.probation.len() ==> s.in_cache(
            #[trigger] s.queues.probation[i],
        ),
    ensures
        s.lfu_insert_handled(key, e).cache.len() <= s.max_capacity,
{
    if s.cache.len() > s.max_capacity && s.queues.probation.len() > 0 {
        assert(s.in_cache(s.queues.probation[0]));
        more_frequent_key_comes_in(s, key, e);
    }
}

pub proof fn lemma_lfu_writes_step<V, S: SketchModel>(s: QueueState<V, S>, n: nat)
    ensures
        steps(s, s.lfu_writes_applied(n)),
    decreases n,
{
    if n > 0 && s.writes.len() > 0 {
        lemma_lfu_writes_step(s.lfu_write_applied(), (n - 1) as nat);
        lemma_steps_trans(s, s.lfu_write_applied(), s.lfu_writes_applied(n));
    }
}

/// Housekeeping gives no key a value that it did not have. It may take keys away.
pub proof fn lfu_housekeeping_keeps_values<V, S: SketchModel>(s: QueueState<V, S>)
    ensures
        keeps_values(s, s.lfu_synced()),
{
    reveal(QueueState::lfu_synced);
    lemma_reads_step(s, s.reads.len());
    let s1 = s.reads_applied(s.reads.len());
    lemma_lfu_writes_step(s1, s1.writes.len());
    lemma_steps_trans(s, s1, s1.lfu_writes_applied(s1.writes.len()));
}

/// A cache that keeps the entries that are used most often. Keys are numbers.
pub struct LFUCache<V> {
    inner: Inner<V, CountMinSketch8<u64>>,
}

impl<V> LFUCache<V> {
    pub closed spec fn view(&self) -> QueueState<V, CountMinSketch8<u64>> {
        self.inner@
    }

    pub closed spec fn wf(&self) -> bool {
        &&& self.inner.wf()
        &&& self@.time_to_live is None
        &&& self@.time_to_idle is None
        &&& self@.read_log_size == READ_LOG_SIZE
        &&& self@.write_log_size == WRITE_LOG_SIZE
    }

    /// What every cache has. Its entries do not expire.
    pub proof fn lemma_wf(&self)
        requires
            self.wf(),
        ensures
            self@.wf(),
            self@.time_to_live is None,
            self@.time_to_idle is None,
            self@.read_log_size == READ_LOG_SIZE,
            self@.write_log_size == WRITE_LOG_SIZE,
            self@.reads.len() <= READ_LOG_SIZE,
            self@.writes.len() <= WRITE_LOG_SIZE,
    {
        self.inner.lemma_wf();
    }

    /// A cache of up to `capacity` entries, which counts in a sketch how often a key is used.
    pub fn new(capacity: usize, frequency_sketch: CountMinSketch8<u64>) -> (r: Self)
        ensures
            r.wf(),
            r@.cache.dom() == Set::<u64>::empty(),
            r@.entries.dom() == Set::<usize>::empty(),
            r@.queues == Queues::empty(),
            r@.sketch == frequency_sketch,
            r@.reads.len() == 0,
            r@.writes.len() == 0,
            r@.max_capacity == capacity,
            r@.read_log_size == 64,
            r@.write_log_size == 256,
    {
        LFUCache {
            inner: Inner::new(
                capacity,
                frequency_sketch,
                READ_LOG_SIZE,
                WRITE_LOG_SIZE,
                None,
                None,
            ),
        }
    }

    /// Reads the value of a key, and logs the read, unless the log is full.
    pub fn get(&mut self, key: u64) -> (r: Option<&V>)
        requires
            old(self).wf(),
        ensures
            final(self).wf(),
            match old(self)@.find(key) {
                Some(e) => {
                    &&& r == Some(&old(self)@.entries[e].value)
                    &&& final(self)@ == old(self)@.read_logged(
                        ReadOp::Hit { hash: key, entry: e },
                    )
                },
                None => {
                    &&& r is None
                    &&& final(self)@ == old(self)@.read_logged(ReadOp::Miss(key))
                },
            },
    {
        match self.inner.find(key) {
            Some(entry) => {
                self.inner.push_read(ReadOp::Hit { hash: key, entry });
                Some(self.inner.value(entry))
            },
            None => {
                self.inner.push_read(ReadOp::Miss(key));
                None
            },
        }
    }

    /// Gives a key a value, and logs the write. When the log is full, housekeeping is done
    /// first.
    pub fn insert(&mut self, key: u64, value: V)
        requires
            old(self).wf(),
        ensures
            final(self).wf(),
            old(self)@.lfu_with_room().put(final(self)@, key, key, value, None),
    {
        self.make_room();
        match self.inner.find(key) {
            Some(entry) => {
                self.inner.replace_value(entry, value, None);
                let logged = self.inner.push_write(QueueOp::Update { entry });
            },
            None => {
                let entry: usize = self.inner.insert_entry(key, key, value, None);
                let logged = self.inner.push_write(QueueOp::Insert { key, hash: key, entry });
            },
        }
    }

    /// Takes the value of a key away, logs the write, and returns the value. When the log is
    /// full, housekeeping is done first.
    pub fn remove(&mut self, key: u64) -> (r: Option<&V>)
        requires
            old(self).wf(),
        ensures
            final(self).wf(),
            final(self)@ == old(self)@.lfu_with_room().taken(key),
            match old(self)@.lfu_with_room().find(key) {
                Some(e) => r == Some(&old(self)@.lfu_with_room().entries[e].value),
                None => r is None,
            },
    {
        self.make_room();
        let ghost before = self@;
        match self.inner.remove_from_cache(key) {
            Some(entry) => {
                let logged = self.inner.push_write(QueueOp::Remove { entry });
                Some(self.inner.value(entry))
            },
            None => {
                assert(before.cache.remove(key) =~= before.cache);
                None
            },
        }
    }

    /// Does the housekeeping that is pending.
    pub fn sync(&mut self)
        requires
            old(self).wf(),
        ensures
            final(self).wf(),
            final(self)@ == old(self)@.lfu_synced(),
            final(self)@.reads.len() == 0,
            final(self)@.writes.len() == 0,
    {
        reveal(QueueState::lfu_synced);
        let ghost s0 = self@;
        proof {
            s0.lemma_reads_applied(s0.reads.len());
            let s1 = s0.reads_applied(s0.reads.len());
            s1.lemma_lfu_writes_applied(s1.writes.len());
        }
        let r_len: usize = self.inner.read_log_len();
        if r_len > 0 {
            self.inner.apply_reads(r_len);
        }
        let w_len: usize = self.inner.write_log_len();
        if w_len > 0 {
            self.inner.lfu_apply_writes(w_len);
        }
        self.inner.release_removed_entries();
    }

    /// Does housekeeping if the log of writes is full.
    fn make_room(&mut self)
        requires
            old(self).wf(),
        ensures
            final(self).wf(),
            final(self)@ == old(self)@.lfu_with_room(),
            final(self)@.writes.len() < WRITE_LOG_SIZE,
    {
        proof {
            self.lemma_wf();
        }
        if self.inner.is_write_log_full() {
            self.sync();
        }
    }

    /// Whether so many reads are logged that housekeeping is due.
    pub fn apply_reads_if_needed(&self) -> (r: bool)
        requires
            self.wf(),
        ensures
            r == (self@.reads.len() >= READ_LOG_HIGH_WATER_MARK),
    {
        should_apply_reads(self.inner.read_log_len())
    }

    /// Whether so many writes are logged that housekeeping is due.
    pub fn apply_reads_writes_if_needed(&self) -> (r: bool)
        requires
            self.wf(),
        ensures
            r == (self@.writes.len() >= WRITE_LOG_HIGH_WATER_MARK),
    {
        should_apply_writes(self.inner.write_log_len())
    }
}

impl<V> Inner<V, CountMinSketch8<u64>> {
    /// Shows the policy that an entry was put under a key.
    fn lfu_handle_insert(&mut self, key: u64, entry: usize)
        requires
            old(self).wf(),
            old(self)@.entries.dom().contains(entry),
            !old(self)@.queues.probation.contains(entry),
            !old(self)@.queues.write_order.contains(entry),
            forall|i: int|
                0 <= i < old(self)@.writes.len() && (#[trigger] old(self)@.writes[i]) is Insert
                    ==> old(self)@.writes[i]->Insert_entry != entry,
        ensures
            final(self).wf(),
            final(self)@ == old(self)@.lfu_insert_handled(key, entry),
    {
        proof {
            self.lemma_wf();
        }
        let ghost s = self@;
        if self.cache_len() <= self.max_capacity() {
            self.push_back(entry);
            return;
        }
        match self.find_cache_victim() {
            Some(victim) => {
                if self.is_used_more_often(key, victim) {
                    let victim_key: u64 = self.info(victim).key_hash.key;
                    let removed = self.remove_from_cache(victim_key);
                    self.unlink_ao(victim);
                    proof {
                        lemma_unlinked(s.queues.probation, victim);
                    }
                    self.push_back(entry);
                } else {
                    let removed = self.remove_from_cache(key);
                }
            },
            None => {
                let removed = self.remove_from_cache(key);
            },
        }
    }

    /// Shows the oldest of the logged writes to the policy. Returns whether there was one.
    fn lfu_apply_write(&mut self) -> (r: bool)
        requires
            old(self).wf(),
        ensures
            final(self).wf(),
            r == (old(self)@.writes.len() > 0),
            final(self)@ == if r {
                old(self)@.lfu_write_applied()
            } else {
                old(self)@
            },
    {
        match self.pop_write() {
            Some(QueueOp::Insert { key, hash, entry }) => {
                self.lfu_handle_insert(key, entry);
                true
            },
            Some(QueueOp::Update { entry }) => {
                self.move_to_back_ao(entry);
                true
            },
            Some(QueueOp::Remove { entry }) => {
                self.unlink_ao(entry);
                true
            },
            None => false,
        }
    }

    /// Shows up to `count` of the logged writes to the policy.
    fn lfu_apply_writes(&mut self, count: usize)
        requires
            old(self).wf(),
        ensures
            final(self).wf(),
            final(self)@ == old(self)@.lfu_writes_applied(count as nat),
    {
        let mut i: usize = 0;
        while i < count
            invariant
                i <= count,
                self.wf(),
                self@.lfu_writes_applied((count - i) as nat) == old(self)@.lfu_writes_applied(
                    count as nat,
                ),
            ensures
                self.wf(),
                self@ == old(self)@.lfu_writes_applied(count as nat),
            decreases count - i,
        {
            if !self.lfu_apply_write() {
                break;
            }
            i = i + 1;
        }
    }
}

} // verus!
