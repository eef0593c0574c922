//! What a cache that counts its entries is, and what each operation makes of it.
use std::time::Duration;

use vstd::prelude::*;

use crate::common::concurrent::deques::{
    lemma_moved_back, lemma_pushed, lemma_unlinked, moved_back, unlinked, Queues,
};
use crate::common::concurrent::entry_info::EntryInfo;
use crate::common::concurrent::expiry::expired_or_invalid;
use crate::common::concurrent::{new_entry, EntryState};
use crate::common::estimator::SketchModel;
use crate::common::op_log::{QueueOp, ReadOp};
use crate::common::time::{AtomicInstant, Instant};

verus! {

/// The number of logged reads at which housekeeping is due.
pub const READ_LOG_FLUSH_POINT: usize = 512;

/// The number of logged writes at which housekeeping is due.
pub const WRITE_LOG_FLUSH_POINT: usize = 512;

/// How many expired entries one round of housekeeping removes from a queue at most.
pub const EVICTION_BATCH_SIZE: usize = 500;

/// A cache that counts its entries.
pub struct QueueState<V, S> {
    /// The entry of each key.
    pub cache: Map<u64, usize>,
    /// The entries, those included that were removed and that the policies still know of.
    pub entries: Map<usize, EntryState<V>>,
    pub queues: Queues,
    pub sketch: S,
    pub reads: Seq<ReadOp>,
    pub writes: Seq<QueueOp>,
    pub max_capacity: usize,
    pub time_to_live: Option<Duration>,
    pub time_to_idle: Option<Duration>,
    /// The number of reads, and of writes, that the logs take.
    pub read_log_size: nat,
    pub write_log_size: nat,
}

impl<V, S: SketchModel> QueueState<V, S> {
    pub open spec fn info(self, e: usize) -> EntryInfo<u64> {
        self.entries[e].info
    }

    /// The entry of a key.
    pub open spec fn find(self, key: u64) -> Option<usize> {
        if self.cache.dom().contains(key) {
            Some(self.cache[key])
        } else {
            None
        }
    }

    pub open spec fn has_expiry(self) -> bool {
        self.time_to_live is Some || self.time_to_idle is Some
    }

    pub open spec fn with_info(self, e: usize, info: EntryInfo<u64>) -> Self {
        QueueState { entries: self.entries.insert(e, EntryState { info, ..self.entries[e] }), ..self }
    }

    pub open spec fn without_key(self, key: u64) -> Self {
        QueueState { cache: self.cache.remove(key), ..self }
    }

    pub open spec fn accessed(self, e: usize, ts: Option<Instant>) -> Self {
        match ts {
            Some(ts) => self.with_info(
                e,
                EntryInfo { last_accessed: AtomicInstant { instant: ts.nanos }, ..self.info(e) },
            ),
            None => self,
        }
    }

    pub open spec fn to_back_ao(self, e: usize) -> Self {
        QueueState {
            queues: Queues { probation: moved_back(self.queues.probation, e), ..self.queues },
            ..self
        }
    }

    pub open spec fn to_back_wo(self, e: usize) -> Self {
        QueueState {
            queues: Queues { write_order: moved_back(self.queues.write_order, e), ..self.queues },
            ..self
        }
    }

    pub open spec fn unlinked_ao(self, e: usize) -> Self {
        QueueState {
            queues: Queues { probation: unlinked(self.queues.probation, e), ..self.queues },
            ..self
        }
    }

    pub open spec fn unlinked_wo(self, e: usize) -> Self {
        QueueState {
            queues: Queues { write_order: unlinked(self.queues.write_order, e), ..self.queues },
            ..self
        }
    }

    /// The entry is taken into the queues.
    pub open spec fn queued(self, e: usize) -> Self {
        QueueState {
            queues: Queues {
                probation: self.queues.probation.push(e),
                write_order: if self.time_to_live is Some {
                    self.queues.write_order.push(e)
                } else {
                    self.queues.write_order
                },
                ..self.queues
            },
            ..self
        }
    }

    pub open spec fn expired_ao(self, e: usize, now: Instant) -> bool {
        expired_or_invalid(self.time_to_idle, None, self.info(e).last_accessed@, now)
    }

    pub open spec fn expired_wo(self, e: usize, now: Instant) -> bool {
        expired_or_invalid(self.time_to_live, None, self.info(e).last_modified@, now)
    }

    /// An entry was put under a key.
    ///
    /// While there is room, the entry is taken in. Else the entry that was used longest ago
    /// gives way to it, if the key was used more often than the key of that entry. If not, or
    /// if there is no such entry, the key is taken out of the hash table again.
    pub open spec fn insert_handled(self, key: u64, hash: u64, e: usize) -> Self {
        if self.cache.len() <= self.max_capacity {
            self.queued(e)
        } else if self.queues.probation.len() > 0 && self.sketch.estimate(hash) > self.sketch.estimate(
            self.info(self.queues.probation[0]).key_hash.hash,
        ) {
            let victim = self.queues.probation[0];
            let victim_key = self.info(victim).key_hash.key;
            match self.find(victim_key) {
                Some(v) => self.without_key(victim_key).unlinked_ao(v).unlinked_wo(v).queued(e),
                None => self.unlinked_ao(victim).queued(e),
            }
        } else {
            self.without_key(key)
        }
    }

    /// A read is taken out of the log and shown to the policies.
    pub open spec fn read_applied(self) -> Self {
        let s = QueueState { reads: self.reads.remove(0), ..self };
        match self.reads[0] {
            ReadOp::Hit { hash, entry } => QueueState {
                sketch: s.sketch.counted(hash),
                ..s
            }.to_back_ao(entry),
            ReadOp::Miss(hash) => QueueState { sketch: s.sketch.counted(hash), ..s },
        }
    }

    /// Up to `n` reads are taken out of the log and shown to the policies.
    pub open spec fn reads_applied(self, n: nat) -> Self
        decreases n,
    {
        if n == 0 || self.reads.len() == 0 {
            self
        } else {
            self.read_applied().reads_applied((n - 1) as nat)
        }
    }

    /// A write is taken out of the log and shown to the policies.
    pub open spec fn write_applied(self) -> Self {
        let s = QueueState { writes: self.writes.remove(0), ..self };
        match self.writes[0] {
            QueueOp::Insert { key, hash, entry } => s.insert_handled(key, hash, entry),
            QueueOp::Update { entry } => s.to_back_ao(entry).to_back_wo(entry),
            QueueOp::Remove { entry } => s.unlinked_ao(entry).unlinked_wo(entry),
        }
    }

    /// Up to `n` writes are taken out of the log and shown to the policies.
    pub open spec fn writes_applied(self, n: nat) -> Self
        decreases n,
    {
        if n == 0 || self.writes.len() == 0 {
            self
        } else {
            self.write_applied().writes_applied((n - 1) as nat)
        }
    }

    /// The first of an access-order queue is removed: its key is taken out of the hash table
    /// and the entry of the key out of the queues. Where the key is gone already, only the
    /// first of the queue is taken out of it.
    pub open spec fn front_removed_ao(self) -> Self {
        let front = self.queues.probation[0];
        let key = self.info(front).key_hash.key;
        match self.find(key) {
            Some(e) => self.without_key(key).unlinked_ao(e).unlinked_wo(e),
            None => self.unlinked_ao(front),
        }
    }

    /// The first of the write-order queue is removed in the same way.
    pub open spec fn front_removed_wo(self) -> Self {
        let front = self.queues.write_order[0];
        let key = self.info(front).key_hash.key;
        match self.find(key) {
            Some(e) => self.without_key(key).unlinked_ao(e).unlinked_wo(e),
            None => self.unlinked_wo(front),
        }
    }

    /// Up to `n` times, the first of the access-order queue is removed while it is expired.
    pub open spec fn expired_ao_removed(self, n: nat, now: Instant) -> Self
        decreases n,
    {
        if n == 0 || self.queues.probation.len() == 0 || !self.expired_ao(
            self.queues.probation[0],
            now,
        ) {
            self
        } else {
            self.front_removed_ao().expired_ao_removed((n - 1) as nat, now)
        }
    }

    /// Up to `n` times, the first of the write-order queue is removed while it is expired.
    pub open spec fn expired_wo_removed(self, n: nat, now: Instant) -> Self
        decreases n,
    {
        if n == 0 || self.queues.write_order.len() == 0 || !self.expired_wo(
            self.queues.write_order[0],
            now,
        ) {
            self
        } else {
            self.front_removed_wo().expired_wo_removed((n - 1) as nat, now)
        }
    }

    /// The expired entries are removed, up to a batch from each queue.
    pub open spec fn expired_removed(self, n: nat, now: Instant) -> Self {
        let s = if self.time_to_live is Some {
            self.expired_wo_removed(n, now)
        } else {
            self
        };
        if s.time_to_idle is Some {
            s.expired_ao_removed(n, now)
        } else {
            s
        }
    }

    /// The hash table has the entry under its key.
    pub open spec fn in_cache(self, e: usize) -> bool {
        self.find(self.info(e).key_hash.key) == Some(e)
    }

    /// Entries that are neither in the hash table nor in the queues are forgotten.
    pub open spec fn collected(self) -> Self {
        QueueState {
            entries: self.entries.restrict(
                Set::new(
                    |e: usize|
                        self.in_cache(e) || self.queues.probation.contains(e)
                            || self.queues.write_order.contains(e),
                ),
            ),
            ..self
        }
    }

    /// The logs are shown to the policies, and the expired entries are removed.
    pub open spec fn logs_applied(self, now: Instant) -> Self {
        let s = self.reads_applied(self.reads.len());
        let s = s.writes_applied(s.writes.len());
        if self.has_expiry() {
            s.expired_removed(EVICTION_BATCH_SIZE as nat, now)
        } else {
            s
        }
    }

    /// One round of housekeeping. There is nothing to do where the logs are empty and entries
    /// do not expire.
    #[verifier::opaque]
    pub open spec fn synced(self, now: Instant) -> Self {
        if self.reads.len() == 0 && self.writes.len() == 0 && !self.has_expiry() {
            self
        } else {
            self.logs_applied(now).collected()
        }
    }

    /// The value that a read of a key gives: that of its entry, unless the entry is expired.
    pub open spec fn lookup(self, key: u64, now: Instant) -> Option<V> {
        match self.find(key) {
            Some(e) => if self.expired_wo(e, now) || self.expired_ao(e, now) {
                None
            } else {
                Some(self.entries[e].value)
            },
            None => None,
        }
    }

    /// What is logged of a read of a key.
    pub open spec fn read_op(self, key: u64, hash: u64, now: Instant) -> ReadOp {
        if self.lookup(key, now) is Some {
            ReadOp::Hit { hash, entry: self.cache[key] }
        } else {
            ReadOp::Miss(hash)
        }
    }

    /// The time that an entry takes note of, where entries expire.
    pub open spec fn time_at(self, now: Instant) -> Option<Instant> {
        if self.has_expiry() {
            Some(now)
        } else {
            None
        }
    }

    /// A key was read: the entry that was found was used, and the read is logged.
    pub open spec fn read_at(self, key: u64, hash: u64, now: Instant) -> Self {
        let s = if self.lookup(key, now) is Some {
            self.accessed(self.cache[key], self.time_at(now))
        } else {
            self
        };
        s.read_logged(self.read_op(key, hash, now))
    }

    /// A read is logged, unless the log is full.
    pub open spec fn read_logged(self, op: ReadOp) -> Self {
        if self.reads.len() < self.read_log_size {
            QueueState { reads: self.reads.push(op), ..self }
        } else {
            self
        }
    }

    /// A write is logged.
    pub open spec fn write_logged(self, op: QueueOp) -> Self {
        QueueState { writes: self.writes.push(op), ..self }
    }

    /// Housekeeping is done if the log of writes is full.
    pub open spec fn with_room(self, now: Instant) -> Self {
        if self.writes.len() >= self.write_log_size {
            self.synced(now)
        } else {
            self
        }
    }

    /// The value of an entry is replaced, at this time.
    pub open spec fn replaced(self, e: usize, value: V, time: Option<Instant>) -> Self {
        QueueState {
            entries: self.entries.insert(
                e,
                EntryState {
                    value,
                    info: EntryInfo {
                        last_accessed: AtomicInstant::spec_of(time),
                        last_modified: AtomicInstant::spec_of(time),
                        ..self.info(e)
                    },
                },
            ),
            ..self
        }
    }

    /// An entry is put under a key.
    pub open spec fn inserted(self, e: usize, entry: EntryState<V>) -> Self {
        QueueState {
            cache: self.cache.insert(entry.info.key_hash.key, e),
            entries: self.entries.insert(e, entry),
            ..self
        }
    }

    /// `after` is the cache after a key was given a value: the value of its entry was
    /// replaced, or a new entry was put under it, and the write was logged.
    pub open spec fn put(
        self,
        after: Self,
        key: u64,
        hash: u64,
        value: V,
        time: Option<Instant>,
    ) -> bool {
        match self.find(key) {
            Some(entry) => after == self.replaced(entry, value, time).write_logged(
                QueueOp::Update { entry },
            ),
            None => {
                let entry = after.writes.last()->Insert_entry;
                &&& !self.entries.dom().contains(entry)
                &&& new_entry(after.entries[entry], key, hash, value, 1, time)
                &&& after == self.inserted(entry, after.entries[entry]).write_logged(
                    QueueOp::Insert { key, hash, entry },
                )
            },
        }
    }

    /// The cache after the value of a key was taken away, and the write was logged.
    pub open spec fn taken(self, key: u64) -> Self {
        match self.find(key) {
            Some(entry) => self.without_key(key).write_logged(QueueOp::Remove { entry }),
            None => self,
        }
    }

    pub open spec fn read_ok(self, op: ReadOp) -> bool {
        op matches ReadOp::Hit { hash, entry } ==> self.entries.dom().contains(entry)
    }

    /// An entry that was put under a key and not shown to the policies is in no queue.
    pub open spec fn write_ok(self, op: QueueOp) -> bool {
        match op {
            QueueOp::Insert { key, hash, entry } => self.entries.dom().contains(entry)
                && !self.queues.probation.contains(entry) && !self.queues.write_order.contains(entry),
            QueueOp::Update { entry } => self.entries.dom().contains(entry),
            QueueOp::Remove { entry } => self.entries.dom().contains(entry),
        }
    }

    /// The queues, the hash table and the logs speak of entries that there are, the queues of
    /// each once. An entry is put under a key once.
    pub open spec fn wf(self) -> bool {
        &&& self.queues.probation.no_duplicates()
        &&& self.queues.write_order.no_duplicates()
        &&& self.queues.window.len() == 0
        &&& self.queues.protected.len() == 0
        &&& forall|e: usize| #[trigger]
            self.queues.probation.contains(e) ==> self.entries.dom().contains(e)
        &&& forall|e: usize| #[trigger]
            self.queues.write_order.contains(e) ==> self.entries.dom().contains(e)
        &&& forall|k: u64| #[trigger]
            self.cache.dom().contains(k) ==> self.entries.dom().contains(self.cache[k]) && self.info(
                self.cache[k],
            ).key_hash.key == k
        &&& forall|i: int| 0 <= i < self.reads.len() ==> self.read_ok(#[trigger] self.reads[i])
        &&& forall|i: int| 0 <= i < self.writes.len() ==> self.write_ok(#[trigger] self.writes[i])
        &&& forall|i: int, j: int|
            #![trigger self.writes[i], self.writes[j]]
            0 <= i < j < self.writes.len() && self.writes[i] is Insert && self.writes[j] is Insert
                ==> self.writes[i]->Insert_entry != self.writes[j]->Insert_entry
    }
}

/// Nobody is in the queues `a` who is not in the queues `b`.
pub open spec fn fewer(a: Queues, b: Queues) -> bool {
    &&& a.window == b.window
    &&& a.protected == b.protected
    &&& a.probation.no_duplicates()
    &&& a.write_order.no_duplicates()
    &&& forall|e: usize| #[trigger] a.probation.contains(e) ==> b.probation.contains(e)
    &&& forall|e: usize| #[trigger] a.write_order.contains(e) ==> b.write_order.contains(e)
}

impl<V, S: SketchModel> QueueState<V, S> {
    /// A cache stays well-formed when nobody joins a queue, no entry comes or goes, no key comes,
    /// and no log grows.
    pub proof fn lemma_fewer_wf(self, other: Self)
        requires
            self.wf(),
            fewer(other.queues, self.queues),
            other.entries.dom() =~= self.entries.dom(),
            forall|e: usize|
                self.entries.dom().contains(e) ==> (#[trigger] other.info(e)).key_hash
                    == self.info(e).key_hash,
            forall|k: u64| #[trigger]
                other.cache.dom().contains(k) ==> self.cache.dom().contains(k) && other.cache[k]
                    == self.cache[k],
            other.reads == self.reads,
            other.writes == self.writes,
        ensures
            other.wf(),
    {
        assert forall|k: u64| #[trigger]
            other.cache.dom().contains(k) implies other.entries.dom().contains(other.cache[k])
            && other.info(other.cache[k]).key_hash.key == k by {
            assert(self.cache.dom().contains(k));
        }
        assert forall|i: int| 0 <= i < other.reads.len() implies other.read_ok(#[trigger] other.reads[i]) by {
            assert(self.read_ok(self.reads[i]));
        }
        assert forall|i: int| 0 <= i < other.writes.len() implies other.write_ok(
            #[trigger] other.writes[i],
        ) by {
            assert(self.write_ok(self.writes[i]));
        }
        assert forall|i: int, j: int|
            #![trigger other.writes[i], other.writes[j]]
            0 <= i < j < other.writes.len() && other.writes[i] is Insert
                && other.writes[j] is Insert implies other.writes[i]->Insert_entry
            != other.writes[j]->Insert_entry by {
            assert(self.writes[i] is Insert && self.writes[j] is Insert);
        }
    }

    pub proof fn lemma_queue_steps_wf(self, e: usize)
        requires
            self.wf(),
        ensures
            self.to_back_ao(e).wf(),
            self.to_back_wo(e).wf(),
            self.unlinked_ao(e).wf(),
            self.unlinked_wo(e).wf(),
    {
        lemma_moved_back(self.queues.probation, e);
        lemma_moved_back(self.queues.write_order, e);
        lemma_unlinked(self.queues.probation, e);
        lemma_unlinked(self.queues.write_order, e);
        self.lemma_fewer_wf(self.to_back_ao(e));
        self.lemma_fewer_wf(self.to_back_wo(e));
        self.lemma_fewer_wf(self.unlinked_ao(e));
        self.lemma_fewer_wf(self.unlinked_wo(e));
    }

    /// An entry that is in no queue and is not to be put into one may join the queues.
    pub proof fn lemma_queued_wf(self, e: usize)
        requires
            self.wf(),
            self.entries.dom().contains(e),
            !self.queues.probation.contains(e),
            !self.queues.write_order.contains(e),
            forall|i: int|
                0 <= i < self.writes.len() && (#[trigger] self.writes[i]) is Insert
                    ==> self.writes[i]->Insert_entry != e,
        ensures
            self.queued(e).wf(),
    {
        let other = self.queued(e);
        lemma_pushed(self.queues.probation, e);
        lemma_pushed(self.queues.write_order, e);
        assert forall|k: u64| #[trigger]
            other.cache.dom().contains(k) implies other.entries.dom().contains(other.cache[k])
            && other.info(other.cache[k]).key_hash.key == k by {
            assert(self.cache.dom().contains(k));
        }
        assert forall|i: int| 0 <= i < other.reads.len() implies other.read_ok(#[trigger] other.reads[i]) by {
            assert(self.read_ok(self.reads[i]));
        }
        assert forall|i: int| 0 <= i < other.writes.len() implies other.write_ok(
            #[trigger] other.writes[i],
        ) by {
            assert(self.write_ok(self.writes[i]));
        }
        assert forall|i: int, j: int|
            #![trigger other.writes[i], other.writes[j]]
            0 <= i < j < other.writes.len() && other.writes[i] is Insert
                && other.writes[j] is Insert implies other.writes[i]->Insert_entry
            != other.writes[j]->Insert_entry by {
            assert(self.writes[i] is Insert && self.writes[j] is Insert);
        }
    }

    /// The first of the log of reads may go.
    pub proof fn lemma_read_popped_wf(self)
        requires
            self.wf(),
            self.reads.len() > 0,
        ensures
            (QueueState { reads: self.reads.remove(0), ..self }).wf(),
            self.read_ok(self.reads[0]),
    {
        let other = QueueState { reads: self.reads.remove(0), ..self };
        assert forall|k: u64| #[trigger]
            other.cache.dom().contains(k) implies other.entries.dom().contains(other.cache[k])
            && other.info(other.cache[k]).key_hash.key == k by {
            assert(self.cache.dom().contains(k));
        }
        assert forall|i: int| 0 <= i < other.reads.len() implies other.read_ok(#[trigger] other.reads[i]) by {
            assert(self.read_ok(self.reads[i + 1]));
        }
        assert forall|i: int| 0 <= i < other.writes.len() implies other.write_ok(
            #[trigger] other.writes[i],
        ) by {
            assert(self.write_ok(self.writes[i]));
        }
        assert forall|i: int, j: int|
            #![trigger other.writes[i], other.writes[j]]
            0 <= i < j < other.writes.len() && other.writes[i] is Insert
                && other.writes[j] is Insert implies other.writes[i]->Insert_entry
            != other.writes[j]->Insert_entry by {
            assert(self.writes[i] is Insert && self.writes[j] is Insert);
        }
    }

    /// A read of an entry that there is may be logged.
    pub proof fn lemma_read_logged_wf(self, op: ReadOp)
        requires
            self.wf(),
            self.read_ok(op),
        ensures
            self.read_logged(op).wf(),
    {
        let other = self.read_logged(op);
        assert forall|k: u64| #[trigger]
            other.cache.dom().contains(k) implies other.entries.dom().contains(other.cache[k])
            && other.info(other.cache[k]).key_hash.key == k by {
            assert(self.cache.dom().contains(k));
        }
        assert forall|i: int| 0 <= i < other.reads.len() implies other.read_ok(#[trigger] other.reads[i]) by {
            if i < self.reads.len() {
                assert(self.read_ok(self.reads[i]));
            }
        }
        assert forall|i: int| 0 <= i < other.writes.len() implies other.write_ok(
            #[trigger] other.writes[i],
        ) by {
            assert(self.write_ok(self.writes[i]));
        }
        assert forall|i: int, j: int|
            #![trigger other.writes[i], other.writes[j]]
            0 <= i < j < other.writes.len() && other.writes[i] is Insert
                && other.writes[j] is Insert implies other.writes[i]->Insert_entry
            != other.writes[j]->Insert_entry by {
            assert(self.writes[i] is Insert && self.writes[j] is Insert);
        }
    }

    /// The first of the log of writes may go.
    pub proof fn lemma_write_popped_wf(self)
        requires
            self.wf(),
            self.writes.len() > 0,
        ensures
            (QueueState { writes: self.writes.remove(0), ..self }).wf(),
            self.write_ok(self.writes[0]),
            self.writes[0] is Insert ==> forall|i: int|
                0 <= i < self.writes.remove(0).len() && (
                #[trigger] self.writes.remove(0)[i]) is Insert
                    ==> self.writes.remove(0)[i]->Insert_entry != self.writes[0]->Insert_entry,
    {
        let other = QueueState { writes: self.writes.remove(0), ..self };
        assert forall|k: u64| #[trigger]
            other.cache.dom().contains(k) implies other.entries.dom().contains(other.cache[k])
            && other.info(other.cache[k]).key_hash.key == k by {
            assert(self.cache.dom().contains(k));
        }
        assert forall|i: int| 0 <= i < other.reads.len() implies other.read_ok(#[trigger] other.reads[i]) by {
            assert(self.read_ok(self.reads[i]));
        }
        assert forall|i: int| 0 <= i < other.writes.len() implies other.write_ok(
            #[trigger] other.writes[i],
        ) by {
            assert(self.write_ok(self.writes[i + 1]));
        }
        assert forall|i: int, j: int|
            #![trigger other.writes[i], other.writes[j]]
            0 <= i < j < other.writes.len() && other.writes[i] is Insert
                && other.writes[j] is Insert implies other.writes[i]->Insert_entry
            != other.writes[j]->Insert_entry by {
            assert(self.writes[i + 1] is Insert && self.writes[j + 1] is Insert);
        }
        if self.writes[0] is Insert {
            assert forall|i: int|
                0 <= i < self.writes.remove(0).len() && (
                #[trigger] self.writes.remove(0)[i]) is Insert implies self.writes.remove(
                0,
            )[i]->Insert_entry != self.writes[0]->Insert_entry by {
                assert(self.writes[i + 1] is Insert);
            }
        }
    }

    /// A write of an entry that there is may be logged. An entry is put under a key once.
    pub proof fn lemma_write_logged_wf(self, op: QueueOp)
        requires
            self.wf(),
            self.write_ok(op),
            op is Insert ==> forall|i: int|
                0 <= i < self.writes.len() && (#[trigger] self.writes[i]) is Insert
                    ==> self.writes[i]->Insert_entry != op->Insert_entry,
        ensures
            self.write_logged(op).wf(),
    {
        let other = self.write_logged(op);
        assert forall|k: u64| #[trigger]
            other.cache.dom().contains(k) implies other.entries.dom().contains(other.cache[k])
            && other.info(other.cache[k]).key_hash.key == k by {
            assert(self.cache.dom().contains(k));
        }
        assert forall|i: int| 0 <= i < other.reads.len() implies other.read_ok(#[trigger] other.reads[i]) by {
            assert(self.read_ok(self.reads[i]));
        }
        assert forall|i: int| 0 <= i < other.writes.len() implies other.write_ok(
            #[trigger] other.writes[i],
        ) by {
            if i < self.writes.len() {
                assert(self.write_ok(self.writes[i]));
            }
        }
        assert forall|i: int, j: int|
            #![trigger other.writes[i], other.writes[j]]
            0 <= i < j < other.writes.len() && other.writes[i] is Insert
                && other.writes[j] is Insert implies other.writes[i]->Insert_entry
            != other.writes[j]->Insert_entry by {
            assert(self.writes[i] is Insert);
            if j < self.writes.len() {
                assert(self.writes[j] is Insert);
            }
        }
    }

    /// A cache in which an entry was put under a key is well-formed, and the entry may be
    /// logged.
    pub proof fn lemma_inserted_wf(self, e: usize, entry: EntryState<V>)
        requires
            self.wf(),
            !self.entries.dom().contains(e),
        ensures
            self.inserted(e, entry).wf(),
            !self.queues.probation.contains(e),
            !self.queues.write_order.contains(e),
            forall|i: int|
                0 <= i < self.writes.len() && (#[trigger] self.writes[i]) is Insert
                    ==> self.writes[i]->Insert_entry != e,
    {
        let other = self.inserted(e, entry);
        assert(self.queues.probation.contains(e) ==> self.entries.dom().contains(e));
        assert(self.queues.write_order.contains(e) ==> self.entries.dom().contains(e));
        assert forall|k: u64| #[trigger]
            other.cache.dom().contains(k) implies other.entries.dom().contains(other.cache[k])
            && other.info(other.cache[k]).key_hash.key == k by {
            if k != entry.info.key_hash.key {
                assert(self.cache.dom().contains(k));
            }
        }
        assert forall|i: int| 0 <= i < other.reads.len() implies other.read_ok(#[trigger] other.reads[i]) by {
            assert(self.read_ok(self.reads[i]));
        }
        assert forall|i: int| 0 <= i < other.writes.len() implies other.write_ok(
            #[trigger] other.writes[i],
        ) by {
            assert(self.write_ok(self.writes[i]));
        }
        assert forall|i: int|
            0 <= i < self.writes.len() && (#[trigger] self.writes[i]) is Insert implies self.writes[i]->Insert_entry
            != e by {
            assert(self.write_ok(self.writes[i]));
        }
        assert forall|i: int, j: int|
            #![trigger other.writes[i], other.writes[j]]
            0 <= i < j < other.writes.len() && other.writes[i] is Insert
                && other.writes[j] is Insert implies other.writes[i]->Insert_entry
            != other.writes[j]->Insert_entry by {
            assert(self.writes[i] is Insert && self.writes[j] is Insert);
        }
    }

    /// Forgetting entries that neither the hash table nor the queues have keeps a cache
    /// well-formed.
    pub proof fn lemma_collected_wf(self)
        requires
            self.wf(),
            self.reads.len() == 0,
            self.writes.len() == 0,
        ensures
            self.collected().wf(),
    {
        let other = self.collected();
        assert forall|k: u64| #[trigger]
            other.cache.dom().contains(k) implies other.entries.dom().contains(other.cache[k])
            && other.info(other.cache[k]).key_hash.key == k by {
            assert(self.cache.dom().contains(k));
            assert(self.in_cache(self.cache[k]));
        }
        assert forall|e: usize| #[trigger] other.queues.probation.contains(e) implies other.entries.dom().contains(
            e,
        ) by {
            assert(self.queues.probation.contains(e));
        }
        assert forall|e: usize| #[trigger] other.queues.write_order.contains(e) implies other.entries.dom().contains(
            e,
        ) by {
            assert(self.queues.write_order.contains(e));
        }
    }
}

impl<V, S: SketchModel> QueueState<V, S> {
    /// The two caches have the same logs and the same settings.
    pub open spec fn same_rest(self, other: Self) -> bool {
        &&& self.reads == other.reads
        &&& self.writes == other.writes
        &&& self.time_to_live == other.time_to_live
        &&& self.time_to_idle == other.time_to_idle
    }

    /// Showing the reads to the policies empties the log of reads.
    pub proof fn lemma_reads_applied(self, n: nat)
        ensures
            self.reads_applied(n).writes == self.writes,
            self.reads_applied(n).time_to_live == self.time_to_live,
            self.reads_applied(n).time_to_idle == self.time_to_idle,
            self.reads_applied(n).read_log_size == self.read_log_size,
            self.reads_applied(n).write_log_size == self.write_log_size,
            n == self.reads.len() ==> self.reads_applied(n).reads.len() == 0,
        decreases n,
    {
        if n > 0 && self.reads.len() > 0 {
            self.read_applied().lemma_reads_applied((n - 1) as nat);
        }
    }

    proof fn lemma_writes_applied(self, n: nat)
        ensures
            self.writes_applied(n).reads == self.reads,
            self.writes_applied(n).time_to_live == self.time_to_live,
            self.writes_applied(n).time_to_idle == self.time_to_idle,
            n == self.writes.len() ==> self.writes_applied(n).writes.len() == 0,
        decreases n,
    {
        if n > 0 && self.writes.len() > 0 {
            self.write_applied().lemma_writes_applied((n - 1) as nat);
        }
    }

    proof fn lemma_expired_ao_removed(self, n: nat, now: Instant)
        ensures
            self.expired_ao_removed(n, now).same_rest(self),
        decreases n,
    {
        if n == 0 || self.queues.probation.len() == 0 || !self.expired_ao(
            self.queues.probation[0],
            now,
        ) {
        } else {
            self.front_removed_ao().lemma_expired_ao_removed((n - 1) as nat, now);
        }
    }

    proof fn lemma_expired_wo_removed(self, n: nat, now: Instant)
        ensures
            self.expired_wo_removed(n, now).same_rest(self),
        decreases n,
    {
        if n == 0 || self.queues.write_order.len() == 0 || !self.expired_wo(
            self.queues.write_order[0],
            now,
        ) {
        } else {
            self.front_removed_wo().lemma_expired_wo_removed((n - 1) as nat, now);
        }
    }

    /// Housekeeping empties the logs, and does not change whether entries expire.
    pub proof fn lemma_logs_applied(self, now: Instant)
        ensures
            self.logs_applied(now).reads.len() == 0,
            self.logs_applied(now).writes.len() == 0,
            self.logs_applied(now).has_expiry() == self.has_expiry(),
            self.reads_applied(self.reads.len()).writes == self.writes,
            self.reads_applied(self.reads.len()).has_expiry() == self.has_expiry(),
            ({
                let s = self.reads_applied(self.reads.len());
                s.writes_applied(s.writes.len()).has_expiry() == self.has_expiry()
            }),
    {
        self.lemma_reads_applied(self.reads.len());
        let s = self.reads_applied(self.reads.len());
        s.lemma_writes_applied(s.writes.len());
        let s = s.writes_applied(s.writes.len());
        s.lemma_expired_wo_removed(EVICTION_BATCH_SIZE as nat, now);
        s.lemma_expired_ao_removed(EVICTION_BATCH_SIZE as nat, now);
        s.expired_wo_removed(EVICTION_BATCH_SIZE as nat, now).lemma_expired_ao_removed(
            EVICTION_BATCH_SIZE as nat,
            now,
        );
    }
}

} // verus!
