//! What a cache is, apart from how it is laid out in memory, and what each operation makes
//! of it.
use std::time::Duration;

use vstd::arithmetic::power2::{lemma2_to64, lemma_pow2_pos, pow2};
use vstd::prelude::*;

use crate::common::concurrent::admission::{sat_add, sat_sub, EvictionCounters};
use crate::common::concurrent::deques::{
    lemma_moved_back, lemma_pushed, lemma_unlinked, moved_back, same_members, unlinked, Queues,
};
use crate::common::concurrent::entry_info::EntryInfo;
use crate::common::concurrent::expiry::{expired_by, expired_or_invalid, invalid_at};
use crate::common::concurrent::{new_entry, EntryState};
use crate::common::double::{powers_of_two_scale_exactly, Double};
use crate::common::frequency_sketch::SketchState;
use crate::common::op_log::{ReadOp, WriteOp};
use crate::common::time::{AtomicInstant, Instant};
use crate::common::{spec_sketch_capacity, CacheRegion};
use crate::notification::RemovalCause;

verus! {

/// How often housekeeping goes over the logs at most.
pub const MAX_SYNC_REPEATS: usize = 4;

/// The number of logged reads at which housekeeping is due.
pub const READ_LOG_FLUSH_POINT: usize = 512;

/// The number of reads that the log takes.
pub const READ_LOG_SIZE: usize = READ_LOG_FLUSH_POINT * (MAX_SYNC_REPEATS + 2);

/// The number of logged writes at which housekeeping is due.
pub const WRITE_LOG_FLUSH_POINT: usize = 512;

/// The number of writes that the log takes.
pub const WRITE_LOG_SIZE: usize = WRITE_LOG_FLUSH_POINT * (MAX_SYNC_REPEATS + 2);

/// How many entries one round of housekeeping evicts at most.
pub const EVICTION_BATCH_SIZE: usize = 500;

/// How many victims in a row may turn out to be gone before the search for victims ends.
pub const MAX_CONSECUTIVE_RETRIES: usize = 5;

/// A cache.
pub struct CacheState<V> {
    /// The entry of each key.
    pub cache: Map<u64, usize>,
    /// The entries, those included that were removed and that the policies still know of.
    pub entries: Map<usize, EntryState<V>>,
    pub queues: Queues,
    pub counters: EvictionCounters,
    pub sketch: SketchState,
    pub sketch_enabled: bool,
    pub reads: Seq<ReadOp>,
    pub writes: Seq<WriteOp>,
    pub max_capacity: Option<u64>,
    pub time_to_live: Option<Duration>,
    pub time_to_idle: Option<Duration>,
    pub valid_after: Option<Instant>,
    pub has_weigher: bool,
}

/// The candidates that a search for victims went over.
pub struct Victims {
    /// Those to be evicted, and the sums of their weights and frequencies.
    pub nodes: Seq<usize>,
    pub policy_weight: int,
    pub freq: int,
    /// Those that were gone from the hash table.
    pub skipped: Seq<usize>,
    /// How many of the last ones were gone.
    pub retries: int,
}

impl<V> CacheState<V> {
    pub open spec fn info(self, e: usize) -> EntryInfo<u64> {
        self.entries[e].info
    }

    /// The entry of a key.
    pub open spec fn find(self, key: u64) -> Option<usize> {
        if self.cache.dom().contains(key) {
            Some(self.cache[key])
        } else {
            None
        }
    }

    pub open spec fn with_info(self, e: usize, info: EntryInfo<u64>) -> Self {
        CacheState { entries: self.entries.insert(e, EntryState { info, ..self.entries[e] }), ..self }
    }

    pub open spec fn without_key(self, key: u64) -> Self {
        CacheState { cache: self.cache.remove(key), ..self }
    }

    pub open spec fn accessed(self, e: usize, ts: Instant) -> Self {
        self.with_info(
            e,
            EntryInfo { last_accessed: AtomicInstant { instant: ts.nanos }, ..self.info(e) },
        )
    }

    pub open spec fn to_back_ao(self, e: usize) -> Self {
        CacheState {
            queues: Queues { probation: moved_back(self.queues.probation, e), ..self.queues },
            ..self
        }
    }

    pub open spec fn to_back_wo(self, e: usize) -> Self {
        CacheState {
            queues: Queues { write_order: moved_back(self.queues.write_order, e), ..self.queues },
            ..self
        }
    }

    /// The entry is expired by the time-to-idle, or was invalidated.
    pub open spec fn expired_ao(self, e: usize, now: Instant) -> bool {
        expired_or_invalid(self.time_to_idle, self.valid_after, self.info(e).last_accessed@, now)
    }

    /// The entry is expired by the time-to-live, or was invalidated.
    pub open spec fn expired_wo(self, e: usize, now: Instant) -> bool {
        expired_or_invalid(self.time_to_live, self.valid_after, self.info(e).last_modified@, now)
    }

    /// There is room for another entry of the weight.
    pub open spec fn has_room_for(self, weight: u32) -> bool {
        self.max_capacity is None || self.counters.weighted_size + weight <= self.max_capacity->0
    }

    /// By how much the entries are too heavy.
    pub open spec fn overweight(self) -> u64 {
        match self.max_capacity {
            Some(limit) => sat_sub(self.counters.weighted_size, limit as int),
            None => 0,
        }
    }

    /// The entry is taken into the queues.
    pub open spec fn admitted(self, e: usize, weight: u32) -> Self {
        let s = CacheState {
            counters: self.counters.added(1, weight),
            queues: Queues {
                probation: self.queues.probation.push(e),
                write_order: if self.time_to_live is Some {
                    self.queues.write_order.push(e)
                } else {
                    self.queues.write_order
                },
                ..self.queues
            },
            ..self
        };
        s.with_info(e, EntryInfo { is_admitted: true, ..s.info(e) })
    }

    /// The entry is taken out of the queues, if it is in them.
    pub open spec fn dismissed(self, e: usize) -> Self {
        if self.info(e).is_admitted {
            let s = CacheState {
                counters: self.counters.subtracted(1, self.info(e).policy_weight),
                queues: Queues {
                    probation: unlinked(self.queues.probation, e),
                    write_order: unlinked(self.queues.write_order, e),
                    ..self.queues
                },
                ..self
            };
            s.with_info(e, EntryInfo { is_admitted: false, ..s.info(e) })
        } else {
            self
        }
    }

    /// The search for victims, from the `i`-th of the queue on.
    ///
    /// The search goes on until the victims are as heavy as the candidate, are used more
    /// often than the candidate, or too many in a row are gone.
    pub open spec fn search(self, weight: int, freq: int, i: int, v: Victims) -> Victims
        decreases self.queues.probation.len() - i,
    {
        if v.policy_weight >= weight || freq < v.freq || v.retries > MAX_CONSECUTIVE_RETRIES || !(0
            <= i < self.queues.probation.len()) {
            v
        } else {
            let n = self.queues.probation[i];
            match self.find(self.info(n).key_hash.key) {
                Some(e) => self.search(
                    weight,
                    freq,
                    i + 1,
                    Victims {
                        nodes: v.nodes.push(n),
                        policy_weight: v.policy_weight + self.info(e).policy_weight,
                        freq: v.freq + self.sketch.frequency(self.info(n).key_hash.hash),
                        retries: 0,
                        ..v
                    },
                ),
                None => self.search(
                    weight,
                    freq,
                    i + 1,
                    Victims { skipped: v.skipped.push(n), retries: v.retries + 1, ..v },
                ),
            }
        }
    }

    /// The victims that a candidate of this weight and frequency would replace.
    pub open spec fn victims(self, weight: int, freq: int) -> Victims {
        self.search(
            weight,
            freq,
            0,
            Victims {
                nodes: Seq::empty(),
                policy_weight: 0,
                freq: 0,
                skipped: Seq::empty(),
                retries: 0,
            },
        )
    }

    /// The first `n` of the victims are evicted; of these, those that were gone already are
    /// added to `skipped`.
    pub open spec fn evicted(self, nodes: Seq<usize>, skipped: Seq<usize>, n: int) -> (Self, Seq<usize>)
        decreases n,
    {
        if n <= 0 {
            (self, skipped)
        } else {
            let (s, skipped) = self.evicted(nodes, skipped, n - 1);
            let v = nodes[n - 1];
            let key = s.info(v).key_hash.key;
            match s.find(key) {
                Some(e) => (s.without_key(key).dismissed(e), skipped),
                None => (s, skipped.push(v)),
            }
        }
    }

    /// The first `n` of some entries are moved to the back of the access-order queue.
    pub open spec fn all_to_back_ao(self, nodes: Seq<usize>, n: int) -> Self
        decreases n,
    {
        if n <= 0 {
            self
        } else {
            self.all_to_back_ao(nodes, n - 1).to_back_ao(nodes[n - 1])
        }
    }

    /// An entry was put under a key, or its value was replaced.
    pub open spec fn upserted(
        self,
        key: u64,
        hash: u64,
        e: usize,
        old_weight: u32,
        new_weight: u32,
    ) -> Self {
        if self.info(e).is_admitted {
            CacheState { counters: self.counters.subtracted(0, old_weight).added(0, new_weight), ..self }.to_back_ao(
                e,
            ).to_back_wo(e)
        } else if self.has_room_for(new_weight) {
            self.admitted(e, new_weight)
        } else if new_weight > self.max_capacity->0 {
            self.without_key(key)
        } else {
            let freq = self.sketch.frequency(hash) as int;
            let v = self.victims(new_weight as int, freq);
            if v.policy_weight >= new_weight && freq > v.freq {
                let (s1, skipped) = self.evicted(v.nodes, v.skipped, v.nodes.len() as int);
                s1.admitted(e, new_weight).all_to_back_ao(skipped, skipped.len() as int)
            } else {
                self.without_key(key).all_to_back_ao(v.skipped, v.skipped.len() as int)
            }
        }
    }

    /// A read is taken out of the log and shown to the policies.
    pub open spec fn read_applied(self) -> Self {
        let s = CacheState { reads: self.reads.remove(0), ..self };
        match self.reads[0] {
            ReadOp::Hit { hash, entry } => {
                let counted = CacheState { sketch: s.sketch.incremented(hash), ..s };
                counted.to_back_ao(entry)
            },
            ReadOp::Miss(hash) => CacheState { sketch: s.sketch.incremented(hash), ..s },
        }
    }

    /// Up to `n` reads are taken out of the log and shown to the policies.
    pub open spec fn reads_applied(self, n: nat) -> Self
        decreases n,
    {
        if n == 0 || self.reads.len() == 0 {
            self
        } else {
            self.read_applied().reads_applied((n - 1) as nat)
        }
    }

    /// A write is taken out of the log and shown to the policies.
    pub open spec fn write_applied(self) -> Self {
        let s = CacheState { writes: self.writes.remove(0), ..self };
        match self.writes[0] {
            WriteOp::Upsert { key, hash, entry, old_weight, new_weight } => s.upserted(
                key,
                hash,
                entry,
                old_weight, new_weight),
            WriteOp::Remove { key, entry } => s.dismissed(entry),
        }
    }

    /// Up to `n` writes are taken out of the log and shown to the policies.
    pub open spec fn writes_applied(self, n: nat) -> Self
        decreases n,
    {
        if n == 0 || self.writes.len() == 0 {
            self
        } else {
            self.write_applied().writes_applied((n - 1) as nat)
        }
    }

    /// The first of a queue was updated or removed since it was queued: it is moved to the
    /// back. The result tells whether that was so.
    pub open spec fn skipped_updated(self, key: u64, region: CacheRegion) -> (Self, bool) {
        match self.find(key) {
            Some(e) => if self.info(e).last_accessed@ is None {
                (self.to_back_ao(e).to_back_wo(e), true)
            } else {
                (self, false)
            },
            None => if self.queues.access_order(region).len() > 0 {
                let e = self.queues.access_order(region)[0];
                (
                    CacheState {
                        queues: self.queues.with_access_order(
                            region,
                            moved_back(self.queues.access_order(region), e),
                        ),
                        ..self
                    },
                    true,
                )
            } else {
                (self, true)
            },
        }
    }

    /// Up to `n` entries that are expired are removed from the front of an access-order
    /// queue.
    pub open spec fn expired_ao_removed(self, region: CacheRegion, n: nat, now: Instant) -> Self
        decreases n,
    {
        let queue = self.queues.access_order(region);
        if n == 0 || queue.len() == 0 || !self.expired_ao(queue[0], now) {
            self
        } else {
            let key = self.info(queue[0]).key_hash.key;
            match self.find(key) {
                Some(e) if self.expired_ao(e, now) => self.without_key(key).dismissed(
                    e,
                ).expired_ao_removed(region, (n - 1) as nat, now),
                _ => {
                    let (s, skipped) = self.skipped_updated(key, region);
                    if skipped {
                        s.expired_ao_removed(region, (n - 1) as nat, now)
                    } else {
                        s
                    }
                },
            }
        }
    }

    /// Up to `n` entries that are expired are removed from the front of the write-order
    /// queue.
    pub open spec fn expired_wo_removed(self, n: nat, now: Instant) -> Self
        decreases n,
    {
        let queue = self.queues.write_order;
        if n == 0 || queue.len() == 0 || !self.expired_wo(queue[0], now) {
            self
        } else {
            let key = self.info(queue[0]).key_hash.key;
            match self.find(key) {
                Some(e) => if self.expired_wo(e, now) {
                    self.without_key(key).dismissed(e).expired_wo_removed((n - 1) as nat, now)
                } else if self.info(e).last_modified@ is None {
                    self.to_back_ao(e).to_back_wo(e).expired_wo_removed((n - 1) as nat, now)
                } else {
                    self
                },
                None => self.to_back_wo(queue[0]).expired_wo_removed((n - 1) as nat, now),
            }
        }
    }

    /// The expired and the invalidated entries are removed, up to a batch from each queue.
    pub open spec fn expired_removed(self, n: nat, now: Instant) -> Self {
        let s = if self.time_to_live is Some {
            self.expired_wo_removed(n, now)
        } else {
            self
        };
        if s.time_to_idle is Some || s.valid_after is Some {
            s.expired_ao_removed(CacheRegion::Window, n, now).expired_ao_removed(
                CacheRegion::MainProbation,
                n,
                now,
            ).expired_ao_removed(CacheRegion::MainProtected, n, now)
        } else {
            s
        }
    }

    /// Up to `n` entries are removed from the front of the access-order queue, until the
    /// weight to be evicted is reached.
    pub open spec fn lru_evicted(self, n: nat, to_evict: u64, evicted: u64) -> Self
        decreases n,
    {
        let queue = self.queues.probation;
        if n == 0 || evicted >= to_evict || queue.len() == 0 {
            self
        } else {
            let front = self.info(queue[0]);
            let key = front.key_hash.key;
            match self.find(key) {
                Some(e) if front.last_modified@ is Some && self.info(e).last_modified@
                    == front.last_modified@ => self.without_key(key).dismissed(e).lru_evicted(
                    (n - 1) as nat,
                    to_evict,
                    sat_add(evicted, self.info(e).policy_weight as int),
                ),
                _ => {
                    let (s, skipped) = self.skipped_updated(key, CacheRegion::MainProbation);
                    if skipped {
                        s.lru_evicted((n - 1) as nat, to_evict, evicted)
                    } else {
                        s
                    }
                },
            }
        }
    }
}

/// The capacity that a frequency sketch is made for when entries have weights: their number,
/// scaled by how full the cache is, in numbers of double precision. Nothing over nothing is nothing,
/// and anything else over nothing is without bound.
pub open spec fn weighed_capacity(entry_count: u64, weighted_size: u64, max_capacity: u64) -> u64 {
    if max_capacity == 0 {
        if entry_count == 0 || weighted_size == 0 {
            0
        } else {
            u64::MAX
        }
    } else {
        let ratio = Double::of(weighted_size as nat).over(Double::of(max_capacity as nat));
        let n = Double::of(entry_count as nat).times(ratio).floor();
        if n <= u64::MAX {
            n as u64
        } else {
            u64::MAX
        }
    }
}

impl<V> CacheState<V> {
    /// The cache is half full, and has no frequency sketch yet.
    pub open spec fn needs_sketch(self) -> bool {
        !self.sketch_enabled && self.max_capacity is Some && self.counters.weighted_size
            >= self.max_capacity->0 / 2
    }

    /// The cache gets a frequency sketch for a capacity.
    pub open spec fn with_sketch(self, cache_capacity: u64) -> Self {
        CacheState {
            sketch: self.sketch.with_capacity(spec_sketch_capacity(cache_capacity)),
            sketch_enabled: true,
            ..self
        }
    }

    /// The cache gets a frequency sketch if it needs one.
    pub open spec fn sketch_checked(self) -> Self {
        if self.needs_sketch() {
            self.with_sketch(
                if self.has_weigher {
                    weighed_capacity(
                        self.counters.entry_count,
                        self.counters.weighted_size,
                        self.max_capacity->0,
                    )
                } else {
                    self.max_capacity->0
                },
            )
        } else {
            self
        }
    }

    /// Entries that are neither in the hash table nor in the queues are forgotten.
    pub open spec fn collected(self) -> Self {
        CacheState {
            entries: self.entries.restrict(
                Set::new(|e: usize| self.in_cache(e) || self.info(e).is_admitted),
            ),
            ..self
        }
    }

    /// The logs are shown to the policies.
    pub open spec fn logs_applied(self) -> Self {
        let s = self.reads_applied(self.reads.len());
        s.writes_applied(s.writes.len()).sketch_checked()
    }

    /// The expired entries, and those that are too many, are removed.
    pub open spec fn trimmed(self, now: Instant) -> Self {
        let s = if self.time_to_live is Some || self.time_to_idle is Some || self.valid_after is Some {
            self.expired_removed(EVICTION_BATCH_SIZE as nat, now)
        } else {
            self
        };
        if s.overweight() > 0 {
            s.lru_evicted(EVICTION_BATCH_SIZE as nat, s.overweight(), 0)
        } else {
            s
        }
    }

    /// One round of housekeeping.
    #[verifier::opaque]
    pub open spec fn synced(self, now: Instant) -> Self {
        self.logs_applied().trimmed(now).collected()
    }

    /// The value that a read of a key gives: that of its entry, unless the entry is expired
    /// or invalidated.
    pub open spec fn lookup(self, key: u64, now: Instant) -> Option<V> {
        match self.find(key) {
            Some(e) => if self.expired_wo(e, now) || self.expired_ao(e, now) {
                None
            } else {
                Some(self.entries[e].value)
            },
            None => None,
        }
    }

    /// The entry has lived or idled for too long.
    pub open spec fn is_past(self, e: usize, now: Instant) -> bool {
        let info = self.info(e);
        ||| info.last_modified@ is Some && expired_by(self.time_to_live, info.last_modified@->0, now)
        ||| info.last_accessed@ is Some && expired_by(self.time_to_idle, info.last_accessed@->0, now)
    }

    /// The entry was invalidated with all others of its time.
    pub open spec fn is_invalidated(self, e: usize) -> bool {
        let info = self.info(e);
        ||| info.last_modified@ is Some && invalid_at(self.valid_after, info.last_modified@->0)
        ||| info.last_accessed@ is Some && invalid_at(self.valid_after, info.last_accessed@->0)
    }

    /// Why the entry of a key goes, if it goes now: that of a live entry is `live`.
    pub open spec fn cause_of_removal(self, key: u64, now: Instant, live: RemovalCause) -> Option<
        RemovalCause,
    > {
        match self.find(key) {
            Some(e) => Some(
                if self.is_past(e, now) {
                    RemovalCause::Expired
                } else if self.is_invalidated(e) {
                    RemovalCause::Explicit
                } else {
                    live
                },
            ),
            None => None,
        }
    }

    /// What is logged of a read of a key.
    pub open spec fn read_op(self, key: u64, hash: u64, now: Instant) -> ReadOp {
        if self.lookup(key, now) is Some {
            ReadOp::Hit { hash, entry: self.cache[key] }
        } else {
            ReadOp::Miss(hash)
        }
    }

    /// A key was read: the entry that was found was used, and the read is logged.
    pub open spec fn read_at(self, key: u64, hash: u64, now: Instant) -> Self {
        let s = if self.lookup(key, now) is Some {
            self.accessed(self.cache[key], now)
        } else {
            self
        };
        s.read_logged(self.read_op(key, hash, now))
    }

    /// A read is logged, unless the log is full.
    pub open spec fn read_logged(self, op: ReadOp) -> Self {
        if self.reads.len() < READ_LOG_SIZE {
            CacheState { reads: self.reads.push(op), ..self }
        } else {
            self
        }
    }

    /// A write is logged.
    pub open spec fn write_logged(self, op: WriteOp) -> Self {
        CacheState { writes: self.writes.push(op), ..self }
    }

    /// Housekeeping is done if the log of writes is full.
    pub open spec fn with_room(self, now: Instant) -> Self {
        if self.writes.len() >= WRITE_LOG_SIZE {
            self.synced(now)
        } else {
            self
        }
    }

    /// `after` is the cache after a key was given a value: the value of its entry was
    /// replaced, or a new entry was put under it, and the write was logged.
    pub open spec fn put(
        self,
        after: Self,
        key: u64,
        hash: u64,
        value: V,
        weight: u32,
        now: Instant,
    ) -> bool {
        match self.find(key) {
            Some(entry) => after == self.replaced(entry, value, weight, now).write_logged(
                WriteOp::Upsert {
                    key,
                    hash,
                    entry,
                    old_weight: self.info(entry).policy_weight,
                    new_weight: weight,
                },
            ),
            None => {
                let entry = after.writes.last()->Upsert_entry;
                &&& !self.entries.dom().contains(entry)
                &&& new_entry(after.entries[entry], key, hash, value, weight, Some(now))
                &&& after == self.inserted(entry, after.entries[entry]).write_logged(
                    WriteOp::Upsert { key, hash, entry, old_weight: 0, new_weight: weight },
                )
            },
        }
    }

    /// The cache after the value of a key was taken away, and the write was logged.
    pub open spec fn taken(self, key: u64) -> Self {
        match self.find(key) {
            Some(entry) => self.without_key(key).write_logged(WriteOp::Remove { key, entry }),
            None => self,
        }
    }

    /// The value of an entry is replaced, at the time `now`.
    pub open spec fn replaced(self, e: usize, value: V, weight: u32, now: Instant) -> Self {
        CacheState {
            entries: self.entries.insert(
                e,
                EntryState {
                    value,
                    info: EntryInfo {
                        policy_weight: weight,
                        last_accessed: AtomicInstant { instant: now.nanos },
                        last_modified: AtomicInstant { instant: now.nanos },
                        ..self.info(e)
                    },
                },
            ),
            ..self
        }
    }

    /// An entry is put under a key.
    pub open spec fn inserted(self, e: usize, entry: EntryState<V>) -> Self {
        CacheState {
            cache: self.cache.insert(entry.info.key_hash.key, e),
            entries: self.entries.insert(e, entry),
            ..self
        }
    }
}

impl<V> CacheState<V> {
    /// The hash table has the entry under its key.
    pub open spec fn in_cache(self, e: usize) -> bool {
        self.find(self.info(e).key_hash.key) == Some(e)
    }

    pub open spec fn read_ok(self, op: ReadOp) -> bool {
        op matches ReadOp::Hit { hash, entry } ==> self.entries.dom().contains(entry)
    }

    pub open spec fn write_ok(self, op: WriteOp) -> bool {
        match op {
            WriteOp::Upsert { key, hash, entry, old_weight, new_weight } => self.entries.dom().contains(
                entry,
            ),
            WriteOp::Remove { key, entry } => self.entries.dom().contains(entry),
        }
    }

    /// The queues hold the admitted entries, each once. The hash table and the logs speak of
    /// entries that there are.
    pub open spec fn wf(self) -> bool {
        &&& self.queues.probation.no_duplicates()
        &&& self.queues.write_order.no_duplicates()
        &&& self.queues.window.len() == 0
        &&& self.queues.protected.len() == 0
        &&& forall|e: usize|
            self.queues.probation.contains(e) <==> (#[trigger] self.entries.dom().contains(e)
                && self.info(e).is_admitted)
        &&& forall|e: usize| #[trigger]
            self.queues.write_order.contains(e) <==> (self.time_to_live is Some
                && self.queues.probation.contains(e))
        &&& self.counters.entry_count == self.queues.probation.len()
        &&& forall|k: u64| #[trigger]
            self.cache.dom().contains(k) ==> self.entries.dom().contains(self.cache[k]) && self.info(
                self.cache[k],
            ).key_hash.key == k
        &&& forall|i: int| 0 <= i < self.reads.len() ==> self.read_ok(#[trigger] self.reads[i])
        &&& forall|i: int| 0 <= i < self.writes.len() ==> self.write_ok(#[trigger] self.writes[i])
    }

    /// A cache in which only the entry `e` differs, and neither its key nor whether it is
    /// admitted, is as well-formed.
    pub proof fn lemma_entry_wf(self, other: Self, e: usize)
        requires
            self.wf(),
            self.entries.dom().contains(e),
            other == (CacheState { entries: self.entries.insert(e, other.entries[e]), ..self }),
            self.info(e).key_hash == other.info(e).key_hash,
            self.info(e).is_admitted == other.info(e).is_admitted,
        ensures
            other.wf(),
    {
        assert forall|x: usize|
            other.queues.probation.contains(x) <==> (#[trigger] other.entries.dom().contains(x)
                && other.info(x).is_admitted) by {
            assert(self.entries.dom().contains(x) <==> other.entries.dom().contains(x));
        }
        assert forall|k: u64| #[trigger]
            other.cache.dom().contains(k) implies other.entries.dom().contains(other.cache[k])
            && other.info(other.cache[k]).key_hash.key == k by {
            assert(self.cache.dom().contains(k));
        }
        self.lemma_ops_ok(other);
    }

    /// The sketch, the counted weights and the time from which entries are valid do not matter
    /// for well-formedness.
    pub proof fn lemma_rest_wf(self, other: Self)
        requires
            self.wf(),
            other.cache == self.cache,
            other.entries == self.entries,
            other.queues == self.queues,
            other.counters.entry_count == self.counters.entry_count,
            other.reads == self.reads,
            other.writes == self.writes,
            other.time_to_live == self.time_to_live,
        ensures
            other.wf(),
    {
        self.lemma_ops_ok(other);
        assert forall|x: usize|
            other.queues.probation.contains(x) <==> (#[trigger] other.entries.dom().contains(x)
                && other.info(x).is_admitted) by {
            assert(self.entries.dom().contains(x) <==> other.entries.dom().contains(x));
        }
        assert forall|k: u64| #[trigger]
            other.cache.dom().contains(k) implies other.entries.dom().contains(other.cache[k])
            && other.info(other.cache[k]).key_hash.key == k by {
            assert(self.cache.dom().contains(k));
        }
    }

    /// The logs may hold any operations on entries that there are.
    pub proof fn lemma_logs_wf(self, other: Self)
        requires
            self.wf(),
            other == (CacheState { reads: other.reads, writes: other.writes, ..self }),
            forall|i: int| 0 <= i < other.reads.len() ==> self.read_ok(#[trigger] other.reads[i]),
            forall|i: int| 0 <= i < other.writes.len() ==> self.write_ok(#[trigger] other.writes[i]),
        ensures
            other.wf(),
    {
        assert forall|i: int| 0 <= i < other.reads.len() implies other.read_ok(#[trigger] other.reads[i]) by {
            assert(self.read_ok(other.reads[i]));
        }
        assert forall|i: int| 0 <= i < other.writes.len() implies other.write_ok(
            #[trigger] other.writes[i],
        ) by {
            assert(self.write_ok(other.writes[i]));
        }
        assert forall|x: usize|
            other.queues.probation.contains(x) <==> (#[trigger] other.entries.dom().contains(x)
                && other.info(x).is_admitted) by {
            assert(self.entries.dom().contains(x) <==> other.entries.dom().contains(x));
        }
        assert forall|k: u64| #[trigger]
            other.cache.dom().contains(k) implies other.entries.dom().contains(other.cache[k])
            && other.info(other.cache[k]).key_hash.key == k by {
            assert(self.cache.dom().contains(k));
        }
    }

    /// A cache in which an entry was put under a key is well-formed.
    pub proof fn lemma_inserted_wf(self, e: usize, entry: EntryState<V>)
        requires
            self.wf(),
            !self.entries.dom().contains(e),
            !entry.info.is_admitted,
        ensures
            self.inserted(e, entry).wf(),
    {
        let other = self.inserted(e, entry);
        self.lemma_ops_ok(other);
        assert forall|x: usize|
            other.queues.probation.contains(x) <==> (#[trigger] other.entries.dom().contains(x)
                && other.info(x).is_admitted) by {
            assert(self.queues.probation.contains(x) <==> (self.entries.dom().contains(x)
                && self.info(x).is_admitted));
        }
        assert forall|k: u64| #[trigger]
            other.cache.dom().contains(k) implies other.entries.dom().contains(other.cache[k])
            && other.info(other.cache[k]).key_hash.key == k by {
            if k != entry.info.key_hash.key {
                assert(self.cache.dom().contains(k));
            }
        }
    }

    /// Forgetting entries that neither the hash table nor the queues have keeps a cache
    /// well-formed.
    pub proof fn lemma_collected_wf(self)
        requires
            self.wf(),
            self.reads.len() == 0,
            self.writes.len() == 0,
        ensures
            self.collected().wf(),
    {
        let other = self.collected();
        assert forall|x: usize|
            other.queues.probation.contains(x) <==> (#[trigger] other.entries.dom().contains(x)
                && other.info(x).is_admitted) by {
            assert(self.queues.probation.contains(x) <==> (self.entries.dom().contains(x)
                && self.info(x).is_admitted));
        }
        assert forall|k: u64| #[trigger]
            other.cache.dom().contains(k) implies other.entries.dom().contains(other.cache[k])
            && other.info(other.cache[k]).key_hash.key == k by {
            assert(self.cache.dom().contains(k));
            assert(self.in_cache(self.cache[k]));
        }
    }

    /// The logs stay in order when no entry goes.
    pub proof fn lemma_ops_ok(self, other: Self)
        requires
            forall|i: int| 0 <= i < self.reads.len() ==> self.read_ok(#[trigger] self.reads[i]),
            forall|i: int| 0 <= i < self.writes.len() ==> self.write_ok(#[trigger] self.writes[i]),
            self.entries.dom().subset_of(other.entries.dom()),
            other.reads == self.reads,
            other.writes == self.writes,
        ensures
            forall|i: int| 0 <= i < other.reads.len() ==> other.read_ok(#[trigger] other.reads[i]),
            forall|i: int| 0 <= i < other.writes.len() ==> other.write_ok(#[trigger] other.writes[i]),
    {
        assert forall|i: int| 0 <= i < other.reads.len() implies other.read_ok(#[trigger] other.reads[i]) by {
            assert(self.read_ok(self.reads[i]));
        }
        assert forall|i: int| 0 <= i < other.writes.len() implies other.write_ok(
            #[trigger] other.writes[i],
        ) by {
            assert(self.write_ok(self.writes[i]));
        }
    }

    pub proof fn lemma_without_key_wf(self, key: u64)
        requires
            self.wf(),
        ensures
            self.without_key(key).wf(),
    {
        let other = self.without_key(key);
        self.lemma_ops_ok(other);
        assert forall|x: usize|
            other.queues.probation.contains(x) <==> (#[trigger] other.entries.dom().contains(x)
                && other.info(x).is_admitted) by {
            assert(self.entries.dom().contains(x) <==> other.entries.dom().contains(x));
        }
        assert forall|k: u64| #[trigger]
            other.cache.dom().contains(k) implies other.entries.dom().contains(other.cache[k])
            && other.info(other.cache[k]).key_hash.key == k by {
            assert(self.cache.dom().contains(k));
        }
    }

    pub proof fn lemma_queues_wf(self, queues: Queues)
        requires
            self.wf(),
            queues.window == self.queues.window,
            queues.protected == self.queues.protected,
            same_members(queues.probation, self.queues.probation),
            same_members(queues.write_order, self.queues.write_order),
        ensures
            (CacheState { queues, ..self }).wf(),
    {
        let other = CacheState { queues, ..self };
        self.lemma_ops_ok(other);
        assert forall|x: usize|
            other.queues.probation.contains(x) <==> (#[trigger] other.entries.dom().contains(x)
                && other.info(x).is_admitted) by {
            assert(self.entries.dom().contains(x) <==> other.entries.dom().contains(x));
        }
        assert forall|x: usize| #[trigger]
            other.queues.write_order.contains(x) <==> (other.time_to_live is Some
                && other.queues.probation.contains(x)) by {
            assert(self.queues.write_order.contains(x) <==> other.queues.write_order.contains(x));
        }
        assert forall|k: u64| #[trigger]
            other.cache.dom().contains(k) implies other.entries.dom().contains(other.cache[k])
            && other.info(other.cache[k]).key_hash.key == k by {
            assert(self.cache.dom().contains(k));
        }
    }

    pub proof fn lemma_to_back_wf(self, e: usize)
        requires
            self.wf(),
        ensures
            self.to_back_ao(e).wf(),
            self.to_back_wo(e).wf(),
    {
        lemma_moved_back(self.queues.probation, e);
        lemma_moved_back(self.queues.write_order, e);
        self.lemma_queues_wf(
            Queues { probation: moved_back(self.queues.probation, e), ..self.queues },
        );
        self.lemma_queues_wf(
            Queues { write_order: moved_back(self.queues.write_order, e), ..self.queues },
        );
    }

    pub proof fn lemma_dismissed_wf(self, e: usize)
        requires
            self.wf(),
            self.entries.dom().contains(e),
        ensures
            self.dismissed(e).wf(),
            self.info(e).is_admitted ==> self.counters.entry_count > 0,
    {
        let other = self.dismissed(e);
        if self.info(e).is_admitted {
            assert(self.queues.probation.contains(e));
            lemma_unlinked(self.queues.probation, e);
            lemma_unlinked(self.queues.write_order, e);
            self.lemma_ops_ok(other);
            assert forall|x: usize|
                other.queues.probation.contains(x) <==> (#[trigger] other.entries.dom().contains(x)
                    && other.info(x).is_admitted) by {
                assert(self.entries.dom().contains(x) <==> other.entries.dom().contains(x));
            }
            assert forall|x: usize| #[trigger]
                other.queues.write_order.contains(x) <==> (other.time_to_live is Some
                    && other.queues.probation.contains(x)) by {
                assert(self.queues.write_order.contains(x) <==> (self.time_to_live is Some
                    && self.queues.probation.contains(x)));
            }
            assert forall|k: u64| #[trigger]
                other.cache.dom().contains(k) implies other.entries.dom().contains(other.cache[k])
                && other.info(other.cache[k]).key_hash.key == k by {
                assert(self.cache.dom().contains(k));
            }
        }
    }

    pub proof fn lemma_admitted_wf(self, e: usize, weight: u32)
        requires
            self.wf(),
            self.entries.dom().contains(e),
            !self.info(e).is_admitted,
            self.queues.probation.len() < u64::MAX,
        ensures
            self.admitted(e, weight).wf(),
    {
        let other = self.admitted(e, weight);
        assert(!self.queues.probation.contains(e));
        assert(!self.queues.write_order.contains(e));
        lemma_pushed(self.queues.probation, e);
        lemma_pushed(self.queues.write_order, e);
        self.lemma_ops_ok(other);
        assert forall|x: usize|
            other.queues.probation.contains(x) <==> (#[trigger] other.entries.dom().contains(x)
                && other.info(x).is_admitted) by {
            assert(self.entries.dom().contains(x) <==> other.entries.dom().contains(x));
        }
        assert forall|x: usize| #[trigger]
            other.queues.write_order.contains(x) <==> (other.time_to_live is Some
                && other.queues.probation.contains(x)) by {
            assert(self.queues.write_order.contains(x) <==> (self.time_to_live is Some
                && self.queues.probation.contains(x)));
        }
        assert forall|k: u64| #[trigger]
            other.cache.dom().contains(k) implies other.entries.dom().contains(other.cache[k])
            && other.info(other.cache[k]).key_hash.key == k by {
            assert(self.cache.dom().contains(k));
        }
    }
}

impl<V> CacheState<V> {
    /// There is an entry for each of some numbers.
    pub open spec fn all_known(self, nodes: Seq<usize>) -> bool {
        forall|i: int| 0 <= i < nodes.len() ==> self.entries.dom().contains(#[trigger] nodes[i])
    }

    /// The victims, and those that were gone, are entries of the cache.
    pub proof fn lemma_victims(self, weight: int, freq: int)
        requires
            self.wf(),
        ensures
            self.all_known(self.victims(weight, freq).nodes),
            self.all_known(self.victims(weight, freq).skipped),
    {
        self.lemma_search(
            weight,
            freq,
            0,
            Victims {
                nodes: Seq::empty(),
                policy_weight: 0,
                freq: 0,
                skipped: Seq::empty(),
                retries: 0,
            },
        );
    }

    proof fn lemma_search(self, weight: int, freq: int, i: int, v: Victims)
        requires
            self.wf(),
            self.all_known(v.nodes),
            self.all_known(v.skipped),
        ensures
            self.all_known(self.search(weight, freq, i, v).nodes),
            self.all_known(self.search(weight, freq, i, v).skipped),
        decreases self.queues.probation.len() - i,
    {
        if v.policy_weight >= weight || freq < v.freq || v.retries > MAX_CONSECUTIVE_RETRIES || !(0
            <= i < self.queues.probation.len()) {
        } else {
            let n = self.queues.probation[i];
            assert(self.queues.probation.contains(n));
            assert(self.entries.dom().contains(n));
            match self.find(self.info(n).key_hash.key) {
                Some(e) => {
                    let w = Victims {
                        nodes: v.nodes.push(n),
                        policy_weight: v.policy_weight + self.info(e).policy_weight,
                        freq: v.freq + self.sketch.frequency(self.info(n).key_hash.hash),
                        retries: 0,
                        ..v
                    };
                    assert(self.all_known(w.nodes));
                    self.lemma_search(weight, freq, i + 1, w);
                },
                None => {
                    let w = Victims { skipped: v.skipped.push(n), retries: v.retries + 1, ..v };
                    assert(self.all_known(w.skipped));
                    self.lemma_search(weight, freq, i + 1, w);
                },
            }
        }
    }

    /// Evicting victims neither adds nor forgets an entry, and admits none.
    pub proof fn lemma_evicted(self, nodes: Seq<usize>, skipped: Seq<usize>, n: int, e: usize)
        requires
            self.wf(),
            self.all_known(nodes),
            self.all_known(skipped),
            0 <= n <= nodes.len(),
            self.entries.dom().contains(e),
            !self.info(e).is_admitted,
        ensures
            self.evicted(nodes, skipped, n).0.wf(),
            self.evicted(nodes, skipped, n).0.entries.dom() == self.entries.dom(),
            self.evicted(nodes, skipped, n).0.all_known(self.evicted(nodes, skipped, n).1),
            !self.evicted(nodes, skipped, n).0.info(e).is_admitted,
        decreases n,
    {
        if n > 0 {
            self.lemma_evicted(nodes, skipped, n - 1, e);
            let (s, skipped) = self.evicted(nodes, skipped, n - 1);
            let v = nodes[n - 1];
            assert(s.entries.dom().contains(v));
            let key = s.info(v).key_hash.key;
            match s.find(key) {
                Some(x) => {
                    assert(s.cache.dom().contains(key));
                    s.lemma_without_key_wf(key);
                    s.without_key(key).lemma_dismissed_wf(x);
                    assert(s.without_key(key).dismissed(x).entries.dom() =~= s.entries.dom());
                },
                None => {},
            }
        }
    }

    /// Moving entries to the back neither adds nor forgets an entry.
    pub proof fn lemma_all_to_back(self, nodes: Seq<usize>, n: int)
        ensures
            self.all_to_back_ao(nodes, n).entries == self.entries,
            self.all_to_back_ao(nodes, n) == (CacheState {
                queues: self.all_to_back_ao(nodes, n).queues,
                ..self
            }),
        decreases n,
    {
        if n > 0 {
            self.lemma_all_to_back(nodes, n - 1);
        }
    }
}

impl<V> CacheState<V> {
    /// The logs are as they were in the other cache.
    pub open spec fn same_logs(self, other: Self) -> bool {
        self.reads == other.reads && self.writes == other.writes
    }

    /// Showing the reads to the policies empties the log of reads.
    pub proof fn lemma_reads_applied(self, n: nat)
        ensures
            self.reads_applied(n).writes == self.writes,
            n == self.reads.len() ==> self.reads_applied(n).reads.len() == 0,
        decreases n,
    {
        if n > 0 && self.reads.len() > 0 {
            self.read_applied().lemma_reads_applied((n - 1) as nat);
        }
    }

    proof fn lemma_evicted_logs(self, nodes: Seq<usize>, skipped: Seq<usize>, n: int)
        ensures
            self.evicted(nodes, skipped, n).0.same_logs(self),
        decreases n,
    {
        if n > 0 {
            self.lemma_evicted_logs(nodes, skipped, n - 1);
        }
    }

    /// Showing a write to the policies changes no log.
    pub proof fn lemma_upserted_logs(
        self,
        key: u64,
        hash: u64,
        e: usize,
        old_weight: u32,
        new_weight: u32,
    )
        ensures
            self.upserted(key, hash, e, old_weight, new_weight).same_logs(self),
    {
        let freq = self.sketch.frequency(hash) as int;
        let v = self.victims(new_weight as int, freq);
        self.lemma_evicted_logs(v.nodes, v.skipped, v.nodes.len() as int);
        let (s1, skipped) = self.evicted(v.nodes, v.skipped, v.nodes.len() as int);
        s1.admitted(e, new_weight).lemma_all_to_back(skipped, skipped.len() as int);
        self.without_key(key).lemma_all_to_back(v.skipped, v.skipped.len() as int);
    }

    /// Showing the writes to the policies empties the log of writes.
    pub proof fn lemma_writes_applied(self, n: nat)
        ensures
            self.writes_applied(n).reads == self.reads,
            n == self.writes.len() ==> self.writes_applied(n).writes.len() == 0,
        decreases n,
    {
        if n > 0 && self.writes.len() > 0 {
            let s = CacheState { writes: self.writes.remove(0), ..self };
            match self.writes[0] {
                WriteOp::Upsert { key, hash, entry, old_weight, new_weight } => {
                    s.lemma_upserted_logs(key, hash, entry, old_weight, new_weight);
                },
                WriteOp::Remove { key, entry } => {},
            }
            self.write_applied().lemma_writes_applied((n - 1) as nat);
        }
    }

    proof fn lemma_expired_ao_removed(self, region: CacheRegion, n: nat, now: Instant)
        ensures
            self.expired_ao_removed(region, n, now).same_logs(self),
        decreases n,
    {
        let queue = self.queues.access_order(region);
        if n == 0 || queue.len() == 0 || !self.expired_ao(queue[0], now) {
        } else {
            let key = self.info(queue[0]).key_hash.key;
            match self.find(key) {
                Some(e) if self.expired_ao(e, now) => {
                    self.without_key(key).dismissed(e).lemma_expired_ao_removed(
                        region,
                        (n - 1) as nat,
                        now,
                    );
                },
                _ => {
                    let (s, skipped) = self.skipped_updated(key, region);
                    if skipped {
                        s.lemma_expired_ao_removed(region, (n - 1) as nat, now);
                    }
                },
            }
        }
    }

    proof fn lemma_expired_wo_removed(self, n: nat, now: Instant)
        ensures
            self.expired_wo_removed(n, now).same_logs(self),
        decreases n,
    {
        let queue = self.queues.write_order;
        if n == 0 || queue.len() == 0 || !self.expired_wo(queue[0], now) {
        } else {
            let key = self.info(queue[0]).key_hash.key;
            match self.find(key) {
                Some(e) => {
                    if self.expired_wo(e, now) {
                        self.without_key(key).dismissed(e).lemma_expired_wo_removed((n - 1) as nat, now);
                    } else if self.info(e).last_modified@ is None {
                        self.to_back_ao(e).to_back_wo(e).lemma_expired_wo_removed((n - 1) as nat, now);
                    }
                },
                None => {
                    self.to_back_wo(queue[0]).lemma_expired_wo_removed((n - 1) as nat, now);
                },
            }
        }
    }

    /// Removing expired entries changes no log.
    pub proof fn lemma_expired_removed(self, n: nat, now: Instant)
        ensures
            self.expired_removed(n, now).same_logs(self),
    {
        let s = if self.time_to_live is Some {
            self.lemma_expired_wo_removed(n, now);
            self.expired_wo_removed(n, now)
        } else {
            self
        };
        s.lemma_expired_ao_removed(CacheRegion::Window, n, now);
        let s1 = s.expired_ao_removed(CacheRegion::Window, n, now);
        s1.lemma_expired_ao_removed(CacheRegion::MainProbation, n, now);
        let s2 = s1.expired_ao_removed(CacheRegion::MainProbation, n, now);
        s2.lemma_expired_ao_removed(CacheRegion::MainProtected, n, now);
    }

    /// Evicting entries changes no log.
    pub proof fn lemma_lru_evicted(self, n: nat, to_evict: u64, evicted: u64)
        ensures
            self.lru_evicted(n, to_evict, evicted).same_logs(self),
        decreases n,
    {
        let queue = self.queues.probation;
        if n == 0 || evicted >= to_evict || queue.len() == 0 {
        } else {
            let front = self.info(queue[0]);
            let key = front.key_hash.key;
            match self.find(key) {
                Some(e) if front.last_modified@ is Some && self.info(e).last_modified@
                    == front.last_modified@ => {
                    self.without_key(key).dismissed(e).lemma_lru_evicted(
                        (n - 1) as nat,
                        to_evict,
                        sat_add(evicted, self.info(e).policy_weight as int),
                    );
                },
                _ => {
                    let (s, skipped) = self.skipped_updated(key, CacheRegion::MainProbation);
                    if skipped {
                        s.lemma_lru_evicted((n - 1) as nat, to_evict, evicted);
                    }
                },
            }
        }
    }
}

impl<V> CacheState<V> {
    /// The two caches have the same settings.
    pub open spec fn same_settings(self, other: Self) -> bool {
        &&& self.max_capacity == other.max_capacity
        &&& self.time_to_live == other.time_to_live
        &&& self.time_to_idle == other.time_to_idle
        &&& self.valid_after == other.valid_after
        &&& self.has_weigher == other.has_weigher
    }

    /// The cache has no key that the other has not.
    pub open spec fn no_new_keys(self, other: Self) -> bool {
        self.cache.dom().subset_of(other.cache.dom())
    }

    proof fn lemma_reads_settings(self, n: nat)
        ensures
            self.reads_applied(n).same_settings(self),
            self.reads_applied(n).no_new_keys(self),
        decreases n,
    {
        if n > 0 && self.reads.len() > 0 {
            self.read_applied().lemma_reads_settings((n - 1) as nat);
        }
    }

    proof fn lemma_evicted_settings(self, nodes: Seq<usize>, skipped: Seq<usize>, n: int)
        ensures
            self.evicted(nodes, skipped, n).0.same_settings(self),
            self.evicted(nodes, skipped, n).0.no_new_keys(self),
        decreases n,
    {
        if n > 0 {
            self.lemma_evicted_settings(nodes, skipped, n - 1);
        }
    }

    proof fn lemma_upserted_settings(
        self,
        key: u64,
        hash: u64,
        e: usize,
        old_weight: u32,
        new_weight: u32,
    )
        ensures
            self.upserted(key, hash, e, old_weight, new_weight).same_settings(self),
            self.upserted(key, hash, e, old_weight, new_weight).no_new_keys(self),
    {
        let freq = self.sketch.frequency(hash) as int;
        let v = self.victims(new_weight as int, freq);
        self.lemma_evicted_settings(v.nodes, v.skipped, v.nodes.len() as int);
        let (s1, skipped) = self.evicted(v.nodes, v.skipped, v.nodes.len() as int);
        s1.admitted(e, new_weight).lemma_all_to_back(skipped, skipped.len() as int);
        self.without_key(key).lemma_all_to_back(v.skipped, v.skipped.len() as int);
    }

    proof fn lemma_writes_settings(self, n: nat)
        ensures
            self.writes_applied(n).same_settings(self),
            self.writes_applied(n).no_new_keys(self),
        decreases n,
    {
        if n > 0 && self.writes.len() > 0 {
            let s = CacheState { writes: self.writes.remove(0), ..self };
            match self.writes[0] {
                WriteOp::Upsert { key, hash, entry, old_weight, new_weight } => {
                    s.lemma_upserted_settings(key, hash, entry, old_weight, new_weight);
                },
                WriteOp::Remove { key, entry } => {},
            }
            self.write_applied().lemma_writes_settings((n - 1) as nat);
        }
    }

    proof fn lemma_expired_ao_settings(self, region: CacheRegion, n: nat, now: Instant)
        ensures
            self.expired_ao_removed(region, n, now).same_settings(self),
            self.expired_ao_removed(region, n, now).no_new_keys(self),
        decreases n,
    {
        let queue = self.queues.access_order(region);
        if n == 0 || queue.len() == 0 || !self.expired_ao(queue[0], now) {
        } else {
            let key = self.info(queue[0]).key_hash.key;
            match self.find(key) {
                Some(e) if self.expired_ao(e, now) => {
                    self.without_key(key).dismissed(e).lemma_expired_ao_settings(
                        region,
                        (n - 1) as nat,
                        now,
                    );
                },
                _ => {
                    let (s, skipped) = self.skipped_updated(key, region);
                    if skipped {
                        s.lemma_expired_ao_settings(region, (n - 1) as nat, now);
                    }
                },
            }
        }
    }

    proof fn lemma_expired_wo_settings(self, n: nat, now: Instant)
        ensures
            self.expired_wo_removed(n, now).same_settings(self),
            self.expired_wo_removed(n, now).no_new_keys(self),
        decreases n,
    {
        let queue = self.queues.write_order;
        if n == 0 || queue.len() == 0 || !self.expired_wo(queue[0], now) {
        } else {
            let key = self.info(queue[0]).key_hash.key;
            match self.find(key) {
                Some(e) => {
                    if self.expired_wo(e, now) {
                        self.without_key(key).dismissed(e).lemma_expired_wo_settings((n - 1) as nat, now);
                    } else if self.info(e).last_modified@ is None {
                        self.to_back_ao(e).to_back_wo(e).lemma_expired_wo_settings((n - 1) as nat, now);
                    }
                },
                None => {
                    self.to_back_wo(queue[0]).lemma_expired_wo_settings((n - 1) as nat, now);
                },
            }
        }
    }

    pub proof fn lemma_lru_settings(self, n: nat, to_evict: u64, evicted: u64)
        ensures
            self.lru_evicted(n, to_evict, evicted).same_settings(self),
            self.lru_evicted(n, to_evict, evicted).no_new_keys(self),
        decreases n,
    {
        let queue = self.queues.probation;
        if n == 0 || evicted >= to_evict || queue.len() == 0 {
        } else {
            let front = self.info(queue[0]);
            let key = front.key_hash.key;
            match self.find(key) {
                Some(e) if front.last_modified@ is Some && self.info(e).last_modified@
                    == front.last_modified@ => {
                    self.without_key(key).dismissed(e).lemma_lru_settings(
                        (n - 1) as nat,
                        to_evict,
                        sat_add(evicted, self.info(e).policy_weight as int),
                    );
                },
                _ => {
                    let (s, skipped) = self.skipped_updated(key, CacheRegion::MainProbation);
                    if skipped {
                        s.lemma_lru_settings((n - 1) as nat, to_evict, evicted);
                    }
                },
            }
        }
    }

    /// Housekeeping does not change the settings of a cache, and gives it no new key.
    pub proof fn lemma_synced_settings(self, now: Instant)
        ensures
            self.synced(now).same_settings(self),
            self.synced(now).no_new_keys(self),
    {
        reveal(CacheState::synced);
        let n = EVICTION_BATCH_SIZE as nat;
        self.lemma_reads_settings(self.reads.len());
        let s1 = self.reads_applied(self.reads.len());
        s1.lemma_writes_settings(s1.writes.len());
        let s2 = self.logs_applied();
        let s3 = if s2.time_to_live is Some {
            s2.lemma_expired_wo_settings(n, now);
            s2.expired_wo_removed(n, now)
        } else {
            s2
        };
        s3.lemma_expired_ao_settings(CacheRegion::Window, n, now);
        let s4 = s3.expired_ao_removed(CacheRegion::Window, n, now);
        s4.lemma_expired_ao_settings(CacheRegion::MainProbation, n, now);
        let s5 = s4.expired_ao_removed(CacheRegion::MainProbation, n, now);
        s5.lemma_expired_ao_settings(CacheRegion::MainProtected, n, now);
        let s6 = if s2.time_to_live is Some || s2.time_to_idle is Some || s2.valid_after is Some {
            s2.expired_removed(n, now)
        } else {
            s2
        };
        s6.lemma_lru_settings(n, s6.overweight(), 0);
    }

    /// Neither does making room.
    pub proof fn lemma_with_room_settings(self, now: Instant)
        ensures
            self.with_room(now).same_settings(self),
            self.with_room(now).no_new_keys(self),
    {
        self.lemma_synced_settings(now);
    }
}

/// A cache that is full to one over a power of two gets a sketch for as many of its entries, rounded down:
/// for all of them if it is full, and for half of them if it is half full. An empty cache gets one for none.
pub proof fn sketch_is_scaled_by_fullness(entry_count: u64, weighted_size: u64, max_capacity: u64, k: nat)
    requires
        entry_count < 0x20_0000_0000_0000,
    ensures
        weighted_size > 0 && max_capacity == weighted_size * pow2(k) ==> weighed_capacity(
            entry_count,
            weighted_size,
            max_capacity,
        ) as nat == entry_count as nat / pow2(k),
        weighted_size > 0 && max_capacity == weighted_size ==> weighed_capacity(
            entry_count,
            weighted_size,
            max_capacity,
        ) == entry_count,
        entry_count > 0 && weighted_size > 0 ==> weighed_capacity(entry_count, weighted_size, 0) == u64::MAX,
        weighed_capacity(0, weighted_size, 0) == 0,
        weighed_capacity(entry_count, 0, 0) == 0,
{
    lemma2_to64();
    if weighted_size > 0 && max_capacity == weighted_size * pow2(k) {
        lemma_pow2_pos(k);
        powers_of_two_scale_exactly(entry_count as nat, weighted_size as nat, k);
        assert(max_capacity > 0) by (nonlinear_arith)
            requires
                max_capacity == weighted_size * pow2(k),
                weighted_size > 0,
                pow2(k) > 0,
        ;
        assert(entry_count as nat / pow2(k) <= entry_count) by (nonlinear_arith)
            requires
                pow2(k) > 0,
                entry_count >= 0,
        ;
    }
    if weighted_size > 0 && max_capacity == weighted_size {
        powers_of_two_scale_exactly(entry_count as nat, weighted_size as nat, 0);
        assert(weighted_size * pow2(0) == weighted_size);
        assert(entry_count as nat / pow2(0) == entry_count);
    }
}

} // verus!
