//! Counters that keep statistics of a cache.
use vstd::prelude::*;

use super::cache_stats::{CacheStats, DetailedCacheStats};
use crate::common::concurrent::admission::sat_add;
use crate::notification::RemovalCause;

verus! {

/// Adds to a count, which does not exceed the largest `u64`.
pub fn saturating_add(counter: &mut u64, value: u64)
    ensures
        *final(counter) == sat_add(*old(counter), value as int),
{
    *counter = counter.saturating_add(value);
}

/// What happens in a cache.
#[derive(Clone, Copy, Debug, PartialEq, Eq, Structural)]
pub enum CacheEvent {
    /// So many reads found values.
    Hits(u32),
    /// So many reads found no values.
    Misses(u32),
    /// So many entries were inserted.
    Insertions(u32),
    /// A value was computed, which took so many nanoseconds.
    LoadSuccess(u64),
    /// A computation failed, after so many nanoseconds.
    LoadFailure(u64),
    /// An entry of this weight was removed.
    Eviction(u32, RemovalCause),
    /// A read was not logged.
    ReadDrop,
    /// A write had to wait for so many nanoseconds.
    WriteWait(u64),
}

/// Counts what happens in a cache.
pub trait StatsCounter: Sized {
    type Stats;

    /// What was counted.
    spec fn stats(&self) -> Self::Stats;

    /// The parts of the counter agree with each other.
    spec fn in_order(&self) -> bool;

    /// The counter is the one before it, after an event.
    spec fn is_after(&self, before: &Self, event: CacheEvent) -> bool;

    /// Whether the counter wants to know how long computations take.
    spec fn wants_load_time(&self) -> bool;

    /// Whether the counter wants to know how long computations take.
    fn is_load_time_supported(&self) -> (r: bool)
        requires
            self.in_order(),
        ensures
            r == self.wants_load_time(),
    ;

    /// Whether the counter wants to know of evictions.
    spec fn wants_evictions(&self) -> bool;

    /// Whether the counter wants to know of evictions.
    fn is_recording_evictions_supported(&self) -> (r: bool)
        requires
            self.in_order(),
        ensures
            r == self.wants_evictions(),
    ;

    /// Whether the counter wants to know how long writes wait.
    spec fn wants_write_wait_time(&self) -> bool;

    /// Whether the counter wants to know how long writes wait.
    fn is_write_wait_time_supported(&self) -> (r: bool)
        requires
            self.in_order(),
        ensures
            r == self.wants_write_wait_time(),
    ;

    /// Reads found values.
    fn record_hits(&mut self, count: u32)
        requires
            old(self).in_order(),
        ensures
            final(self).in_order(),
            final(self).is_after(old(self), CacheEvent::Hits(count)),
    ;

    /// Reads found no values.
    fn record_misses(&mut self, count: u32)
        requires
            old(self).in_order(),
        ensures
            final(self).in_order(),
            final(self).is_after(old(self), CacheEvent::Misses(count)),
    ;

    /// Entries were inserted.
    fn record_insertions(&mut self, count: u32)
        requires
            old(self).in_order(),
        ensures
            final(self).in_order(),
            final(self).is_after(old(self), CacheEvent::Insertions(count)),
    ;

    /// A value was computed, which took this long.
    fn record_load_success(&mut self, load_time_nanos: u64)
        requires
            old(self).in_order(),
        ensures
            final(self).in_order(),
            final(self).is_after(old(self), CacheEvent::LoadSuccess(load_time_nanos)),
    ;

    /// A computation failed, after this long.
    fn record_load_failure(&mut self, load_time_nanos: u64)
        requires
            old(self).in_order(),
        ensures
            final(self).in_order(),
            final(self).is_after(old(self), CacheEvent::LoadFailure(load_time_nanos)),
    ;

    /// An entry of this weight was removed.
    fn record_eviction(&mut self, weight: u32, cause: RemovalCause)
        requires
            old(self).in_order(),
        ensures
            final(self).in_order(),
            final(self).is_after(old(self), CacheEvent::Eviction(weight, cause)),
    ;

    /// A read was not logged.
    fn record_read_drop(&mut self)
        requires
            old(self).in_order(),
        ensures
            final(self).in_order(),
            final(self).is_after(old(self), CacheEvent::ReadDrop),
    ;

    /// A write had to wait this long.
    fn record_write_wait(&mut self, write_time_nanos: u64)
        requires
            old(self).in_order(),
        ensures
            final(self).in_order(),
            final(self).is_after(old(self), CacheEvent::WriteWait(write_time_nanos)),
    ;

    /// What was counted so far.
    fn snapshot(&self) -> (r: Self::Stats)
        requires
            self.in_order(),
        ensures
            r == self.stats(),
    ;
}

/// A counter that counts nothing.
#[derive(Clone, Copy, Debug, PartialEq, Eq, Structural)]
pub struct DisabledStatsCounter;

impl StatsCounter for DisabledStatsCounter {
    type Stats = CacheStats;

    open spec fn stats(&self) -> CacheStats {
        CacheStats::zero()
    }

    open spec fn in_order(&self) -> bool {
        true
    }

    open spec fn is_after(&self, before: &Self, event: CacheEvent) -> bool {
        *self == *before
    }

    open spec fn wants_load_time(&self) -> bool {
        false
    }

    fn is_load_time_supported(&self) -> (r: bool) {
        false
    }

    open spec fn wants_evictions(&self) -> bool {
        false
    }

    fn is_recording_evictions_supported(&self) -> (r: bool) {
        false
    }

    open spec fn wants_write_wait_time(&self) -> bool {
        false
    }

    fn is_write_wait_time_supported(&self) -> (r: bool) {
        false
    }

    fn record_hits(&mut self, count: u32) {
    }

    fn record_misses(&mut self, count: u32) {
    }

    fn record_insertions(&mut self, count: u32) {
    }

    fn record_load_success(&mut self, load_time_nanos: u64) {
    }

    fn record_load_failure(&mut self, load_time_nanos: u64) {
    }

    fn record_eviction(&mut self, weight: u32, cause: RemovalCause) {
    }

    fn record_read_drop(&mut self) {
    }

    fn record_write_wait(&mut self, write_time_nanos: u64) {
    }

    fn snapshot(&self) -> (r: CacheStats) {
        CacheStats::default()
    }
}

impl Default for DisabledStatsCounter {
    fn default() -> (r: Self) {
        DisabledStatsCounter
    }
}

/// The statistics after a removal: only what the cache itself removed is counted.
pub open spec fn after_eviction(s: CacheStats, weight: u32, cause: RemovalCause) -> CacheStats {
    match cause {
        RemovalCause::Size => CacheStats {
            eviction_by_size_count: sat_add(s.eviction_by_size_count, 1),
            eviction_by_size_weight: sat_add(s.eviction_by_size_weight, weight as int),
            ..s
        },
        RemovalCause::Expired => CacheStats {
            eviction_by_expiration_count: sat_add(s.eviction_by_expiration_count, 1),
            eviction_by_expiration_weight: sat_add(s.eviction_by_expiration_weight, weight as int),
            ..s
        },
        _ => s,
    }
}

/// The statistics after an event. Insertions, reads that were not logged and writes that had to
/// wait are not counted.
pub open spec fn after_event(s: CacheStats, event: CacheEvent) -> CacheStats {
    match event {
        CacheEvent::Hits(count) => CacheStats {
            hit_count: sat_add(s.hit_count, count as int),
            ..s
        },
        CacheEvent::Misses(count) => CacheStats {
            miss_count: sat_add(s.miss_count, count as int),
            ..s
        },
        CacheEvent::LoadSuccess(nanos) => CacheStats {
            load_success_count: sat_add(s.load_success_count, 1),
            total_load_time_nanos: sat_add(s.total_load_time_nanos, nanos as int),
            ..s
        },
        CacheEvent::LoadFailure(nanos) => CacheStats {
            load_failure_count: sat_add(s.load_failure_count, 1),
            total_load_time_nanos: sat_add(s.total_load_time_nanos, nanos as int),
            ..s
        },
        CacheEvent::Eviction(weight, cause) => after_eviction(s, weight, cause),
        _ => s,
    }
}

/// The statistics after an event. Insertions are not counted.
pub open spec fn after_any_event(s: CacheStats, event: CacheEvent) -> CacheStats {
    match event {
        CacheEvent::ReadDrop => CacheStats { read_drop_count: sat_add(s.read_drop_count, 1), ..s },
        CacheEvent::WriteWait(nanos) => CacheStats {
            write_wait_count: sat_add(s.write_wait_count, 1),
            total_write_wait_time_nanos: sat_add(s.total_write_wait_time_nanos, nanos as int),
            ..s
        },
        _ => after_event(s, event),
    }
}

/// A counter of reads, computations and evictions.
#[derive(Clone, Copy, Debug, PartialEq, Eq, Structural)]
pub struct DefaultStatsCounter {
    pub counts: CacheStats,
}

impl Default for DefaultStatsCounter {
    fn default() -> (r: Self)
        ensures
            r.counts == CacheStats::zero(),
    {
        DefaultStatsCounter { counts: CacheStats::default() }
    }
}

impl DefaultStatsCounter {
    /// A counter in `num_counters` parts.
    pub fn striped(num_counters: usize) -> (r: StripedStatsCounter<Self>)
        requires
            0 < num_counters,
        ensures
            r.wf(),
            r.counters@.len() == num_counters,
            forall|i: int| 0 <= i < num_counters ==> (#[trigger] r.counters@[i]).counts == CacheStats::zero(),
    {
        let f = || -> (c: DefaultStatsCounter)
            ensures
                c.counts == CacheStats::zero(),
            { DefaultStatsCounter::default() };
        StripedStatsCounter::new_with(num_counters, f)
    }
}

impl StatsCounter for DefaultStatsCounter {
    type Stats = CacheStats;

    open spec fn stats(&self) -> CacheStats {
        self.counts
    }

    open spec fn in_order(&self) -> bool {
        true
    }

    open spec fn is_after(&self, before: &Self, event: CacheEvent) -> bool {
        self.counts == after_event(before.counts, event)
    }

    open spec fn wants_load_time(&self) -> bool {
        true
    }

    fn is_load_time_supported(&self) -> (r: bool) {
        true
    }

    open spec fn wants_evictions(&self) -> bool {
        true
    }

    fn is_recording_evictions_supported(&self) -> (r: bool) {
        true
    }

    open spec fn wants_write_wait_time(&self) -> bool {
        false
    }

    fn is_write_wait_time_supported(&self) -> (r: bool) {
        false
    }

    fn record_hits(&mut self, count: u32) {
        saturating_add(&mut self.counts.hit_count, count as u64);
    }

    fn record_misses(&mut self, count: u32) {
        saturating_add(&mut self.counts.miss_count, count as u64);
    }

    fn record_insertions(&mut self, count: u32) {
    }

    fn record_load_success(&mut self, load_time_nanos: u64) {
        saturating_add(&mut self.counts.load_success_count, 1);
        saturating_add(&mut self.counts.total_load_time_nanos, load_time_nanos);
    }

    fn record_load_failure(&mut self, load_time_nanos: u64) {
        saturating_add(&mut self.counts.load_failure_count, 1);
        saturating_add(&mut self.counts.total_load_time_nanos, load_time_nanos);
    }

    fn record_eviction(&mut self, weight: u32, cause: RemovalCause) {
        match cause {
            RemovalCause::Size => {
                saturating_add(&mut self.counts.eviction_by_size_count, 1);
                saturating_add(&mut self.counts.eviction_by_size_weight, weight as u64);
            },
            RemovalCause::Expired => {
                saturating_add(&mut self.counts.eviction_by_expiration_count, 1);
                saturating_add(&mut self.counts.eviction_by_expiration_weight, weight as u64);
            },
            _ => {},
        }
    }

    fn record_read_drop(&mut self) {
    }

    fn record_write_wait(&mut self, write_time_nanos: u64) {
    }

    fn snapshot(&self) -> (r: CacheStats) {
        self.counts
    }
}

/// A counter of reads, computations, evictions, reads that were not logged and writes that had
/// to wait.
#[derive(Clone, Copy, Debug, PartialEq, Eq, Structural)]
pub struct ConcurrentStatsCounter {
    pub counts: CacheStats,
}

impl Default for ConcurrentStatsCounter {
    fn default() -> (r: Self)
        ensures
            r.counts == CacheStats::zero(),
    {
        ConcurrentStatsCounter { counts: CacheStats::default() }
    }
}

impl StatsCounter for ConcurrentStatsCounter {
    type Stats = CacheStats;

    open spec fn stats(&self) -> CacheStats {
        self.counts
    }

    open spec fn in_order(&self) -> bool {
        true
    }

    open spec fn is_after(&self, before: &Self, event: CacheEvent) -> bool {
        self.counts == after_any_event(before.counts, event)
    }

    open spec fn wants_load_time(&self) -> bool {
        true
    }

    fn is_load_time_supported(&self) -> (r: bool) {
        true
    }

    open spec fn wants_evictions(&self) -> bool {
        true
    }

    fn is_recording_evictions_supported(&self) -> (r: bool) {
        true
    }

    open spec fn wants_write_wait_time(&self) -> bool {
        false
    }

    fn is_write_wait_time_supported(&self) -> (r: bool) {
        false
    }

    fn record_hits(&mut self, count: u32) {
        saturating_add(&mut self.counts.hit_count, count as u64);
    }

    fn record_misses(&mut self, count: u32) {
        saturating_add(&mut self.counts.miss_count, count as u64);
    }

    fn record_insertions(&mut self, count: u32) {
    }

    fn record_load_success(&mut self, load_time_nanos: u64) {
        saturating_add(&mut self.counts.load_success_count, 1);
        saturating_add(&mut self.counts.total_load_time_nanos, load_time_nanos);
    }

    fn record_load_failure(&mut self, load_time_nanos: u64) {
        saturating_add(&mut self.counts.load_failure_count, 1);
        saturating_add(&mut self.counts.total_load_time_nanos, load_time_nanos);
    }

    fn record_eviction(&mut self, weight: u32, cause: RemovalCause) {
        match cause {
            RemovalCause::Size => {
                saturating_add(&mut self.counts.eviction_by_size_count, 1);
                saturating_add(&mut self.counts.eviction_by_size_weight, weight as u64);
            },
            RemovalCause::Expired => {
                saturating_add(&mut self.counts.eviction_by_expiration_count, 1);
                saturating_add(&mut self.counts.eviction_by_expiration_weight, weight as u64);
            },
            _ => {},
        }
    }

    fn record_read_drop(&mut self) {
        saturating_add(&mut self.counts.read_drop_count, 1);
    }

    fn record_write_wait(&mut self, write_time_nanos: u64) {
        saturating_add(&mut self.counts.write_wait_count, 1);
        saturating_add(&mut self.counts.total_write_wait_time_nanos, write_time_nanos);
    }

    fn snapshot(&self) -> (r: CacheStats) {
        self.counts
    }
}

/// A counter of everything.
#[derive(Clone, Copy, Debug, PartialEq, Eq, Structural)]
pub struct DetailedStatsCounter {
    pub base: DefaultStatsCounter,
    pub insertion_count: u64,
    pub invalidation_count: u64,
    pub read_drop_count: u64,
    pub write_wait_count: u64,
    pub total_write_wait_time_nanos: u64,
}

impl DetailedStatsCounter {
    /// Nothing was counted.
    pub open spec fn zero() -> Self {
        DetailedStatsCounter {
            base: DefaultStatsCounter { counts: CacheStats::zero() },
            insertion_count: 0,
            invalidation_count: 0,
            read_drop_count: 0,
            write_wait_count: 0,
            total_write_wait_time_nanos: 0,
        }
    }

    /// The counter after an event.
    pub open spec fn counted(self, event: CacheEvent) -> Self {
        match event {
            CacheEvent::Insertions(count) => DetailedStatsCounter {
                insertion_count: sat_add(self.insertion_count, count as int),
                ..self
            },
            CacheEvent::Eviction(weight, RemovalCause::Explicit) => DetailedStatsCounter {
                invalidation_count: sat_add(self.invalidation_count, 1),
                ..self
            },
            CacheEvent::ReadDrop => DetailedStatsCounter {
                read_drop_count: sat_add(self.read_drop_count, 1),
                ..self
            },
            CacheEvent::WriteWait(nanos) => DetailedStatsCounter {
                write_wait_count: sat_add(self.write_wait_count, 1),
                total_write_wait_time_nanos: sat_add(self.total_write_wait_time_nanos, nanos as int),
                ..self
            },
            _ => DetailedStatsCounter {
                base: DefaultStatsCounter { counts: after_event(self.base.counts, event) },
                ..self
            },
        }
    }

    /// A counter in `num_counters` parts.
    pub fn striped(num_counters: usize) -> (r: StripedStatsCounter<Self>)
        requires
            0 < num_counters,
        ensures
            r.wf(),
            r.counters@.len() == num_counters,
            forall|i: int| 0 <= i < num_counters ==> #[trigger] r.counters@[i] == DetailedStatsCounter::zero(),
    {
        let f = || -> (c: DetailedStatsCounter)
            ensures
                c == DetailedStatsCounter::zero(),
            { DetailedStatsCounter::default() };
        StripedStatsCounter::new_with(num_counters, f)
    }
}

impl Default for DetailedStatsCounter {
    fn default() -> (r: Self)
        ensures
            r == DetailedStatsCounter::zero(),
    {
        DetailedStatsCounter {
            base: DefaultStatsCounter::default(),
            insertion_count: 0,
            invalidation_count: 0,
            read_drop_count: 0,
            write_wait_count: 0,
            total_write_wait_time_nanos: 0,
        }
    }
}

impl StatsCounter for DetailedStatsCounter {
    type Stats = DetailedCacheStats;

    open spec fn stats(&self) -> DetailedCacheStats {
        DetailedCacheStats {
            base: self.base.counts,
            insertion_count: self.insertion_count,
            invalidation_count: self.invalidation_count,
            read_drop_count: self.read_drop_count,
            write_wait_count: self.write_wait_count,
            total_write_wait_time_nanos: self.total_write_wait_time_nanos,
        }
    }

    open spec fn in_order(&self) -> bool {
        true
    }

    open spec fn is_after(&self, before: &Self, event: CacheEvent) -> bool {
        *self == before.counted(event)
    }

    open spec fn wants_load_time(&self) -> bool {
        true
    }

    fn is_load_time_supported(&self) -> (r: bool) {
        true
    }

    open spec fn wants_evictions(&self) -> bool {
        true
    }

    fn is_recording_evictions_supported(&self) -> (r: bool) {
        true
    }

    open spec fn wants_write_wait_time(&self) -> bool {
        true
    }

    fn is_write_wait_time_supported(&self) -> (r: bool) {
        true
    }

    fn record_hits(&mut self, count: u32) {
        self.base.record_hits(count);
    }

    fn record_misses(&mut self, count: u32) {
        self.base.record_misses(count);
    }

    fn record_insertions(&mut self, count: u32) {
        saturating_add(&mut self.insertion_count, count as u64);
    }

    fn record_load_success(&mut self, load_time_nanos: u64) {
        self.base.record_load_success(load_time_nanos);
    }

    fn record_load_failure(&mut self, load_time_nanos: u64) {
        self.base.record_load_failure(load_time_nanos);
    }

    fn record_eviction(&mut self, weight: u32, cause: RemovalCause) {
        if cause == RemovalCause::Explicit {
            saturating_add(&mut self.invalidation_count, 1);
        } else {
            self.base.record_eviction(weight, cause);
        }
    }

    fn record_read_drop(&mut self) {
        saturating_add(&mut self.read_drop_count, 1);
    }

    fn record_write_wait(&mut self, write_time_nanos: u64) {
        saturating_add(&mut self.write_wait_count, 1);
        saturating_add(&mut self.total_write_wait_time_nanos, write_time_nanos);
    }

    fn snapshot(&self) -> (r: DetailedCacheStats) {
        let mut stats = DetailedCacheStats::from(self.base.snapshot());
        stats.set_insertion_and_invalidation_counts(self.insertion_count, self.invalidation_count);
        stats.set_read_drop_count(self.read_drop_count);
        stats.set_write_wait_count(self.write_wait_count, self.total_write_wait_time_nanos);
        stats
    }
}

/// Statistics that can be summed up.
pub trait Summable: Sized {
    spec fn sum_of(a: Self, b: Self) -> Self;

    fn sum(a: &Self, b: &Self) -> (r: Self)
        ensures
            r == Self::sum_of(*a, *b),
    ;
}

impl Summable for CacheStats {
    open spec fn sum_of(a: Self, b: Self) -> Self {
        a.plus(b)
    }

    fn sum(a: &Self, b: &Self) -> (r: Self) {
        a.sum(b)
    }
}

impl Summable for DetailedCacheStats {
    open spec fn sum_of(a: Self, b: Self) -> Self {
        a.plus(b)
    }

    fn sum(a: &Self, b: &Self) -> (r: Self) {
        a.sum(b)
    }
}

/// The sum of what the first `n` of some counters have counted.
pub open spec fn total<C: StatsCounter>(counters: Seq<C>, n: int) -> C::Stats where C::Stats: Summable
    decreases n,
{
    if n <= 1 {
        counters[0].stats()
    } else {
        <C::Stats as Summable>::sum_of(total(counters, n - 1), counters[n - 1].stats())
    }
}

/// A counter in parts, so that those who count do not get into each other's way. Each counts in
/// a part of its own.
pub struct StripedStatsCounter<C> {
    pub counters: Vec<C>,
    /// The part of the one who counts.
    pub index: usize,
}

impl<C> StripedStatsCounter<C> {
    pub open spec fn wf(&self) -> bool {
        self.index < self.counters@.len()
    }

    /// Only the part of the one who counts differs.
    pub open spec fn same_but_own(&self, before: &Self) -> bool {
        &&& self.index == before.index
        &&& self.counters@ == before.counters@.update(
            before.index as int,
            self.counters@[before.index as int],
        )
    }

    /// A counter in `num_counters` parts, each made by `f`.
    pub fn new_with<F: Fn() -> C>(num_counters: usize, f: F) -> (r: Self)
        requires
            0 < num_counters,
            f.requires(()),
        ensures
            r.wf(),
            r.index == 0,
            r.counters@.len() == num_counters,
            forall|i: int| 0 <= i < num_counters ==> f.ensures((), #[trigger] r.counters@[i]),
    {
        let mut counters: Vec<C> = Vec::new();
        let mut i: usize = 0;
        while i < num_counters
            invariant
                i <= num_counters,
                f.requires(()),
                counters@.len() == i,
                forall|j: int| 0 <= j < i ==> f.ensures((), #[trigger] counters@[j]),
            decreases num_counters - i,
        {
            counters.push(f());
            i = i + 1;
        }
        StripedStatsCounter { counters, index: 0 }
    }

    /// Says who counts from now on.
    pub fn set_index(&mut self, index: usize)
        requires
            index < old(self).counters@.len(),
        ensures
            final(self).wf(),
            final(self).counters@ == old(self).counters@,
            final(self).index == index,
    {
        self.index = index;
    }
}

/// The part for the next one who comes to count: the parts are given out in turn.
pub fn next_index(current: &mut usize, num_counters: usize) -> (r: usize)
    requires
        *old(current) < num_counters,
    ensures
        r == *old(current),
        *final(current) as int == (*old(current) + 1) % num_counters as int,
{
    let i0: usize = *current;
    *current = (i0 + 1) % num_counters;
    i0
}

impl<C: StatsCounter> StatsCounter for StripedStatsCounter<C> where C::Stats: Summable {
    type Stats = C::Stats;

    /// What was counted, in all the parts together.
    open spec fn stats(&self) -> C::Stats {
        total(self.counters@, self.counters@.len() as int)
    }

    open spec fn in_order(&self) -> bool {
        &&& self.wf()
        &&& forall|i: int| 0 <= i < self.counters@.len() ==> (#[trigger] self.counters@[i]).in_order()
    }

    /// The part of the one who counts has counted the event, and no other part has.
    open spec fn is_after(&self, before: &Self, event: CacheEvent) -> bool {
        &&& self.same_but_own(before)
        &&& self.counters@[before.index as int].is_after(
            &before.counters@[before.index as int],
            event,
        )
    }

    open spec fn wants_load_time(&self) -> bool {
        self.counters@[self.index as int].wants_load_time()
    }

    fn is_load_time_supported(&self) -> (r: bool) {
        self.counters[self.index].is_load_time_supported()
    }

    open spec fn wants_evictions(&self) -> bool {
        self.counters@[self.index as int].wants_evictions()
    }

    fn is_recording_evictions_supported(&self) -> (r: bool) {
        self.counters[self.index].is_recording_evictions_supported()
    }

    open spec fn wants_write_wait_time(&self) -> bool {
        self.counters@[self.index as int].wants_write_wait_time()
    }

    fn is_write_wait_time_supported(&self) -> (r: bool) {
        self.counters[self.index].is_write_wait_time_supported()
    }

    fn record_hits(&mut self, count: u32) {
        self.counters[self.index].record_hits(count);
        proof {
            Self::lemma_own_counted(old(self), self);
        }
    }

    fn record_misses(&mut self, count: u32) {
        self.counters[self.index].record_misses(count);
        proof {
            Self::lemma_own_counted(old(self), self);
        }
    }

    fn record_insertions(&mut self, count: u32) {
        self.counters[self.index].record_insertions(count);
        proof {
            Self::lemma_own_counted(old(self), self);
        }
    }

    fn record_load_success(&mut self, load_time_nanos: u64) {
        self.counters[self.index].record_load_success(load_time_nanos);
        proof {
            Self::lemma_own_counted(old(self), self);
        }
    }

    fn record_load_failure(&mut self, load_time_nanos: u64) {
        self.counters[self.index].record_load_failure(load_time_nanos);
        proof {
            Self::lemma_own_counted(old(self), self);
        }
    }

    fn record_eviction(&mut self, weight: u32, cause: RemovalCause) {
        self.counters[self.index].record_eviction(weight, cause);
        proof {
            Self::lemma_own_counted(old(self), self);
        }
    }

    fn record_read_drop(&mut self) {
        self.counters[self.index].record_read_drop();
        proof {
            Self::lemma_own_counted(old(self), self);
        }
    }

    fn record_write_wait(&mut self, write_time_nanos: u64) {
        self.counters[self.index].record_write_wait(write_time_nanos);
        proof {
            Self::lemma_own_counted(old(self), self);
        }
    }

    fn snapshot(&self) -> (r: C::Stats) {
        let mut sum = self.counters[0].snapshot();
        let mut i: usize = 1;
        while i < self.counters.len()
            invariant
                self.in_order(),
                1 <= i <= self.counters@.len(),
                sum == total(self.counters@, i as int),
            decreases self.counters@.len() - i,
        {
            let next = self.counters[i].snapshot();
            sum = <C::Stats as Summable>::sum(&sum, &next);
            i = i + 1;
        }
        sum
    }
}

impl<C: StatsCounter> StripedStatsCounter<C> where C::Stats: Summable {
    /// A counter whose own part is in order stays so.
    proof fn lemma_own_counted(before: &Self, after: &Self)
        requires
            before.in_order(),
            after.same_but_own(before),
            after.counters@[before.index as int].in_order(),
        ensures
            after.in_order(),
    {
        assert forall|i: int| 0 <= i < after.counters@.len() implies (
        #[trigger] after.counters@[i]).in_order() by {
            assert(before.counters@[i].in_order());
        }
    }
}

/// A counter in parts counts hits as one counter would: whoever counts them, the sum grows by
/// their number, as long as it is not too large to be counted.
pub proof fn striped_hits_are_counted(
    before: StripedStatsCounter<DefaultStatsCounter>,
    after: StripedStatsCounter<DefaultStatsCounter>,
    count: u32,
)
    requires
        before.in_order(),
        after.is_after(&before, CacheEvent::Hits(count)),
        before.stats().hit_count + count <= u64::MAX,
    ensures
        after.stats().hit_count == before.stats().hit_count + count,
        after.stats().miss_count == before.stats().miss_count,
{
    lemma_hits_counted(before, after, count, before.counters@.len() as int);
}

proof fn lemma_hits_counted(
    before: StripedStatsCounter<DefaultStatsCounter>,
    after: StripedStatsCounter<DefaultStatsCounter>,
    count: u32,
    n: int,
)
    requires
        before.in_order(),
        after.is_after(&before, CacheEvent::Hits(count)),
        1 <= n <= before.counters@.len(),
        total(before.counters@, n).hit_count + count <= u64::MAX,
    ensures
        total(after.counters@, n).hit_count == total(before.counters@, n).hit_count + (
        if before.index < n {
            count as int
        } else {
            0
        }),
        total(after.counters@, n).miss_count == total(before.counters@, n).miss_count,
    decreases n,
{
    if n > 1 {
        lemma_hits_counted(before, after, count, n - 1);
    }
}

/// A removal is counted as an eviction if and only if the cache itself removed the entry.
pub proof fn evictions_are_counted(s: CacheStats, weight: u32, cause: RemovalCause)
    requires
        s.eviction_by_size_count < u64::MAX,
        s.eviction_by_expiration_count < u64::MAX,
    ensures
        after_eviction(s, weight, cause).eviction_by_size_count + after_eviction(
            s,
            weight,
            cause,
        ).eviction_by_expiration_count == s.eviction_by_size_count + s.eviction_by_expiration_count + (
        if cause == RemovalCause::Expired || cause == RemovalCause::Size {
            1int
        } else {
            0int
        }),
{
}

} // verus!
