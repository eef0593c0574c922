//! What statistics say, told by numbers alone.
use vstd::prelude::*;

use super::cache_stats::{CacheStats, DetailedCacheStats};
use super::stats_counter::{
    total, CacheEvent, ConcurrentStatsCounter, DefaultStatsCounter, DetailedStatsCounter, DisabledStatsCounter,
    StatsCounter, StripedStatsCounter,
};
use crate::common::concurrent::admission::{sat_add, sat_sub};
use crate::notification::RemovalCause;

verus! {

/// A count grows by just as much as is added to it, up to the largest `u64`, and shrinks by just as much
/// as is taken away, down to nothing.
pub proof fn counts_do_not_wrap(a: u64, b: u64)
    ensures
        a + b <= u64::MAX ==> sat_add(a, b as int) == a + b,
        a + b > u64::MAX ==> sat_add(a, b as int) == u64::MAX,
        b <= a ==> sat_sub(a, b as int) == a - b,
        b > a ==> sat_sub(a, b as int) == 0,
{
}

/// The count `new` is the count `old_count` after `n` more, up to the largest `u64`.
pub open spec fn grew(old_count: u64, new: u64, n: int) -> bool {
    if old_count + n <= u64::MAX {
        new == old_count + n
    } else {
        new == u64::MAX
    }
}

/// The count `d` is the difference of two others, or nothing.
pub open spec fn differs(a: u64, b: u64, d: u64) -> bool {
    if b <= a {
        d == a - b
    } else {
        d == 0
    }
}

/// By how much an event adds to `hit_count`.
pub open spec fn to_hit_count(event: CacheEvent) -> int {
    match event {
        CacheEvent::Hits(n) => n as int,
        _ => 0,
    }
}

/// By how much an event adds to `miss_count`.
pub open spec fn to_miss_count(event: CacheEvent) -> int {
    match event {
        CacheEvent::Misses(n) => n as int,
        _ => 0,
    }
}

/// By how much an event adds to `load_success_count`.
pub open spec fn to_load_success_count(event: CacheEvent) -> int {
    match event {
        CacheEvent::LoadSuccess(n) => 1,
        _ => 0,
    }
}

/// By how much an event adds to `load_failure_count`.
pub open spec fn to_load_failure_count(event: CacheEvent) -> int {
    match event {
        CacheEvent::LoadFailure(n) => 1,
        _ => 0,
    }
}

/// By how much an event adds to `total_load_time_nanos`.
pub open spec fn to_total_load_time_nanos(event: CacheEvent) -> int {
    match event {
        CacheEvent::LoadSuccess(n) => n as int,
        CacheEvent::LoadFailure(n) => n as int,
        _ => 0,
    }
}

/// By how much an event adds to `eviction_by_size_count`.
pub open spec fn to_eviction_by_size_count(event: CacheEvent) -> int {
    match event {
        CacheEvent::Eviction(w, RemovalCause::Size) => 1,
        _ => 0,
    }
}

/// By how much an event adds to `eviction_by_size_weight`.
pub open spec fn to_eviction_by_size_weight(event: CacheEvent) -> int {
    match event {
        CacheEvent::Eviction(w, RemovalCause::Size) => w as int,
        _ => 0,
    }
}

/// By how much an event adds to `eviction_by_expiration_count`.
pub open spec fn to_eviction_by_expiration_count(event: CacheEvent) -> int {
    match event {
        CacheEvent::Eviction(w, RemovalCause::Expired) => 1,
        _ => 0,
    }
}

/// By how much an event adds to `eviction_by_expiration_weight`.
pub open spec fn to_eviction_by_expiration_weight(event: CacheEvent) -> int {
    match event {
        CacheEvent::Eviction(w, RemovalCause::Expired) => w as int,
        _ => 0,
    }
}

/// By how much an event adds to `read_drop_count`.
pub open spec fn to_read_drop_count(event: CacheEvent) -> int {
    match event {
        CacheEvent::ReadDrop => 1,
        _ => 0,
    }
}

/// By how much an event adds to `write_wait_count`.
pub open spec fn to_write_wait_count(event: CacheEvent) -> int {
    match event {
        CacheEvent::WriteWait(n) => 1,
        _ => 0,
    }
}

/// By how much an event adds to `total_write_wait_time_nanos`.
pub open spec fn to_total_write_wait_time_nanos(event: CacheEvent) -> int {
    match event {
        CacheEvent::WriteWait(n) => n as int,
        _ => 0,
    }
}

/// The simplest counter counts each read, computation and eviction once, and nothing else.
pub proof fn each_event_is_counted_once(before: DefaultStatsCounter, after: DefaultStatsCounter, event: CacheEvent)
    requires
        after.is_after(&before, event),
    ensures
        grew(before.stats().hit_count, after.stats().hit_count, to_hit_count(event)),
        grew(before.stats().miss_count, after.stats().miss_count, to_miss_count(event)),
        grew(before.stats().load_success_count, after.stats().load_success_count, to_load_success_count(event)),
        grew(before.stats().load_failure_count, after.stats().load_failure_count, to_load_failure_count(event)),
        grew(before.stats().total_load_time_nanos, after.stats().total_load_time_nanos, to_total_load_time_nanos(event)),
        grew(before.stats().eviction_by_size_count, after.stats().eviction_by_size_count, to_eviction_by_size_count(event)),
        grew(before.stats().eviction_by_size_weight, after.stats().eviction_by_size_weight, to_eviction_by_size_weight(event)),
        grew(before.stats().eviction_by_expiration_count, after.stats().eviction_by_expiration_count, to_eviction_by_expiration_count(event)),
        grew(before.stats().eviction_by_expiration_weight, after.stats().eviction_by_expiration_weight, to_eviction_by_expiration_weight(event)),
        after.stats().read_drop_count == before.stats().read_drop_count,
        after.stats().write_wait_count == before.stats().write_wait_count,
        after.stats().total_write_wait_time_nanos == before.stats().total_write_wait_time_nanos,
{
}

/// The counter of those who share a cache counts reads that were not logged and writes that waited too.
pub proof fn each_event_is_counted_once_by_many(
    before: ConcurrentStatsCounter,
    after: ConcurrentStatsCounter,
    event: CacheEvent,
)
    requires
        after.is_after(&before, event),
    ensures
        grew(before.stats().hit_count, after.stats().hit_count, to_hit_count(event)),
        grew(before.stats().miss_count, after.stats().miss_count, to_miss_count(event)),
        grew(before.stats().load_success_count, after.stats().load_success_count, to_load_success_count(event)),
        grew(before.stats().load_failure_count, after.stats().load_failure_count, to_load_failure_count(event)),
        grew(before.stats().total_load_time_nanos, after.stats().total_load_time_nanos, to_total_load_time_nanos(event)),
        grew(before.stats().eviction_by_size_count, after.stats().eviction_by_size_count, to_eviction_by_size_count(event)),
        grew(before.stats().eviction_by_size_weight, after.stats().eviction_by_size_weight, to_eviction_by_size_weight(event)),
        grew(before.stats().eviction_by_expiration_count, after.stats().eviction_by_expiration_count, to_eviction_by_expiration_count(event)),
        grew(before.stats().eviction_by_expiration_weight, after.stats().eviction_by_expiration_weight, to_eviction_by_expiration_weight(event)),
        grew(before.stats().read_drop_count, after.stats().read_drop_count, to_read_drop_count(event)),
        grew(before.stats().write_wait_count, after.stats().write_wait_count, to_write_wait_count(event)),
        grew(before.stats().total_write_wait_time_nanos, after.stats().total_write_wait_time_nanos, to_total_write_wait_time_nanos(event)),
{
}

/// The counter of everything counts insertions and removals by the user too.
pub proof fn each_event_is_counted_in_detail(
    before: DetailedStatsCounter,
    after: DetailedStatsCounter,
    event: CacheEvent,
)
    requires
        after.is_after(&before, event),
    ensures
        grew(before.stats().base.hit_count, after.stats().base.hit_count, to_hit_count(event)),
        grew(before.stats().base.miss_count, after.stats().base.miss_count, to_miss_count(event)),
        grew(before.stats().base.load_success_count, after.stats().base.load_success_count, to_load_success_count(event)),
        grew(before.stats().base.load_failure_count, after.stats().base.load_failure_count, to_load_failure_count(event)),
        grew(before.stats().base.total_load_time_nanos, after.stats().base.total_load_time_nanos, to_total_load_time_nanos(event)),
        grew(before.stats().base.eviction_by_size_count, after.stats().base.eviction_by_size_count, to_eviction_by_size_count(event)),
        grew(before.stats().base.eviction_by_size_weight, after.stats().base.eviction_by_size_weight, to_eviction_by_size_weight(event)),
        grew(before.stats().base.eviction_by_expiration_count, after.stats().base.eviction_by_expiration_count, to_eviction_by_expiration_count(event)),
        grew(before.stats().base.eviction_by_expiration_weight, after.stats().base.eviction_by_expiration_weight, to_eviction_by_expiration_weight(event)),
        grew(before.stats().read_drop_count, after.stats().read_drop_count, to_read_drop_count(event)),
        grew(before.stats().write_wait_count, after.stats().write_wait_count, to_write_wait_count(event)),
        grew(before.stats().total_write_wait_time_nanos, after.stats().total_write_wait_time_nanos, to_total_write_wait_time_nanos(event)),
        grew(
            before.stats().insertion_count,
            after.stats().insertion_count,
            match event {
                CacheEvent::Insertions(n) => n as int,
                _ => 0,
            },
        ),
        grew(
            before.stats().invalidation_count,
            after.stats().invalidation_count,
            match event {
                CacheEvent::Eviction(w, RemovalCause::Explicit) => 1,
                _ => 0,
            },
        ),
{
}

/// The counter of nothing counts nothing.
pub proof fn nothing_is_counted(counter: DisabledStatsCounter)
    ensures
        counter.stats().hit_count == 0,
        counter.stats().miss_count == 0,
        counter.stats().load_success_count == 0,
        counter.stats().load_failure_count == 0,
        counter.stats().total_load_time_nanos == 0,
        counter.stats().eviction_by_size_count == 0,
        counter.stats().eviction_by_size_weight == 0,
        counter.stats().eviction_by_expiration_count == 0,
        counter.stats().eviction_by_expiration_weight == 0,
        counter.stats().read_drop_count == 0,
        counter.stats().write_wait_count == 0,
        counter.stats().total_write_wait_time_nanos == 0,
{
}

/// The sum of statistics has the sum of each, and their difference the difference of each.
pub proof fn statistics_add_up(a: CacheStats, b: CacheStats)
    ensures
        grew(a.hit_count, a.plus(b).hit_count, b.hit_count as int),
        grew(a.miss_count, a.plus(b).miss_count, b.miss_count as int),
        grew(a.load_success_count, a.plus(b).load_success_count, b.load_success_count as int),
        grew(a.load_failure_count, a.plus(b).load_failure_count, b.load_failure_count as int),
        grew(a.total_load_time_nanos, a.plus(b).total_load_time_nanos, b.total_load_time_nanos as int),
        grew(a.eviction_by_size_count, a.plus(b).eviction_by_size_count, b.eviction_by_size_count as int),
        grew(a.eviction_by_size_weight, a.plus(b).eviction_by_size_weight, b.eviction_by_size_weight as int),
        grew(a.eviction_by_expiration_count, a.plus(b).eviction_by_expiration_count, b.eviction_by_expiration_count as int),
        grew(a.eviction_by_expiration_weight, a.plus(b).eviction_by_expiration_weight, b.eviction_by_expiration_weight as int),
        grew(a.read_drop_count, a.plus(b).read_drop_count, b.read_drop_count as int),
        grew(a.write_wait_count, a.plus(b).write_wait_count, b.write_wait_count as int),
        grew(a.total_write_wait_time_nanos, a.plus(b).total_write_wait_time_nanos, b.total_write_wait_time_nanos as int),
        differs(a.hit_count, b.hit_count, a.minus(b).hit_count),
        differs(a.miss_count, b.miss_count, a.minus(b).miss_count),
        differs(a.load_success_count, b.load_success_count, a.minus(b).load_success_count),
        differs(a.load_failure_count, b.load_failure_count, a.minus(b).load_failure_count),
        differs(a.total_load_time_nanos, b.total_load_time_nanos, a.minus(b).total_load_time_nanos),
        differs(a.eviction_by_size_count, b.eviction_by_size_count, a.minus(b).eviction_by_size_count),
        differs(a.eviction_by_size_weight, b.eviction_by_size_weight, a.minus(b).eviction_by_size_weight),
        differs(a.eviction_by_expiration_count, b.eviction_by_expiration_count, a.minus(b).eviction_by_expiration_count),
        differs(a.eviction_by_expiration_weight, b.eviction_by_expiration_weight, a.minus(b).eviction_by_expiration_weight),
        differs(a.read_drop_count, b.read_drop_count, a.minus(b).read_drop_count),
        differs(a.write_wait_count, b.write_wait_count, a.minus(b).write_wait_count),
        differs(a.total_write_wait_time_nanos, b.total_write_wait_time_nanos, a.minus(b).total_write_wait_time_nanos),
{
}

/// The same, of detailed statistics.
pub proof fn detailed_statistics_add_up(a: DetailedCacheStats, b: DetailedCacheStats)
    ensures
        a.plus(b).base == a.base.plus(b.base),
        a.minus(b).base == a.base.minus(b.base),
        grew(a.insertion_count, a.plus(b).insertion_count, b.insertion_count as int),
        grew(a.invalidation_count, a.plus(b).invalidation_count, b.invalidation_count as int),
        grew(a.read_drop_count, a.plus(b).read_drop_count, b.read_drop_count as int),
        grew(a.write_wait_count, a.plus(b).write_wait_count, b.write_wait_count as int),
        grew(a.total_write_wait_time_nanos, a.plus(b).total_write_wait_time_nanos, b.total_write_wait_time_nanos as int),
        differs(a.insertion_count, b.insertion_count, a.minus(b).insertion_count),
        differs(a.invalidation_count, b.invalidation_count, a.minus(b).invalidation_count),
        differs(a.read_drop_count, b.read_drop_count, a.minus(b).read_drop_count),
        differs(a.write_wait_count, b.write_wait_count, a.minus(b).write_wait_count),
        differs(a.total_write_wait_time_nanos, b.total_write_wait_time_nanos, a.minus(b).total_write_wait_time_nanos),
{
}

/// A counter in parts counts as one counter would: whoever counts, the sum grows by what is counted, up to
/// the largest `u64`.
pub proof fn parts_count_as_one(
    before: StripedStatsCounter<DefaultStatsCounter>,
    after: StripedStatsCounter<DefaultStatsCounter>,
    event: CacheEvent,
)
    requires
        before.in_order(),
        after.is_after(&before, event),
    ensures
        grew(before.stats().hit_count, after.stats().hit_count, to_hit_count(event)),
        grew(before.stats().miss_count, after.stats().miss_count, to_miss_count(event)),
        grew(before.stats().load_success_count, after.stats().load_success_count, to_load_success_count(event)),
        grew(before.stats().load_failure_count, after.stats().load_failure_count, to_load_failure_count(event)),
        grew(before.stats().total_load_time_nanos, after.stats().total_load_time_nanos, to_total_load_time_nanos(event)),
        grew(before.stats().eviction_by_size_count, after.stats().eviction_by_size_count, to_eviction_by_size_count(event)),
        grew(before.stats().eviction_by_size_weight, after.stats().eviction_by_size_weight, to_eviction_by_size_weight(event)),
        grew(before.stats().eviction_by_expiration_count, after.stats().eviction_by_expiration_count, to_eviction_by_expiration_count(event)),
        grew(before.stats().eviction_by_expiration_weight, after.stats().eviction_by_expiration_weight, to_eviction_by_expiration_weight(event)),
{
    lemma_parts(before, after, event, before.counters@.len() as int);
}

proof fn lemma_parts(
    before: StripedStatsCounter<DefaultStatsCounter>,
    after: StripedStatsCounter<DefaultStatsCounter>,
    event: CacheEvent,
    n: int,
)
    requires
        before.in_order(),
        after.is_after(&before, event),
        1 <= n <= before.counters@.len(),
    ensures
        before.index >= n ==> total(after.counters@, n) == total(before.counters@, n),
        before.index < n ==> ({
            let b = total(before.counters@, n);
            let a = total(after.counters@, n);
            &&& grew(b.hit_count, a.hit_count, to_hit_count(event))
            &&& grew(b.miss_count, a.miss_count, to_miss_count(event))
            &&& grew(b.load_success_count, a.load_success_count, to_load_success_count(event))
            &&& grew(b.load_failure_count, a.load_failure_count, to_load_failure_count(event))
            &&& grew(b.total_load_time_nanos, a.total_load_time_nanos, to_total_load_time_nanos(event))
            &&& grew(b.eviction_by_size_count, a.eviction_by_size_count, to_eviction_by_size_count(event))
            &&& grew(b.eviction_by_size_weight, a.eviction_by_size_weight, to_eviction_by_size_weight(event))
            &&& grew(b.eviction_by_expiration_count, a.eviction_by_expiration_count, to_eviction_by_expiration_count(event))
            &&& grew(b.eviction_by_expiration_weight, a.eviction_by_expiration_weight, to_eviction_by_expiration_weight(event))
        }),
    decreases n,
{
    if n > 1 {
        lemma_parts(before, after, event, n - 1);
    }
    if before.index == n - 1 {
        each_event_is_counted_once(before.counters@[n - 1], after.counters@[n - 1], event);
    } else {
        assert(after.counters@[n - 1] == before.counters@[n - 1]);
    }
}

} // verus!
