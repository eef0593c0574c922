use moka::notification::RemovalCause;
use moka::stats::{
    CacheStats, ConcurrentStatsCounter, DefaultStatsCounter, DetailedCacheStats, DetailedStatsCounter,
    DisabledStatsCounter, StatsCounter, StripedStatsCounter,
};
use moka::stats::stats_counter::next_index;

fn busy<C: StatsCounter>(counter: &mut C) {
    counter.record_hits(3);
    counter.record_misses(1);
    counter.record_insertions(2);
    counter.record_load_success(100);
    counter.record_load_failure(50);
    counter.record_eviction(7, RemovalCause::Size);
    counter.record_eviction(9, RemovalCause::Expired);
    counter.record_eviction(11, RemovalCause::Explicit);
    counter.record_read_drop();
    counter.record_write_wait(20);
}

#[test]
fn disabled_counter_counts_nothing() {
    let mut counter = DisabledStatsCounter;
    busy(&mut counter);
    assert_eq!(counter.snapshot(), CacheStats::default());
}

#[test]
fn default_counter_counts() {
    let mut counter = DefaultStatsCounter::default();
    busy(&mut counter);
    let stats = counter.snapshot();
    assert_eq!(stats.hit_count(), 3);
    assert_eq!(stats.miss_count(), 1);
    assert_eq!(stats.request_count(), 4);
    assert_eq!(stats.load_success_count(), 1);
    assert_eq!(stats.load_failure_count(), 1);
    assert_eq!(stats.load_count(), 2);
    assert_eq!(stats.total_load_time_nanos(), 150);
    assert_eq!(stats.eviction_by_size_count(), 1);
    assert_eq!(stats.eviction_by_size_weight(), 7);
    assert_eq!(stats.eviction_by_expiration_count(), 1);
    assert_eq!(stats.eviction_by_expiration_weight(), 9);
    assert_eq!(stats.read_drop_count(), 0);
    assert_eq!(stats.write_wait_count(), 0);
}

#[test]
fn concurrent_counter_counts_waits() {
    let mut counter = ConcurrentStatsCounter::default();
    busy(&mut counter);
    let stats = counter.snapshot();
    assert_eq!(stats.hit_count(), 3);
    assert_eq!(stats.read_drop_count(), 1);
    assert_eq!(stats.write_wait_count(), 1);
    assert_eq!(stats.total_write_wait_time_nanos(), 20);
}

#[test]
fn detailed_counter_counts_insertions() {
    let mut counter = DetailedStatsCounter::default();
    busy(&mut counter);
    let stats: DetailedCacheStats = counter.snapshot();
    assert_eq!(stats.insertion_count, 2);
    assert_eq!(stats.invalidation_count, 1);
    assert_eq!(stats.miss_count(), 1);
    assert_eq!(stats.total_write_wait_time_nanos(), 20);
}

#[test]
fn stats_are_set_summed_and_subtracted() {
    let mut a = CacheStats::default();
    a.set_req_counts(5, 2).set_load_counts(1, 1, 30).set_read_drop_count(4);
    a.set_eviction_counts(1, 2, 3, 4).set_write_wait_count(6, 60);
    let mut b = CacheStats::default();
    b.set_req_counts(u64::MAX, 3);
    let sum = a.sum(&b);
    assert_eq!(sum.hit_count(), u64::MAX);
    assert_eq!(sum.miss_count(), 5);
    assert_eq!(sum, b.sum(&a));
    let difference = a - b;
    assert_eq!(difference.hit_count(), 0);
    assert_eq!(difference.miss_count(), 0);
    assert_eq!(difference.read_drop_count(), 4);
    assert_eq!(difference.eviction_by_expiration_weight(), 4);
}

#[test]
fn striped_counter_sums_its_parts() {
    let mut counter: StripedStatsCounter<DefaultStatsCounter> = DefaultStatsCounter::striped(4);
    let mut next = 0;
    for _ in 0..6 {
        let index = next_index(&mut next, 4);
        counter.set_index(index);
        counter.record_hits(2);
        counter.record_misses(1);
    }
    assert_eq!(next, 2);
    assert_eq!(counter.counters[0].snapshot().hit_count(), 4);
    assert_eq!(counter.counters[3].snapshot().hit_count(), 2);
    assert_eq!(counter.snapshot().hit_count(), 12);
    assert_eq!(counter.snapshot().miss_count(), 6);
}

#[test]
fn detailed_stats_come_from_stats() {
    let mut base = CacheStats::default();
    base.set_req_counts(5, 2);
    let detailed = DetailedCacheStats::from(base);
    assert_eq!(detailed.request_count(), 7);
    assert_eq!(detailed.insertion_count, 0);
}

#[test]
fn striped_counter_asks_its_parts() {
    let mut counter: StripedStatsCounter<DetailedStatsCounter> = DetailedStatsCounter::striped(2);
    busy(&mut counter);
    counter.set_index(1);
    busy(&mut counter);
    assert!(counter.is_load_time_supported());
    assert!(counter.is_recording_evictions_supported());
    assert!(counter.is_write_wait_time_supported());
    let stats: DetailedCacheStats = counter.snapshot();
    assert_eq!(stats.insertion_count, 4);
    assert_eq!(stats.invalidation_count, 2);
    assert_eq!(stats.miss_count(), 2);
    assert_eq!(stats.total_write_wait_time_nanos(), 40);

    let nothing = StripedStatsCounter::new_with(3, DisabledStatsCounter::default);
    assert!(!nothing.counters[2].is_load_time_supported());
}
