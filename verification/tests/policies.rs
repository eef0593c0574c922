use std::collections::HashMap;
use std::sync::Arc;
use std::time::Duration;

use moka::common::concurrent::admission::{
    decide_admission, handle_admit, handle_remove, AdmissionResult, EntrySizeAndFrequency, EvictionCounters,
    EvictionPolicyConfig,
};
use moka::common::concurrent::deques::Deques;
use moka::common::concurrent::entry_info::EntryInfo;
use moka::common::concurrent::entry_table::EntryTable;
use moka::common::concurrent::expiry::{
    is_entry_expired_ao_or_invalid, is_entry_expired_wo_or_invalid, is_expired_by_per_entry_ttl,
    is_expired_by_ttl, is_expired_by_tti,
};
use moka::common::concurrent::housekeeper::{sync_pace, Housekeeper, SyncPace};
use moka::common::concurrent::thread_pool::{should_release_pool, PoolName};
use moka::common::concurrent::{KeyHash, ValueEntry};
use moka::common::entry::{EntryMetadata, EntryRegion};
use moka::common::error::PredicateRegistrationError;
use moka::common::frequency_sketch::FrequencySketch;
use moka::common::math::{next_power_of_two, next_power_of_two_exponent};
use moka::common::policy_impl::EntrySnapshotConfig;
use moka::common::time::{AtomicInstant, Instant};
use moka::common::timer_wheel::TimerWheel;
use moka::common::{CacheRegion, HousekeeperConfig, ToOptimalOwnedArc, ToOwnedArc};
use moka::policy::{Expiry, ExpirationPolicy, Policy};

fn at(secs: u64) -> Instant {
    Instant::from_nanos(secs * 1_000_000_000)
}

/// The hash table, the entries and the queues of a cache.
struct Parts {
    cache: HashMap<u64, usize>,
    entries: EntryTable<u64, &'static str>,
    deqs: Deques,
    wheel: TimerWheel,
    counters: EvictionCounters,
}

impl Parts {
    fn new() -> Self {
        Parts {
            cache: HashMap::new(),
            entries: EntryTable::new(),
            deqs: Deques::default(),
            wheel: TimerWheel::new(at(0)),
            counters: EvictionCounters::new(0, 0),
        }
    }

    fn add(&mut self, key: u64, weight: u32) -> usize {
        let mut info = EntryInfo::new(KeyHash::new(key, key), at(0), weight);
        info.set_policy_gen(1);
        let e = self.entries.insert(ValueEntry::new("value", info));
        self.cache.insert(key, e);
        handle_admit(&mut self.entries, e, weight, true, &mut self.deqs, &mut self.wheel, &mut self.counters);
        e
    }
}

fn sketch_of(counts: &[(u64, u32)]) -> FrequencySketch {
    let mut sketch = FrequencySketch::default();
    sketch.ensure_capacity(512);
    for (hash, count) in counts {
        for _ in 0..*count {
            sketch.increment(*hash);
        }
    }
    sketch
}

#[test]
fn candidate_must_be_used_more_often() {
    let mut parts = Parts::new();
    for key in 1..=10u64 {
        parts.add(key, 1);
    }
    let sketch = sketch_of(&[(1, 2), (2, 1), (20, 4)]);

    let mut candidate = EntrySizeAndFrequency::new(2);
    candidate.add_frequency(&sketch, 20, None);
    assert_eq!(candidate.freq, 4);
    let r = decide_admission(&candidate, &parts.cache, &parts.entries, &mut parts.deqs, &sketch);
    assert!(matches!(r, AdmissionResult::Admitted { .. }));

    // Three victims are used as often as the candidate.
    let sketch = sketch_of(&[(1, 2), (2, 1), (3, 1), (20, 4)]);
    let mut candidate = EntrySizeAndFrequency::new(3);
    candidate.add_frequency(&sketch, 20, None);
    let r = decide_admission(&candidate, &parts.cache, &parts.entries, &mut parts.deqs, &sketch);
    assert!(matches!(r, AdmissionResult::Rejected));

    // All entries together are not heavy enough.
    let mut candidate = EntrySizeAndFrequency::new(11);
    candidate.add_frequency(&sketch, 20, None);
    let r = decide_admission(&candidate, &parts.cache, &parts.entries, &mut parts.deqs, &sketch);
    assert!(matches!(r, AdmissionResult::Rejected));
}

#[test]
fn gone_entries_are_passed_over() {
    let mut parts = Parts::new();
    let first = parts.add(1, 1);
    let second = parts.add(2, 1);
    parts.cache.remove(&1);
    let sketch = sketch_of(&[(20, 4)]);
    let mut candidate = EntrySizeAndFrequency::new(1);
    candidate.add_frequency(&sketch, 20, None);
    let r = decide_admission(&candidate, &parts.cache, &parts.entries, &mut parts.deqs, &sketch);
    assert!(matches!(r, AdmissionResult::Admitted { .. }));
    // The first was moved to the back.
    assert_eq!(parts.deqs.peek_front_ao(CacheRegion::MainProbation), Some(second));
    assert_eq!(parts.deqs.next_ao(&parts.entries, second), Some(first));
}

#[test]
fn removal_undoes_admission() {
    let mut parts = Parts::new();
    let e = parts.add(1, 5);
    assert_eq!((parts.counters.entry_count, parts.counters.weighted_size), (1, 5));
    assert_eq!(parts.deqs.peek_front_wo(), Some(e));
    assert_eq!(parts.deqs.len_ao(CacheRegion::MainProbation), 1);
    assert!(parts.entries.get(e).info.is_admitted());
    handle_remove(&mut parts.deqs, &mut parts.wheel, &mut parts.entries, e, None, &mut parts.counters);
    assert_eq!((parts.counters.entry_count, parts.counters.weighted_size), (0, 0));
    assert_eq!(parts.deqs.peek_front_ao(CacheRegion::MainProbation), None);
    assert_eq!(parts.deqs.peek_front_wo(), None);
    assert!(!parts.entries.get(e).info.is_admitted());
}

#[test]
fn cost_weighs_the_frequency() {
    let sketch = sketch_of(&[(7, 3)]);
    let mut sum = EntrySizeAndFrequency::default();
    EvictionPolicyConfig::CostAwareLfu.add_entry(&mut sum, &sketch, 7, 4, 5);
    assert_eq!((sum.policy_weight, sum.freq), (4, 15));
    EvictionPolicyConfig::TinyLfu.add_entry(&mut sum, &sketch, 7, 4, 5);
    assert_eq!((sum.policy_weight, sum.freq), (8, 18));
}

#[test]
fn coldest_and_hottest_entries() {
    let mut parts = Parts::new();
    for key in 1..=5u64 {
        parts.add(key, key as u32);
    }
    // The policies do not know of an update of the second.
    let second = parts.cache[&2];
    parts.entries.get_mut(second).info.incr_entry_gen();

    let policy: ExpirationPolicy<()> = ExpirationPolicy::new(Some(Duration::from_secs(10)), None, None);
    let config = EntrySnapshotConfig { coldest: 2, hottest: 3 };
    let snapshot = policy.capture_entry_snapshot(config, &parts.deqs, &parts.entries, at(3));
    let coldest: Vec<u64> = snapshot.coldest.iter().map(|(k, _)| *k).collect();
    let hottest: Vec<u64> = snapshot.hottest.iter().map(|(k, _)| *k).collect();
    assert_eq!(coldest, vec![1, 3]);
    assert_eq!(hottest, vec![5, 4, 3]);
    let told = snapshot.hottest[0].1;
    assert_eq!(told.policy_weight(), 5);
    assert_eq!(told.last_modified(), at(0));
    assert_eq!(told.expiration_time(), Some(at(10)));
    assert_eq!(told.snapshot_at(), at(3));
}

#[test]
fn earliest_expiration_counts() {
    let mut info = EntryInfo::new(KeyHash::new(1u64, 1), at(0), 1);
    info.set_last_accessed(at(4));
    let ttl = Some(Duration::from_secs(10));
    let tti = Some(Duration::from_secs(5));
    let told = EntryMetadata::from_element(EntryRegion::Main, &info, ttl, tti, at(5));
    assert_eq!(told.expiration_time(), Some(at(9)));
    let told = EntryMetadata::from_element(EntryRegion::Main, &info, ttl, None, at(5));
    assert_eq!(told.expiration_time(), Some(at(10)));
    let told = EntryMetadata::from_element(EntryRegion::Main, &info, None, None, at(5));
    assert_eq!(told.expiration_time(), None);
    info.set_expiration_time(Some(Instant::from_nanos(0x5000)));
    let told = EntryMetadata::from_element(EntryRegion::Main, &info, ttl, tti, at(5));
    assert_eq!(told.expiration_time(), Some(Instant::from_nanos(0x5000)));
    assert_eq!(told.region(), EntryRegion::Main);
    assert_eq!(told.last_accessed(), at(4));
}

#[test]
fn frequencies_are_estimated_and_halved() {
    let mut sketch = sketch_of(&[(1, 3), (2, 20)]);
    assert_eq!(sketch.table_len(), 512);
    assert_eq!(sketch.frequency(1), 3);
    assert_eq!(sketch.frequency(2), 15);
    assert_eq!(sketch.frequency(3), 0);
    // A smaller capacity changes nothing.
    sketch.ensure_capacity(10);
    assert_eq!(sketch.frequency(1), 3);
    // After ten times the capacity, all counters are halved.
    let mut sketch = FrequencySketch::default();
    sketch.ensure_capacity(64);
    for _ in 0..10 {
        sketch.increment(1);
    }
    assert_eq!(sketch.frequency(1), 10);
    for hash in 0..2000u64 {
        sketch.increment(hash.wrapping_mul(0x9E37_79B9_7F4A_7C15));
    }
    assert!(sketch.frequency(1) < 15);
}

#[test]
fn powers_of_two() {
    assert_eq!(next_power_of_two(1), 1);
    assert_eq!(next_power_of_two(17), 32);
    assert_eq!(next_power_of_two(1 << 40), 1 << 40);
    assert_eq!(next_power_of_two_exponent(1), 0);
    assert_eq!(next_power_of_two_exponent(9), 4);
}

#[test]
fn entries_expire_at_the_end_of_their_time() {
    let ten = Some(Duration::from_secs(10));
    assert!(!is_expired_by_ttl(&ten, at(1), Instant::from_nanos(10_999_999_999)));
    assert!(is_expired_by_ttl(&ten, at(1), at(11)));
    assert!(is_expired_by_tti(&ten, at(1), at(12)));
    assert!(!is_expired_by_tti(&None, at(1), at(12)));
    // An entry that was written before all were invalidated is invalid.
    assert_eq!(is_entry_expired_wo_or_invalid(&ten, &Some(at(2)), at(1), at(3)), (false, true));
    assert_eq!(is_entry_expired_ao_or_invalid(&ten, &Some(at(2)), at(2), at(12)), (true, false));
    let mut info = EntryInfo::new(KeyHash::new(1u64, 1), at(0), 1);
    assert!(!is_expired_by_per_entry_ttl(&info, at(100)));
    info.set_expiration_time(Some(at(5)));
    assert!(!is_expired_by_per_entry_ttl(&info, at(4)));
    assert!(is_expired_by_per_entry_ttl(&info, at(5)));
    // A time that is too late to be counted is the last one.
    let long = Some(Duration::from_nanos(u64::MAX));
    assert!(!is_expired_by_ttl(&long, at(1), at(1_000_000)));
}

#[test]
fn instants_are_added_and_subtracted() {
    let late = Instant::from_nanos(u64::MAX - 1);
    assert_eq!(late.checked_add(Duration::from_nanos(1)), Some(Instant::from_nanos(u64::MAX)));
    assert_eq!(late.checked_add(Duration::from_nanos(2)), None);
    assert_eq!(late.saturating_add(Duration::from_secs(2)), Instant::from_nanos(u64::MAX));
    assert_eq!(at(5).checked_duration_since(at(3)), Some(Duration::from_secs(2)));
    assert_eq!(at(3).checked_duration_since(at(5)), None);
    let mut time = AtomicInstant::default();
    assert!(!time.is_set());
    time.set_instant(at(7));
    assert_eq!(time.instant(), Some(at(7)));
    time.clear();
    assert_eq!(time.instant(), None);
}

#[test]
fn housekeeping_is_due() {
    let mut keeper = Housekeeper::new(true, at(0));
    assert!(!keeper.should_apply_reads(63, at(0)));
    assert!(keeper.should_apply_reads(64, at(0)));
    assert!(keeper.should_apply_writes(0, Instant::from_nanos(300_000_000)));
    assert_eq!(keeper.start_run(at(1)), Some(Duration::from_millis(100)));
    keeper.finish_run(false);
    assert!(!keeper.should_apply_writes(0, Instant::from_nanos(1_299_999_999)));
    // Entries were left to be evicted.
    keeper.finish_run(true);
    assert!(keeper.should_apply_writes(0, at(1)));
    keeper.finish_run(false);
    keeper.disable_auto_run();
    assert!(!keeper.should_apply_reads(1000, at(100)));
    assert_eq!(Housekeeper::new(false, at(0)).start_run(at(1)), None);
    assert_eq!(sync_pace(true, 0), Some(SyncPace::Fast));
    assert_eq!(sync_pace(false, 256), Some(SyncPace::Normal));
    assert_eq!(sync_pace(false, 257), None);
}

#[test]
fn one_run_of_housekeeping_at_a_time() {
    let mut keeper = moka::future::housekeeper::Housekeeper::new(at(0));
    assert!(keeper.start_run());
    assert!(!keeper.start_run());
    keeper.finish_run(at(2));
    assert!(keeper.start_run());
    assert!(!keeper.should_apply_reads(0, at(2)));
    assert!(keeper.should_apply_reads(0, at(3)));
}

#[test]
fn housekeeping_settings() {
    let usual = HousekeeperConfig::default();
    assert_eq!(usual.maintenance_task_timeout, Duration::from_millis(100));
    let given = HousekeeperConfig::new(Some(Duration::from_secs(1)), Some(2), Some(3));
    assert_eq!(given.maintenance_task_timeout, Duration::from_secs(1));
    assert_eq!((given.max_log_sync_repeats, given.eviction_batch_size), (2, 3));
}

#[test]
fn pools_are_released_by_the_last() {
    assert!(should_release_pool(2, Some(2)));
    assert!(!should_release_pool(3, Some(2)));
    assert!(!should_release_pool(2, Some(3)));
    assert!(!should_release_pool(2, None));
    assert_eq!(PoolName::Housekeeper.thread_name_template(), "moka-housekeeper-{}");
}

#[test]
fn regions_have_numbers_and_names() {
    for n in 0..4usize {
        assert!(CacheRegion::from_number(n).has_number(n));
        assert!(!CacheRegion::from_number(n).has_number(n + 1));
    }
    assert_eq!(CacheRegion::MainProbation.name(), "main probation");
}

#[test]
fn predicate_errors_have_messages() {
    assert_eq!(
        PredicateRegistrationError::NoSpaceLeft.message(),
        "No space left in the predicate registry"
    );
    assert!(PredicateRegistrationError::InvalidationClosuresDisabled
        .message()
        .starts_with("Support for invalidation closures is disabled."));
}

struct Fixed;

impl Expiry<u64, &'static str> for Fixed {
    fn expire_after_create(&self, _k: &u64, _v: &&'static str, _now: Instant) -> Option<Duration> {
        Some(Duration::from_secs(1))
    }
}

#[test]
fn expiry_keeps_durations_by_default() {
    let expiry = Fixed;
    assert_eq!(expiry.expire_after_create(&1, &"a", at(0)), Some(Duration::from_secs(1)));
    let current = Some(Duration::from_secs(5));
    assert_eq!(expiry.expire_after_read(&1, &"a", at(0), current, at(0)), current);
    assert_eq!(expiry.expire_after_update(&1, &"a", at(0), current), current);
    let mut policy = ExpirationPolicy::new(None, None, Some(Fixed));
    policy.set_time_to_live(Duration::from_secs(3));
    assert_eq!(policy.time_to_live(), Some(Duration::from_secs(3)));
    assert!(policy.expiry().is_some());
    policy.set_time_to_idle(Duration::from_secs(2));
    assert_eq!(policy.time_to_idle(), Some(Duration::from_secs(2)));
    policy.set_expiry(Fixed);
}

#[test]
fn policy_is_told() {
    let mut policy = Policy::new(Some(10), 2, None, Some(Duration::from_secs(1)));
    assert_eq!(policy.max_capacity(), Some(10));
    policy.set_max_capacity(Some(20));
    policy.set_num_segments(4);
    assert_eq!(policy.max_capacity(), Some(20));
    assert_eq!(policy.num_segments(), 4);
    assert_eq!(policy.time_to_idle(), Some(Duration::from_secs(1)));
}

#[test]
fn counters_do_not_overflow() {
    let mut counters = EvictionCounters::new(1, u64::MAX - 1);
    counters.saturating_add(1, 5);
    assert_eq!((counters.entry_count, counters.weighted_size), (2, u64::MAX));
    counters.saturating_sub(1, 5);
    assert_eq!((counters.entry_count, counters.weighted_size), (1, u64::MAX - 5));
    counters.incr_eviction_count();
    assert_eq!(counters.eviction_count, 1);
}

#[test]
fn owned_values_are_shared() {
    let shared: Arc<u64> = 5u64.to_owned_arc();
    assert_eq!(*shared, 5);

    let name: Arc<str> = "alice".to_optimal_owned_arc();
    assert_eq!(&*name, "alice");
    let name: Arc<str> = ToOwnedArc::<true>::to_owned_arc("bob");
    assert_eq!(&*name, "bob");

    let numbers: [String; 2] = ["one".to_string(), "two".to_string()];
    let numbers: Arc<[String]> = numbers[..].to_optimal_owned_arc();
    assert_eq!(&*numbers, &["one".to_string(), "two".to_string()]);
}
