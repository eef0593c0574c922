use std::time::Duration;

use moka::builder::Builder;
use moka::common::builder_utils::{ensure_expirations, ExpirationError};
use moka::common::time::Instant;
use moka::future::builder::CacheBuilder;
use moka::notification::DeliveryMode;
use moka::sync::ConcurrentCacheExt;

type Weigher = fn(&u64, &&'static str) -> u32;
type Listener = fn(u64);

fn start() -> Instant {
    Instant::from_nanos(0)
}

const A: u64 = 'a' as u64;
const B: u64 = 'b' as u64;

#[test]
fn builder_build_cache() {
    let mut cache = Builder::new(100).build();

    assert_eq!(cache.capacity(), 100);
    assert_eq!(cache.time_to_live(), None);
    assert_eq!(cache.time_to_idle(), None);
    assert_eq!(cache.num_segments(), 1);

    cache.insert_with_hash(A, A, "Alice", start());
    assert_eq!(cache.get_with_hash(A, A, start()), Some(&"Alice"));

    let mut cache = Builder::new(100)
        .time_to_live(Duration::from_secs(45 * 60))
        .time_to_idle(Duration::from_secs(15 * 60))
        .build();

    assert_eq!(cache.capacity(), 100);
    assert_eq!(cache.time_to_live(), Some(Duration::from_secs(45 * 60)));
    assert_eq!(cache.time_to_idle(), Some(Duration::from_secs(15 * 60)));
    assert_eq!(cache.num_segments(), 1);

    cache.insert_with_hash(A, A, "Alice", start());
    assert_eq!(cache.get_with_hash(A, A, start()), Some(&"Alice"));
}

#[test]
fn build_segmented_cache() {
    let mut cache = Builder::new(100).segment(16).build();

    assert_eq!(cache.capacity(), 100);
    assert_eq!(cache.time_to_live(), None);
    assert_eq!(cache.time_to_idle(), None);
    assert_eq!(cache.num_segments(), 16_usize.next_power_of_two());

    cache.insert(B, B, "Bob", start());
    assert_eq!(cache.get(B, B, start()), Some(&"Bob"));

    let mut cache = Builder::new(100)
        .segment(16)
        .time_to_live(Duration::from_secs(45 * 60))
        .time_to_idle(Duration::from_secs(15 * 60))
        .build();

    assert_eq!(cache.capacity(), 100);
    assert_eq!(cache.time_to_live(), Some(Duration::from_secs(45 * 60)));
    assert_eq!(cache.time_to_idle(), Some(Duration::from_secs(15 * 60)));
    assert_eq!(cache.num_segments(), 16_usize.next_power_of_two());

    cache.insert(B, B, "Bob", start());
    assert_eq!(cache.get(B, B, start()), Some(&"Bob"));
}

#[test]
fn build_future_cache() {
    let mut cache = CacheBuilder::<Weigher, Listener>::new(100).build().ok().unwrap();
    let policy = cache.policy();

    assert_eq!(policy.max_capacity(), Some(100));
    assert_eq!(policy.time_to_live(), None);
    assert_eq!(policy.time_to_idle(), None);
    assert_eq!(policy.num_segments(), 1);

    cache.insert(A, A, "Alice", start());
    assert_eq!(cache.get(A, A, start()), Some(&"Alice"));

    let mut cache = CacheBuilder::<Weigher, Listener>::new(100)
        .time_to_live(Duration::from_secs(45 * 60))
        .time_to_idle(Duration::from_secs(15 * 60))
        .build()
        .ok()
        .unwrap();
    let policy = cache.policy();

    assert_eq!(policy.max_capacity(), Some(100));
    assert_eq!(policy.time_to_live(), Some(Duration::from_secs(45 * 60)));
    assert_eq!(policy.time_to_idle(), Some(Duration::from_secs(15 * 60)));
    assert_eq!(policy.num_segments(), 1);

    cache.insert(A, A, "Alice", start());
    assert_eq!(cache.get(A, A, start()), Some(&"Alice"));
}

#[test]
fn build_cache_too_long_ttl() {
    let thousand_years_secs: u64 = 1000 * 365 * 24 * 3600;
    let duration = Duration::from_secs(thousand_years_secs);
    let error = CacheBuilder::<Weigher, Listener>::new(100)
        .time_to_live(duration + Duration::from_secs(1))
        .build()
        .err()
        .unwrap();
    assert_eq!(error, ExpirationError::TimeToLive);
    assert_eq!(error.message(), "time_to_live is longer than 1000 years");

    let fits = CacheBuilder::<Weigher, Listener>::new(100).time_to_live(duration).build();
    assert!(fits.is_ok());
}

#[test]
fn build_cache_too_long_tti() {
    let thousand_years_secs: u64 = 1000 * 365 * 24 * 3600;
    let duration = Duration::from_secs(thousand_years_secs);
    let error = CacheBuilder::<Weigher, Listener>::new(100)
        .time_to_idle(duration + Duration::from_secs(1))
        .build()
        .err()
        .unwrap();
    assert_eq!(error, ExpirationError::TimeToIdle);
    assert_eq!(error.message(), "time_to_idle is longer than 1000 years");
}

#[test]
fn both_expirations_too_long() {
    let long = Some(Duration::from_secs(1001 * 365 * 24 * 3600));
    assert_eq!(ensure_expirations(long, long), Err(ExpirationError::TimeToLive));
    assert_eq!(ensure_expirations(None, None), Ok(()));
}

#[test]
fn builder_settings_are_carried() {
    fn listener(removed: u64) -> u64 {
        removed + 1
    }
    fn weigher(_k: &u64, v: &u32) -> u32 {
        *v
    }
    let mut cache = CacheBuilder::<Weigher, Listener>::default()
        .max_capacity(7)
        .initial_capacity(3)
        .weigher(weigher)
        .eviction_listener(listener, DeliveryMode::Queued)
        .time_to_live(Duration::from_secs(20))
        .time_to_idle(Duration::from_secs(10))
        .support_invalidation_closures()
        .build::<u32>()
        .ok()
        .unwrap();
    assert_eq!(cache.policy().max_capacity(), Some(7));
    assert_eq!(cache.policy().time_to_live(), Some(Duration::from_secs(20)));
    assert_eq!(cache.policy().time_to_idle(), Some(Duration::from_secs(10)));
    assert_eq!(cache.eviction_listener().unwrap()(1), 2);
    assert_eq!(cache.eviction_notification_mode(), Some(DeliveryMode::Queued));

    cache.insert(A, A, 5, start());
    cache.sync(start());
    assert_eq!(cache.weighted_size(), 5);
    let id = cache.invalidate_entries_if(|_k, v| *v == 5, "heavy".to_string(), start());
    assert_eq!(id, Ok("heavy".to_string()));
    assert_eq!(cache.get(A, A, start()), None);

    let cache = CacheBuilder::<Weigher, Listener>::new(7).build::<&'static str>().ok().unwrap();
    assert!(cache.eviction_listener().is_none());
    assert_eq!(cache.eviction_notification_mode(), None);
}
