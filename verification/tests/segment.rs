use std::time::Duration;

use moka::common::time::Instant;
use moka::sync::cache::Cache;
use moka::sync::segment::SegmentedCache;
use moka::sync::ConcurrentCacheExt;

const A: u64 = 1;
const B: u64 = 2;
const C: u64 = 3;
const D: u64 = 4;

fn hash(key: u64) -> u64 {
    key.wrapping_mul(0x9E37_79B9_7F4A_7C15)
}

#[test]
fn segment_basic_single_thread() {
    let now = Instant::from_nanos(0);
    let mut cache = SegmentedCache::new(3, 1);

    assert_eq!(cache.insert(A, hash(A), "alice", now), &"alice");
    assert_eq!(cache.insert(B, hash(B), "bob", now), &"bob");
    assert_eq!(cache.get(A, hash(A), now), Some(&"alice"));
    assert_eq!(cache.get(B, hash(B), now), Some(&"bob"));
    cache.sync(now);
    // counts: a -> 1, b -> 1

    assert_eq!(cache.insert(C, hash(C), "cindy", now), &"cindy");
    assert_eq!(cache.get(C, hash(C), now), Some(&"cindy"));
    // counts: a -> 1, b -> 1, c -> 1
    cache.sync(now);

    assert_eq!(cache.get(A, hash(A), now), Some(&"alice"));
    assert_eq!(cache.get(B, hash(B), now), Some(&"bob"));
    cache.sync(now);
    // counts: a -> 2, b -> 2, c -> 1

    // "d" should not be admitted because its frequency is too low.
    assert_eq!(cache.insert(D, hash(D), "david", now), &"david"); //   count: d -> 0
    cache.sync(now);
    assert_eq!(cache.get(D, hash(D), now), None); //   d -> 1

    assert_eq!(cache.insert(D, hash(D), "david", now), &"david");
    cache.sync(now);
    assert_eq!(cache.get(D, hash(D), now), None); //   d -> 2

    // "d" should be admitted and "c" should be evicted
    // because d's frequency is higher than c's.
    assert_eq!(cache.insert(D, hash(D), "dennis", now), &"dennis");
    cache.sync(now);
    assert_eq!(cache.get(A, hash(A), now), Some(&"alice"));
    assert_eq!(cache.get(B, hash(B), now), Some(&"bob"));
    assert_eq!(cache.get(C, hash(C), now), None);
    assert_eq!(cache.get(D, hash(D), now), Some(&"dennis"));

    assert_eq!(cache.remove(B, hash(B), now), Some(&"bob"));
}

#[test]
fn segments_are_rounded_up() {
    let cache: SegmentedCache<u8> = SegmentedCache::new(100, 5);
    assert_eq!(cache.num_segments(), 8);
    let cache: SegmentedCache<u8> = SegmentedCache::new(100, 1);
    assert_eq!(cache.num_segments(), 1);
}

#[test]
fn segments_do_not_touch_each_other() {
    let now = Instant::from_nanos(0);
    let mut cache = SegmentedCache::new(4, 4);
    // The first two bits of a hash tell its segment.
    let low = 0x0000_0000_0000_0001;
    let high = 0xC000_0000_0000_0001;
    cache.insert(A, low, "low", now);
    cache.insert(A, high, "high", now);
    assert_eq!(cache.peek(A, low), Some(&"low"));
    assert_eq!(cache.peek(A, high), Some(&"high"));
    assert!(!cache.is_sync_due(low));
    assert_eq!(cache.remove(A, low, now), Some(&"low"));
    assert_eq!(cache.peek(A, low), None);
    assert_eq!(cache.peek(A, high), Some(&"high"));
}

#[test]
fn segment_entries_expire() {
    let mut cache = SegmentedCache::with_everything(10, 2, Some(Duration::from_secs(10)), None);
    let start = Instant::from_nanos(0);
    cache.insert(A, hash(A), "alice", start);
    cache.sync(start);
    let later = Instant::from_nanos(9_999_999_999);
    assert_eq!(cache.get(A, hash(A), later), Some(&"alice"));
    let end = Instant::from_nanos(10_000_000_000);
    assert_eq!(cache.get(A, hash(A), end), None);
    assert_eq!(cache.peek(A, hash(A)), Some(&"alice"));
    cache.sync(end);
    assert_eq!(cache.peek(A, hash(A)), None);
}

#[test]
fn entries_stay_within_the_capacity() {
    let now = Instant::from_nanos(0);
    let mut cache: Cache<u64> = Cache::new(3);
    for round in 0..60u64 {
        let key = (round * 7) % 11;
        cache.insert_with_hash(key, hash(key), round, now);
        cache.sync(now);
        cache.get_with_hash(key, hash(key), now);
        if round % 4 == 0 {
            cache.remove(key, now);
            cache.sync(now);
            assert_eq!(cache.peek(key), None);
        }
        let kept = (0..11).filter(|k| cache.peek(*k).is_some()).count();
        assert!(kept <= 3);
    }
}

#[test]
fn many_waiting_entries_stay_within_the_capacity() {
    let now = Instant::from_nanos(0);
    let mut cache: Cache<u64> = Cache::new(3);
    for round in 0..10u64 {
        for key in 0..11u64 {
            cache.insert_with_hash(round * 11 + key, hash(key), key, now);
            cache.get_with_hash(round * 11 + key, hash(key), now);
            if key % 4 == 0 {
                cache.remove(round * 11 + key, now);
            }
        }
        cache.sync(now);
        let kept = (0..110).filter(|k| cache.peek(*k).is_some()).count();
        assert!(kept <= 3);
    }
}
