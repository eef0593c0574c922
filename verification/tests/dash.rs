use std::time::Duration;

use moka::common::frequency_sketch::table_len_for;
use moka::common::sketch_capacity;
use moka::common::time::Instant;
use moka::dash::base_cache::{weighed_capacity_of, BaseCache};
use moka::dash::debug_fmt::DebugFmt;
use moka::dash::iter::Iter;

fn at(secs: u64) -> Instant {
    Instant::from_nanos(secs * 1_000_000_000)
}

fn hash(key: u64) -> u64 {
    key.wrapping_mul(0x9E37_79B9_7F4A_7C15)
}

#[test]
fn test_skt_capacity_will_not_overflow() {
    // power of two
    let pot = |exp| 2u64.pow(exp);

    let ensure_sketch_len = |max_capacity, len: u64, name| {
        let mut cache = BaseCache::<u8>::new(Some(max_capacity), None, false, None, None);
        cache.enable_frequency_sketch_for_testing();
        assert_eq!(cache.sketch_table_len(), len as usize, "{}", name);
    };

    // A table of 8 GiB is not made, since a test may not be given so much memory; its length is
    // asked for.
    let ensure_large_sketch_len = |max_capacity, len: u64, name| {
        assert_eq!(table_len_for(sketch_capacity(max_capacity)), len, "{}", name);
    };

    if usize::BITS == 32 {
        let pot24 = pot(24);
        let pot16 = pot(16);
        ensure_sketch_len(0, 128, "0");
        ensure_sketch_len(128, 128, "128");
        ensure_sketch_len(pot16, pot16, "pot16");
        // due to ceiling to next_power_of_two
        ensure_sketch_len(pot16 + 1, pot(17), "pot16 + 1");
        // due to ceiling to next_power_of_two
        ensure_sketch_len(pot24 - 1, pot24, "pot24 - 1");
        ensure_sketch_len(pot24, pot24, "pot24");
        ensure_sketch_len(pot(27), pot24, "pot(27)");
        ensure_sketch_len(u32::MAX as u64, pot24, "u32::MAX");
    } else {
        let pot30 = pot(30);
        let pot16 = pot(16);
        ensure_sketch_len(0, 128, "0");
        ensure_sketch_len(128, 128, "128");
        ensure_sketch_len(pot16, pot16, "pot16");
        // due to ceiling to next_power_of_two
        ensure_sketch_len(pot16 + 1, pot(17), "pot16 + 1");
        // due to ceiling to next_power_of_two
        ensure_large_sketch_len(pot30 - 1, pot30, "pot30- 1");
        ensure_large_sketch_len(pot30, pot30, "pot30");
        ensure_large_sketch_len(u64::MAX, pot30, "u64::MAX");
    }
}

#[test]
fn entries_are_walked_over() {
    let mut cache = BaseCache::new(Some(10), None, false, Some(Duration::from_secs(10)), None);
    cache.insert_with_hash(1, hash(1), "alice", 1, at(0));
    cache.sync(at(0));
    cache.insert_with_hash(2, hash(2), "bob", 1, at(5));
    cache.sync(at(5));

    let mut iter = Iter::new(&cache);
    let mut met = Vec::new();
    while let Some(entry) = iter.next(at(6)) {
        let (key, value) = entry.pair();
        assert_eq!(entry.key(), key);
        assert_eq!(entry.value(), value);
        met.push((*key, *value));
    }
    met.sort();
    assert_eq!(met, vec![(1, "alice"), (2, "bob")]);

    // The first entry has expired, though it was not removed yet.
    let mut iter = Iter::new(&cache);
    assert_eq!(iter.next(at(12)).map(|e| *e.key()), Some(2));
    assert!(iter.next(at(12)).is_none());
}

#[test]
fn cache_is_shown() {
    let mut cache = BaseCache::new(Some(10), None, true, None, None);
    cache.insert_with_hash(1, hash(1), "alice", 3, at(0));
    cache.sync(at(0));
    let shown = DebugFmt::new(&cache);
    let sizes = shown.default_fmt();
    assert_eq!(sizes.name, "Cache");
    assert_eq!(sizes.max_capacity, Some(10));
    assert_eq!(sizes.entry_count, 1);
    assert_eq!(sizes.weighted_size, 3);
    let entries = shown.entries().fmt(at(0));
    assert_eq!(entries.len(), 1);
    assert_eq!(entries[0].pair(), (&1, &"alice"));
}

#[test]
fn unbounded_cache_keeps_all() {
    let mut cache = BaseCache::new(None, None, false, None, None);
    for key in 0..2000u64 {
        cache.insert_with_hash(key, hash(key), key, 1, at(0));
    }
    cache.sync(at(0));
    assert_eq!(cache.estimated_entry_count(), 2000);
    assert_eq!(cache.weighted_size(), 2000);
    let mut keys = cache.keys();
    keys.sort();
    assert_eq!(keys, (0..2000).collect::<Vec<u64>>());
}

#[test]
fn counted_cache_counts_its_entries() {
    let mut cache = BaseCache::new(Some(100), None, false, None, None);
    for key in 0..500u64 {
        cache.insert_with_hash(key, hash(key), key, 1, at(0));
        if key % 3 == 0 {
            cache.invalidate(key, at(0));
        }
        cache.sync(at(0));
        assert_eq!(cache.estimated_entry_count(), cache.weighted_size());
        assert!(cache.estimated_entry_count() <= 100);
    }
}

#[test]
fn removed_value_is_returned() {
    let mut cache = BaseCache::new(Some(100), None, false, None, None);
    cache.insert_with_hash(7, hash(7), "seven", 1, at(0));
    assert_eq!(cache.peek(7), Some(&"seven"));
    cache.invalidate(7, at(0));
    assert_eq!(cache.peek(7), None);
    assert_eq!(cache.get_with_hash(7, hash(7), at(0)), None);
    cache.sync(at(0));
    assert_eq!(cache.estimated_entry_count(), 0);
}

#[test]
fn least_recently_used_goes_first() {
    // Entries that become heavier push out those that were not used for longest.
    let mut cache = BaseCache::new(Some(10), None, true, None, None);
    for key in 1..=5u64 {
        cache.insert_with_hash(key, hash(key), key, 2, at(key));
        cache.sync(at(key));
    }
    assert_eq!(cache.weighted_size(), 10);
    // The first is used, so that the second was not used for longest.
    assert_eq!(cache.get_with_hash(1, hash(1), at(6)), Some(&1));
    cache.sync(at(6));
    cache.insert_with_hash(5, hash(5), 50, 5, at(7));
    cache.sync(at(7));
    assert_eq!(cache.weighted_size(), 9);
    let mut keys = cache.keys();
    keys.sort();
    assert_eq!(keys, vec![1, 4, 5]);
}

#[test]
fn housekeeping_changes_no_value() {
    let mut cache = BaseCache::new(Some(3), None, false, None, None);
    for key in 1..=3u64 {
        cache.insert_with_hash(key, hash(key), key * 10, 1, at(0));
    }
    cache.sync(at(1));
    cache.sync(at(2));
    for key in 1..=3u64 {
        assert_eq!(cache.get_with_hash(key, hash(key), at(3)), Some(&(key * 10)));
    }
    // Writing one key leaves the others.
    cache.insert_with_hash(2, hash(2), 25, 1, at(4));
    assert_eq!(cache.get_with_hash(1, hash(1), at(4)), Some(&10));
    assert_eq!(cache.get_with_hash(2, hash(2), at(4)), Some(&25));
    assert_eq!(cache.get_with_hash(3, hash(3), at(4)), Some(&30));
}

#[test]
fn sketch_capacity_is_weighed_in_double_precision() {
    // 276 * (294 / 322) is 252, and 251.99999999999997 in double precision.
    assert_eq!(weighed_capacity_of(276, 294, 322), 251);
    assert_eq!(weighed_capacity_of(100, 50, 100), 50);
    assert_eq!(weighed_capacity_of(0, 5, 10), 0);
    assert_eq!(weighed_capacity_of(5, 0, 10), 0);
    assert_eq!(weighed_capacity_of(0, 0, 0), 0);
    assert_eq!(weighed_capacity_of(5, 7, 0), u64::MAX);
    assert_eq!(weighed_capacity_of(u64::MAX, u64::MAX, 1), u64::MAX);

    // As the processor reckons.
    let mut x: u64 = 0x9E37_79B9_7F4A_7C15;
    for round in 0..20_000u32 {
        let mut numbers = [0u64; 3];
        for n in numbers.iter_mut() {
            x = x.wrapping_mul(6_364_136_223_846_793_005).wrapping_add(1_442_695_040_888_963_407);
            *n = x >> (x >> 58);
        }
        if round % 2 == 0 {
            numbers = [numbers[0] % 1000, numbers[1] % 1000, numbers[2] % 1000];
        }
        let [count, weight, capacity] = numbers;
        let expected = (count as f64 * (weight as f64 / capacity as f64)) as u64;
        assert_eq!(weighed_capacity_of(count, weight, capacity), expected);
    }
}
