use count_min_sketch::CountMinSketch8;
use moka::lfu::{should_apply_reads, should_apply_writes, sketch_capacity, LFUCache};

const A: u64 = 1;
const B: u64 = 2;
const C: u64 = 3;
const D: u64 = 4;

fn cache_of<V>(capacity: usize) -> LFUCache<V> {
    let sketch = CountMinSketch8::<u64>::new(sketch_capacity(capacity), 0.95, 10.0);
    LFUCache::new(capacity, sketch.ok().unwrap())
}

#[test]
fn lfu_basic_single_thread() {
    let mut cache = cache_of(3);

    cache.insert(A, "alice");
    cache.insert(B, "bob");
    assert_eq!(cache.get(A), Some(&"alice"));
    assert_eq!(cache.get(B), Some(&"bob"));
    cache.sync();
    // counts: a -> 1, b -> 1

    cache.insert(C, "cindy");
    assert_eq!(cache.get(C), Some(&"cindy"));
    // counts: a -> 1, b -> 1, c -> 1
    cache.sync();

    assert_eq!(cache.get(A), Some(&"alice"));
    assert_eq!(cache.get(B), Some(&"bob"));
    cache.sync();
    // counts: a -> 2, b -> 2, c -> 1

    // "d" should not be admitted because its frequency is too low.
    cache.insert(D, "david"); //   count: d -> 0
    cache.sync();
    assert_eq!(cache.get(D), None); //        d -> 1

    cache.insert(D, "david");
    cache.sync();
    assert_eq!(cache.get(D), None); //        d -> 2

    // "d" should be admitted and "c" should be evicted
    // because d's frequency is higher than c's.
    cache.insert(D, "dennis");
    cache.sync();
    assert_eq!(cache.get(A), Some(&"alice"));
    assert_eq!(cache.get(B), Some(&"bob"));
    assert_eq!(cache.get(C), None);
    assert_eq!(cache.get(D), Some(&"dennis"));

    assert_eq!(cache.remove(B), Some(&"bob"));
    assert_eq!(cache.get(B), None);
    assert_eq!(cache.remove(B), None);
}

#[test]
fn lfu_keeps_its_capacity() {
    let mut cache = cache_of(2);
    for key in 0..10u64 {
        cache.insert(key, key * 10);
        cache.sync();
    }
    let kept = (0..10u64).filter(|k| cache.get(*k).is_some()).count();
    assert_eq!(kept, 2);
}

#[test]
fn lfu_housekeeping_points() {
    assert!(!should_apply_reads(47));
    assert!(should_apply_reads(48));
    assert!(should_apply_writes(128));
    assert!(!should_apply_writes(127));
}

#[test]
fn lfu_write_log_makes_room_by_itself() {
    let mut cache = cache_of(1000);
    for key in 0..500u64 {
        cache.insert(key, key);
    }
    for key in 0..500u64 {
        assert_eq!(cache.get(key), Some(&key));
    }
}

#[test]
fn many_waiting_keys_stay_within_the_capacity() {
    let mut cache = cache_of(3);
    for round in 0..10u64 {
        for key in 0..9u64 {
            cache.insert(round * 9 + key, key);
            cache.get(round * 9 + key);
            if key % 4 == 0 {
                cache.remove(round * 9 + key);
            }
        }
        cache.sync();
        let kept = (0..90).filter(|key| cache.get(*key).is_some()).count();
        assert!(kept <= 3);
    }
}
