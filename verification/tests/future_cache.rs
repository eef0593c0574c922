use std::time::Duration;

use moka::common::error::PredicateRegistrationError;
use moka::common::time::Instant;
use moka::future::builder::CacheBuilder;
use moka::future::cache::Cache;
use moka::notification::RemovalCause;
use moka::sync::ConcurrentCacheExt;

const A: u64 = 1;
const B: u64 = 2;
const C: u64 = 3;
const D: u64 = 4;

type Weigher<V> = fn(&u64, &V) -> u32;
type Listener = fn(u64);

/// A cache, a clock, and hashes of keys.
struct Context<V> {
    cache: Cache<V, Weigher<V>, Listener>,
    now: Instant,
}

fn hash(key: u64) -> u64 {
    key.wrapping_mul(0x9E37_79B9_7F4A_7C15)
}

impl<V: Copy> Context<V> {
    fn new(cache: Cache<V, Weigher<V>, Listener>) -> Self {
        let mut cache = cache;
        cache.reconfigure_for_testing();
        Context { cache, now: Instant::from_nanos(0) }
    }

    fn insert(&mut self, key: u64, value: V) {
        self.cache.insert(key, hash(key), value, self.now);
    }

    fn get(&mut self, key: u64) -> Option<V> {
        self.cache.get(key, hash(key), self.now).copied()
    }

    fn contains_key(&self, key: u64) -> bool {
        self.cache.contains_key(key, self.now)
    }

    fn invalidate(&mut self, key: u64) {
        self.cache.invalidate(key, self.now);
    }

    fn sync(&mut self) {
        self.cache.sync(self.now);
    }

    fn increment(&mut self, secs: u64) {
        self.now = self.now.checked_add(Duration::from_secs(secs)).unwrap();
    }
}

#[test]
fn basic_single_async_task() {
    let mut cache = Context::new(Cache::new(3));

    cache.insert(A, "alice");
    cache.insert(B, "bob");
    assert_eq!(cache.get(A), Some("alice"));
    assert!(cache.contains_key(A));
    assert!(cache.contains_key(B));
    assert_eq!(cache.get(B), Some("bob"));
    cache.sync();
    // counts: a -> 1, b -> 1

    cache.insert(C, "cindy");
    assert_eq!(cache.get(C), Some("cindy"));
    assert!(cache.contains_key(C));
    // counts: a -> 1, b -> 1, c -> 1
    cache.sync();

    assert!(cache.contains_key(A));
    assert_eq!(cache.get(A), Some("alice"));
    assert_eq!(cache.get(B), Some("bob"));
    assert!(cache.contains_key(B));
    cache.sync();
    // counts: a -> 2, b -> 2, c -> 1

    // "d" should not be admitted because its frequency is too low.
    cache.insert(D, "david"); //   count: d -> 0
    cache.sync();
    assert_eq!(cache.get(D), None); //   d -> 1
    assert!(!cache.contains_key(D));

    cache.insert(D, "david");
    cache.sync();
    assert!(!cache.contains_key(D));
    assert_eq!(cache.get(D), None); //   d -> 2

    // "d" should be admitted and "c" should be evicted
    // because d's frequency is higher than c's.
    cache.insert(D, "dennis");
    cache.sync();
    assert_eq!(cache.get(A), Some("alice"));
    assert_eq!(cache.get(B), Some("bob"));
    assert_eq!(cache.get(C), None);
    assert_eq!(cache.get(D), Some("dennis"));
    assert!(cache.contains_key(A));
    assert!(cache.contains_key(B));
    assert!(!cache.contains_key(C));
    assert!(cache.contains_key(D));

    cache.invalidate(B);
    assert_eq!(cache.get(B), None);
    assert!(!cache.contains_key(B));
}

#[test]
fn basic_single_blocking_api() {
    let mut cache = Context::new(Cache::new(3));

    cache.insert(A, "alice");
    cache.insert(B, "bob");
    assert_eq!(cache.get(A), Some("alice"));
    assert_eq!(cache.get(B), Some("bob"));
    cache.sync();
    // counts: a -> 1, b -> 1

    cache.insert(C, "cindy");
    assert_eq!(cache.get(C), Some("cindy"));
    // counts: a -> 1, b -> 1, c -> 1
    cache.sync();

    assert_eq!(cache.get(A), Some("alice"));
    assert_eq!(cache.get(B), Some("bob"));
    cache.sync();
    // counts: a -> 2, b -> 2, c -> 1

    // "d" should not be admitted because its frequency is too low.
    cache.insert(D, "david"); //   count: d -> 0
    cache.sync();
    assert_eq!(cache.get(D), None); //   d -> 1

    cache.insert(D, "david");
    cache.sync();
    assert_eq!(cache.get(D), None); //   d -> 2

    // "d" should be admitted and "c" should be evicted
    // because d's frequency is higher than c's.
    cache.insert(D, "dennis");
    cache.sync();
    assert_eq!(cache.get(A), Some("alice"));
    assert_eq!(cache.get(B), Some("bob"));
    assert_eq!(cache.get(C), None);
    assert_eq!(cache.get(D), Some("dennis"));

    cache.invalidate(B);
    assert_eq!(cache.get(B), None);
}

fn weigh(_k: &u64, v: &(&'static str, u32)) -> u32 {
    v.1
}

#[test]
fn size_aware_eviction() {
    let alice = ("alice", 10);
    let bob = ("bob", 15);
    let bill = ("bill", 20);
    let cindy = ("cindy", 5);
    let david = ("david", 15);
    let dennis = ("dennis", 15);

    let weigher: Weigher<(&'static str, u32)> = weigh;
    let cache = CacheBuilder::<Weigher<()>, Listener>::default().max_capacity(31).weigher(weigher).build();
    let mut cache = Context::new(cache.ok().unwrap());

    cache.insert(A, alice);
    cache.insert(B, bob);
    assert_eq!(cache.get(A), Some(alice));
    assert!(cache.contains_key(A));
    assert!(cache.contains_key(B));
    assert_eq!(cache.get(B), Some(bob));
    cache.sync();
    // order (LRU -> MRU) and counts: a -> 1, b -> 1

    cache.insert(C, cindy);
    assert_eq!(cache.get(C), Some(cindy));
    assert!(cache.contains_key(C));
    // order and counts: a -> 1, b -> 1, c -> 1
    cache.sync();

    assert!(cache.contains_key(A));
    assert_eq!(cache.get(A), Some(alice));
    assert_eq!(cache.get(B), Some(bob));
    assert!(cache.contains_key(B));
    cache.sync();
    // order and counts: c -> 1, a -> 2, b -> 2

    // To enter "d" (weight: 15), it needs to evict "c" (w: 5) and "a" (w: 10).
    // "d" must have higher count than 3, which is the aggregated count
    // of "a" and "c".
    cache.insert(D, david); //   count: d -> 0
    cache.sync();
    assert_eq!(cache.get(D), None); //   d -> 1
    assert!(!cache.contains_key(D));

    cache.insert(D, david);
    cache.sync();
    assert!(!cache.contains_key(D));
    assert_eq!(cache.get(D), None); //   d -> 2

    cache.insert(D, david);
    cache.sync();
    assert_eq!(cache.get(D), None); //   d -> 3
    assert!(!cache.contains_key(D));

    cache.insert(D, david);
    cache.sync();
    assert!(!cache.contains_key(D));
    assert_eq!(cache.get(D), None); //   d -> 4

    // Finally "d" should be admitted by evicting "c" and "a".
    cache.insert(D, dennis);
    cache.sync();
    assert_eq!(cache.get(A), None);
    assert_eq!(cache.get(B), Some(bob));
    assert_eq!(cache.get(C), None);
    assert_eq!(cache.get(D), Some(dennis));
    assert!(!cache.contains_key(A));
    assert!(cache.contains_key(B));
    assert!(!cache.contains_key(C));
    assert!(cache.contains_key(D));

    // Update "b" with "bill" (w: 15 -> 20). This should evict "d" (w: 15).
    cache.insert(B, bill);
    cache.sync();
    assert_eq!(cache.get(B), Some(bill));
    assert_eq!(cache.get(D), None);
    assert!(cache.contains_key(B));
    assert!(!cache.contains_key(D));

    // Re-add "a" (w: 10) and update "b" with "bob" (w: 20 -> 15).
    cache.insert(A, alice);
    cache.insert(B, bob);
    cache.sync();
    assert_eq!(cache.get(A), Some(alice));
    assert_eq!(cache.get(B), Some(bob));
    assert_eq!(cache.get(D), None);
    assert!(cache.contains_key(A));
    assert!(cache.contains_key(B));
    assert!(!cache.contains_key(D));

    // Verify the sizes.
    assert_eq!(cache.cache.estimated_entry_count(), 2);
    assert_eq!(cache.cache.weighted_size(), 25);
}

#[test]
fn too_heavy_entry_stays_out() {
    let weigher: Weigher<(&'static str, u32)> = weigh;
    let cache = CacheBuilder::<Weigher<()>, Listener>::new(31).weigher(weigher).build();
    let mut cache = Context::new(cache.ok().unwrap());
    cache.insert(A, ("alice", 32));
    // It is there until the policies know of it.
    assert_eq!(cache.get(A), Some(("alice", 32)));
    cache.sync();
    assert_eq!(cache.get(A), None);
    assert_eq!(cache.cache.weighted_size(), 0);
}

#[test]
fn invalidate_all() {
    let mut cache = Context::new(Cache::new(100));

    cache.insert(A, "alice");
    cache.insert(B, "bob");
    cache.insert(C, "cindy");
    assert_eq!(cache.get(A), Some("alice"));
    assert_eq!(cache.get(B), Some("bob"));
    assert_eq!(cache.get(C), Some("cindy"));
    assert!(cache.contains_key(A));
    assert!(cache.contains_key(B));
    assert!(cache.contains_key(C));
    cache.sync();

    cache.now = Instant::from_nanos(1);
    cache.cache.invalidate_all(cache.now);
    cache.sync();

    cache.insert(D, "david");
    cache.sync();

    assert!(cache.get(A).is_none());
    assert!(cache.get(B).is_none());
    assert!(cache.get(C).is_none());
    assert_eq!(cache.get(D), Some("david"));
    assert!(!cache.contains_key(A));
    assert!(!cache.contains_key(B));
    assert!(!cache.contains_key(C));
    assert!(cache.contains_key(D));
}

#[test]
fn time_to_live() {
    let cache = CacheBuilder::<Weigher<&'static str>, Listener>::default()
        .max_capacity(100)
        .time_to_live(Duration::from_secs(10))
        .build();
    let mut cache = Context::new(cache.ok().unwrap());

    cache.insert(A, "alice");
    cache.sync();

    cache.increment(5); // 5 secs from the start.
    cache.sync();

    assert_eq!(cache.get(A), Some("alice"));
    assert!(cache.contains_key(A));

    cache.increment(5); // 10 secs.
    cache.sync();

    assert_eq!(cache.get(A), None);
    assert!(!cache.contains_key(A));
    assert!(cache.cache.is_table_empty());

    cache.insert(B, "bob");
    cache.sync();

    assert_eq!(cache.cache.estimated_entry_count(), 1);

    cache.increment(5); // 15 secs.
    cache.sync();

    assert_eq!(cache.get(B), Some("bob"));
    assert!(cache.contains_key(B));
    assert_eq!(cache.cache.estimated_entry_count(), 1);

    cache.insert(B, "bill");
    cache.sync();

    cache.increment(5); // 20 secs
    cache.sync();

    assert_eq!(cache.get(B), Some("bill"));
    assert!(cache.contains_key(B));
    assert_eq!(cache.cache.estimated_entry_count(), 1);

    cache.increment(5); // 25 secs
    cache.sync();

    assert_eq!(cache.get(A), None);
    assert_eq!(cache.get(B), None);
    assert!(!cache.contains_key(A));
    assert!(!cache.contains_key(B));
    assert!(cache.cache.is_table_empty());
}

#[test]
fn time_to_idle() {
    let cache = CacheBuilder::<Weigher<&'static str>, Listener>::default()
        .max_capacity(100)
        .time_to_idle(Duration::from_secs(10))
        .build();
    let mut cache = Context::new(cache.ok().unwrap());

    cache.insert(A, "alice");
    cache.sync();

    cache.increment(5); // 5 secs from the start.
    cache.sync();

    assert_eq!(cache.get(A), Some("alice"));

    cache.increment(5); // 10 secs.
    cache.sync();

    cache.insert(B, "bob");
    cache.sync();

    assert_eq!(cache.cache.estimated_entry_count(), 2);

    cache.increment(2); // 12 secs.
    cache.sync();

    // contains_key does not reset the idle timer for the key.
    assert!(cache.contains_key(A));
    assert!(cache.contains_key(B));
    cache.sync();

    assert_eq!(cache.cache.estimated_entry_count(), 2);

    cache.increment(3); // 15 secs.
    cache.sync();

    assert_eq!(cache.get(A), None);
    assert_eq!(cache.get(B), Some("bob"));
    assert!(!cache.contains_key(A));
    assert!(cache.contains_key(B));
    assert_eq!(cache.cache.estimated_entry_count(), 1);

    cache.increment(10); // 25 secs
    cache.sync();

    assert_eq!(cache.get(A), None);
    assert_eq!(cache.get(B), None);
    assert!(!cache.contains_key(A));
    assert!(!cache.contains_key(B));
    assert!(cache.cache.is_table_empty());
}

#[test]
fn invalidate_entries_if() {
    let cache = CacheBuilder::<Weigher<&'static str>, Listener>::default()
        .max_capacity(100)
        .support_invalidation_closures()
        .build();
    let mut cache = Context::new(cache.ok().unwrap());

    cache.insert(0, "alice");
    cache.insert(1, "bob");
    cache.insert(2, "alex");
    cache.sync();

    cache.increment(5); // 5 secs from the start.
    cache.sync();

    assert_eq!(cache.get(0), Some("alice"));
    assert_eq!(cache.get(1), Some("bob"));
    assert_eq!(cache.get(2), Some("alex"));
    assert!(cache.contains_key(0));
    assert!(cache.contains_key(1));
    assert!(cache.contains_key(2));

    let names = ["alice", "alex"];
    let now = cache.now;
    let id = cache.cache.invalidate_entries_if(|_k, v| names.contains(v), "first".to_string(), now);
    assert_eq!(id, Ok("first".to_string()));
    assert_eq!(cache.cache.invalidation_predicate_count(), 1);

    cache.increment(5); // 10 secs from the start.

    cache.insert(3, "alice");
    cache.sync();

    assert!(cache.get(0).is_none());
    assert!(cache.get(2).is_none());
    assert_eq!(cache.get(1), Some("bob"));
    // This should survive as it was inserted after calling invalidate_entries_if.
    assert_eq!(cache.get(3), Some("alice"));

    assert!(!cache.contains_key(0));
    assert!(cache.contains_key(1));
    assert!(!cache.contains_key(2));
    assert!(cache.contains_key(3));

    assert_eq!(cache.cache.estimated_entry_count(), 2);
    assert_eq!(cache.cache.invalidation_predicate_count(), 0);

    cache.increment(5); // 15 secs from the start.

    let now = cache.now;
    let id = cache.cache.invalidate_entries_if(|_k, v| *v == "alice", "second".to_string(), now);
    assert_eq!(id, Ok("second".to_string()));
    let id = cache.cache.invalidate_entries_if(|_k, v| *v == "bob", "third".to_string(), now);
    assert_eq!(id, Ok("third".to_string()));
    assert_eq!(cache.cache.invalidation_predicate_count(), 2);

    cache.sync();

    assert!(cache.get(1).is_none());
    assert!(cache.get(3).is_none());

    assert!(!cache.contains_key(1));
    assert!(!cache.contains_key(3));

    assert_eq!(cache.cache.estimated_entry_count(), 0);
    assert_eq!(cache.cache.invalidation_predicate_count(), 0);
}

#[test]
fn closures_must_be_supported() {
    let mut cache = Context::new(Cache::new(100));
    cache.insert(0, "alice");
    let now = cache.now;
    assert_eq!(
        cache.cache.invalidate_entries_if(|_k, _v| true, "none".to_string(), now),
        Err(PredicateRegistrationError::InvalidationClosuresDisabled)
    );
    assert_eq!(cache.cache.invalidation_predicate_count(), 0);
    assert_eq!(cache.get(0), Some("alice"));
}

#[test]
fn missing_value_is_computed_once() {
    let mut c = Context::new(Cache::new(100));
    let now = c.now;
    assert_eq!(c.cache.get_with(A, hash(A), || 3, now), &3);
    // The value is there: nothing is computed.
    assert_eq!(c.cache.get_with(A, hash(A), || 6, now), &3);
    assert_eq!(c.cache.get_or_insert_with(A, hash(A), || 6, now), &3);
    c.invalidate(A);
    assert_eq!(c.cache.get_or_insert_with(A, hash(A), || 6, now), &6);
}

#[test]
fn computation_may_fail() {
    let mut c = Context::new(Cache::new(100));
    let now = c.now;
    assert_eq!(c.cache.try_get_with(A, hash(A), || Err("error"), now), Err("error"));
    assert!(!c.contains_key(A));
    assert_eq!(c.cache.try_get_with::<&str, _>(A, hash(A), || Ok(3), now), Ok(&3));
    assert_eq!(c.cache.get_or_try_insert_with(A, hash(A), || Err("error"), now), Ok(&3));
    assert_eq!(c.cache.optionally_get_with(B, hash(B), || None, now), None);
    assert!(!c.contains_key(B));
    assert_eq!(c.cache.optionally_get_with(B, hash(B), || Some(5), now), Some(&5));
    assert_eq!(c.cache.optionally_get_with(B, hash(B), || None, now), Some(&5));
}

#[test]
fn entries_are_got_or_made() {
    let mut c: Context<u32> = Context::new(Cache::new(100));
    let now = c.now;
    let cache = &mut c.cache;

    let entry = cache.entry(A, hash(A)).or_insert(cache, 3, now);
    assert!(entry.is_fresh());
    assert!(!entry.is_old_value_replaced());
    assert_eq!(entry.key(), &A);
    assert_eq!(entry.into_value(), &3);

    let entry = cache.entry(A, hash(A)).or_insert(cache, 6, now);
    // Not fresh because the value was already in the cache.
    assert!(!entry.is_fresh());
    assert_eq!(entry.into_value(), &3);

    let entry = cache.entry(B, hash(B)).or_default(cache, now);
    assert!(entry.is_fresh());
    assert_eq!(entry.into_value(), &0);

    let entry = cache.entry(A, hash(A)).or_insert_with_if(cache, || 9, |v| *v == 4, now);
    assert!(!entry.is_fresh());
    assert_eq!(entry.into_value(), &3);

    let entry = cache.entry(A, hash(A)).or_insert_with_if(cache, || 9, |v| *v == 3, now);
    assert!(entry.is_fresh());
    assert!(entry.is_old_value_replaced());
    assert_eq!(entry.into_value(), &9);

    let none_entry = cache.entry(C, hash(C)).or_optionally_insert_with(cache, || None, now);
    assert!(none_entry.is_none());
    let some_entry = cache.entry(C, hash(C)).or_optionally_insert_with(cache, || Some(3), now);
    let entry = some_entry.unwrap();
    assert!(entry.is_fresh());
    assert_eq!(entry.into_value(), &3);

    let error_entry = cache.entry(D, hash(D)).or_try_insert_with(cache, || Err("error"), now);
    assert!(error_entry.is_err());
    let ok_entry = cache.entry(D, hash(D)).or_try_insert_with::<_, _, _, &str, _>(cache, || Ok(3), now);
    assert!(ok_entry.unwrap().is_fresh());
}

#[test]
fn entries_of_borrowed_keys() {
    let mut c: Context<u32> = Context::new(Cache::new(100));
    let now = c.now;
    let cache = &mut c.cache;
    let key = A;

    let entry = cache.entry_by_ref(&key, hash(key)).or_insert_with(cache, || 3, now);
    assert!(entry.is_fresh());
    assert_eq!(entry.key(), &key);
    let entry = cache.entry_by_ref(&key, hash(key)).or_default(cache, now);
    assert!(!entry.is_fresh());
    assert_eq!(entry.into_value(), &3);
    let entry = cache.entry_by_ref(&key, hash(key)).or_insert(cache, 7, now);
    assert_eq!(entry.into_value(), &3);
    let entry = cache.entry_by_ref(&key, hash(key)).or_insert_with_if(cache, || 8, |_| true, now);
    assert_eq!(entry.into_value(), &8);
    let entry = cache.entry_by_ref(&B, hash(B)).or_optionally_insert_with(cache, || Some(1), now);
    assert_eq!(entry.unwrap().into_value(), &1);
    let entry = cache.entry_by_ref(&C, hash(C)).or_try_insert_with(cache, || Err("error"), now);
    assert_eq!(entry.err(), Some("error"));
}

#[test]
fn full_write_log_is_worked_off() {
    let mut c: Context<u64> = Context::new(Cache::new(10_000));
    for key in 0..5000u64 {
        c.insert(key, key);
    }
    for key in 0..5000u64 {
        assert_eq!(c.get(key), Some(key));
    }
    assert!(c.cache.is_sync_due());
    c.sync();
    assert!(!c.cache.is_sync_due());
    assert_eq!(c.cache.estimated_entry_count(), 5000);
    let mut keys = c.cache.keys();
    keys.sort();
    assert_eq!(keys.len(), 5000);
    assert_eq!(c.cache.peek(4999), Some(&4999));
}

#[test]
fn times_are_counted_from_the_write() {
    // Entries expire and are invalidated, though no housekeeping was done.
    let cache = CacheBuilder::<Weigher<&'static str>, Listener>::new(100)
        .time_to_live(Duration::from_secs(10))
        .build();
    let mut cache = Context::new(cache.ok().unwrap());
    cache.insert(A, "alice");
    cache.increment(9);
    assert!(cache.contains_key(A));
    cache.increment(1);
    assert!(!cache.contains_key(A));

    let mut cache = Context::new(Cache::new(100));
    cache.insert(A, "alice");
    cache.increment(1);
    let now = cache.now;
    cache.cache.invalidate_all(now);
    assert_eq!(cache.get(A), None);
    cache.insert(B, "bob");
    assert_eq!(cache.get(B), Some("bob"));

    // A read counts as a use at once.
    let cache = CacheBuilder::<Weigher<&'static str>, Listener>::new(100)
        .time_to_idle(Duration::from_secs(10))
        .build();
    let mut cache = Context::new(cache.ok().unwrap());
    cache.insert(A, "alice");
    cache.increment(9);
    assert_eq!(cache.get(A), Some("alice"));
    cache.increment(9);
    assert_eq!(cache.get(A), Some("alice"));
    cache.increment(10);
    assert_eq!(cache.get(A), None);
}

#[test]
fn removals_have_their_causes() {
    let cache = CacheBuilder::<Weigher<&'static str>, Listener>::new(100)
        .time_to_live(Duration::from_secs(10))
        .build();
    let mut cache = Context::new(cache.ok().unwrap());
    cache.insert(A, "alice");
    cache.increment(5);
    cache.insert(B, "bob");
    let size = RemovalCause::Size;
    let now = cache.now;
    assert_eq!(cache.cache.removal_cause(A, now, size), Some(RemovalCause::Size));
    assert_eq!(cache.cache.removal_cause(A, now, RemovalCause::Replaced), Some(RemovalCause::Replaced));
    assert_eq!(cache.cache.removal_cause(C, now, size), None);

    cache.increment(5);
    let now = cache.now;
    assert_eq!(cache.cache.removal_cause(A, now, size), Some(RemovalCause::Expired));
    assert_eq!(cache.cache.removal_cause(B, now, size), Some(RemovalCause::Size));

    cache.cache.invalidate_all(now);
    assert_eq!(cache.cache.removal_cause(A, now, size), Some(RemovalCause::Expired));
    assert_eq!(cache.cache.removal_cause(B, now, size), Some(RemovalCause::Explicit));
}

#[test]
fn housekeeping_bounds_the_weight() {
    let weigher: Weigher<(&'static str, u32)> = weigh;
    let cache = CacheBuilder::<Weigher<()>, Listener>::new(31).weigher(weigher).build();
    let mut cache = Context::new(cache.ok().unwrap());
    for round in 0..40u64 {
        let key = round % 7;
        cache.insert(key, ("a", 1 + (round % 13) as u32));
        cache.sync();
        assert!(cache.cache.weighted_size() <= 31);
        cache.get(key);
        if round % 5 == 0 {
            cache.invalidate(key);
            cache.sync();
            assert!(!cache.contains_key(key));
            assert!(cache.cache.weighted_size() <= 31);
        }
    }
    // An entry that grows makes others go.
    cache.insert(A, ("a", 1));
    cache.sync();
    cache.insert(A, ("a", 31));
    cache.sync();
    assert!(cache.cache.weighted_size() <= 31);
}

#[test]
fn predicate_spares_other_entries() {
    let cache = CacheBuilder::<Weigher<&'static str>, Listener>::new(100)
        .support_invalidation_closures()
        .build();
    let mut cache = Context::new(cache.ok().unwrap());
    cache.insert(A, "alice");
    cache.insert(B, "bob");
    let now = cache.now;
    let id = cache.cache.invalidate_entries_if(|k, _v| *k == A, "one".to_string(), now);
    assert!(id.is_ok());
    assert_eq!(cache.get(A), None);
    assert_eq!(cache.get(B), Some("bob"));
    cache.sync();
    assert_eq!(cache.get(B), Some("bob"));
    cache.insert(A, "again");
    assert_eq!(cache.get(A), Some("again"));
}

#[test]
fn housekeeping_bounds_the_weight_of_many_writes() {
    let weigher: Weigher<(&'static str, u32)> = weigh;
    let cache = CacheBuilder::<Weigher<()>, Listener>::new(31).weigher(weigher).build();
    let mut cache = Context::new(cache.ok().unwrap());

    // Many new entries wait.
    for key in 0..40u64 {
        cache.insert(key, ("a", 1 + (key % 7) as u32));
        assert!(cache.contains_key(key));
    }
    assert_eq!(cache.cache.write_log_len(), 40);
    cache.sync();
    assert_eq!(cache.cache.write_log_len(), 0);
    assert!(cache.cache.weighted_size() <= 31);
    let kept: Vec<u64> = (0..40).filter(|key| cache.contains_key(*key)).collect();
    assert_eq!(kept.len() as u64, cache.cache.estimated_entry_count());

    // Many updates wait, more than one of a key.
    for round in 0..5u32 {
        for key in &kept {
            cache.insert(*key, ("b", 1 + (round + *key as u32) % 9));
        }
    }
    cache.sync();
    assert!(cache.cache.weighted_size() <= 31);

    // Writes of all kinds wait.
    for round in 0..20u64 {
        for step in 0..6u64 {
            let key = 50 + round * 6 + step;
            cache.insert(key, ("c", 1 + (key % 5) as u32));
            cache.get(key);
            if step % 3 == 0 {
                cache.invalidate(key);
            }
        }
        cache.sync();
        assert!(cache.cache.weighted_size() <= 31);
        let weight: u64 = cache.cache.keys().iter().map(|key| cache.cache.peek(*key).unwrap().1 as u64).sum();
        assert_eq!(weight, cache.cache.weighted_size());
    }
}
