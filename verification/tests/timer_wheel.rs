use std::time::Duration;

use moka::common::concurrent::entry_info::EntryInfo;
use moka::common::concurrent::entry_table::EntryTable;
use moka::common::concurrent::{KeyHash, ValueEntry};
use moka::common::time::Instant;
use moka::common::timer_wheel::{aligned_duration, spans, ReschedulingResult, TimerEvent, TimerEventsIter, TimerWheel};

fn bi(timer: &TimerWheel, now: Instant, nanos: u64) -> (usize, usize) {
    timer.bucket_indices(now.checked_add(Duration::from_nanos(nanos)).unwrap())
}

#[test]
fn test_bucket_indices() {
    let s = [spans(0), spans(1), spans(2), spans(3), spans(4)];
    let now = Instant::from_nanos(0);

    let mut timer = TimerWheel::new(now);
    timer.enable();

    assert_eq!(timer.bucket_indices(now), (0, 0));

    // Level 0: 1.07s
    assert_eq!(bi(&timer, now, s[0] - 1), (0, 0));
    assert_eq!(bi(&timer, now, s[0]), (0, 1));
    assert_eq!(bi(&timer, now, s[0] * 63), (0, 63));

    // Level 1: 1.14m
    assert_eq!(bi(&timer, now, s[0] * 64), (1, 1));
    assert_eq!(bi(&timer, now, s[1]), (1, 1));
    assert_eq!(bi(&timer, now, s[1] * 63 + s[0] * 63), (1, 63));

    // Level 2: 1.22h
    assert_eq!(bi(&timer, now, s[1] * 64), (2, 1));
    assert_eq!(bi(&timer, now, s[2]), (2, 1));
    assert_eq!(bi(&timer, now, s[2] * 31 + s[1] * 63 + s[0] * 63), (2, 31));

    // Level 3: 1.63dh
    assert_eq!(bi(&timer, now, s[2] * 32), (3, 1));
    assert_eq!(bi(&timer, now, s[3]), (3, 1));
    assert_eq!(bi(&timer, now, s[3] * 3), (3, 3));

    // Overflow
    assert_eq!(bi(&timer, now, s[3] * 4), (4, 0));
    assert_eq!(bi(&timer, now, s[4]), (4, 0));
    assert_eq!(bi(&timer, now, s[4] * 100), (4, 0));

    // Increment the clock by 5 ticks. (1 tick ~= 1.07s)
    let now = now.checked_add(Duration::from_nanos(s[0] * 5)).unwrap();
    timer.advance(now);

    // Level 0: 1.07s
    assert_eq!(bi(&timer, now, s[0] - 1), (0, 5));
    assert_eq!(bi(&timer, now, s[0]), (0, 6));
    assert_eq!(bi(&timer, now, s[0] * 63), (0, 4));

    // Level 1: 1.14m
    assert_eq!(bi(&timer, now, s[0] * 64), (1, 1));
    assert_eq!(bi(&timer, now, s[1]), (1, 1));
    assert_eq!(bi(&timer, now, s[1] * 63 + s[0] * (63 - 5)), (1, 63));

    // Increment the clock by 61 ticks. (total 66 ticks)
    let now = now.checked_add(Duration::from_nanos(s[0] * 61)).unwrap();
    timer.advance(now);

    // Level 0: 1.07s
    assert_eq!(bi(&timer, now, s[0] - 1), (0, 2));
    assert_eq!(bi(&timer, now, s[0]), (0, 3));
    assert_eq!(bi(&timer, now, s[0] * 63), (0, 1));

    // Level 1: 1.14m
    assert_eq!(bi(&timer, now, s[0] * 64), (1, 2));
    assert_eq!(bi(&timer, now, s[1]), (1, 2));
    assert_eq!(bi(&timer, now, s[1] * 63 + s[0] * (63 - 2)), (1, 0));
}

type Entries = EntryTable<u32, ()>;

fn schedule_timer(timer: &mut TimerWheel, entries: &mut Entries, key: u32, now: Instant, secs: u64) -> usize {
    let mut info = EntryInfo::new(KeyHash::new(key, key as u64), now, 0);
    let time = now.checked_add(Duration::from_secs(secs)).unwrap();
    let gen = info.set_expiration_time(Some(time));
    let e = entries.insert(ValueEntry::new((), info));
    timer.schedule(entries, e, gen);
    e
}

fn after(now: Instant, secs: u64) -> Instant {
    now.checked_add(Duration::from_secs(secs)).unwrap()
}

fn expired_key(iter: &mut TimerEventsIter, timer: &mut TimerWheel, entries: &mut Entries) -> u32 {
    match iter.next(timer, entries) {
        Some(TimerEvent::Expired(e)) => entries.get(e).info.key_hash.key,
        event => panic!("Expected an expired entry. Got {:?}", event),
    }
}

fn rescheduled_key(iter: &mut TimerEventsIter, timer: &mut TimerWheel, entries: &mut Entries) -> u32 {
    match iter.next(timer, entries) {
        Some(TimerEvent::Rescheduled(e)) => entries.get(e).info.key_hash.key,
        event => panic!("Expected a rescheduled entry. Got {:?}", event),
    }
}

/// Advances the wheel, and expects entries that expire, and entries that are rescheduled, in
/// this order.
fn advance(timer: &mut TimerWheel, entries: &mut Entries, now: Instant, expired: &[u32], rescheduled: &[u32]) {
    let mut iter = timer.advance(now);
    for key in expired {
        assert_eq!(expired_key(&mut iter, timer, entries), *key);
    }
    for key in rescheduled {
        assert_eq!(rescheduled_key(&mut iter, timer, entries), *key);
    }
    assert!(iter.next(timer, entries).is_none());
    iter.finish(timer);
}

#[test]
fn test_advance() {
    let mut entries: Entries = EntryTable::new();
    let now = after(Instant::from_nanos(0), 10);

    let mut timer = TimerWheel::new(now);
    timer.enable();

    // Add timers that will expire in some seconds.
    schedule_timer(&mut timer, &mut entries, 1, now, 5);
    schedule_timer(&mut timer, &mut entries, 2, now, 1);
    schedule_timer(&mut timer, &mut entries, 3, now, 63);
    schedule_timer(&mut timer, &mut entries, 4, now, 3);

    let now = after(now, 4);
    advance(&mut timer, &mut entries, now, &[2, 4], &[]);
    let now = after(now, 4);
    advance(&mut timer, &mut entries, now, &[1], &[]);
    let now = after(now, 64 - 8);
    advance(&mut timer, &mut entries, now, &[3], &[]);

    // Add timers that will expire in some minutes.
    const MINUTES: u64 = 60;
    schedule_timer(&mut timer, &mut entries, 1, now, 5 * MINUTES);
    schedule_timer(&mut timer, &mut entries, 2, now, MINUTES);
    schedule_timer(&mut timer, &mut entries, 3, now, 63 * MINUTES);
    schedule_timer(&mut timer, &mut entries, 4, now, 3 * MINUTES);

    let now = after(now, 4 * MINUTES);
    advance(&mut timer, &mut entries, now, &[2, 4], &[]);
    let now = after(now, 4 * MINUTES);
    advance(&mut timer, &mut entries, now, &[1], &[]);
    let now = after(now, (64 - 8) * MINUTES);
    advance(&mut timer, &mut entries, now, &[3], &[]);

    // Add timers that will expire in some hours.
    const HOURS: u64 = 60 * 60;
    schedule_timer(&mut timer, &mut entries, 1, now, 5 * HOURS);
    schedule_timer(&mut timer, &mut entries, 2, now, HOURS);
    schedule_timer(&mut timer, &mut entries, 3, now, 31 * HOURS);
    schedule_timer(&mut timer, &mut entries, 4, now, 3 * HOURS);

    let now = after(now, 4 * HOURS);
    advance(&mut timer, &mut entries, now, &[2, 4], &[1]);
    let now = after(now, 4 * HOURS);
    advance(&mut timer, &mut entries, now, &[1], &[]);
    let now = after(now, (32 - 8) * HOURS);
    advance(&mut timer, &mut entries, now, &[3], &[]);

    // Add timers that will expire in a few days.
    const DAYS: u64 = 24 * 60 * 60;
    schedule_timer(&mut timer, &mut entries, 1, now, 5 * DAYS);
    schedule_timer(&mut timer, &mut entries, 2, now, DAYS);
    schedule_timer(&mut timer, &mut entries, 3, now, 2 * DAYS);
    // Longer than ~6.5 days, so this should be stored in the overflow area.
    schedule_timer(&mut timer, &mut entries, 4, now, 8 * DAYS);

    let now = after(now, 3 * DAYS);
    advance(&mut timer, &mut entries, now, &[2, 3], &[]);
    let now = after(now, 3 * DAYS);
    advance(&mut timer, &mut entries, now, &[1], &[4]);
    let now = after(now, 3 * DAYS);
    advance(&mut timer, &mut entries, now, &[4], &[]);
}

#[test]
fn timers_are_descheduled_and_rescheduled() {
    let mut entries: Entries = EntryTable::new();
    let now = Instant::from_nanos(0);
    let mut timer = TimerWheel::new(now);
    timer.enable();

    let one = schedule_timer(&mut timer, &mut entries, 1, now, 5);
    let two = schedule_timer(&mut timer, &mut entries, 2, now, 5);
    let three = schedule_timer(&mut timer, &mut entries, 3, now, 5);

    // The first is taken out, the second is put off, and the third loses its time.
    timer.deschedule(&mut entries, one);
    entries.get_mut(two).info.set_expiration_time(Some(after(now, 60)));
    let put_off = timer.reschedule(&mut entries, two);
    assert!(matches!(put_off, ReschedulingResult::Rescheduled));
    entries.get_mut(three).info.set_expiration_time(None);
    let removed = timer.reschedule(&mut entries, three);
    assert!(matches!(removed, ReschedulingResult::Removed));

    advance(&mut timer, &mut entries, after(now, 10), &[], &[]);
    advance(&mut timer, &mut entries, after(now, 64), &[2], &[]);
}

#[test]
fn unfinished_run_goes_back() {
    let mut entries: Entries = EntryTable::new();
    let now = Instant::from_nanos(0);
    let mut timer = TimerWheel::new(now);
    timer.enable();
    schedule_timer(&mut timer, &mut entries, 1, now, 1);
    schedule_timer(&mut timer, &mut entries, 2, now, 1);

    let later = after(now, 4);
    let mut iter = timer.advance(later);
    assert_eq!(expired_key(&mut iter, &mut timer, &mut entries), 1);
    iter.finish(&mut timer);

    // The second entry is still to come.
    advance(&mut timer, &mut entries, later, &[2], &[]);
}

#[test]
fn one_event_of_each_timer() {
    let mut entries: Entries = EntryTable::new();
    let now = after(Instant::from_nanos(0), 10);
    let mut timer = TimerWheel::new(now);
    timer.enable();
    let delays = [1, 5, 64, 70, 90, 4000, 5000, 7000, 100_000, 200_000, 1_000_000];
    for (key, secs) in delays.iter().enumerate() {
        schedule_timer(&mut timer, &mut entries, key as u32, now, *secs);
    }

    let mut passed = 0;
    for step in [69, 4400, 95_000, 600_000] {
        passed += step;
        let mut seen = Vec::new();
        let mut iter = timer.advance(after(now, passed));
        while let Some(event) = iter.next(&mut timer, &mut entries) {
            let (e, is_expired) = match event {
                TimerEvent::Expired(e) => (e, true),
                TimerEvent::Rescheduled(e) => (e, false),
                TimerEvent::Descheduled(e) => panic!("Entry {} was descheduled", e),
            };
            let key = entries.get(e).info.key_hash.key;
            assert_eq!(is_expired, delays[key as usize] <= passed);
            assert!(!seen.contains(&key));
            seen.push(key);
        }
        assert!(iter.next(&mut timer, &mut entries).is_none());
        assert!(iter.next(&mut timer, &mut entries).is_none());
        iter.finish(&mut timer);
    }
}

#[test]
fn late_timer_gives_one_event() {
    let mut entries: Entries = EntryTable::new();
    let start = after(Instant::from_nanos(0), 10);
    let mut timer = TimerWheel::new(start);
    timer.enable();
    schedule_timer(&mut timer, &mut entries, 1, start, 500);
    advance(&mut timer, &mut entries, after(start, 100), &[], &[]);
    // The time of the second has passed already.
    schedule_timer(&mut timer, &mut entries, 2, start, 50);
    let mut events = 0;
    let mut iter = timer.advance(after(start, 200));
    while let Some(event) = iter.next(&mut timer, &mut entries) {
        if let TimerEvent::Expired(e) = event {
            assert_eq!(entries.get(e).info.key_hash.key, 2);
            events += 1;
        }
    }
    assert!(iter.next(&mut timer, &mut entries).is_none());
    iter.finish(&mut timer);
    assert_eq!(events, 1);
}

#[test]
fn durations_are_aligned() {
    assert_eq!(aligned_duration(Duration::from_secs(1)), spans(0));
    assert_eq!(aligned_duration(Duration::from_secs(60)), spans(1));
    assert_eq!(aligned_duration(Duration::from_secs(60 * 60)), spans(2));
    assert_eq!(aligned_duration(Duration::from_secs(60 * 60 * 24)), spans(3));
    assert_eq!(4 * aligned_duration(Duration::from_secs(60 * 60 * 24)), spans(4));
    assert_eq!(aligned_duration(Duration::from_nanos(0)), 1);
    assert_eq!(aligned_duration(Duration::from_nanos(1024)), 1024);
    assert_eq!(aligned_duration(Duration::from_nanos(1025)), 2048);
}
