use moka::notification::notifier::{
    BlockingRemovalNotifier, NotificationTask, NotifierState, RemovalNotifier, RemovedEntries, RemovedEntry,
    TaskAction,
};
use moka::notification::{Configuration, DeliveryMode, RemovalCause};

#[test]
fn causes_of_eviction() {
    assert!(RemovalCause::Expired.was_evicted());
    assert!(RemovalCause::Size.was_evicted());
    assert!(!RemovalCause::Explicit.was_evicted());
    assert!(!RemovalCause::Replaced.was_evicted());
}

#[test]
fn delivery_mode_is_chosen() {
    let immediate = Configuration::builder().delivery_mode(DeliveryMode::Immediate).build();
    assert!(RemovalNotifier::new(immediate).is_blocking());
    assert!(!RemovalNotifier::new(immediate).is_batching_supported());
    let queued = Configuration::builder().delivery_mode(DeliveryMode::Queued).build();
    assert!(RemovalNotifier::new(queued).is_batching_supported());
    assert_eq!(Configuration::default().delivery_mode(), DeliveryMode::default());
}

#[test]
fn blocking_listener_is_silent_after_a_panic() {
    let mut notifier = BlockingRemovalNotifier::new();
    notifier.notified(false);
    assert!(notifier.should_notify());
    notifier.notified(true);
    assert!(!notifier.should_notify());
    notifier.notified(false);
    assert!(!notifier.should_notify());
}

#[test]
fn one_task_at_a_time() {
    let mut state = NotifierState::new();
    assert!(state.submit_task());
    assert!(!state.submit_task());
    let task = NotificationTask::start(&state).unwrap();
    task.finish(&mut state);
    assert!(!state.is_running());
    assert!(!state.submit_task_if_necessary(0));
    assert!(state.submit_task_if_necessary(1000));
    state.shutdown();
    let task = NotificationTask::start(&state).unwrap();
    task.finish(&mut state);
    assert!(!state.submit_task());
}

#[test]
fn task_stops_after_a_panic() {
    let mut state = NotifierState::new();
    state.submit_task();
    let mut task = NotificationTask::start(&state).unwrap();
    assert_eq!(task.notified(false, false, false), TaskAction::NextEntry);
    assert_eq!(task.notified(false, true, false), TaskAction::NextBatch);
    assert_eq!(task.notified_single(false, false), TaskAction::NextBatch);
    assert_eq!(task.count, 3);
    assert_eq!(task.notified_single(true, false), TaskAction::Finish);
    assert_eq!(task.count, 3);
    task.finish(&mut state);
    assert!(!state.is_enabled());
    assert!(NotificationTask::start(&state).is_none());
    assert!(!state.submit_task());
}

#[test]
fn panic_in_a_batch_ends_the_batch() {
    let mut state = NotifierState::new();
    state.submit_task();
    let mut task = NotificationTask::start(&state).unwrap();
    assert_eq!(task.notified(true, false, false), TaskAction::NextBatch);
    assert_eq!(task.notified(false, false, false), TaskAction::NextEntry);
    assert_eq!(task.notified(true, false, true), TaskAction::Finish);
    task.finish(&mut state);
    // No other task is started.
    assert!(!state.is_enabled());
    assert!(!state.submit_task());

    let mut task = NotificationTask::start(&NotifierState::new()).unwrap();
    assert_eq!(task.notified(false, false, true), TaskAction::Finish);
    assert_eq!(task.count, 0);
}

#[test]
fn task_stops_when_it_has_told_enough() {
    let state = NotifierState::new();
    let mut task = NotificationTask::start(&state).unwrap();
    let mut told = 0;
    while task.notified_single(false, false) == TaskAction::NextBatch {
        told += 1;
    }
    assert_eq!(told, 5000);
    assert_eq!(task.batch_done(false), TaskAction::Finish);
}

#[test]
fn removed_entries_are_kept() {
    let one = RemovedEntries::new_single(1, "a", RemovalCause::Size);
    match one {
        RemovedEntries::Single(entry) => assert_eq!((entry.key, entry.value), (1, "a")),
        RemovedEntries::Multi(_) => panic!("one entry"),
    }
    let many = RemovedEntries::new_multi(vec![RemovedEntry::new(2, "b", RemovalCause::Explicit)]);
    match many {
        RemovedEntries::Single(_) => panic!("many entries"),
        RemovedEntries::Multi(entries) => assert_eq!(entries.len(), 1),
    }
}
