use moka::common::entry::Entry;
use moka::future::entry_selector::OwnedKeyEntrySelector;
use moka::future::value_initializer::{
    post_init_for_get_with, post_init_for_optionally_get_with, post_init_for_try_get_with, InitAction,
    InitEvent, InitResult, Initialization, Outcome, WaiterSetting, WaiterValue, MAX_RETRIES,
};

type Event = InitEvent<u32, &'static str>;
type Action = InitAction<u32, &'static str>;

fn start() -> (Initialization<u32>, Action) {
    Initialization::new()
}

#[test]
fn owner_computes_and_stores_the_value() {
    let (init, action) = start();
    assert!(matches!(action, Action::InsertWaiter));
    let (init, action) = init.try_init_or_read(Event::WaiterInserted);
    assert!(matches!(action, Action::GetExisting));
    let (init, action) = init.try_init_or_read(Event::Existing(None));
    assert!(matches!(action, Action::ResolveInit));
    let (init, action) = init.try_init_or_read(Event::Resolved(Ok(7)));
    assert!(matches!(action, Action::InsertValue));
    assert_eq!(init.value(), Some(&7));
    let (_, action) = init.try_init_or_read(Event::ValueInserted);
    assert!(matches!(
        action,
        Action::Finish {
            waiter: WaiterSetting::Returned,
            outcome: Outcome::Return(InitResult::Initialized(7)),
        }
    ));
}

#[test]
fn owner_finds_the_value() {
    let (init, _) = start();
    let (init, _) = init.try_init_or_read(Event::WaiterInserted);
    let (_, action) = init.try_init_or_read(Event::Existing(Some(5)));
    assert!(matches!(
        action,
        Action::Finish {
            waiter: WaiterSetting::Returned,
            outcome: Outcome::Return(InitResult::ReadExisting(5)),
        }
    ));
}

#[test]
fn owner_returns_the_error() {
    let (init, _) = start();
    let (init, _) = init.try_init_or_read(Event::WaiterInserted);
    let (init, _) = init.try_init_or_read(Event::Existing(None));
    let (_, action) = init.try_init_or_read(Event::Resolved(Err("error")));
    assert!(matches!(
        action,
        Action::Finish {
            waiter: WaiterSetting::Returned,
            outcome: Outcome::Return(InitResult::InitErr("error")),
        }
    ));
}

#[test]
fn owner_panics_or_gives_up() {
    let (init, _) = start();
    let (init, _) = init.try_init_or_read(Event::WaiterInserted);
    let (init, _) = init.try_init_or_read(Event::Existing(None));
    let (_, action) = init.try_init_or_read(Event::Panicked);
    assert!(matches!(
        action,
        Action::Finish { waiter: WaiterSetting::InitFuturePanicked, outcome: Outcome::ResumeUnwind }
    ));

    let (init, _) = start();
    let (init, _) = init.try_init_or_read(Event::WaiterInserted);
    let (init, _) = init.try_init_or_read(Event::Existing(None));
    let (_, action) = init.try_init_or_read(Event::Aborted);
    assert!(matches!(
        action,
        Action::Finish { waiter: WaiterSetting::EnclosingFutureAborted, outcome: Outcome::Aborted }
    ));
}

#[test]
fn others_wait_for_the_value() {
    let (init, _) = start();
    let (init, action) = init.try_init_or_read(Event::WaiterExists);
    assert!(matches!(action, Action::ReadWaiter));
    let (_, action) = init.try_init_or_read(Event::Waiter(WaiterValue::Ready(Ok(9))));
    assert!(matches!(
        action,
        Action::Finish {
            waiter: WaiterSetting::NotOurs,
            outcome: Outcome::Return(InitResult::ReadExisting(9)),
        }
    ));

    let (init, _) = start();
    let (init, _) = init.try_init_or_read(Event::WaiterExists);
    let (_, action) = init.try_init_or_read(Event::Waiter(WaiterValue::Ready(Err("error"))));
    assert!(matches!(
        action,
        Action::Finish {
            waiter: WaiterSetting::NotOurs,
            outcome: Outcome::Return(InitResult::InitErr("error")),
        }
    ));

    let (init, _) = start();
    let (init, _) = init.try_init_or_read(Event::WaiterExists);
    let (_, action) = init.try_init_or_read(Event::Waiter(WaiterValue::Computing));
    assert!(matches!(action, Action::Finish { outcome: Outcome::UnexpectedComputing, .. }));
}

/// Waits for others who fail, until that is no longer allowed.
fn failures(value: fn() -> WaiterValue<u32, &'static str>) -> (usize, Action) {
    let (mut init, mut action) = start();
    let mut count = 0;
    while matches!(action, Action::InsertWaiter) {
        let (next, _) = init.try_init_or_read(Event::WaiterExists);
        (init, action) = next.try_init_or_read(Event::Waiter(value()));
        count += 1;
    }
    (count, action)
}

#[test]
fn others_retry_not_too_often() {
    let (count, action) = failures(|| WaiterValue::InitFuturePanicked);
    assert_eq!(count, MAX_RETRIES);
    assert!(matches!(action, Action::Finish { outcome: Outcome::TooManyPanics(200), .. }));

    let (count, action) = failures(|| WaiterValue::EnclosingFutureAborted);
    assert_eq!(count, MAX_RETRIES);
    assert!(matches!(action, Action::Finish { outcome: Outcome::TooManyAborts(200), .. }));
}

#[test]
fn results_are_turned_into_values() {
    assert_eq!(post_init_for_get_with(3), Ok(3));
    assert!(post_init_for_optionally_get_with(Some(3)).is_ok());
    assert!(post_init_for_optionally_get_with(None::<u32>).is_err());
    assert_eq!(post_init_for_try_get_with::<u32, &str>(Err("error")), Err("error"));
}

#[test]
fn outcome_tells_whether_the_entry_is_fresh() {
    let made: Entry<u64, u32> =
        OwnedKeyEntrySelector::new(1, 10).select::<u32, ()>(InitResult::Initialized(5), true).unwrap();
    assert!(made.is_fresh());
    assert!(made.is_old_value_replaced());
    assert_eq!(made.key(), &1);
    let first: Entry<u64, u32> =
        OwnedKeyEntrySelector::new(1, 10).select::<u32, ()>(InitResult::Initialized(5), false).unwrap();
    assert!(first.is_fresh());
    assert!(!first.is_old_value_replaced());
    let got: Entry<u64, u32> =
        OwnedKeyEntrySelector::new(1, 10).select::<u32, ()>(InitResult::ReadExisting(5), true).unwrap();
    assert!(!got.is_fresh());
    assert!(!got.is_old_value_replaced());
    assert_eq!(got.into_value(), 5);
    let failed = OwnedKeyEntrySelector::new(1, 10).select::<u32, &str>(InitResult::InitErr("error"), false);
    assert_eq!(failed.err(), Some("error"));
}

#[test]
fn one_of_two_computes() {
    let (first, _) = start();
    let (second, _) = start();
    let (first, action) = first.try_init_or_read(Event::WaiterInserted);
    assert!(matches!(action, Action::GetExisting));
    // The second finds the waiter of the first.
    let (second, action) = second.try_init_or_read(Event::WaiterExists);
    assert!(matches!(action, Action::ReadWaiter));
    let (first, action) = first.try_init_or_read(Event::Existing(None));
    assert!(matches!(action, Action::ResolveInit));
    let (first, _) = first.try_init_or_read(Event::Resolved(Ok(7)));
    let (_, action) = first.try_init_or_read(Event::ValueInserted);
    assert!(matches!(action, Action::Finish { waiter: WaiterSetting::Returned, .. }));
    let (_, action) = second.try_init_or_read(Event::Waiter(WaiterValue::Ready(Ok(7))));
    assert!(matches!(
        action,
        Action::Finish {
            waiter: WaiterSetting::NotOurs,
            outcome: Outcome::Return(InitResult::ReadExisting(7)),
        }
    ));
}

#[test]
fn panic_stays_with_its_caller_and_the_other_restarts() {
    let (first, _) = start();
    let (second, _) = start();
    let (first, _) = first.try_init_or_read(Event::WaiterInserted);
    let (second, _) = second.try_init_or_read(Event::WaiterExists);
    let (first, _) = first.try_init_or_read(Event::Existing(None));
    let (_, action) = first.try_init_or_read(Event::Panicked);
    assert!(matches!(
        action,
        Action::Finish { waiter: WaiterSetting::InitFuturePanicked, outcome: Outcome::ResumeUnwind }
    ));
    // The second begins anew, and computes the value.
    let (second, action) = second.try_init_or_read(Event::Waiter(WaiterValue::InitFuturePanicked));
    assert!(matches!(action, Action::InsertWaiter));
    let (second, _) = second.try_init_or_read(Event::WaiterInserted);
    let (second, action) = second.try_init_or_read(Event::Existing(None));
    assert!(matches!(action, Action::ResolveInit));
    let (second, _) = second.try_init_or_read(Event::Resolved(Ok(9)));
    let (_, action) = second.try_init_or_read(Event::ValueInserted);
    assert!(matches!(
        action,
        Action::Finish {
            waiter: WaiterSetting::Returned,
            outcome: Outcome::Return(InitResult::Initialized(9)),
        }
    ));
}
