use moka::common::concurrent::entry_info::EntryInfo;
use moka::common::concurrent::KeyHash;
use moka::common::time::Instant;

fn make_entry_info() -> EntryInfo<u64> {
    let kh = KeyHash::new(42u64, 0xdead_beef);
    EntryInfo::new(kh, Instant::from_nanos(0), 1)
}

#[test]
fn lifecycle_initial_is_alive() {
    let info = make_entry_info();
    assert!(info.is_alive());
    assert!(!info.is_retired());
}

#[test]
fn lifecycle_retire_transitions_to_retired() {
    let mut info = make_entry_info();
    info.retire();
    assert!(!info.is_alive());
    assert!(info.is_retired());
}

#[test]
fn generations_tell_a_dirty_entry() {
    let mut info = make_entry_info();
    assert!(info.is_dirty());
    assert_eq!(info.entry_gen(), 1);
    info.set_policy_gen(1);
    assert!(!info.is_dirty());
    assert_eq!(info.incr_entry_gen(), 2);
    assert!(info.is_dirty());
}

#[test]
fn expiration_time_and_generation_are_kept() {
    let mut info = make_entry_info();
    assert_eq!(info.expiration_state().0, None);
    let first = info.expiration_state().1;
    // The last twelve bits of a time give way to the generation.
    let gen = info.set_expiration_time(Some(Instant::from_nanos(0x1234_5678)));
    assert_eq!(gen, (first + 1) % 4096);
    assert_eq!(info.expiration_state(), (Some(Instant::from_nanos(0x1234_5000)), gen));
    let next = info.set_expiration_time(None);
    assert_eq!(next, (gen + 1) % 4096);
    assert_eq!(info.expiration_state(), (None, next));
}

#[test]
fn weight_and_times_are_kept() {
    let mut info = make_entry_info();
    assert_eq!(info.policy_weight(), 1);
    info.set_policy_weight(9);
    assert_eq!(info.policy_weight(), 9);
    info.set_last_accessed(Instant::from_nanos(7));
    info.set_last_modified(Instant::from_nanos(8));
    assert_eq!(info.last_accessed(), Some(Instant::from_nanos(7)));
    assert_eq!(info.last_modified(), Some(Instant::from_nanos(8)));
    assert_eq!(info.key_hash().key, 42);
    assert_eq!(info.key_hash().hash, 0xdead_beef);
    assert!(!info.is_admitted());
    info.set_admitted(true);
    assert!(info.is_admitted());
}
