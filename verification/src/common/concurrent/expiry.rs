//! Whether an entry is expired or invalidated at a given time.
use std::time::Duration;

use vstd::prelude::*;

use super::entry_info::EntryInfo;
use crate::common::time::{duration_nanos, saturating_after, Instant};

verus! {

/// An entry last touched at `ts` has lived, or idled, for `limit` at the time `now`.
pub open spec fn expired_by(limit: Option<Duration>, ts: Instant, now: Instant) -> bool {
    limit is Some && saturating_after(ts, duration_nanos(limit->0) as nat).nanos <= now.nanos
}

/// An entry last touched at `ts` is older than the time from which entries are valid.
pub open spec fn invalid_at(valid_after: Option<Instant>, ts: Instant) -> bool {
    valid_after is Some && ts.nanos < valid_after->0.nanos
}

/// An entry last touched at `ts`, when that is known, is expired or invalidated.
pub open spec fn expired_or_invalid(
    limit: Option<Duration>,
    valid_after: Option<Instant>,
    ts: Option<Instant>,
    now: Instant,
) -> bool {
    ts is Some && (invalid_at(valid_after, ts->0) || expired_by(limit, ts->0, now))
}

/// Whether the entry is expired by its own expiration time.
pub fn is_expired_by_per_entry_ttl<K>(entry_info: &EntryInfo<K>, now: Instant) -> (r: bool)
    ensures
        r == (entry_info.expiration_time() is Some && entry_info.expiration_time()->0.nanos
            <= now.nanos),
{
    match entry_info.expiration_state().0 {
        Some(ts) => ts.nanos <= now.nanos,
        None => false,
    }
}

/// Whether the entry is expired by the time-to-idle of the cache, or was invalidated.
pub fn is_expired_entry_ao<K>(
    time_to_idle: &Option<Duration>,
    valid_after: &Option<Instant>,
    entry: &EntryInfo<K>,
    now: Instant,
) -> (r: bool)
    ensures
        r == expired_or_invalid(*time_to_idle, *valid_after, entry.last_accessed@, now),
{
    match entry.last_accessed() {
        Some(ts) => is_invalid_entry(valid_after, ts) || is_expired_by_tti(time_to_idle, ts, now),
        None => false,
    }
}

/// Whether the entry is expired by the time-to-live of the cache, or was invalidated.
pub fn is_expired_entry_wo<K>(
    time_to_live: &Option<Duration>,
    valid_after: &Option<Instant>,
    entry: &EntryInfo<K>,
    now: Instant,
) -> (r: bool)
    ensures
        r == expired_or_invalid(*time_to_live, *valid_after, entry.last_modified@, now),
{
    match entry.last_modified() {
        Some(ts) => is_invalid_entry(valid_after, ts) || is_expired_by_ttl(time_to_live, ts, now),
        None => false,
    }
}

/// Whether the entry is expired by the time-to-idle, and whether it was invalidated.
pub fn is_entry_expired_ao_or_invalid(
    time_to_idle: &Option<Duration>,
    valid_after: &Option<Instant>,
    entry_last_accessed: Instant,
    now: Instant,
) -> (r: (bool, bool))
    ensures
        r.0 == expired_by(*time_to_idle, entry_last_accessed, now),
        r.1 == invalid_at(*valid_after, entry_last_accessed),
{
    let ts = entry_last_accessed;
    let expired = is_expired_by_tti(time_to_idle, ts, now);
    let invalid = is_invalid_entry(valid_after, ts);
    (expired, invalid)
}

/// Whether the entry is expired by the time-to-live, and whether it was invalidated.
pub fn is_entry_expired_wo_or_invalid(
    time_to_live: &Option<Duration>,
    valid_after: &Option<Instant>,
    entry_last_modified: Instant,
    now: Instant,
) -> (r: (bool, bool))
    ensures
        r.0 == expired_by(*time_to_live, entry_last_modified, now),
        r.1 == invalid_at(*valid_after, entry_last_modified),
{
    let ts = entry_last_modified;
    let expired = is_expired_by_ttl(time_to_live, ts, now);
    let invalid = is_invalid_entry(valid_after, ts);
    (expired, invalid)
}

/// Whether the entry was last touched before the time from which entries are valid.
pub fn is_invalid_entry(valid_after: &Option<Instant>, entry_ts: Instant) -> (r: bool)
    ensures
        r == invalid_at(*valid_after, entry_ts),
{
    match valid_after {
        Some(va) => entry_ts.nanos < va.nanos,
        None => false,
    }
}

/// Whether the entry is expired by the time-to-idle.
pub fn is_expired_by_tti(
    time_to_idle: &Option<Duration>,
    entry_last_accessed: Instant,
    now: Instant,
) -> (r: bool)
    ensures
        r == expired_by(*time_to_idle, entry_last_accessed, now),
{
    match time_to_idle {
        Some(tti) => {
            let expiration = entry_last_accessed.saturating_add(*tti);
            expiration.nanos <= now.nanos
        },
        None => false,
    }
}

/// Whether the entry is expired by the time-to-live.
pub fn is_expired_by_ttl(
    time_to_live: &Option<Duration>,
    entry_last_modified: Instant,
    now: Instant,
) -> (r: bool)
    ensures
        r == expired_by(*time_to_live, entry_last_modified, now),
{
    match time_to_live {
        Some(ttl) => {
            let expiration = entry_last_modified.saturating_add(*ttl);
            expiration.nanos <= now.nanos
        },
        None => false,
    }
}

/// An entry that is expired stays expired as time goes on.
pub proof fn expired_is_monotonic(limit: Option<Duration>, ts: Instant, now: Instant, later: Instant)
    requires
        expired_by(limit, ts, now),
        now.nanos <= later.nanos,
    ensures
        expired_by(limit, ts, later),
{
}

/// An entry expires exactly when it has lived, or idled, for as long as it may: at the time at which it
/// was last touched and the limit together, and not before.
pub proof fn entries_expire_at_their_time(limit: Option<Duration>, ts: Instant, now: Instant)
    requires
        now.nanos < u64::MAX,
    ensures
        limit is None ==> !expired_by(limit, ts, now),
        limit is Some ==> (expired_by(limit, ts, now) <==> now.nanos - ts.nanos >= duration_nanos(limit->0)),
{
}

/// All that was touched before a time is invalid from then on, and nothing else.
pub proof fn entries_are_valid_from_then_on(valid_after: Option<Instant>, ts: Instant)
    ensures
        invalid_at(valid_after, ts) <==> valid_after is Some && !(valid_after->0.nanos <= ts.nanos),
{
}

} // verus!
