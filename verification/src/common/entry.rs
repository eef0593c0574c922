//! Entries as a user sees them.
use std::time::Duration;

use vstd::prelude::*;

use crate::common::concurrent::entry_info::EntryInfo;
use crate::common::time::{duration_nanos, saturating_after, Instant};

verus! {

/// A key and its value.
#[derive(Debug)]
pub struct Entry<K, V> {
    key: Option<K>,
    value: V,
    is_fresh: bool,
    is_old_value_replaced: bool,
}

/// What an entry says.
pub struct EntryView<K, V> {
    pub key: Option<K>,
    pub value: V,
    pub is_fresh: bool,
    pub is_old_value_replaced: bool,
}

impl<K, V> Entry<K, V> {
    pub closed spec fn view(&self) -> EntryView<K, V> {
        EntryView {
            key: self.key,
            value: self.value,
            is_fresh: self.is_fresh,
            is_old_value_replaced: self.is_old_value_replaced,
        }
    }

    pub fn new(key: Option<K>, value: V, is_fresh: bool, is_old_value_replaced: bool) -> (r: Self)
        ensures
            r@ == (EntryView { key, value, is_fresh, is_old_value_replaced }),
    {
        Entry { key, value, is_fresh, is_old_value_replaced }
    }

    /// The key.
    pub fn key(&self) -> (r: &K)
        requires
            self@.key is Some,
        ensures
            *r == self@.key->0,
    {
        self.key.as_ref().unwrap()
    }

    /// The value.
    pub fn value(&self) -> (r: &V)
        ensures
            *r == self@.value,
    {
        &self.value
    }

    /// The value, without the entry.
    pub fn into_value(self) -> (r: V)
        ensures
            r == self@.value,
    {
        self.value
    }

    /// Whether the value was just put into the cache.
    pub fn is_fresh(&self) -> (r: bool)
        ensures
            r == self@.is_fresh,
    {
        self.is_fresh
    }

    /// Whether the value replaced another.
    pub fn is_old_value_replaced(&self) -> (r: bool)
        ensures
            r == self@.is_old_value_replaced,
    {
        self.is_old_value_replaced
    }
}

/// The part of a cache that an entry is in.
#[derive(Clone, Copy, Debug, PartialEq, Eq, Structural)]
pub enum EntryRegion {
    Window,
    Main,
}

/// What the policies know of an entry at some time.
#[derive(Clone, Copy, Debug, PartialEq, Eq, Structural)]
pub struct EntryMetadata {
    pub region: EntryRegion,
    pub policy_weight: u32,
    pub last_modified: Instant,
    pub last_accessed: Instant,
    pub expiration_time: Option<Instant>,
    pub snapshot_at: Instant,
}

/// A point in time that is not known counts as the start of the clock.
pub open spec fn known_or_start(t: Option<Instant>) -> Instant {
    match t {
        Some(t) => t,
        None => Instant { nanos: 0 },
    }
}

/// When an entry expires: at its own expiration time if it has one, and else when it has lived
/// or idled for as long as the cache allows, whichever is first.
pub open spec fn expiration_of<K>(
    info: EntryInfo<K>,
    time_to_live: Option<Duration>,
    time_to_idle: Option<Duration>,
) -> Option<Instant> {
    let modified = known_or_start(info.last_modified@);
    let accessed = known_or_start(info.last_accessed@);
    if info.expiration_time() is Some {
        info.expiration_time()
    } else {
        match (time_to_live, time_to_idle) {
            (Some(ttl), Some(tti)) => {
                let by_ttl = saturating_after(modified, duration_nanos(ttl) as nat);
                let by_tti = saturating_after(accessed, duration_nanos(tti) as nat);
                if by_ttl.nanos <= by_tti.nanos {
                    Some(by_ttl)
                } else {
                    Some(by_tti)
                }
            },
            (Some(ttl), None) => Some(saturating_after(modified, duration_nanos(ttl) as nat)),
            (None, Some(tti)) => Some(saturating_after(accessed, duration_nanos(tti) as nat)),
            (None, None) => None,
        }
    }
}

impl EntryMetadata {
    pub fn new(
        region: EntryRegion,
        policy_weight: u32,
        last_modified: Instant,
        last_accessed: Instant,
        expiration_time: Option<Instant>,
        snapshot_at: Instant,
    ) -> (r: Self)
        ensures
            r == (EntryMetadata {
                region,
                policy_weight,
                last_modified,
                last_accessed,
                expiration_time,
                snapshot_at,
            }),
    {
        EntryMetadata {
            region,
            policy_weight,
            last_modified,
            last_accessed,
            expiration_time,
            snapshot_at,
        }
    }

    /// What is known of an entry.
    pub open spec fn of<K>(
        region: EntryRegion,
        info: EntryInfo<K>,
        time_to_live: Option<Duration>,
        time_to_idle: Option<Duration>,
        snapshot_at: Instant,
    ) -> Self {
        EntryMetadata {
            region,
            policy_weight: info.policy_weight,
            last_modified: known_or_start(info.last_modified@),
            last_accessed: known_or_start(info.last_accessed@),
            expiration_time: expiration_of(info, time_to_live, time_to_idle),
            snapshot_at,
        }
    }

    /// What is known of an entry.
    pub fn from_element<K>(
        region: EntryRegion,
        info: &EntryInfo<K>,
        time_to_live: Option<Duration>,
        time_to_idle: Option<Duration>,
        snapshot_at: Instant,
    ) -> (r: Self)
        ensures
            r == Self::of(region, *info, time_to_live, time_to_idle, snapshot_at),
    {
        let last_modified = info.last_modified().unwrap_or(Instant::from_nanos(0));
        let last_accessed = info.last_accessed().unwrap_or(Instant::from_nanos(0));
        let own = info.expiration_state().0;
        let expiration_time = if own.is_some() {
            own
        } else {
            match (time_to_live, time_to_idle) {
                (Some(ttl), Some(tti)) => {
                    let exp_by_ttl = last_modified.saturating_add(ttl);
                    let exp_by_tti = last_accessed.saturating_add(tti);
                    if exp_by_ttl.nanos <= exp_by_tti.nanos {
                        Some(exp_by_ttl)
                    } else {
                        Some(exp_by_tti)
                    }
                },
                (Some(ttl), None) => Some(last_modified.saturating_add(ttl)),
                (None, Some(tti)) => Some(last_accessed.saturating_add(tti)),
                (None, None) => None,
            }
        };
        EntryMetadata {
            region,
            policy_weight: info.policy_weight(),
            last_modified,
            last_accessed,
            expiration_time,
            snapshot_at,
        }
    }

    pub fn region(&self) -> (r: EntryRegion)
        ensures
            r == self.region,
    {
        self.region
    }

    pub fn policy_weight(&self) -> (r: u32)
        ensures
            r == self.policy_weight,
    {
        self.policy_weight
    }

    pub fn last_modified(&self) -> (r: Instant)
        ensures
            r == self.last_modified,
    {
        self.last_modified
    }

    pub fn last_accessed(&self) -> (r: Instant)
        ensures
            r == self.last_accessed,
    {
        self.last_accessed
    }

    pub fn expiration_time(&self) -> (r: Option<Instant>)
        ensures
            r == self.expiration_time,
    {
        self.expiration_time
    }

    pub fn snapshot_at(&self) -> (r: Instant)
        ensures
            r == self.snapshot_at,
    {
        self.snapshot_at
    }
}

/// An entry that has no expiration time of its own expires when it has lived or idled for as long as it
/// may, at the earlier of the two times, and not before; without a limit it does not expire. Its own time
/// goes before both.
pub proof fn entry_expires_at_the_earlier_time<K>(
    info: EntryInfo<K>,
    time_to_live: Option<Duration>,
    time_to_idle: Option<Duration>,
)
    requires
        info.last_modified@ is Some,
        info.last_accessed@ is Some,
    ensures
        ({
            let r = expiration_of(info, time_to_live, time_to_idle);
            let old_at = info.last_modified@->0.nanos + duration_nanos(time_to_live->0);
            let idle_at = info.last_accessed@->0.nanos + duration_nanos(time_to_idle->0);
            &&& info.expiration_time() is Some ==> r == info.expiration_time()
            &&& info.expiration_time() is None ==> {
                &&& r is Some <==> time_to_live is Some || time_to_idle is Some
                &&& time_to_live is Some ==> r->0.nanos <= old_at
                &&& time_to_idle is Some ==> r->0.nanos <= idle_at
                &&& r is Some ==> r->0.nanos == u64::MAX || (time_to_live is Some && r->0.nanos == old_at) || (
                time_to_idle is Some && r->0.nanos == idle_at)
                &&& r is Some && r->0.nanos == u64::MAX ==> (time_to_live is Some ==> old_at >= u64::MAX) && (
                time_to_idle is Some ==> idle_at >= u64::MAX)
            }
        }),
{
}

} // verus!
