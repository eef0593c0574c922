//! When housekeeping is due.
use std::time::Duration;

use vstd::prelude::*;

use super::constants::{
    DEFAULT_RUN_PENDING_TASKS_TIMEOUT_MILLIS, PERIODICAL_SYNC_INITIAL_DELAY_MILLIS,
    READ_LOG_FLUSH_POINT, WRITE_LOG_FLUSH_POINT,
};
use crate::common::time::{duration_nanos, Instant};

verus! {

/// The number of logged writes at which housekeeping goes back to its normal pace.
pub const WRITE_LOG_LOW_WATER_MARK: usize = 256;

/// How soon housekeeping is to be done again.
#[derive(Clone, Copy, Debug, PartialEq, Eq, Structural)]
pub enum SyncPace {
    Normal,
    Fast,
}

/// How soon housekeeping is to be done again: fast when it was not done with the logs, and
/// at the normal pace when few writes are left. `None` leaves the pace as it is.
pub open spec fn pace_for(should_sync: bool, write_log_len: int) -> Option<SyncPace> {
    if should_sync {
        Some(SyncPace::Fast)
    } else if write_log_len <= WRITE_LOG_LOW_WATER_MARK {
        Some(SyncPace::Normal)
    } else {
        None
    }
}

/// How soon housekeeping is to be done again.
pub fn sync_pace(should_sync: bool, write_log_len: usize) -> (r: Option<SyncPace>)
    ensures
        r == pace_for(should_sync, write_log_len as int),
{
    if should_sync {
        Some(SyncPace::Fast)
    } else if write_log_len <= WRITE_LOG_LOW_WATER_MARK {
        Some(SyncPace::Normal)
    } else {
        None
    }
}

/// The nanoseconds after which housekeeping is due even if little was logged.
pub const RUN_INTERVAL_NANOS: u64 = 300_000_000;

/// The time from which on housekeeping is due, when it was done at the time `now`.
pub fn sync_after(now: Instant) -> (r: Instant)
    requires
        now.nanos + RUN_INTERVAL_NANOS <= u64::MAX,
    ensures
        r.nanos == now.nanos + RUN_INTERVAL_NANOS,
        r.nanos == now.nanos + 300_000_000,
{
    now.checked_add(Duration::from_millis(PERIODICAL_SYNC_INITIAL_DELAY_MILLIS)).unwrap()
}

/// Decides when housekeeping is due.
pub struct Housekeeper {
    run_after: Instant,
    /// Whether the last run left entries to be evicted. `None` where runs have no time limit.
    more_entries_to_evict: Option<bool>,
    maintenance_task_timeout: Option<Duration>,
    auto_run_enabled: bool,
}

/// The state of a housekeeper.
pub struct HousekeeperState {
    pub run_after: Instant,
    pub more_entries_to_evict: Option<bool>,
    pub maintenance_task_timeout: Option<Duration>,
    pub auto_run_enabled: bool,
}

impl HousekeeperState {
    /// Housekeeping is due: as much is logged as `flush_point`, the time has come, or the last
    /// run left entries to be evicted.
    pub open spec fn is_due(self, ch_len: usize, flush_point: usize, now: Instant) -> bool {
        self.more_entries_to_evict == Some(true) || (self.auto_run_enabled && (ch_len >= flush_point
            || now.nanos >= self.run_after.nanos))
    }
}

impl Housekeeper {
    pub closed spec fn view(&self) -> HousekeeperState {
        HousekeeperState {
            run_after: self.run_after,
            more_entries_to_evict: self.more_entries_to_evict,
            maintenance_task_timeout: self.maintenance_task_timeout,
            auto_run_enabled: self.auto_run_enabled,
        }
    }

    /// Where there is a listener, which may take its time, runs have a time limit.
    pub fn new(is_eviction_listener_enabled: bool, now: Instant) -> (r: Self)
        requires
            now.nanos + RUN_INTERVAL_NANOS <= u64::MAX,
        ensures
            r@.run_after.nanos == now.nanos + RUN_INTERVAL_NANOS,
            r@.auto_run_enabled,
            is_eviction_listener_enabled ==> r@.more_entries_to_evict == Some(false)
                && r@.maintenance_task_timeout is Some && duration_nanos(
                r@.maintenance_task_timeout->0,
            ) == DEFAULT_RUN_PENDING_TASKS_TIMEOUT_MILLIS * 1_000_000,
            !is_eviction_listener_enabled ==> r@.more_entries_to_evict is None
                && r@.maintenance_task_timeout is None,
    {
        let (more_entries_to_evict, maintenance_task_timeout) = if is_eviction_listener_enabled {
            (
                Some(false),
                Some(Duration::from_millis(DEFAULT_RUN_PENDING_TASKS_TIMEOUT_MILLIS)),
            )
        } else {
            (None, None)
        };
        Housekeeper {
            run_after: sync_after(now),
            more_entries_to_evict,
            maintenance_task_timeout,
            auto_run_enabled: true,
        }
    }

    pub fn should_apply_reads(&self, ch_len: usize, now: Instant) -> (r: bool)
        ensures
            r == self@.is_due(ch_len, READ_LOG_FLUSH_POINT, now),
            r == self@.is_due(ch_len, 64, now),
    {
        self.more_entries_to_evict() || self.should_apply(ch_len, READ_LOG_FLUSH_POINT, now)
    }

    pub fn should_apply_writes(&self, ch_len: usize, now: Instant) -> (r: bool)
        ensures
            r == self@.is_due(ch_len, WRITE_LOG_FLUSH_POINT, now),
            r == self@.is_due(ch_len, 64, now),
    {
        self.more_entries_to_evict() || self.should_apply(ch_len, WRITE_LOG_FLUSH_POINT, now)
    }

    fn more_entries_to_evict(&self) -> (r: bool)
        ensures
            r == (self@.more_entries_to_evict == Some(true)),
    {
        self.more_entries_to_evict.unwrap_or(false)
    }

    fn should_apply(&self, ch_len: usize, ch_flush_point: usize, now: Instant) -> (r: bool)
        ensures
            r == (self@.auto_run_enabled && (ch_len >= ch_flush_point || now.nanos
                >= self@.run_after.nanos)),
    {
        self.auto_run_enabled && (ch_len >= ch_flush_point || now.nanos >= self.run_after.nanos)
    }

    /// Begins a run at the time `now`, and returns its time limit.
    pub fn start_run(&mut self, now: Instant) -> (r: Option<Duration>)
        requires
            now.nanos + RUN_INTERVAL_NANOS <= u64::MAX,
        ensures
            r == old(self)@.maintenance_task_timeout,
            final(self)@ == (HousekeeperState {
                run_after: Instant { nanos: (now.nanos + RUN_INTERVAL_NANOS) as u64 },
                ..old(self)@
            }),
    {
        self.run_after = sync_after(now);
        self.maintenance_task_timeout
    }

    /// Ends a run, which may have left entries to be evicted.
    pub fn finish_run(&mut self, more_to_evict: bool)
        ensures
            final(self)@ == (HousekeeperState {
                more_entries_to_evict: if old(self)@.more_entries_to_evict is Some {
                    Some(more_to_evict)
                } else {
                    None
                },
                ..old(self)@
            }),
    {
        if self.more_entries_to_evict.is_some() {
            self.more_entries_to_evict = Some(more_to_evict);
        }
    }

    pub fn disable_auto_run(&mut self)
        ensures
            final(self)@ == (HousekeeperState { auto_run_enabled: false, ..old(self)@ }),
    {
        self.auto_run_enabled = false;
    }

    pub fn reset_run_after(&mut self, now: Instant)
        requires
            now.nanos + RUN_INTERVAL_NANOS <= u64::MAX,
        ensures
            final(self)@ == (HousekeeperState {
                run_after: Instant { nanos: (now.nanos + RUN_INTERVAL_NANOS) as u64 },
                ..old(self)@
            }),
    {
        self.run_after = sync_after(now);
    }
}

/// Housekeeping is due once as much is logged as the flush point, or once its time has come, unless it is
/// not to run by itself; and whenever the last run left something to do.
pub proof fn housekeeping_is_due_in_time(s: HousekeeperState, ch_len: usize, flush_point: usize, now: Instant)
    ensures
        s.more_entries_to_evict == Some(true) ==> s.is_due(ch_len, flush_point, now),
        s.auto_run_enabled && ch_len >= flush_point ==> s.is_due(ch_len, flush_point, now),
        s.auto_run_enabled && now.nanos >= s.run_after.nanos ==> s.is_due(ch_len, flush_point, now),
        s.is_due(ch_len, flush_point, now) && s.more_entries_to_evict != Some(true) ==> s.auto_run_enabled && (
        ch_len >= flush_point || now.nanos >= s.run_after.nanos),
{
}

/// A run that was not done with the logs is followed by a fast one. One that was is followed by one at the
/// normal pace if no more than 256 writes are left, and by one at the same pace else.
pub proof fn pace_follows_the_log(write_log_len: int)
    ensures
        pace_for(true, write_log_len) == Some(SyncPace::Fast),
        write_log_len <= 256 ==> pace_for(false, write_log_len) == Some(SyncPace::Normal),
        write_log_len > 256 ==> pace_for(false, write_log_len) is None,
{
}

} // verus!
