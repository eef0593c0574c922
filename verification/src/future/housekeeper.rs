//! When housekeeping is due in a cache whose values may be computed by futures.
use vstd::prelude::*;

use crate::common::concurrent::constants::{READ_LOG_FLUSH_POINT, WRITE_LOG_FLUSH_POINT};
use crate::common::concurrent::housekeeper::{sync_after, RUN_INTERVAL_NANOS};
use crate::common::time::Instant;

verus! {

/// Decides when housekeeping is due. One run at a time is made; whoever asks for another joins
/// the one that is being made.
pub struct Housekeeper {
    run_after: Instant,
    auto_run_enabled: bool,
    is_running: bool,
}

/// The state of a housekeeper.
pub struct HousekeeperState {
    pub run_after: Instant,
    pub auto_run_enabled: bool,
    pub is_running: bool,
}

impl HousekeeperState {
    /// Housekeeping is due: as much is logged as an eighth of `flush_point`, or the time has
    /// come.
    pub open spec fn is_due(self, ch_len: usize, flush_point: usize, now: Instant) -> bool {
        self.auto_run_enabled && (ch_len >= flush_point / 8 || now.nanos >= self.run_after.nanos)
    }
}

impl Housekeeper {
    pub closed spec fn view(&self) -> HousekeeperState {
        HousekeeperState {
            run_after: self.run_after,
            auto_run_enabled: self.auto_run_enabled,
            is_running: self.is_running,
        }
    }

    pub fn new(now: Instant) -> (r: Self)
        requires
            now.nanos + RUN_INTERVAL_NANOS <= u64::MAX,
        ensures
            r@ == (HousekeeperState {
                run_after: Instant { nanos: (now.nanos + RUN_INTERVAL_NANOS) as u64 },
                auto_run_enabled: true,
                is_running: false,
            }),
    {
        Housekeeper { run_after: sync_after(now), auto_run_enabled: true, is_running: false }
    }

    pub fn should_apply_reads(&self, ch_len: usize, now: Instant) -> (r: bool)
        ensures
            r == self@.is_due(ch_len, READ_LOG_FLUSH_POINT, now),
            r == self@.is_due(ch_len, 64, now),
    {
        self.should_apply(ch_len, READ_LOG_FLUSH_POINT / 8, now)
    }

    pub fn should_apply_writes(&self, ch_len: usize, now: Instant) -> (r: bool)
        ensures
            r == self@.is_due(ch_len, WRITE_LOG_FLUSH_POINT, now),
            r == self@.is_due(ch_len, 64, now),
    {
        self.should_apply(ch_len, WRITE_LOG_FLUSH_POINT / 8, now)
    }

    fn should_apply(&self, ch_len: usize, ch_flush_point: usize, now: Instant) -> (r: bool)
        ensures
            r == (self@.auto_run_enabled && (ch_len >= ch_flush_point || now.nanos
                >= self@.run_after.nanos)),
    {
        self.auto_run_enabled && (ch_len >= ch_flush_point || now.nanos >= self.run_after.nanos)
    }

    /// Asks for a run. The result says whether a run is to be started; if not, the one that is
    /// being made is to be joined.
    pub fn start_run(&mut self) -> (r: bool)
        ensures
            r == !old(self)@.is_running,
            final(self)@ == (HousekeeperState { is_running: true, ..old(self)@ }),
    {
        let starts = !self.is_running;
        self.is_running = true;
        starts
    }

    /// Ends a run that was asked for at the time `now`.
    pub fn finish_run(&mut self, now: Instant)
        requires
            now.nanos + RUN_INTERVAL_NANOS <= u64::MAX,
        ensures
            final(self)@ == (HousekeeperState {
                run_after: Instant { nanos: (now.nanos + RUN_INTERVAL_NANOS) as u64 },
                is_running: false,
                ..old(self)@
            }),
    {
        self.is_running = false;
        self.run_after = sync_after(now);
    }

    pub fn disable_auto_run(&mut self)
        ensures
            final(self)@ == (HousekeeperState { auto_run_enabled: false, ..old(self)@ }),
    {
        self.auto_run_enabled = false;
    }

    pub fn reset_run_after(&mut self, now: Instant)
        requires
            now.nanos + RUN_INTERVAL_NANOS <= u64::MAX,
        ensures
            final(self)@ == (HousekeeperState {
                run_after: Instant { nanos: (now.nanos + RUN_INTERVAL_NANOS) as u64 },
                ..old(self)@
            }),
    {
        self.run_after = sync_after(now);
    }
}

/// Housekeeping is due once an eighth of the flush point is logged, or once its time has come, unless it is
/// not to run by itself.
pub proof fn housekeeping_is_due_in_time(s: HousekeeperState, ch_len: usize, flush_point: usize, now: Instant)
    ensures
        s.auto_run_enabled && 8 * ch_len >= flush_point ==> s.is_due(ch_len, flush_point, now),
        s.auto_run_enabled && now.nanos >= s.run_after.nanos ==> s.is_due(ch_len, flush_point, now),
        s.is_due(ch_len, flush_point, now) ==> s.auto_run_enabled && (8 * ch_len + 7 >= flush_point || now.nanos
            >= s.run_after.nanos),
{
}

} // verus!
