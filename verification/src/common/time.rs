//! Points in time, counted in nanoseconds from the start of a monotonic clock.
use std::time::Duration;

use vstd::prelude::*;

verus! {

/// The number of whole nanoseconds that a duration holds, as `Duration::as_nanos` tells it.
pub uninterp spec fn duration_nanos(d: Duration) -> u128;

/// `Duration::as_nanos` gives the number that [`duration_nanos`] names.
pub assume_specification[ Duration::as_nanos ](d: &Duration) -> (r: u128)
    ensures
        r == duration_nanos(*d),
;

/// `Duration::from_nanos` makes a duration that holds the given number of nanoseconds.
pub assume_specification[ Duration::from_nanos ](nanos: u64) -> (r: Duration)
    ensures
        duration_nanos(r) == nanos,
;

/// `Duration::from_millis` makes a duration that holds the given number of milliseconds.
pub assume_specification[ Duration::from_millis ](millis: u64) -> (r: Duration)
    ensures
        duration_nanos(r) == millis * 1_000_000,
;

/// A point in time.
#[derive(Clone, Copy, Debug, PartialEq, Eq, Structural)]
pub struct Instant {
    pub nanos: u64,
}

/// `nanos` nanoseconds after `t`, or the last point in time when that is too late to be one.
pub open spec fn saturating_after(t: Instant, nanos: nat) -> Instant {
    if t.nanos + nanos <= u64::MAX {
        Instant { nanos: (t.nanos + nanos) as u64 }
    } else {
        Instant { nanos: u64::MAX }
    }
}

impl Instant {
    pub fn from_nanos(nanos: u64) -> (r: Self)
        ensures
            r.nanos == nanos,
    {
        Instant { nanos }
    }

    pub fn as_nanos(&self) -> (r: u64)
        ensures
            r == self.nanos,
    {
        self.nanos
    }

    /// The point in time `duration` later, when there is one.
    pub fn checked_add(&self, duration: Duration) -> (r: Option<Self>)
        ensures
            r == if self.nanos + duration_nanos(duration) <= u64::MAX {
                Some(Instant { nanos: (self.nanos + duration_nanos(duration)) as u64 })
            } else {
                None
            },
    {
        let d: u128 = duration.as_nanos();
        if d <= (u64::MAX - self.nanos) as u128 {
            Some(Instant { nanos: self.nanos + d as u64 })
        } else {
            None
        }
    }

    /// The point in time `duration` later, or the last one.
    pub fn saturating_add(&self, duration: Duration) -> (r: Self)
        ensures
            r == saturating_after(*self, duration_nanos(duration) as nat),
    {
        match self.checked_add(duration) {
            Some(t) => t,
            None => Instant { nanos: u64::MAX },
        }
    }

    /// The time from `earlier` to this point, unless `earlier` is the later one.
    pub fn checked_duration_since(&self, earlier: Instant) -> (r: Option<Duration>)
        ensures
            r is Some <==> earlier.nanos <= self.nanos,
            r is Some ==> duration_nanos(r->0) == self.nanos - earlier.nanos,
    {
        if earlier.nanos <= self.nanos {
            Some(Duration::from_nanos(self.nanos - earlier.nanos))
        } else {
            None
        }
    }
}

/// A point in time that may be unset. The last point in time stands for "unset".
#[derive(Clone, Copy, Debug, PartialEq, Eq, Structural)]
pub struct AtomicInstant {
    pub instant: u64,
}

impl AtomicInstant {
    /// What holds this point in time, if there is one.
    pub open spec fn spec_of(time: Option<Instant>) -> Self {
        match time {
            Some(t) => AtomicInstant { instant: t.nanos },
            None => AtomicInstant { instant: u64::MAX },
        }
    }

    pub open spec fn view(&self) -> Option<Instant> {
        if self.instant == u64::MAX {
            None
        } else {
            Some(Instant { nanos: self.instant })
        }
    }

    pub fn new(timestamp: Instant) -> (r: Self)
        ensures
            r.instant == timestamp.nanos,
    {
        AtomicInstant { instant: timestamp.nanos }
    }

    pub fn clear(&mut self)
        ensures
            final(self)@ is None,
    {
        self.instant = u64::MAX;
    }

    pub fn is_set(&self) -> (r: bool)
        ensures
            r == (self@ is Some),
    {
        self.instant != u64::MAX
    }

    pub fn instant(&self) -> (r: Option<Instant>)
        ensures
            r == self@,
    {
        if self.instant == u64::MAX {
            None
        } else {
            Some(Instant { nanos: self.instant })
        }
    }

    pub fn set_instant(&mut self, instant: Instant)
        ensures
            final(self).instant == instant.nanos,
    {
        self.instant = instant.nanos;
    }
}

impl Default for AtomicInstant {
    fn default() -> (r: Self)
        ensures
            r@ is None,
    {
        AtomicInstant { instant: u64::MAX }
    }
}

/// A time is put off by just as long as is asked for, or to the last point in time, whichever is earlier.
pub proof fn later_times_do_not_wrap(t: Instant, nanos: nat)
    ensures
        t.nanos + nanos <= u64::MAX ==> saturating_after(t, nanos).nanos == t.nanos + nanos,
        t.nanos + nanos > u64::MAX ==> saturating_after(t, nanos).nanos == u64::MAX,
{
}

/// A point in time that was set is read back, unless it is the last one, which stands for none.
pub proof fn set_time_is_read_back(t: Instant)
    ensures
        t.nanos < u64::MAX ==> AtomicInstant::spec_of(Some(t))@ == Some(t),
        t.nanos < u64::MAX ==> (AtomicInstant { instant: t.nanos })@ == Some(t),
        AtomicInstant::spec_of(None)@ is None,
        (AtomicInstant { instant: u64::MAX })@ is None,
{
}

} // verus!
