//! Caches that are used from one place at a time.
use vstd::prelude::*;

use crate::common::time::Instant;

pub mod cache;
pub mod segment;

verus! {

/// Housekeeping at the caller's request.
pub trait ConcurrentCacheExt {
    /// The parts of the cache agree with each other.
    spec fn in_order(&self) -> bool;

    /// This is what housekeeping at the time `now` makes of the cache `before`.
    spec fn is_synced_from(&self, before: &Self, now: Instant) -> bool;

    /// Does the housekeeping that is pending.
    fn sync(&mut self, now: Instant)
        requires
            old(self).in_order(),
        ensures
            final(self).in_order(),
            final(self).is_synced_from(old(self), now),
    ;
}

} // verus!
