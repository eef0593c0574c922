//! The policy of a cache.
use std::time::Duration;

use vstd::prelude::*;

use crate::common::time::Instant;

verus! {

/// The policy of a cache.
#[derive(Debug)]
pub struct Policy {
    max_capacity: Option<u64>,
    num_segments: usize,
    time_to_live: Option<Duration>,
    time_to_idle: Option<Duration>,
}

/// The settings of a policy.
pub struct PolicyState {
    pub max_capacity: Option<u64>,
    pub num_segments: usize,
    pub time_to_live: Option<Duration>,
    pub time_to_idle: Option<Duration>,
}

impl Policy {
    pub closed spec fn view(&self) -> PolicyState {
        PolicyState {
            max_capacity: self.max_capacity,
            num_segments: self.num_segments,
            time_to_live: self.time_to_live,
            time_to_idle: self.time_to_idle,
        }
    }

    pub fn new(
        max_capacity: Option<u64>,
        num_segments: usize,
        time_to_live: Option<Duration>,
        time_to_idle: Option<Duration>,
    ) -> (r: Self)
        ensures
            r@ == (PolicyState { max_capacity, num_segments, time_to_live, time_to_idle }),
    {
        Policy { max_capacity, num_segments, time_to_live, time_to_idle }
    }

    /// The maximum capacity of the cache.
    pub fn max_capacity(&self) -> (r: Option<u64>)
        ensures
            r == self@.max_capacity,
    {
        self.max_capacity
    }

    pub fn set_max_capacity(&mut self, capacity: Option<u64>)
        ensures
            final(self)@ == (PolicyState { max_capacity: capacity, ..old(self)@ }),
    {
        self.max_capacity = capacity;
    }

    /// The number of internal segments of the cache.
    pub fn num_segments(&self) -> (r: usize)
        ensures
            r == self@.num_segments,
    {
        self.num_segments
    }

    pub fn set_num_segments(&mut self, num: usize)
        ensures
            final(self)@ == (PolicyState { num_segments: num, ..old(self)@ }),
    {
        self.num_segments = num;
    }

    /// The time after which an entry expires, counted from its creation or last update.
    pub fn time_to_live(&self) -> (r: Option<Duration>)
        ensures
            r == self@.time_to_live,
    {
        self.time_to_live
    }

    /// The time after which an entry expires, counted from its last use.
    pub fn time_to_idle(&self) -> (r: Option<Duration>)
        ensures
            r == self@.time_to_idle,
    {
        self.time_to_idle
    }
}

/// Calculates when entries expire. Each method returns the duration until the entry expires,
/// or `None` if it does not.
pub trait Expiry<K, V> {
    /// The duration for an entry that was just created.
    fn expire_after_create(&self, key: &K, value: &V, current_time: Instant) -> (r: Option<Duration>)
        default_ensures
            r is None,
    {
        None
    }

    /// The duration for an entry that was just read.
    fn expire_after_read(
        &self,
        key: &K,
        value: &V,
        current_time: Instant,
        current_duration: Option<Duration>,
        last_modified_at: Instant,
    ) -> (r: Option<Duration>)
        default_ensures
            r == current_duration,
    {
        current_duration
    }

    /// The duration for an entry whose value was just replaced.
    fn expire_after_update(
        &self,
        key: &K,
        value: &V,
        current_time: Instant,
        current_duration: Option<Duration>,
    ) -> (r: Option<Duration>)
        default_ensures
            r == current_duration,
    {
        current_duration
    }
}

/// When the entries of a cache expire.
pub struct ExpirationPolicy<E> {
    pub time_to_live: Option<Duration>,
    pub time_to_idle: Option<Duration>,
    pub expiry: Option<E>,
}

impl<E> Default for ExpirationPolicy<E> {
    /// Entries do not expire.
    fn default() -> (r: Self)
        ensures
            r.time_to_live is None,
            r.time_to_idle is None,
            r.expiry is None,
    {
        ExpirationPolicy { time_to_live: None, time_to_idle: None, expiry: None }
    }
}

impl<E> ExpirationPolicy<E> {
    pub fn new(
        time_to_live: Option<Duration>,
        time_to_idle: Option<Duration>,
        expiry: Option<E>,
    ) -> (r: Self)
        ensures
            r == (ExpirationPolicy { time_to_live, time_to_idle, expiry }),
    {
        ExpirationPolicy { time_to_live, time_to_idle, expiry }
    }

    pub fn time_to_live(&self) -> (r: Option<Duration>)
        ensures
            r == self.time_to_live,
    {
        self.time_to_live
    }

    pub fn set_time_to_live(&mut self, duration: Duration)
        ensures
            *final(self) == (ExpirationPolicy { time_to_live: Some(duration), ..*old(self) }),
    {
        self.time_to_live = Some(duration);
    }

    pub fn time_to_idle(&self) -> (r: Option<Duration>)
        ensures
            r == self.time_to_idle,
    {
        self.time_to_idle
    }

    pub fn set_time_to_idle(&mut self, duration: Duration)
        ensures
            *final(self) == (ExpirationPolicy { time_to_idle: Some(duration), ..*old(self) }),
    {
        self.time_to_idle = Some(duration);
    }

    pub fn expiry(&self) -> (r: Option<&E>)
        ensures
            match self.expiry {
                Some(e) => r == Some(&e),
                None => r is None,
            },
    {
        self.expiry.as_ref()
    }

    pub fn set_expiry(&mut self, expiry: E)
        ensures
            *final(self) == (ExpirationPolicy { expiry: Some(expiry), ..*old(self) }),
    {
        self.expiry = Some(expiry);
    }
}

} // verus!
