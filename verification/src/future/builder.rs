//! Builds a cache with weights and expiration.
use std::time::Duration;

use vstd::prelude::*;

use super::cache::{can_weigh, Cache};
use crate::common::builder_utils::{ensure_expirations, is_expiration_ok, ExpirationError};
use crate::dash::inner::can_hold;
use crate::notification::DeliveryMode;

verus! {

/// Builds a [`Cache`]. `W` is the weigher, and `L` the listener that is told what was removed.
#[must_use]
pub struct CacheBuilder<W, L> {
    max_capacity: Option<u64>,
    initial_capacity: Option<usize>,
    weigher: Option<W>,
    eviction_listener: Option<L>,
    eviction_notification_mode: Option<DeliveryMode>,
    time_to_live: Option<Duration>,
    time_to_idle: Option<Duration>,
    invalidator_enabled: bool,
}

/// The settings of a cache that is to be built.
pub struct CacheBuilderState<W, L> {
    pub max_capacity: Option<u64>,
    pub initial_capacity: Option<usize>,
    pub weigher: Option<W>,
    pub eviction_listener: Option<L>,
    pub eviction_notification_mode: Option<DeliveryMode>,
    pub time_to_live: Option<Duration>,
    pub time_to_idle: Option<Duration>,
    pub invalidator_enabled: bool,
}

impl<W, L> Default for CacheBuilder<W, L> {
    fn default() -> (r: Self)
        ensures
            r@ == (CacheBuilderState::<W, L> {
                max_capacity: None,
                initial_capacity: None,
                weigher: None,
                eviction_listener: None,
                eviction_notification_mode: None,
                time_to_live: None,
                time_to_idle: None,
                invalidator_enabled: false,
            }),
    {
        CacheBuilder {
            max_capacity: None,
            initial_capacity: None,
            weigher: None,
            eviction_listener: None,
            eviction_notification_mode: None,
            time_to_live: None,
            time_to_idle: None,
            invalidator_enabled: false,
        }
    }
}

impl<W, L> CacheBuilder<W, L> {
    pub closed spec fn view(&self) -> CacheBuilderState<W, L> {
        CacheBuilderState {
            max_capacity: self.max_capacity,
            initial_capacity: self.initial_capacity,
            weigher: self.weigher,
            eviction_listener: self.eviction_listener,
            eviction_notification_mode: self.eviction_notification_mode,
            time_to_live: self.time_to_live,
            time_to_idle: self.time_to_idle,
            invalidator_enabled: self.invalidator_enabled,
        }
    }

    /// A builder of a cache of the capacity `max_capacity`.
    pub fn new(max_capacity: u64) -> (r: Self)
        ensures
            r@ == (CacheBuilderState::<W, L> {
                max_capacity: Some(max_capacity),
                initial_capacity: None,
                weigher: None,
                eviction_listener: None,
                eviction_notification_mode: None,
                time_to_live: None,
                time_to_idle: None,
                invalidator_enabled: false,
            }),
    {
        CacheBuilder {
            max_capacity: Some(max_capacity),
            initial_capacity: None,
            weigher: None,
            eviction_listener: None,
            eviction_notification_mode: None,
            time_to_live: None,
            time_to_idle: None,
            invalidator_enabled: false,
        }
    }

    pub fn max_capacity(self, max_capacity: u64) -> (r: Self)
        ensures
            r@ == (CacheBuilderState { max_capacity: Some(max_capacity), ..self@ }),
    {
        CacheBuilder { max_capacity: Some(max_capacity), ..self }
    }

    pub fn initial_capacity(self, number_of_entries: usize) -> (r: Self)
        ensures
            r@ == (CacheBuilderState { initial_capacity: Some(number_of_entries), ..self@ }),
    {
        CacheBuilder { initial_capacity: Some(number_of_entries), ..self }
    }

    /// Sets the function that tells how heavy an entry is.
    pub fn weigher<W2>(self, weigher: W2) -> (r: CacheBuilder<W2, L>)
        ensures
            r@ == (CacheBuilderState {
                max_capacity: self@.max_capacity,
                initial_capacity: self@.initial_capacity,
                weigher: Some(weigher),
                eviction_listener: self@.eviction_listener,
                eviction_notification_mode: self@.eviction_notification_mode,
                time_to_live: self@.time_to_live,
                time_to_idle: self@.time_to_idle,
                invalidator_enabled: self@.invalidator_enabled,
            }),
    {
        CacheBuilder {
            max_capacity: self.max_capacity,
            initial_capacity: self.initial_capacity,
            weigher: Some(weigher),
            eviction_listener: self.eviction_listener,
            eviction_notification_mode: self.eviction_notification_mode,
            time_to_live: self.time_to_live,
            time_to_idle: self.time_to_idle,
            invalidator_enabled: self.invalidator_enabled,
        }
    }

    /// Sets the listener that is told what was removed, and when it is told.
    pub fn eviction_listener<L2>(self, listener: L2, mode: DeliveryMode) -> (r: CacheBuilder<W, L2>)
        ensures
            r@ == (CacheBuilderState {
                max_capacity: self@.max_capacity,
                initial_capacity: self@.initial_capacity,
                weigher: self@.weigher,
                eviction_listener: Some(listener),
                eviction_notification_mode: Some(mode),
                time_to_live: self@.time_to_live,
                time_to_idle: self@.time_to_idle,
                invalidator_enabled: self@.invalidator_enabled,
            }),
    {
        CacheBuilder {
            max_capacity: self.max_capacity,
            initial_capacity: self.initial_capacity,
            weigher: self.weigher,
            eviction_listener: Some(listener),
            eviction_notification_mode: Some(mode),
            time_to_live: self.time_to_live,
            time_to_idle: self.time_to_idle,
            invalidator_enabled: self.invalidator_enabled,
        }
    }

    /// Sets the time after which an entry expires, counted from its last write.
    pub fn time_to_live(self, duration: Duration) -> (r: Self)
        ensures
            r@ == (CacheBuilderState { time_to_live: Some(duration), ..self@ }),
    {
        CacheBuilder { time_to_live: Some(duration), ..self }
    }

    /// Sets the time after which an entry expires, counted from its last use.
    pub fn time_to_idle(self, duration: Duration) -> (r: Self)
        ensures
            r@ == (CacheBuilderState { time_to_idle: Some(duration), ..self@ }),
    {
        CacheBuilder { time_to_idle: Some(duration), ..self }
    }

    /// Lets entries be invalidated by closures.
    pub fn support_invalidation_closures(self) -> (r: Self)
        ensures
            r@ == (CacheBuilderState { invalidator_enabled: true, ..self@ }),
    {
        CacheBuilder { invalidator_enabled: true, ..self }
    }

    /// Builds the cache. The times after which entries expire may not be longer than a thousand
    /// years.
    pub fn build<V>(self) -> (r: Result<Cache<V, W, L>, ExpirationError>) where W: Fn(&u64, &V) -> u32
        requires
            can_weigh::<V, W>(self@.weigher),
            can_hold(self@.initial_capacity),
        ensures
            match r {
                Ok(cache) => {
                    &&& is_expiration_ok(self@.time_to_live) && is_expiration_ok(self@.time_to_idle)
                    &&& cache.wf()
                    &&& cache.is_empty_cache(
                        self@.max_capacity,
                        self@.weigher,
                        (self@.eviction_listener, self@.eviction_notification_mode),
                        self@.time_to_live,
                        self@.time_to_idle,
                    )
                    &&& cache.spec_invalidator_enabled() == self@.invalidator_enabled
                },
                Err(ExpirationError::TimeToLive) => !is_expiration_ok(self@.time_to_live),
                Err(ExpirationError::TimeToIdle) => is_expiration_ok(self@.time_to_live)
                    && !is_expiration_ok(self@.time_to_idle),
            },
    {
        match ensure_expirations(self.time_to_live, self.time_to_idle) {
            Ok(_) => Ok(
                Cache::with_everything(
                    self.max_capacity,
                    self.initial_capacity,
                    self.weigher,
                    self.eviction_listener,
                    self.eviction_notification_mode,
                    self.time_to_live,
                    self.time_to_idle,
                    self.invalidator_enabled,
                ),
            ),
            Err(e) => Err(e),
        }
    }
}

} // verus!
