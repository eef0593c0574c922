//! Builds a cache that counts its entries.
use std::marker::PhantomData;
use std::time::Duration;

use vstd::prelude::*;

use crate::sync::cache::Cache;
use crate::sync::segment::SegmentedCache;

verus! {

/// Builds a [`Cache`] or a [`SegmentedCache`].
pub struct Builder<C> {
    capacity: usize,
    num_segments: Option<usize>,
    time_to_live: Option<Duration>,
    time_to_idle: Option<Duration>,
    cache_type: PhantomData<C>,
}

/// The settings of a cache that is to be built.
pub struct BuilderState {
    pub capacity: usize,
    pub num_segments: Option<usize>,
    pub time_to_live: Option<Duration>,
    pub time_to_idle: Option<Duration>,
}

impl<C> Builder<C> {
    pub closed spec fn view(&self) -> BuilderState {
        BuilderState {
            capacity: self.capacity,
            num_segments: self.num_segments,
            time_to_live: self.time_to_live,
            time_to_idle: self.time_to_idle,
        }
    }

    /// Sets the time after which an entry expires, counted from its last write.
    pub fn time_to_live(self, duration: Duration) -> (r: Self)
        ensures
            r@ == (BuilderState { time_to_live: Some(duration), ..self@ }),
    {
        Builder { time_to_live: Some(duration), ..self }
    }

    /// Sets the time after which an entry expires, counted from its last use.
    pub fn time_to_idle(self, duration: Duration) -> (r: Self)
        ensures
            r@ == (BuilderState { time_to_idle: Some(duration), ..self@ }),
    {
        Builder { time_to_idle: Some(duration), ..self }
    }
}

impl<V> Builder<Cache<V>> {
    /// A builder of a cache of up to `capacity` entries.
    pub fn new(capacity: usize) -> (r: Self)
        ensures
            r@ == (BuilderState {
                capacity,
                num_segments: None,
                time_to_live: None,
                time_to_idle: None,
            }),
    {
        Builder {
            capacity,
            num_segments: None,
            time_to_live: None,
            time_to_idle: None,
            cache_type: PhantomData,
        }
    }

    /// Parts the cache into segments.
    pub fn segment(self, num_segments: usize) -> (r: Builder<SegmentedCache<V>>)
        ensures
            r@ == (BuilderState { num_segments: Some(num_segments), ..self@ }),
    {
        Builder {
            capacity: self.capacity,
            num_segments: Some(num_segments),
            time_to_live: self.time_to_live,
            time_to_idle: self.time_to_idle,
            cache_type: PhantomData,
        }
    }

    pub fn build(self) -> (r: Cache<V>)
        ensures
            r.wf(),
            r.is_empty_cache(self@.capacity, self@.time_to_live, self@.time_to_idle),
    {
        Cache::with_everything(self.capacity, self.time_to_live, self.time_to_idle)
    }
}

impl<V> Builder<SegmentedCache<V>> {
    pub fn build(self) -> (r: SegmentedCache<V>)
        requires
            self@.num_segments is Some,
            0 < self@.num_segments->0 <= 0x8000_0000_0000_0000,
        ensures
            r.wf(),
            r.is_empty_cache(
                self@.capacity,
                self@.num_segments->0,
                self@.time_to_live,
                self@.time_to_idle,
            ),
    {
        SegmentedCache::with_everything(
            self.capacity,
            self.num_segments.unwrap(),
            self.time_to_live,
            self.time_to_idle,
        )
    }
}

} // verus!
