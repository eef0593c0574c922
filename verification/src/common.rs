//! What all caches share.
use std::borrow::Borrow;
use std::sync::Arc;
use std::time::Duration;

use vstd::prelude::*;

use self::concurrent::constants::{
    DEFAULT_RUN_PENDING_TASKS_TIMEOUT_MILLIS, EVICTION_BATCH_SIZE, MAX_SYNC_REPEATS,
};
use self::time::duration_nanos;

pub mod base_cache;
pub mod builder_utils;
pub mod concurrent;
pub mod count_min;
pub mod deque;
pub mod double;
pub mod entry;
pub mod error;
pub mod estimator;
pub mod frequency_sketch;
pub mod math;
pub mod op_log;
pub mod policy_impl;
pub mod shelf;
pub mod small_list;
pub mod store;
pub mod time;
pub mod timer_laws;
pub mod timer_wheel;

verus! {

/// The part of the main space, or the window, that a queue of entries stands for.
#[derive(Clone, Copy, Debug, PartialEq, Eq, Structural)]
pub enum CacheRegion {
    Window,
    MainProbation,
    MainProtected,
    Other,
}

impl CacheRegion {
    /// The number of the region.
    pub open spec fn number(self) -> usize {
        match self {
            CacheRegion::Window => 0,
            CacheRegion::MainProbation => 1,
            CacheRegion::MainProtected => 2,
            CacheRegion::Other => 3,
        }
    }

    /// The region of a number.
    pub fn from_number(n: usize) -> (r: Self)
        requires
            n <= 3,
        ensures
            r.number() == n,
    {
        match n {
            0 => CacheRegion::Window,
            1 => CacheRegion::MainProbation,
            2 => CacheRegion::MainProtected,
            _ => CacheRegion::Other,
        }
    }

    /// Whether the region has this number.
    pub fn has_number(&self, n: usize) -> (r: bool)
        ensures
            r == (self.number() == n),
    {
        match self {
            CacheRegion::Window => n == 0,
            CacheRegion::MainProbation => n == 1,
            CacheRegion::MainProtected => n == 2,
            CacheRegion::Other => n == 3,
        }
    }

    pub fn name(self) -> (r: &'static str)
        ensures
            r@ == match self {
                CacheRegion::Window => "window"@,
                CacheRegion::MainProbation => "main probation"@,
                CacheRegion::MainProtected => "main protected"@,
                CacheRegion::Other => "other"@,
            },
    {
        match self {
            CacheRegion::Window => "window",
            CacheRegion::MainProbation => "main probation",
            CacheRegion::MainProtected => "main protected",
            CacheRegion::Other => "other",
        }
    }
}

/// How housekeeping is done.
pub struct HousekeeperConfig {
    pub maintenance_task_timeout: Duration,
    pub max_log_sync_repeats: u32,
    pub eviction_batch_size: u32,
}

impl HousekeeperConfig {
    /// Settings that are not given are the usual ones.
    pub fn new(
        maintenance_task_timeout: Option<Duration>,
        max_log_sync_repeats: Option<u32>,
        eviction_batch_size: Option<u32>,
    ) -> (r: Self)
        ensures
            match maintenance_task_timeout {
                Some(d) => r.maintenance_task_timeout == d,
                None => duration_nanos(r.maintenance_task_timeout)
                    == DEFAULT_RUN_PENDING_TASKS_TIMEOUT_MILLIS * 1_000_000,
            },
            r.max_log_sync_repeats == match max_log_sync_repeats {
                Some(n) => n,
                None => MAX_SYNC_REPEATS as u32,
            },
            r.eviction_batch_size == match eviction_batch_size {
                Some(n) => n,
                None => EVICTION_BATCH_SIZE as u32,
            },
            max_log_sync_repeats is None ==> r.max_log_sync_repeats == 4,
            eviction_batch_size is None ==> r.eviction_batch_size == 384,
            maintenance_task_timeout is None ==> duration_nanos(r.maintenance_task_timeout) == 100_000_000,
    {
        HousekeeperConfig {
            maintenance_task_timeout: match maintenance_task_timeout {
                Some(d) => d,
                None => Duration::from_millis(DEFAULT_RUN_PENDING_TASKS_TIMEOUT_MILLIS),
            },
            max_log_sync_repeats: max_log_sync_repeats.unwrap_or(MAX_SYNC_REPEATS as u32),
            eviction_batch_size: eviction_batch_size.unwrap_or(EVICTION_BATCH_SIZE as u32),
        }
    }
}

impl Default for HousekeeperConfig {
    fn default() -> (r: Self)
        ensures
            duration_nanos(r.maintenance_task_timeout) == DEFAULT_RUN_PENDING_TASKS_TIMEOUT_MILLIS
                * 1_000_000,
            r.max_log_sync_repeats == MAX_SYNC_REPEATS as u32,
            r.eviction_batch_size == EVICTION_BATCH_SIZE as u32,
    {
        HousekeeperConfig::new(None, None, None)
    }
}

/// Makes a shared value of a borrowed one. `OPTIMAL` says that the value is stored beside the
/// counts of those who share it, and not behind another pointer.
pub trait ToOwnedArc<const OPTIMAL: bool> {
    /// What is shared.
    type ArcOwned: Borrow<Self> + ?Sized;

    fn to_owned_arc(&self) -> Arc<Self::ArcOwned>;
}

impl<T: Clone> ToOwnedArc<false> for T {
    type ArcOwned = T;

    fn to_owned_arc(&self) -> (r: Arc<T>)
        ensures
            cloned(*self, *r),
    {
        Arc::new(self.clone())
    }
}

impl<T: ToOptimalOwnedArc + ?Sized> ToOwnedArc<true> for T {
    type ArcOwned = <T as ToOptimalOwnedArc>::ArcOwned;

    fn to_owned_arc(&self) -> (r: Arc<Self::ArcOwned>)
        ensures
            call_ensures(T::to_optimal_owned_arc, (self,), r),
    {
        self.to_optimal_owned_arc()
    }
}

/// Makes a shared value of a borrowed one, of a type whose size is not known: the value is
/// stored beside the counts of those who share it.
pub trait ToOptimalOwnedArc {
    /// What is shared.
    type ArcOwned: Borrow<Self> + ?Sized;

    fn to_optimal_owned_arc(&self) -> Arc<Self::ArcOwned>;
}

impl ToOptimalOwnedArc for str {
    type ArcOwned = str;

    fn to_optimal_owned_arc(&self) -> (r: Arc<str>)
        ensures
            (*r)@ == self@,
    {
        shared_str(self)
    }
}

impl<T: Clone> ToOptimalOwnedArc for [T] {
    type ArcOwned = [T];

    fn to_optimal_owned_arc(&self) -> (r: Arc<[T]>)
        ensures
            (*r)@.len() == self@.len(),
            forall|i: int| 0 <= i < self@.len() ==> cloned(self@[i], #[trigger] (*r)@[i]),
    {
        shared_slice(self)
    }
}

/// `Arc::<str>::from`: what is shared holds the characters of the string.
#[verifier::external_body]
fn shared_str(s: &str) -> (r: Arc<str>)
    ensures
        (*r)@ == s@,
{
    Arc::from(s)
}

/// `Arc::<[T]>::from`: what is shared holds a clone of each element of the slice, in their
/// order.
#[verifier::external_body]
fn shared_slice<T: Clone>(s: &[T]) -> (r: Arc<[T]>)
    ensures
        (*r)@.len() == s@.len(),
        forall|i: int| 0 <= i < s@.len() ==> cloned(s@[i], #[trigger] (*r)@[i]),
{
    Arc::from(s)
}

/// The capacity of the frequency sketch for a cache of the capacity `max_capacity`.
pub open spec fn spec_sketch_capacity(max_capacity: u64) -> u32 {
    if max_capacity < 128 {
        128
    } else if max_capacity <= u32::MAX {
        max_capacity as u32
    } else {
        u32::MAX
    }
}

/// The capacity of the frequency sketch for a cache of the capacity `max_capacity`: that
/// capacity, but at least 128 and at most the largest `u32`.
pub fn sketch_capacity(max_capacity: u64) -> (r: u32)
    ensures
        r == spec_sketch_capacity(max_capacity),
{
    let capped: u32 = if max_capacity <= u32::MAX as u64 {
        max_capacity as u32
    } else {
        u32::MAX
    };
    if capped < 128 {
        128
    } else {
        capped
    }
}

/// The capacity of a frequency sketch is that of the cache wherever it can be, is never less than 128, and
/// does not shrink when the cache grows.
pub proof fn sketch_grows_with_the_cache(a: u64, b: u64)
    ensures
        128 <= a <= u32::MAX ==> spec_sketch_capacity(a) == a,
        spec_sketch_capacity(a) >= 128,
        a > u32::MAX ==> spec_sketch_capacity(a) == u32::MAX,
        a < 128 ==> spec_sketch_capacity(a) == 128,
        a <= b ==> spec_sketch_capacity(a) <= spec_sketch_capacity(b),
{
}

} // verus!
