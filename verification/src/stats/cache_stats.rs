//! Statistics of a cache.
use std::ops::{Add, Sub};

use vstd::prelude::*;
use vstd::std_specs::convert::FromSpecImpl;
use vstd::std_specs::ops::{AddSpecImpl, SubSpecImpl};

use crate::common::concurrent::admission::{sat_add, sat_sub};

verus! {

/// Statistics of a cache. No count exceeds the largest `u64`.
#[derive(Clone, Copy, Debug, PartialEq, Eq, Structural)]
pub struct CacheStats {
    pub hit_count: u64,
    pub miss_count: u64,
    pub load_success_count: u64,
    pub load_failure_count: u64,
    pub total_load_time_nanos: u64,
    pub eviction_by_size_count: u64,
    pub eviction_by_size_weight: u64,
    pub eviction_by_expiration_count: u64,
    pub eviction_by_expiration_weight: u64,
    pub read_drop_count: u64,
    pub write_wait_count: u64,
    pub total_write_wait_time_nanos: u64,
}

impl Default for CacheStats {
    fn default() -> (r: Self)
        ensures
            r == CacheStats::zero(),
    {
        CacheStats {
            hit_count: 0,
            miss_count: 0,
            load_success_count: 0,
            load_failure_count: 0,
            total_load_time_nanos: 0,
            eviction_by_size_count: 0,
            eviction_by_size_weight: 0,
            eviction_by_expiration_count: 0,
            eviction_by_expiration_weight: 0,
            read_drop_count: 0,
            write_wait_count: 0,
            total_write_wait_time_nanos: 0,
        }
    }
}

impl CacheStats {
    /// Nothing was counted.
    pub open spec fn zero() -> Self {
        CacheStats {
            hit_count: 0,
            miss_count: 0,
            load_success_count: 0,
            load_failure_count: 0,
            total_load_time_nanos: 0,
            eviction_by_size_count: 0,
            eviction_by_size_weight: 0,
            eviction_by_expiration_count: 0,
            eviction_by_expiration_weight: 0,
            read_drop_count: 0,
            write_wait_count: 0,
            total_write_wait_time_nanos: 0,
        }
    }

    /// The sum of two statistics.
    pub open spec fn plus(self, rhs: Self) -> Self {
        CacheStats {
            hit_count: sat_add(self.hit_count, rhs.hit_count as int),
            miss_count: sat_add(self.miss_count, rhs.miss_count as int),
            load_success_count: sat_add(self.load_success_count, rhs.load_success_count as int),
            load_failure_count: sat_add(self.load_failure_count, rhs.load_failure_count as int),
            total_load_time_nanos: sat_add(self.total_load_time_nanos, rhs.total_load_time_nanos as int),
            eviction_by_size_count: sat_add(self.eviction_by_size_count, rhs.eviction_by_size_count as int),
            eviction_by_size_weight: sat_add(self.eviction_by_size_weight, rhs.eviction_by_size_weight as int),
            eviction_by_expiration_count: sat_add(self.eviction_by_expiration_count, rhs.eviction_by_expiration_count as int),
            eviction_by_expiration_weight: sat_add(self.eviction_by_expiration_weight, rhs.eviction_by_expiration_weight as int),
            read_drop_count: sat_add(self.read_drop_count, rhs.read_drop_count as int),
            write_wait_count: sat_add(self.write_wait_count, rhs.write_wait_count as int),
            total_write_wait_time_nanos: sat_add(self.total_write_wait_time_nanos, rhs.total_write_wait_time_nanos as int),
        }
    }

    /// The difference of two statistics.
    pub open spec fn minus(self, rhs: Self) -> Self {
        CacheStats {
            hit_count: sat_sub(self.hit_count, rhs.hit_count as int),
            miss_count: sat_sub(self.miss_count, rhs.miss_count as int),
            load_success_count: sat_sub(self.load_success_count, rhs.load_success_count as int),
            load_failure_count: sat_sub(self.load_failure_count, rhs.load_failure_count as int),
            total_load_time_nanos: sat_sub(self.total_load_time_nanos, rhs.total_load_time_nanos as int),
            eviction_by_size_count: sat_sub(self.eviction_by_size_count, rhs.eviction_by_size_count as int),
            eviction_by_size_weight: sat_sub(self.eviction_by_size_weight, rhs.eviction_by_size_weight as int),
            eviction_by_expiration_count: sat_sub(self.eviction_by_expiration_count, rhs.eviction_by_expiration_count as int),
            eviction_by_expiration_weight: sat_sub(self.eviction_by_expiration_weight, rhs.eviction_by_expiration_weight as int),
            read_drop_count: sat_sub(self.read_drop_count, rhs.read_drop_count as int),
            write_wait_count: sat_sub(self.write_wait_count, rhs.write_wait_count as int),
            total_write_wait_time_nanos: sat_sub(self.total_write_wait_time_nanos, rhs.total_write_wait_time_nanos as int),
        }
    }

    pub fn set_req_counts(&mut self, hit_count: u64, miss_count: u64) -> (r: &mut Self)
        ensures
            *r == (CacheStats { hit_count, miss_count, ..*old(self) }),
            *final(self) == *final(r),
    {
        self.hit_count = hit_count;
        self.miss_count = miss_count;
        self
    }

    pub fn set_load_counts(&mut self, load_success_count: u64, load_failure_count: u64, total_load_time_nanos: u64) -> (r: &mut Self)
        ensures
            *r == (CacheStats { load_success_count, load_failure_count, total_load_time_nanos, ..*old(self) }),
            *final(self) == *final(r),
    {
        self.load_success_count = load_success_count;
        self.load_failure_count = load_failure_count;
        self.total_load_time_nanos = total_load_time_nanos;
        self
    }

    pub fn set_eviction_counts(&mut self, eviction_by_size_count: u64, eviction_by_size_weight: u64, eviction_by_expiration_count: u64, eviction_by_expiration_weight: u64) -> (r: &mut Self)
        ensures
            *r == (CacheStats { eviction_by_size_count, eviction_by_size_weight, eviction_by_expiration_count, eviction_by_expiration_weight, ..*old(self) }),
            *final(self) == *final(r),
    {
        self.eviction_by_size_count = eviction_by_size_count;
        self.eviction_by_size_weight = eviction_by_size_weight;
        self.eviction_by_expiration_count = eviction_by_expiration_count;
        self.eviction_by_expiration_weight = eviction_by_expiration_weight;
        self
    }

    pub fn set_read_drop_count(&mut self, count: u64) -> (r: &mut Self)
        ensures
            *r == (CacheStats { read_drop_count: count, ..*old(self) }),
            *final(self) == *final(r),
    {
        self.read_drop_count = count;
        self
    }

    pub fn set_write_wait_count(&mut self, write_wait_count: u64, total_write_wait_time_nanos: u64) -> (r: &mut Self)
        ensures
            *r == (CacheStats { write_wait_count, total_write_wait_time_nanos, ..*old(self) }),
            *final(self) == *final(r),
    {
        self.write_wait_count = write_wait_count;
        self.total_write_wait_time_nanos = total_write_wait_time_nanos;
        self
    }

    /// The number of reads.
    pub fn request_count(&self) -> (r: u64)
        ensures
            r == sat_add(self.hit_count, self.miss_count as int),
    {
        self.hit_count.saturating_add(self.miss_count)
    }

    /// The number of computations.
    pub fn load_count(&self) -> (r: u64)
        ensures
            r == sat_add(self.load_success_count, self.load_failure_count as int),
    {
        self.load_success_count.saturating_add(self.load_failure_count)
    }

    /// The number of reads that found a value.
    pub fn hit_count(&self) -> (r: u64)
        ensures
            r == self.hit_count,
    {
        self.hit_count
    }

    /// The number of reads that found none.
    pub fn miss_count(&self) -> (r: u64)
        ensures
            r == self.miss_count,
    {
        self.miss_count
    }

    /// The number of values that were computed.
    pub fn load_success_count(&self) -> (r: u64)
        ensures
            r == self.load_success_count,
    {
        self.load_success_count
    }

    /// The number of computations that failed.
    pub fn load_failure_count(&self) -> (r: u64)
        ensures
            r == self.load_failure_count,
    {
        self.load_failure_count
    }

    /// The nanoseconds that computations took.
    pub fn total_load_time_nanos(&self) -> (r: u64)
        ensures
            r == self.total_load_time_nanos,
    {
        self.total_load_time_nanos
    }

    /// The number of entries that were evicted for want of room.
    pub fn eviction_by_size_count(&self) -> (r: u64)
        ensures
            r == self.eviction_by_size_count,
    {
        self.eviction_by_size_count
    }

    /// The weights of the entries that were evicted for want of room.
    pub fn eviction_by_size_weight(&self) -> (r: u64)
        ensures
            r == self.eviction_by_size_weight,
    {
        self.eviction_by_size_weight
    }

    /// The number of entries that expired.
    pub fn eviction_by_expiration_count(&self) -> (r: u64)
        ensures
            r == self.eviction_by_expiration_count,
    {
        self.eviction_by_expiration_count
    }

    /// The weights of the entries that expired.
    pub fn eviction_by_expiration_weight(&self) -> (r: u64)
        ensures
            r == self.eviction_by_expiration_weight,
    {
        self.eviction_by_expiration_weight
    }

    /// The number of reads that were not logged.
    pub fn read_drop_count(&self) -> (r: u64)
        ensures
            r == self.read_drop_count,
    {
        self.read_drop_count
    }

    /// The number of writes that had to wait.
    pub fn write_wait_count(&self) -> (r: u64)
        ensures
            r == self.write_wait_count,
    {
        self.write_wait_count
    }

    /// The nanoseconds that writes had to wait.
    pub fn total_write_wait_time_nanos(&self) -> (r: u64)
        ensures
            r == self.total_write_wait_time_nanos,
    {
        self.total_write_wait_time_nanos
    }
}

impl<'a> Add<&'a CacheStats> for &'a CacheStats {
    type Output = CacheStats;

    fn add(self, rhs: &'a CacheStats) -> (r: CacheStats) {
        self.sum(rhs)
    }
}

impl CacheStats {
    /// The sum of two statistics.
    pub fn sum(&self, rhs: &CacheStats) -> (r: CacheStats)
        ensures
            r == self.plus(*rhs),
    {
        CacheStats {
            hit_count: self.hit_count.saturating_add(rhs.hit_count),
            miss_count: self.miss_count.saturating_add(rhs.miss_count),
            load_success_count: self.load_success_count.saturating_add(rhs.load_success_count),
            load_failure_count: self.load_failure_count.saturating_add(rhs.load_failure_count),
            total_load_time_nanos: self.total_load_time_nanos.saturating_add(rhs.total_load_time_nanos),
            eviction_by_size_count: self.eviction_by_size_count.saturating_add(rhs.eviction_by_size_count),
            eviction_by_size_weight: self.eviction_by_size_weight.saturating_add(rhs.eviction_by_size_weight),
            eviction_by_expiration_count: self.eviction_by_expiration_count.saturating_add(rhs.eviction_by_expiration_count),
            eviction_by_expiration_weight: self.eviction_by_expiration_weight.saturating_add(rhs.eviction_by_expiration_weight),
            read_drop_count: self.read_drop_count.saturating_add(rhs.read_drop_count),
            write_wait_count: self.write_wait_count.saturating_add(rhs.write_wait_count),
            total_write_wait_time_nanos: self.total_write_wait_time_nanos.saturating_add(rhs.total_write_wait_time_nanos),
        }
    }
}

impl<'a> AddSpecImpl<&'a CacheStats> for &'a CacheStats {
    open spec fn obeys_add_spec() -> bool {
        true
    }

    open spec fn add_req(self, rhs: &'a CacheStats) -> bool {
        true
    }

    open spec fn add_spec(self, rhs: &'a CacheStats) -> CacheStats {
        self.plus(*rhs)
    }
}

impl Sub for CacheStats {
    type Output = CacheStats;

    fn sub(self, rhs: CacheStats) -> (r: CacheStats) {
        CacheStats {
            hit_count: self.hit_count.saturating_sub(rhs.hit_count),
            miss_count: self.miss_count.saturating_sub(rhs.miss_count),
            load_success_count: self.load_success_count.saturating_sub(rhs.load_success_count),
            load_failure_count: self.load_failure_count.saturating_sub(rhs.load_failure_count),
            total_load_time_nanos: self.total_load_time_nanos.saturating_sub(rhs.total_load_time_nanos),
            eviction_by_size_count: self.eviction_by_size_count.saturating_sub(rhs.eviction_by_size_count),
            eviction_by_size_weight: self.eviction_by_size_weight.saturating_sub(rhs.eviction_by_size_weight),
            eviction_by_expiration_count: self.eviction_by_expiration_count.saturating_sub(rhs.eviction_by_expiration_count),
            eviction_by_expiration_weight: self.eviction_by_expiration_weight.saturating_sub(rhs.eviction_by_expiration_weight),
            read_drop_count: self.read_drop_count.saturating_sub(rhs.read_drop_count),
            write_wait_count: self.write_wait_count.saturating_sub(rhs.write_wait_count),
            total_write_wait_time_nanos: self.total_write_wait_time_nanos.saturating_sub(rhs.total_write_wait_time_nanos),
        }
    }
}

impl SubSpecImpl for CacheStats {
    open spec fn obeys_sub_spec() -> bool {
        true
    }

    open spec fn sub_req(self, rhs: CacheStats) -> bool {
        true
    }

    open spec fn sub_spec(self, rhs: CacheStats) -> CacheStats {
        self.minus(rhs)
    }
}

/// Statistics of a cache, with more detail.
#[derive(Clone, Copy, Debug, PartialEq, Eq, Structural)]
pub struct DetailedCacheStats {
    pub base: CacheStats,
    pub insertion_count: u64,
    pub invalidation_count: u64,
    pub read_drop_count: u64,
    pub write_wait_count: u64,
    pub total_write_wait_time_nanos: u64,
}

impl Default for DetailedCacheStats {
    fn default() -> (r: Self)
        ensures
            r == DetailedCacheStats::of(CacheStats::zero()),
    {
        DetailedCacheStats {
            base: CacheStats::default(),
            insertion_count: 0,
            invalidation_count: 0,
            read_drop_count: 0,
            write_wait_count: 0,
            total_write_wait_time_nanos: 0,
        }
    }
}

impl DetailedCacheStats {
    /// The statistics with no further detail.
    pub open spec fn of(base: CacheStats) -> Self {
        DetailedCacheStats {
            base,
            insertion_count: 0,
            invalidation_count: 0,
            read_drop_count: 0,
            write_wait_count: 0,
            total_write_wait_time_nanos: 0,
        }
    }

    /// The sum of two statistics.
    pub open spec fn plus(self, rhs: Self) -> Self {
        DetailedCacheStats {
            base: self.base.plus(rhs.base),
            insertion_count: sat_add(self.insertion_count, rhs.insertion_count as int),
            invalidation_count: sat_add(self.invalidation_count, rhs.invalidation_count as int),
            read_drop_count: sat_add(self.read_drop_count, rhs.read_drop_count as int),
            write_wait_count: sat_add(self.write_wait_count, rhs.write_wait_count as int),
            total_write_wait_time_nanos: sat_add(
                self.total_write_wait_time_nanos,
                rhs.total_write_wait_time_nanos as int,
            ),
        }
    }

    /// The difference of two statistics.
    pub open spec fn minus(self, rhs: Self) -> Self {
        DetailedCacheStats {
            base: self.base.minus(rhs.base),
            insertion_count: sat_sub(self.insertion_count, rhs.insertion_count as int),
            invalidation_count: sat_sub(self.invalidation_count, rhs.invalidation_count as int),
            read_drop_count: sat_sub(self.read_drop_count, rhs.read_drop_count as int),
            write_wait_count: sat_sub(self.write_wait_count, rhs.write_wait_count as int),
            total_write_wait_time_nanos: sat_sub(
                self.total_write_wait_time_nanos,
                rhs.total_write_wait_time_nanos as int,
            ),
        }
    }

    pub fn set_insertion_and_invalidation_counts(
        &mut self,
        insertion_count: u64,
        invalidation_count: u64,
    ) -> (r: &mut Self)
        ensures
            *r == (DetailedCacheStats { insertion_count, invalidation_count, ..*old(self) }),
            *final(self) == *final(r),
    {
        self.insertion_count = insertion_count;
        self.invalidation_count = invalidation_count;
        self
    }

    pub fn set_read_drop_count(&mut self, count: u64) -> (r: &mut Self)
        ensures
            *r == (DetailedCacheStats { read_drop_count: count, ..*old(self) }),
            *final(self) == *final(r),
    {
        self.read_drop_count = count;
        self
    }

    pub fn set_write_wait_count(&mut self, write_wait_count: u64, total_write_wait_time_nanos: u64) -> (r: &mut Self)
        ensures
            *r == (DetailedCacheStats { write_wait_count, total_write_wait_time_nanos, ..*old(self) }),
            *final(self) == *final(r),
    {
        self.write_wait_count = write_wait_count;
        self.total_write_wait_time_nanos = total_write_wait_time_nanos;
        self
    }

    /// The number of reads.
    pub fn request_count(&self) -> (r: u64)
        ensures
            r == sat_add(self.base.hit_count, self.base.miss_count as int),
    {
        self.base.request_count()
    }

    /// The number of computations.
    pub fn load_count(&self) -> (r: u64)
        ensures
            r == sat_add(self.base.load_success_count, self.base.load_failure_count as int),
    {
        self.base.load_count()
    }

    /// The number of reads that found a value.
    pub fn hit_count(&self) -> (r: u64)
        ensures
            r == self.base.hit_count,
    {
        self.base.hit_count()
    }

    /// The number of reads that found none.
    pub fn miss_count(&self) -> (r: u64)
        ensures
            r == self.base.miss_count,
    {
        self.base.miss_count()
    }

    /// The number of values that were computed.
    pub fn load_success_count(&self) -> (r: u64)
        ensures
            r == self.base.load_success_count,
    {
        self.base.load_success_count()
    }

    /// The number of computations that failed.
    pub fn load_failure_count(&self) -> (r: u64)
        ensures
            r == self.base.load_failure_count,
    {
        self.base.load_failure_count()
    }

    /// The nanoseconds that computations took.
    pub fn total_load_time_nanos(&self) -> (r: u64)
        ensures
            r == self.base.total_load_time_nanos,
    {
        self.base.total_load_time_nanos()
    }

    /// The number of entries that were evicted for want of room.
    pub fn eviction_by_size_count(&self) -> (r: u64)
        ensures
            r == self.base.eviction_by_size_count,
    {
        self.base.eviction_by_size_count()
    }

    /// The weights of the entries that were evicted for want of room.
    pub fn eviction_by_size_weight(&self) -> (r: u64)
        ensures
            r == self.base.eviction_by_size_weight,
    {
        self.base.eviction_by_size_weight()
    }

    /// The number of entries that expired.
    pub fn eviction_by_expiration_count(&self) -> (r: u64)
        ensures
            r == self.base.eviction_by_expiration_count,
    {
        self.base.eviction_by_expiration_count()
    }

    /// The weights of the entries that expired.
    pub fn eviction_by_expiration_weight(&self) -> (r: u64)
        ensures
            r == self.base.eviction_by_expiration_weight,
    {
        self.base.eviction_by_expiration_weight()
    }

    /// The number of reads that were not logged.
    pub fn read_drop_count(&self) -> (r: u64)
        ensures
            r == self.read_drop_count,
    {
        self.read_drop_count
    }

    /// The number of writes that had to wait.
    pub fn write_wait_count(&self) -> (r: u64)
        ensures
            r == self.write_wait_count,
    {
        self.write_wait_count
    }

    /// The nanoseconds that writes had to wait.
    pub fn total_write_wait_time_nanos(&self) -> (r: u64)
        ensures
            r == self.total_write_wait_time_nanos,
    {
        self.total_write_wait_time_nanos
    }
}

impl From<CacheStats> for DetailedCacheStats {
    fn from(stats: CacheStats) -> (r: Self) {
        DetailedCacheStats {
            base: stats,
            insertion_count: 0,
            invalidation_count: 0,
            read_drop_count: 0,
            write_wait_count: 0,
            total_write_wait_time_nanos: 0,
        }
    }
}

impl FromSpecImpl<CacheStats> for DetailedCacheStats {
    open spec fn obeys_from_spec() -> bool {
        true
    }

    open spec fn from_spec(stats: CacheStats) -> Self {
        DetailedCacheStats::of(stats)
    }
}

impl<'a> Add<&'a DetailedCacheStats> for &'a DetailedCacheStats {
    type Output = DetailedCacheStats;

    fn add(self, rhs: &'a DetailedCacheStats) -> (r: DetailedCacheStats) {
        self.sum(rhs)
    }
}

impl DetailedCacheStats {
    /// The sum of two statistics.
    pub fn sum(&self, rhs: &DetailedCacheStats) -> (r: DetailedCacheStats)
        ensures
            r == self.plus(*rhs),
    {
        DetailedCacheStats {
            base: self.base.sum(&rhs.base),
            insertion_count: self.insertion_count.saturating_add(rhs.insertion_count),
            invalidation_count: self.invalidation_count.saturating_add(rhs.invalidation_count),
            read_drop_count: self.read_drop_count.saturating_add(rhs.read_drop_count),
            write_wait_count: self.write_wait_count.saturating_add(rhs.write_wait_count),
            total_write_wait_time_nanos: self.total_write_wait_time_nanos.saturating_add(
                rhs.total_write_wait_time_nanos,
            ),
        }
    }
}

impl<'a> AddSpecImpl<&'a DetailedCacheStats> for &'a DetailedCacheStats {
    open spec fn obeys_add_spec() -> bool {
        true
    }

    open spec fn add_req(self, rhs: &'a DetailedCacheStats) -> bool {
        true
    }

    open spec fn add_spec(self, rhs: &'a DetailedCacheStats) -> DetailedCacheStats {
        self.plus(*rhs)
    }
}

impl Sub for DetailedCacheStats {
    type Output = DetailedCacheStats;

    fn sub(self, rhs: DetailedCacheStats) -> (r: DetailedCacheStats) {
        DetailedCacheStats {
            base: self.base - rhs.base,
            insertion_count: self.insertion_count.saturating_sub(rhs.insertion_count),
            invalidation_count: self.invalidation_count.saturating_sub(rhs.invalidation_count),
            read_drop_count: self.read_drop_count.saturating_sub(rhs.read_drop_count),
            write_wait_count: self.write_wait_count.saturating_sub(rhs.write_wait_count),
            total_write_wait_time_nanos: self.total_write_wait_time_nanos.saturating_sub(
                rhs.total_write_wait_time_nanos,
            ),
        }
    }
}

impl SubSpecImpl for DetailedCacheStats {
    open spec fn obeys_sub_spec() -> bool {
        true
    }

    open spec fn sub_req(self, rhs: DetailedCacheStats) -> bool {
        true
    }

    open spec fn sub_spec(self, rhs: DetailedCacheStats) -> DetailedCacheStats {
        self.minus(rhs)
    }
}

/// Statistics can be summed up in any order and in any groups.
pub proof fn sum_of_stats_has_no_order(a: CacheStats, b: CacheStats, c: CacheStats)
    ensures
        a.plus(b) == b.plus(a),
        a.plus(b).plus(c) == a.plus(b.plus(c)),
        a.plus(CacheStats::zero()) == a,
{
}

/// No statistic of a difference exceeds that of what was subtracted from.
pub proof fn difference_of_stats_is_not_larger(a: CacheStats, b: CacheStats)
    ensures
        a.minus(b).hit_count <= a.hit_count,
        a.minus(b).miss_count <= a.miss_count,
        a.minus(a) == CacheStats::zero(),
{
}

} // verus!
