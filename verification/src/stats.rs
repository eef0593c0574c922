//! Statistics of a cache, and counters that keep them.
pub use self::cache_stats::{CacheStats, DetailedCacheStats};
pub use self::stats_counter::{
    ConcurrentStatsCounter, DefaultStatsCounter, DetailedStatsCounter, DisabledStatsCounter,
    StatsCounter, StripedStatsCounter,
};

pub mod cache_stats;
pub mod laws;
pub mod stats_counter;
