//! Sizes and intervals.
use vstd::prelude::*;

verus! {

/// How often housekeeping goes over the logs at most.
pub const MAX_SYNC_REPEATS: usize = 4;

/// The milliseconds after which housekeeping is due even if little was logged.
pub const PERIODICAL_SYNC_INITIAL_DELAY_MILLIS: u64 = 300;

/// The number of logged reads at which housekeeping is due.
pub const READ_LOG_FLUSH_POINT: usize = 64;

/// The number of reads that the log takes.
pub const READ_LOG_SIZE: usize = READ_LOG_FLUSH_POINT * (MAX_SYNC_REPEATS + 2);

/// The number of logged writes at which housekeeping is due.
pub const WRITE_LOG_FLUSH_POINT: usize = 64;

/// The number of writes that the log takes.
pub const WRITE_LOG_SIZE: usize = WRITE_LOG_FLUSH_POINT * (MAX_SYNC_REPEATS + 2);

/// How many entries one round of housekeeping evicts at most.
pub const EVICTION_BATCH_SIZE: usize = WRITE_LOG_SIZE;

/// How many entries one round of housekeeping invalidates at most.
pub const INVALIDATION_BATCH_SIZE: usize = WRITE_LOG_SIZE;

/// The milliseconds that a round of housekeeping may take, where it has a time limit.
pub const DEFAULT_RUN_PENDING_TASKS_TIMEOUT_MILLIS: u64 = 100;

/// The microseconds after which a write is tried again.
pub const WRITE_RETRY_INTERVAL_MICROS: u64 = 50;

} // verus!
