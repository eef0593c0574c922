//! Caches that decide by frequency what they let in, and by recency what they evict.
//!
//! Keys are numbers. Whoever uses a cache gives the hash of each key and the current time, so
//! that what a cache does follows from what it was told.
use vstd::prelude::*;

pub mod builder;
pub mod cht;
pub mod common;
pub mod dash;
pub mod future;
pub mod lfu;
pub mod lfu_laws;
pub mod notification;
pub mod ops;
pub mod policy;
pub mod stats;
pub mod sync;

verus! {

} // verus!
