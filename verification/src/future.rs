//! Caches whose values may be computed by futures.
pub mod builder;
pub mod cache;
pub mod entry_selector;
pub mod housekeeper;
pub mod meeting;
pub mod value_initializer;

use vstd::prelude::*;

verus! {

/// What a predicate by which values are taken away is known by.
pub type PredicateId = String;

} // verus!
