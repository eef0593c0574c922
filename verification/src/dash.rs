//! A cache upon a concurrent hash table.
pub mod base_cache;
pub mod account_laws;
pub mod capacity_laws;
pub mod settled_laws;
pub mod count_laws;
pub mod debug_fmt;
pub mod inner;
pub mod iter;
pub mod laws;
pub mod mapref;
pub mod state;
pub mod use_laws;
