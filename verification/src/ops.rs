//! Operations on entries.
pub mod compute;
