//! A hash table with open addressing.
pub mod map;
