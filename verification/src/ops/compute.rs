//! Operations that are computed from what a key has.
use vstd::prelude::*;

verus! {

/// What is to be done with an entry.
#[derive(Clone, Copy, Debug, PartialEq, Eq, Structural)]
pub enum Op<V> {
    /// Nothing.
    Nop,
    /// Insert the value, or replace the one that is there.
    Put(V),
    /// Remove the entry, if there is one.
    Remove,
}

/// What was done with an entry.
#[derive(Clone, Copy, Debug, PartialEq, Eq, Structural)]
pub enum PerformedOp {
    /// Nothing, either because that was asked for, or because there was no entry to be removed.
    Nop,
    /// The entry was inserted.
    Inserted,
    /// The value of the entry was replaced.
    Updated,
    /// The entry was removed.
    Removed,
}

} // verus!
