//! Errors.
use vstd::prelude::*;

verus! {

/// Why a predicate could not be registered.
#[derive(Clone, Copy, Debug, PartialEq, Eq, Structural)]
pub enum PredicateRegistrationError {
    /// The cache was not made for invalidation by closures.
    InvalidationClosuresDisabled,
    /// There are too many predicates already.
    NoSpaceLeft,
}

impl PredicateRegistrationError {
    /// What is to be told of the error.
    pub fn message(&self) -> (r: &'static str)
        ensures
            r@ == match *self {
                PredicateRegistrationError::InvalidationClosuresDisabled => "Support for invalidation closures is disabled. Please enable it by calling the enable_invalidation_with_closures method of the builder at the cache creation time"@,
                PredicateRegistrationError::NoSpaceLeft => "No space left in the predicate registry"@,
            },
    {
        match self {
            PredicateRegistrationError::InvalidationClosuresDisabled => "Support for invalidation closures is disabled. Please enable it by calling the enable_invalidation_with_closures method of the builder at the cache creation time",
            PredicateRegistrationError::NoSpaceLeft => "No space left in the predicate registry",
        }
    }
}

} // verus!
