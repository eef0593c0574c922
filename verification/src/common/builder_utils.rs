//! Checks of the settings of a cache.
use std::time::Duration;

use vstd::prelude::*;

use crate::common::time::duration_nanos;

verus! {

/// The nanoseconds of a thousand years.
pub const MAX_EXPIRATION_NANOS: u128 = 31_536_000_000_000_000_000;

/// Which setting is too long.
#[derive(Clone, Copy, Debug, PartialEq, Eq, Structural)]
pub enum ExpirationError {
    TimeToLive,
    TimeToIdle,
}

impl ExpirationError {
    /// What is to be told of the error.
    pub fn message(&self) -> (r: &'static str)
        ensures
            r@ == match *self {
                ExpirationError::TimeToLive => "time_to_live is longer than 1000 years"@,
                ExpirationError::TimeToIdle => "time_to_idle is longer than 1000 years"@,
            },
    {
        match self {
            ExpirationError::TimeToLive => "time_to_live is longer than 1000 years",
            ExpirationError::TimeToIdle => "time_to_idle is longer than 1000 years",
        }
    }
}

/// The setting is not too long.
pub open spec fn is_expiration_ok(d: Option<Duration>) -> bool {
    d is Some ==> duration_nanos(d->0) <= MAX_EXPIRATION_NANOS
}

/// Makes sure that neither the time-to-live nor the time-to-idle is longer than a thousand
/// years.
pub fn ensure_expirations(
    time_to_live: Option<Duration>,
    time_to_idle: Option<Duration>,
) -> (r: Result<(), ExpirationError>)
    ensures
        r == if !is_expiration_ok(time_to_live) {
            Err::<(), ExpirationError>(ExpirationError::TimeToLive)
        } else if !is_expiration_ok(time_to_idle) {
            Err::<(), ExpirationError>(ExpirationError::TimeToIdle)
        } else {
            Ok::<(), ExpirationError>(())
        },
{
    match time_to_live {
        Some(d) => {
            if d.as_nanos() > MAX_EXPIRATION_NANOS {
                return Err(ExpirationError::TimeToLive);
            }
        },
        None => {},
    }
    match time_to_idle {
        Some(d) => {
            if d.as_nanos() > MAX_EXPIRATION_NANOS {
                return Err(ExpirationError::TimeToIdle);
            }
        },
        None => {},
    }
    Ok(())
}

/// A time-to-live or time-to-idle may be as long as a thousand years of 365 days, and no longer, or may be
/// left out.
pub proof fn expirations_take_a_thousand_years(d: Duration)
    ensures
        is_expiration_ok(Some(d)) <==> duration_nanos(d) <= 1000 * 365 * 24 * 3600 * 1_000_000_000,
        is_expiration_ok(None),
{
    assert(1000 * 365 * 24 * 3600 * 1_000_000_000 == 31_536_000_000_000_000_000int);
}

} // verus!
