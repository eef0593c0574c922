//! The thread pools that caches share.
use vstd::prelude::*;

verus! {

/// What a thread pool is for.
#[derive(Clone, Copy, Debug, PartialEq, Eq, Structural)]
pub enum PoolName {
    Housekeeper,
    Invalidator,
    RemovalNotifier,
}

impl PoolName {
    /// The pattern of the names of the threads of a pool.
    pub fn thread_name_template(&self) -> (r: &'static str)
        ensures
            r@ == match *self {
                PoolName::Housekeeper => "moka-housekeeper-{}"@,
                PoolName::Invalidator => "moka-invalidator-{}"@,
                PoolName::RemovalNotifier => "moka-notifier-{}"@,
            },
    {
        match self {
            PoolName::Housekeeper => "moka-housekeeper-{}",
            PoolName::Invalidator => "moka-invalidator-{}",
            PoolName::RemovalNotifier => "moka-notifier-{}",
        }
    }
}

/// A registered pool is held by the registry, and by the one who gives it back.
pub const OWN_HOLDERS: usize = 2;

/// Whether a pool that is given back may be given up. `holders` is the number of those who held
/// it when it was given back, and `holders_now` that of those who hold the registered pool now,
/// if there is one.
pub fn should_release_pool(holders: usize, holders_now: Option<usize>) -> (r: bool)
    ensures
        r == (holders <= OWN_HOLDERS && holders_now is Some && holders_now->0 <= OWN_HOLDERS),
        r == (holders <= 2 && holders_now is Some && holders_now->0 <= 2),
{
    holders <= OWN_HOLDERS && match holders_now {
        Some(n) => n <= OWN_HOLDERS,
        None => false,
    }
}

} // verus!
