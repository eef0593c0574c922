//! Why an entry was removed, and how its removal is told.
use vstd::prelude::*;

pub mod notifier;

verus! {

/// How the removal of entries is told to the listener of a cache.
#[derive(Clone, Copy, Debug, PartialEq, Eq, Structural)]
pub struct Configuration {
    mode: DeliveryMode,
}

impl Default for Configuration {
    fn default() -> (r: Self)
        ensures
            r.spec_delivery_mode() == DeliveryMode::Immediate,
    {
        Configuration { mode: DeliveryMode::Immediate }
    }
}

impl Configuration {
    pub closed spec fn spec_delivery_mode(&self) -> DeliveryMode {
        self.mode
    }

    pub fn builder() -> (r: ConfigurationBuilder)
        ensures
            r.spec_delivery_mode() == DeliveryMode::Immediate,
    {
        ConfigurationBuilder::default()
    }

    pub fn delivery_mode(&self) -> (r: DeliveryMode)
        ensures
            r == self.spec_delivery_mode(),
    {
        self.mode
    }
}

/// Builds a [`Configuration`].
pub struct ConfigurationBuilder {
    mode: DeliveryMode,
}

impl Default for ConfigurationBuilder {
    fn default() -> (r: Self)
        ensures
            r.spec_delivery_mode() == DeliveryMode::Immediate,
    {
        ConfigurationBuilder { mode: DeliveryMode::Immediate }
    }
}

impl ConfigurationBuilder {
    pub closed spec fn spec_delivery_mode(&self) -> DeliveryMode {
        self.mode
    }

    pub fn build(self) -> (r: Configuration)
        ensures
            r.spec_delivery_mode() == self.spec_delivery_mode(),
    {
        Configuration { mode: self.mode }
    }

    pub fn delivery_mode(self, mode: DeliveryMode) -> (r: Self)
        ensures
            r.spec_delivery_mode() == mode,
    {
        ConfigurationBuilder { mode }
    }
}

/// When the listener of a cache is told that an entry was removed.
#[derive(Clone, Copy, Debug, PartialEq, Eq, Structural)]
pub enum DeliveryMode {
    /// Before the removal is over.
    Immediate,
    /// Some time after the removal.
    Queued,
}

impl Default for DeliveryMode {
    fn default() -> (r: Self)
        ensures
            r == DeliveryMode::Immediate,
    {
        DeliveryMode::Immediate
    }
}

/// Why an entry was removed.
#[derive(Clone, Copy, Debug, PartialEq, Eq, Structural)]
pub enum RemovalCause {
    /// The entry expired.
    Expired,
    /// The entry was removed by the user.
    Explicit,
    /// The value of the entry was replaced by the user.
    Replaced,
    /// There was no room for the entry.
    Size,
}

impl RemovalCause {
    /// Whether the entry was removed by the cache, and not by the user.
    pub fn was_evicted(&self) -> (r: bool)
        ensures
            r == (*self == RemovalCause::Expired || *self == RemovalCause::Size),
    {
        match self {
            RemovalCause::Expired | RemovalCause::Size => true,
            RemovalCause::Explicit | RemovalCause::Replaced => false,
        }
    }
}

} // verus!
