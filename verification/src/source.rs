//! The source capability: how a cached value is loaded and persisted.
//!
//! The cache itself never touches a file, the credential store or a wire
//! format; all of that stands behind this trait, which the user of the cache
//! implements for the universe of values one [`crate::config::Config`]
//! manages. A universe is either a single configuration type or an enum with
//! one variant per configuration type; the type key passed to
//! [`Source::load_or_default`] says which member of the universe is wanted.

use vstd::prelude::*;

use crate::error::ConfigError;

verus! {

/// The capability contract a value must satisfy to be cacheable.
pub trait Source: Sized {
    /// Load the persisted state for the type identified by `key`, falling
    /// back to a default on any failure; from the cache's point of view
    /// loading never fails.
    fn load_or_default(key: u64) -> Self;

    /// Persist the current in-memory state. A failure is reported upward;
    /// the cache never retries.
    fn save(&self) -> Result<(), ConfigError>;

    /// Duplicate the in-memory value, field for field. The cache hands
    /// duplicates out through shared guards; the contract is what ties a
    /// guard's value to the cached one.
    fn clone_value(&self) -> (r: Self)
        ensures
            r == *self,
    ;
}

/// A source that is not persisted at all: loading falls back to the
/// default and saving is a no-op. A marker in the capability hierarchy.
pub trait NormalSource: Source {
}

} // verus!
