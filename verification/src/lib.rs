//! An in-process, type-keyed configuration cache.
//!
//! The cache lazily materialises configuration values on first access,
//! arbitrates shared and exclusive access to each value, tracks which values
//! have been mutated since they were last persisted, and writes dirty values
//! back to their source when an entry is evicted or the cache is torn down.
//!
//! The crate is organised around five components:
//! - [`access`]: the per-entry access state, a bitfield packing validity,
//!   dirtiness, an exclusive-claim flag and a bounded count of shared claims;
//! - [`cache`]: the entries and the map from type key to entry;
//! - [`guard`]: the handles that represent granted shared or exclusive claims;
//! - [`config`]: the public facade over the cache;
//! - [`source`]: the capability contract a cacheable value satisfies;
//! - [`error`]: the error values of refused claims and failed sources;
//! - [`encrypt`]: the RSA helper used by encrypted sources.

pub mod access;
pub mod cache;
pub mod config;
pub mod encrypt;
pub mod error;
pub mod guard;
pub mod source;

pub use config::Config;
pub use encrypt::{Encrypter, PasswordFetch};
pub use error::ConfigError;
pub use guard::{CfgMut, CfgRef};
pub use source::{NormalSource, Source};
