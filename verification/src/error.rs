//! The error type of the configuration cache.
//!
//! Access-arbitration failures (a claim that cannot be granted immediately)
//! are reported synchronously through these values rather than by blocking:
//! a claim that cannot be granted at once is refused, never queued.

use vstd::prelude::*;

verus! {

/// Everything that can go wrong in the cache or in the sources around it.
#[derive(Clone, Copy, Debug, PartialEq, Eq, Structural)]
pub enum ConfigError {
    /// A shared or exclusive claim was refused because an exclusive claim is
    /// already outstanding on the entry.
    WriteHeld,
    /// An exclusive claim was refused because shared claims are outstanding
    /// on the entry.
    ReadHeld,
    /// A shared claim was refused because the bound on concurrent shared
    /// claims of one entry is already reached.
    TooManyReaders,
    /// The cache holds no entry for this key.
    ConfigNotFound { key: u64 },
    /// A value could not be encoded or decoded.
    SerdeError,
    /// The encrypter stored in the credential store could not be decoded.
    LoadEncrypterFailed,
    /// The OS credential store could not be accessed.
    KeyringError,
    /// Encryption or decryption failed.
    EncryptionError,
    /// A file could not be read or written.
    IoError,
}

impl ConfigError {
    /// A short description, one per variant.
    pub fn message(&self) -> (r: &'static str)
        ensures
            r@.len() > 0,
    {
        let r = match self {
            ConfigError::WriteHeld => "an exclusive claim is outstanding",
            ConfigError::ReadHeld => "shared claims are outstanding",
            ConfigError::TooManyReaders => "too many concurrent shared claims",
            ConfigError::ConfigNotFound { .. } => "no entry for this key",
            ConfigError::SerdeError => "cannot encode or decode",
            ConfigError::LoadEncrypterFailed => "cannot decode the stored encrypter",
            ConfigError::KeyringError => "cannot access the OS credential store",
            ConfigError::EncryptionError => "cannot encrypt or decrypt",
            ConfigError::IoError => "cannot operate the file",
        };
        proof {
            reveal_strlit("an exclusive claim is outstanding");
            reveal_strlit("shared claims are outstanding");
            reveal_strlit("too many concurrent shared claims");
            reveal_strlit("no entry for this key");
            reveal_strlit("cannot encode or decode");
            reveal_strlit("cannot decode the stored encrypter");
            reveal_strlit("cannot access the OS credential store");
            reveal_strlit("cannot encrypt or decrypt");
            reveal_strlit("cannot operate the file");
        }
        r
    }
}

} // verus!
