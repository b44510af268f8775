//! Error taxonomy for store and editor operations.

use vstd::prelude::*;

verus! {

/// Everything that can go wrong while loading, saving or switching profiles.
/// Payloads are raw bytes: a message for the I/O and parse cases, the profile
/// name for the not-found case.
#[derive(Debug)]
pub enum GhpError {
    /// A file could not be read, written or created.
    Io(Vec<u8>),
    /// The named profile is not in the store.
    ProfileNotFound(Vec<u8>),
    /// The configuration could not be interpreted (e.g. no home directory).
    ConfigParse(Vec<u8>),
    /// A required configuration value is missing.
    MissingConfig(Vec<u8>),
}

} // verus!
