//! Manager for named GitHub identity profiles.
//!
//! The library keeps a store of profiles (username, email, SSH key path),
//! serializes it to a line-oriented config format, and edits the user's SSH
//! client configuration: it finds the `Host github.com` stanza in arbitrary
//! config text and replaces it in place, or appends one, leaving every other
//! line untouched. All text is handled as bytes; the surrounding binary does
//! the file and console I/O.

pub mod error;
pub mod paths;
pub mod editor;
pub mod store;
pub mod text;
