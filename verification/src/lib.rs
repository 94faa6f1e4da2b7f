//! A bidirectional codec that maps long URLs to short, human-typable
//! aliases and back.
//!
//! The [`codec::Codec`] type owns a monotonically increasing identifier
//! counter and an append-only store of records.  `encode` assigns each new
//! long URL the next identifier, renders it as a base-62 short code, and
//! returns the full short URL; `decode` reverses the process, reporting
//! malformed or never-issued codes as typed errors.

pub mod base62;
pub mod codec;

pub use codec::Codec;
pub use codec::DecodeError;
pub use codec::Record;
