//! An incremental relational index over an append-only log of
//! social-network messages.
//!
//! The crate decodes a binary framed log into discrete entries
//! ([`offset_log`]), attempts to decrypt entries against a set of candidate
//! secret keys ([`boxes`]), converts untrusted dynamic payloads into the
//! strict legacy value representation ([`codec`] and [`payload`]), and
//! maintains queryable tables together with a `latest` cursor
//! ([`indexer`]).

use vstd::prelude::*;

pub mod boxes;
pub mod codec;
pub mod indexer;
pub mod offset_log;
pub mod payload;

verus! {

/// Why decoding an entry payload was rejected.
#[derive(Clone, Copy, Debug, PartialEq, Eq, Structural)]
pub enum DecodeError {
    /// A number whose bit pattern the legacy format forbids:
    /// `NaN`, an infinity, or negative zero.
    InvalidLegacyNumber,
    /// A mapping carried the same key twice.
    DuplicateKey,
    /// A collection held more elements than the codec ever materialises.
    AllocationCapExceeded,
    /// The raw bytes of an entry do not spell a well-formed value.
    MalformedPayload,
}

/// Why reading the framed log stopped: the stream is corrupt at the
/// reader's position, either truncated or with a frame whose two length
/// fields disagree. Terminal for that reader: frame boundaries past a
/// corrupt point cannot be trusted.
#[derive(Clone, Copy, Debug, PartialEq, Eq, Structural)]
pub enum LogError {
    CorruptLog,
}

/// A failed batch: the whole batch was rolled back, and `sequence` names
/// the entry whose decoding failed with `cause`.
#[derive(Clone, Copy, Debug, PartialEq, Eq, Structural)]
pub struct BatchError {
    pub sequence: u64,
    pub cause: DecodeError,
}

} // verus!
