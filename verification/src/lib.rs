//! Core engine of an editor for an embedded, transactional key-value store:
//! a lossless byte-string/edit-text codec, a single-writer transaction
//! session, a registry of named collections, a resumable paged cursor, and
//! an edit buffer for staging entries.

use vstd::prelude::*;

pub mod codec;
pub mod cursor;
pub mod entry;
pub mod session;
pub mod store;

verus! {

/// Errors surfaced by the engine to its caller.
#[derive(Clone, Copy, Debug, PartialEq, Eq, Structural)]
pub enum EngineError {
    /// The staged text is not a well-formed escaped string.
    Decode,
    /// A mutation was requested while no write transaction is active.
    InvalidState,
}

impl EngineError {
    /// A short human-readable description of the error.
    pub fn describe(&self) -> (r: &'static str)
        ensures
            self is Decode ==> r@ == "malformed escape text"@,
            self is InvalidState ==> r@ == "no active write transaction"@,
    {
        match self {
            EngineError::Decode => "malformed escape text",
            EngineError::InvalidState => "no active write transaction",
        }
    }
}

} // verus!
