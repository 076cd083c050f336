//! Error kinds for store operations.

use vstd::prelude::*;

verus! {

/// Everything an operation on the store can report.
#[derive(Debug)]
pub enum DbError {
    /// A command line has invalid syntax.
    InvalidCommandError,
    /// An insert named a key that is already live.
    DuplicateIdError(u32),
    /// A numeric field of a command could not be read.
    ParseError(String),
    /// A filesystem operation failed; the message describes it.
    IoError(String),
    /// Persisted text could not be decoded; the message describes it.
    SerializationError(String),
}

} // verus!
