//! The error that an operation of this layer can raise.

use vstd::prelude::*;
use vstd::string::*;

verus! {

/// Why an operation was refused.
///
/// Nothing in this crate reads or writes, so the only failure that it raises
/// itself is an input of the wrong shape. The failures of the engine and of
/// the encodings belong to the caller that performs the I/O.
#[derive(Debug, PartialEq, Eq)]
pub enum OsunbitDBError {
    /// An update or a batch call was handed an input of the wrong shape. The
    /// text says which shape was expected.
    InvalidUpdate(String),
}

impl OsunbitDBError {
    /// The text of the cause.
    pub open spec fn cause(&self) -> Seq<char> {
        match self {
            OsunbitDBError::InvalidUpdate(reason) => reason@,
        }
    }

    /// The message for a reader: `"Invalid update: "`, then the cause.
    pub fn message(&self) -> (text: String)
        ensures
            text@ == "Invalid update: "@ + self.cause(),
    {
        match self {
            OsunbitDBError::InvalidUpdate(reason) => "Invalid update: ".to_owned().concat(
                reason.as_str(),
            ),
        }
    }

    /// The error for an input of the wrong shape, with `reason` as its cause.
    pub fn invalid_update(reason: &str) -> (e: OsunbitDBError)
        ensures
            e is InvalidUpdate,
            e.cause() == reason@,
    {
        OsunbitDBError::InvalidUpdate(reason.to_owned())
    }
}

} // verus!
