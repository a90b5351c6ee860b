//! The errors of the library.
use vstd::prelude::*;

verus! {

/// An error of the library, with the reason in words.
#[derive(Debug)]
pub enum Error {
    /// Stored bytes do not have the form that they were written in.
    DataCorrupted(String),
    /// A name or a file system object is not what was expected in its place.
    WrongObjectType(String),
    /// An argument is out of the range that the operation accepts.
    InvalidArgument(String),
    /// The operation is not possible in the present state.
    InvalidState(String),
    /// The transaction cannot go on and has to be rolled back.
    TransactionAborted(String),
    /// Reading or writing a file failed.
    Io(String),
}

impl Error {
    /// Whether this is a `DataCorrupted` error with the given reason.
    pub open spec fn is_corrupted(self, reason: Seq<char>) -> bool {
        self matches Error::DataCorrupted(s) && s@ == reason
    }

    /// Whether this is an `InvalidArgument` error with the given reason.
    pub open spec fn is_invalid_argument(self, reason: Seq<char>) -> bool {
        self matches Error::InvalidArgument(s) && s@ == reason
    }

    /// Whether this is a `TransactionAborted` error with the given reason.
    pub open spec fn is_aborted(self, reason: Seq<char>) -> bool {
        self matches Error::TransactionAborted(s) && s@ == reason
    }

    /// A `DataCorrupted` error.
    pub fn corrupted(reason: &str) -> (r: Error)
        ensures
            r.is_corrupted(reason@),
    {
        Error::DataCorrupted(reason.to_owned())
    }

    /// An `InvalidArgument` error.
    pub fn invalid_argument(reason: &str) -> (r: Error)
        ensures
            r.is_invalid_argument(reason@),
    {
        Error::InvalidArgument(reason.to_owned())
    }

    /// A `TransactionAborted` error.
    pub fn aborted(reason: &str) -> (r: Error)
        ensures
            r.is_aborted(reason@),
    {
        Error::TransactionAborted(reason.to_owned())
    }
}

} // verus!
