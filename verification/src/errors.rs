//! What can go wrong.

use vstd::prelude::*;
use crate::decimal::NumberError;
use crate::reader::UnexpectedEof;

verus! {

/// Why events cannot be encoded.
#[derive(Debug, Clone, Copy, PartialEq, Eq, Structural)]
pub enum EncodeError {
    /// The time of an event is not a time.
    InvalidTimestamp,
    /// The number of an event is not a number.
    InvalidId(NumberError),
    /// The type of an event is not known.
    UnknownEventType,
    /// The number of a repository does not fit in 32 bits.
    RepoIdTooLarge,
    /// The name of a repository has no slash.
    InvalidRepoName,
}

/// Why bytes cannot be decoded.
#[derive(Debug, Clone, Copy, PartialEq, Eq, Structural)]
pub enum DecodeError {
    /// The input ended.
    UnexpectedEof,
    /// A name is not text.
    InvalidUtf8 {
        /// How many bytes were left from the beginning of the name on.
        left: usize,
    },
    /// The time of an event is out of range.
    InvalidTimestamp,
    /// There are more new repositories than those that are listed.
    MissingRepo {
        /// The number of the event.
        event: usize,
    },
    /// There are more new owners than those that are listed.
    MissingOwner {
        /// The number of the owner.
        owner: usize,
        /// How many owners are listed.
        owners: usize,
        /// The number of the event.
        event: usize,
    },
    /// An event refers to a repository that has not come yet.
    InvalidRepoRef {
        /// The reference.
        backref: u64,
        /// The number of the event.
        event: usize,
        /// How many repositories have come.
        repos: usize,
    },
    /// An event refers to an owner that has not come yet.
    InvalidOwnerRef {
        /// The number of the owner.
        owner_index: u64,
        /// The reference.
        backref: u64,
        /// The number of the event.
        event: usize,
        /// How many owners have come.
        owners: usize,
    },
}

/// The input ended while bytes were decoded.
pub fn at_end(_e: UnexpectedEof) -> (r: DecodeError)
    ensures
        r == DecodeError::UnexpectedEof,
{
    DecodeError::UnexpectedEof
}

} // verus!
