//! The error kinds the storage engine surfaces.

use vstd::prelude::*;

verus! {

/// Everything that can go wrong inside the store.
#[derive(Debug, PartialEq, Eq)]
pub enum Error {
    /// A directory could not be traversed or a file name is malformed.
    BadPath(String),
    /// The directory's `meta` file is a directory or names another backend.
    InvalidMeta(String),
    /// A decoded record disagrees with the index: data corruption.
    UnexpectCmd { found: String, expect: String },
    /// `remove` was asked for a key the store does not hold.
    KeyNotFound(String),
    /// An invariant that should never break did.
    UnknowErr(String),
    /// The host file system failed an operation.
    Io(String),
    /// A malformed or truncated record was met while decoding.
    Codec,
}

impl Error {
    /// A short human-readable name of the error kind.
    pub fn kind(&self) -> (r: &'static str)
        ensures
            self is KeyNotFound ==> r@ == "key not found"@,
    {
        match self {
            Error::BadPath(_) => "bad path",
            Error::InvalidMeta(_) => "invalid metadata",
            Error::UnexpectCmd { .. } => "unexpect command",
            Error::KeyNotFound(_) => "key not found",
            Error::UnknowErr(_) => "unknown error",
            Error::Io(_) => "io error",
            Error::Codec => "codec error",
        }
    }
}

} // verus!
