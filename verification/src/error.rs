//! The error channel of the storage engine.

use vstd::prelude::*;

verus! {

/// What can go wrong inside the engine.
#[derive(Clone, Copy, Debug, PartialEq, Eq, Structural)]
pub enum StorageError {
    /// The codec could not encode a chunk of records.
    Encode,
    /// The codec could not decode a byte range into a chunk of records:
    /// the data is truncated or malformed.
    Decode,
}

impl StorageError {
    /// A short description of the error kind.
    pub fn describe(&self) -> (text: &'static str)
        ensures
            text@ == (match *self {
                StorageError::Encode => "encode error"@,
                StorageError::Decode => "decode error"@,
            }),
    {
        match self {
            StorageError::Encode => "encode error",
            StorageError::Decode => "decode error",
        }
    }
}

/// Results whose failures are engine errors.
pub type StorageResult<T> = Result<T, StorageError>;

} // verus!
