//! The error type shared by every fallible operation of the store.

use vstd::prelude::*;

verus! {

/// Declares `std::io::Error` as an opaque type: nothing is known of its contents.
#[verifier::external_type_specification]
#[verifier::external_body]
pub struct ExIoError(std::io::Error);

/// Basic type to represent all possible errors that can occur when interacting with a store.
#[derive(Debug)]
pub enum Error {
    /// IO error.
    Io(std::io::Error),
    /// Tried to perform an operation on an invalid `file_id`.
    InvalidFileId(u32),
    /// Invalid key size, i.e. larger than the maximum key size.
    InvalidKeySize(usize),
    /// Invalid value size, i.e. larger than the maximum value size.
    InvalidValueSize(usize),
    /// Invalid checksum found, potential data corruption.
    InvalidChecksum { expected: u32, found: u32 },
    /// Invalid path provided.
    InvalidPath(String),
}

/// Value returned from potentially-error operations.
pub type Result<T> = std::result::Result<T, Error>;

/// Builds the error that a reader reports when its input ends before a record does.
///
/// Wraps `std::io::Error::from` applied to `std::io::ErrorKind::UnexpectedEof`; nothing is
/// claimed of the value.
#[verifier::external_body]
pub(crate) fn unexpected_eof() -> std::io::Error {
    std::io::Error::from(std::io::ErrorKind::UnexpectedEof)
}

impl Error {
    /// A short, fixed description of the kind of error.
    pub fn description(&self) -> (text: &'static str)
        ensures
            text@ == match self {
                Error::Io(_) => "IO error"@,
                Error::InvalidFileId(_) => "Invalid file id"@,
                Error::InvalidChecksum { .. } => "Invalid checksum"@,
                Error::InvalidKeySize(_) => "Invalid key size"@,
                Error::InvalidValueSize(_) => "Invalid value size"@,
                Error::InvalidPath(_) => "Invalid path"@,
            },
    {
        match self {
            Error::Io(_) => "IO error",
            Error::InvalidFileId(_) => "Invalid file id",
            Error::InvalidChecksum { .. } => "Invalid checksum",
            Error::InvalidKeySize(_) => "Invalid key size",
            Error::InvalidValueSize(_) => "Invalid value size",
            Error::InvalidPath(_) => "Invalid path",
        }
    }
}

} // verus!
