//! The errors of the store.
use vstd::prelude::*;

verus! {

/// An error of the operating system's input and output.
#[verifier::external_type_specification]
#[verifier::external_body]
pub struct ExIoError(std::io::Error);

/// A failure of the `bincode` encoder or decoder.
#[verifier::external_type_specification]
#[verifier::external_body]
pub struct ExBincodeErrorKind(bincode::ErrorKind);

/// Custom error types for the LSM key-value store.
#[derive(Debug)]
pub enum KvError {
    /// Wraps `std::io::Error` for file and I/O operations.
    Io(std::io::Error),
    /// Serialization or deserialization failure (bincode).
    Serialization(bincode::Error),
    /// The requested key was not found.
    KeyNotFound,
    /// The write-ahead log is corrupted or contains invalid data.
    CorruptedWal(String),
    /// An invalid operation was attempted.
    InvalidOperation(String),
}

/// `std::io::Error::new` with kind `UnexpectedEof`: the error that
/// `read_exact` gives where the bytes end before the buffer is full.
/// Nothing is stated of the error's contents.
#[verifier::external_body]
pub(crate) fn unexpected_eof() -> std::io::Error {
    std::io::Error::new(std::io::ErrorKind::UnexpectedEof, "failed to fill whole buffer")
}

/// `std::io::Error::new` with kind `InvalidInput`: the error that `seek`
/// gives for a position before the start of a file. Nothing is stated of
/// the error's contents.
#[verifier::external_body]
pub(crate) fn invalid_seek() -> std::io::Error {
    std::io::Error::new(
        std::io::ErrorKind::InvalidInput,
        "invalid seek to a negative or overflowing position",
    )
}

} // verus!
