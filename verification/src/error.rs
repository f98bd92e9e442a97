//! The errors of the readers, of the writers and of a conversion.

use vstd::prelude::*;

verus! {

/// `std::io::Error`, carried through unread: the library never looks inside one.
#[verifier::external_type_specification]
#[verifier::external_body]
pub struct ExIoError(std::io::Error);

/// Input/output error type
#[derive(Debug)]
pub enum ErrorType<Byte> {
    /// I/O error
    ///
    /// Wraps the failure of the byte source or sink itself: that of the
    /// stream that the bytes of the input were read from, or of the stream
    /// that the output was delivered to.
    StdIO(std::io::Error),
    /// Short read/write error
    ///
    /// Fewer units were transferred than the format needs for one byte value:
    /// `bytes` digits were read where `expected` make a group, or `bytes`
    /// characters were taken by the sink where `expected` were handed to it.
    ShortIO { bytes: usize, expected: usize },
    /// Invalid byte read or invalid byte value to write
    ///
    /// The character read is no digit of the input format, or the byte value
    /// has no text in the output format.
    InvalidByte(Byte),
}

/// Input error: it carries the offending character.
pub type InError = ErrorType<char>;

/// Output error: it carries the offending byte value.
pub type OutError = ErrorType<u8>;

/// The error type returned by [`convert`](crate::convert).
#[derive(Debug)]
pub enum Error {
    /// Error originated in reading or parsing the input
    In(InError),
    /// Error originated in encoding or writing the output
    Out(OutError),
}

} // verus!
