//! Error taxonomy of the persistence layer.
//!
//! Every fallible operation returns a typed result; nothing is retried
//! internally. Failure to decompress an archive is a distinct class from a
//! codec decode failure, so callers can tell "not this format" from
//! "this format, but corrupted".

use vstd::prelude::*;

verus! {

/// Bytes handed to a codec do not represent a valid corpus.
///
/// Each variant carries the byte offset at which decoding failed, so a
/// malformed file can be diagnosed.
#[derive(Debug, PartialEq, Eq, Clone, Copy)]
pub enum DecodeError {
    /// The buffer ends before the value that should start at `offset` is
    /// complete.
    Truncated { offset: usize },
    /// A field tag of the self-describing encoding does not match the field
    /// expected at `offset`.
    FieldTag { offset: usize },
    /// A marker or discriminant byte at `offset` is outside the declared
    /// range of the encoding.
    Discriminant { offset: usize },
    /// A string's bytes at `offset` are not valid UTF-8.
    Utf8 { offset: usize },
    /// Decoding finished but `offset` is not the end of the buffer.
    TrailingBytes { offset: usize },
    /// The length recorded in an archive's frame disagrees with the length
    /// of the buffer that holds it.
    FrameLength { offset: usize },
}

/// A corpus value cannot be represented by the selected encoding.
#[derive(Debug, PartialEq, Eq, Clone, Copy)]
pub enum EncodeError {
    /// A string or sequence is too long for the encoding's length prefix.
    TooLong,
}

/// Everything a load or save can fail with.
#[derive(Debug, PartialEq, Eq, Clone)]
pub enum CorporeumError {
    /// The path's extension is missing or names no registered format.
    InvalidExtension,
    /// The underlying file operation failed; the message comes from the
    /// filesystem. Only the unverified I/O shell constructs this variant.
    Io(String),
    /// The selected codec rejected the bytes.
    Decode(DecodeError),
    /// The compressed archive could not be decompressed; the codec never saw
    /// the bytes.
    Decompression,
    /// The corpus cannot be represented in the selected encoding.
    Encode(EncodeError),
}

} // verus!
