//! The error taxonomy of the archive library.
//!
//! Every fallible operation of the core returns one of these types; the core
//! itself never panics and never aborts the process.

use vstd::prelude::*;

verus! {

/// Why a key was rejected by the path policy.
///
/// A valid archive key is a relative, forward-slash path that names a file:
/// it has no leading slash, no `..` segment, a non-empty final segment, and
/// no NUL character (the container format terminates names with NUL).
#[derive(Debug, Clone, Copy, PartialEq, Eq, Structural)]
pub enum PathError {
    /// The key starts with a slash, so it is absolute rather than relative.
    Absolute,
    /// The key contains a `..` segment and could escape the extraction root.
    Traversal,
    /// The key is empty or ends with a slash, so it names no file.
    NotFile,
    /// The key contains a NUL character, which the name table cannot carry.
    IllegalChar,
}

/// Which axis of the header dispatch was recognized but not supported.
#[derive(Debug, Clone, Copy, PartialEq, Eq, Structural)]
pub enum UnsupportedError {
    /// The version field named a format revision this library does not read.
    Version,
    /// The compression field named a scheme this library does not read.
    Compression,
}

/// A structural failure while parsing one field of a container.
///
/// Each field of the name table has its own variant, so diagnostics can name
/// the exact field that was malformed or truncated.
#[derive(Debug, Clone, Copy, PartialEq, Eq, Structural)]
pub enum ParseError {
    /// The version field could not be read. The decoder's minimum-length
    /// check guarantees the field is present, so this variant is reserved:
    /// an unrecognized version value is reported as unsupported instead.
    Version,
    /// The compression field could not be read. Reserved for the same reason
    /// as [`ParseError::Version`].
    Compression,
    /// The buffer ended before a name's NUL terminator.
    Name,
    /// The buffer ended inside a record's offset field.
    Index,
    /// The buffer ended inside a record's size field.
    Size,
    /// A record's offset and size reach outside the payload.
    Range,
}

/// Everything that can go wrong while decoding a container.
#[derive(Debug, Clone, Copy, PartialEq, Eq, Structural)]
pub enum UnpackError {
    /// The buffer is shorter than the smallest possible container, or its
    /// first four bytes are not the magic constant.
    InvalidFile,
    /// The version field itself was structurally invalid. Reserved: the
    /// decoder reports an unrecognized version as `UnsupportedFormat`.
    InvalidVersion,
    /// The compression field itself was structurally invalid. Reserved: the
    /// decoder reports an unrecognized tag as `UnsupportedFormat`.
    InvalidCompression,
    /// The header was well-formed but named an unsupported version or
    /// compression scheme.
    UnsupportedFormat(UnsupportedError),
    /// A field of the name table was malformed or truncated.
    ParseError(ParseError),
    /// A name in the table was not valid UTF-8.
    Utf8,
    /// A decoded key violated the path policy.
    Path(PathError),
}

} // verus!
