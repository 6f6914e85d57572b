//! Parse errors: what went wrong, where, and which status code answers it.

use crate::response::StatusCode;
use vstd::prelude::*;

verus! {

/// The std error kind carried by an I/O failure; opaque here.
#[verifier::external_type_specification]
#[verifier::external_body]
pub struct ExIoErrorKind(std::io::ErrorKind);

/// Relies on std's `Clone` for the `Copy` type `io::ErrorKind`: the clone equals its source value.
pub assume_specification[ <std::io::ErrorKind as Clone>::clone ](k: &std::io::ErrorKind) -> (r:
    std::io::ErrorKind)
    ensures
        r == *k,
;

/// The part of the message in which an error was noticed.
#[derive(Debug, Clone, Copy, PartialEq, Eq, Structural)]
pub enum Location {
    StartLine,
    Headers,
    Body,
    Trailers,
}

/// The budget that a message exceeded.
#[derive(Debug, Clone, Copy, PartialEq, Eq, Structural)]
pub enum LimitKind {
    RequestLineBytes,
    HeaderLineBytes,
    HeaderBytesTotal,
    HeaderCount,
    PathBytes,
    QueryBytes,
    BodyBytes,
    ChunkSizeBytes,
    TrailerBytesTotal,
}

#[derive(Debug, Clone, PartialEq, Eq)]
#[non_exhaustive]
pub enum ParseErrorKind {
    InvalidMethod,
    InvalidTarget,
    InvalidVersion,
    MalformedHeaderLine,
    InvalidHeaderName,
    InvalidHeaderValue,
    UnexpectedByte { expected: u8, found: u8 },
    MissingRequiredHeader,
    DuplicateHeader,
    ConflictingContentLength,
    InvalidContentLength,
    InvalidTransferEncoding,
    ChunkSizeInvalid,
    ChunkCrlfMissing,
    ChunkExtensionsInvalid,
    TooLarge { what: LimitKind, limit: usize, actual: usize },
    IncompleteMessage,
    Timeout,
    Io(std::io::ErrorKind),
    VersionNotSupported,
    UnsupportedFeature,
}

#[derive(Debug, Clone)]
pub struct HttpParseError {
    pub kind: ParseErrorKind,
    pub location: Location,
    /// Byte offset, into the bytes handed to the parser, where the error was noticed.
    pub offset: usize,
    /// The line number (1 for the start line) where the error was noticed, when known.
    pub line: Option<usize>,
}

/// The status code that answers an error of the given kind.
pub open spec fn status_for(kind: ParseErrorKind) -> u16 {
    match kind {
        ParseErrorKind::InvalidMethod | ParseErrorKind::InvalidTarget
        | ParseErrorKind::InvalidVersion | ParseErrorKind::MalformedHeaderLine
        | ParseErrorKind::InvalidHeaderName | ParseErrorKind::InvalidHeaderValue
        | ParseErrorKind::UnexpectedByte { .. } | ParseErrorKind::MissingRequiredHeader
        | ParseErrorKind::DuplicateHeader | ParseErrorKind::ConflictingContentLength
        | ParseErrorKind::InvalidContentLength | ParseErrorKind::InvalidTransferEncoding
        | ParseErrorKind::ChunkSizeInvalid | ParseErrorKind::ChunkCrlfMissing
        | ParseErrorKind::ChunkExtensionsInvalid => 400,
        ParseErrorKind::TooLarge { what, .. } => match what {
            LimitKind::RequestLineBytes | LimitKind::HeaderLineBytes
            | LimitKind::HeaderBytesTotal | LimitKind::HeaderCount => 431,
            LimitKind::BodyBytes => 413,
            _ => 400,
        },
        ParseErrorKind::VersionNotSupported => 505,
        ParseErrorKind::Timeout => 408,
        _ => 500,
    }
}

impl HttpParseError {
    pub fn status_code(&self) -> (r: StatusCode)
        ensures
            r.code() == status_for(self.kind),
    {
        let code: u16 = match self.kind {
            ParseErrorKind::InvalidMethod | ParseErrorKind::InvalidTarget
            | ParseErrorKind::InvalidVersion | ParseErrorKind::MalformedHeaderLine
            | ParseErrorKind::InvalidHeaderName | ParseErrorKind::InvalidHeaderValue
            | ParseErrorKind::UnexpectedByte { .. } | ParseErrorKind::MissingRequiredHeader
            | ParseErrorKind::DuplicateHeader | ParseErrorKind::ConflictingContentLength
            | ParseErrorKind::InvalidContentLength | ParseErrorKind::InvalidTransferEncoding
            | ParseErrorKind::ChunkSizeInvalid | ParseErrorKind::ChunkCrlfMissing
            | ParseErrorKind::ChunkExtensionsInvalid => 400,
            ParseErrorKind::TooLarge { what, .. } => match what {
                LimitKind::RequestLineBytes | LimitKind::HeaderLineBytes
                | LimitKind::HeaderBytesTotal | LimitKind::HeaderCount => 431,
                LimitKind::BodyBytes => 413,
                _ => 400,
            },
            ParseErrorKind::VersionNotSupported => 505,
            ParseErrorKind::Timeout => 408,
            _ => 500,
        };
        StatusCode::new(code)
    }
}

} // verus!
