//! The failures that end a connection.

use vstd::prelude::*;

verus! {

/// The three families of failure. None of them is retried: each is fatal
/// for the connection on which it occurs.
#[derive(Clone, Copy, Debug, PartialEq, Eq, Structural)]
pub enum ErrorKind {
    /// The request is not one this server understands.
    Parse,
    /// The byte stream failed or closed too early.
    Io,
    /// The response builder was used out of order.
    Protocol,
}

/// Why a request could not be read or a response could not be sent.
#[derive(Clone, Copy, Debug, PartialEq, Eq, Structural)]
pub enum Error {
    /// The stream ended before the line or the body was complete.
    UnexpectedEof,
    /// The start line has fewer than three tokens.
    MalformedStartLine,
    /// The method is neither `GET` nor `POST`.
    UnsupportedMethod,
    /// The `content-length` value is not a decimal number that fits the
    /// machine word.
    BadContentLength,
    /// `send` was called on a response whose status was never set.
    StatusNotSet,
}

impl Error {
    /// The family this failure belongs to.
    pub open spec fn spec_kind(self) -> ErrorKind {
        match self {
            Error::UnexpectedEof => ErrorKind::Io,
            Error::MalformedStartLine => ErrorKind::Parse,
            Error::UnsupportedMethod => ErrorKind::Parse,
            Error::BadContentLength => ErrorKind::Parse,
            Error::StatusNotSet => ErrorKind::Protocol,
        }
    }

    /// The family this failure belongs to.
    pub fn kind(&self) -> (kind: ErrorKind)
        ensures
            kind == self.spec_kind(),
    {
        match self {
            Error::UnexpectedEof => ErrorKind::Io,
            Error::MalformedStartLine => ErrorKind::Parse,
            Error::UnsupportedMethod => ErrorKind::Parse,
            Error::BadContentLength => ErrorKind::Parse,
            Error::StatusNotSet => ErrorKind::Protocol,
        }
    }
}

} // verus!
