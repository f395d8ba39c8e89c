//! What can go wrong on the bus.

use vstd::prelude::*;

verus! {

/// Why a byte stream could not be read as frames. Every one of these means
/// that the stream is out of step and the connection has to be dropped.
#[derive(Clone, Copy, Debug, PartialEq, Eq, Structural)]
pub enum FrameError {
    /// A length prefix is not a varint of at most ten bytes holding a 64-bit
    /// value.
    InvalidDelimiter,
    /// A length is beyond what this machine can address.
    Oversized,
    /// The bytes announced as a header are not one.
    InvalidHeader,
    /// The length in front of the body is not the one the header announced.
    LengthMismatch,
    /// The header names a kind of message that does not exist.
    UnsupportedMessageType,
    /// The bytes announced as a body are not a message of the kind the
    /// header names.
    InvalidBody,
}

impl FrameError {
    /// The words that describe each error.
    pub open spec fn description(self) -> Seq<char> {
        match self {
            FrameError::InvalidDelimiter => "invalid length delimiter"@,
            FrameError::Oversized => "frame too large for this machine"@,
            FrameError::InvalidHeader => "invalid message header"@,
            FrameError::LengthMismatch => "body length differs from the header's"@,
            FrameError::UnsupportedMessageType => "Unsupported message type"@,
            FrameError::InvalidBody => "invalid message body"@,
        }
    }

    /// A short description for logs.
    pub fn message(&self) -> (text: &'static str)
        ensures
            text@ == self.description(),
    {
        match self {
            FrameError::InvalidDelimiter => "invalid length delimiter",
            FrameError::Oversized => "frame too large for this machine",
            FrameError::InvalidHeader => "invalid message header",
            FrameError::LengthMismatch => "body length differs from the header's",
            FrameError::UnsupportedMessageType => "Unsupported message type",
            FrameError::InvalidBody => "invalid message body",
        }
    }
}

/// How a call can fail for its caller.
#[derive(Clone, Debug, PartialEq, Eq)]
pub enum Error {
    /// The transport to the broker could not be established.
    BusConnectionFail,
    /// The connection was lost before the reply arrived.
    Closed,
    /// The service at the far side reported a failure.
    RemoteError(String),
}

/// The mathematical content of an [`Error`].
pub enum ErrorView {
    BusConnectionFail,
    Closed,
    RemoteError(Seq<char>),
}

impl View for Error {
    type V = ErrorView;

    open spec fn view(&self) -> ErrorView {
        match self {
            Error::BusConnectionFail => ErrorView::BusConnectionFail,
            Error::Closed => ErrorView::Closed,
            Error::RemoteError(reason) => ErrorView::RemoteError(reason@),
        }
    }
}

} // verus!
