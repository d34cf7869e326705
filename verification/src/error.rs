use vstd::prelude::*;

verus! {

/// The closed set of failures a host-protocol operation can report.
///
/// Every operation returns exactly one of these; the client never retries
/// and never recovers silently.
#[derive(Debug, Clone, PartialEq, Eq)]
pub enum AdbError {
    /// The underlying transport failed (connect refused, reset, write error).
    IoError,
    /// The peer closed the connection in the middle of an operation.
    ConnectionClosed,
    /// The response did not match the expected framing or grammar.
    ProtocolError,
    /// The server replied `FAIL`; the field holds the message bytes, verbatim.
    RemoteError(Vec<u8>),
    /// A malformed argument, rejected before any I/O was attempted.
    InvalidArgument,
    /// A caller-chosen bound expired while waiting for the server.
    Timeout,
    /// The command is too long for the four-hex-digit length prefix.
    EncodingError,
}

} // verus!
