//! The error taxonomy of the protocol.

use vstd::prelude::*;

verus! {

/// What can go wrong while gossiping.
#[derive(Clone, Copy, Debug, PartialEq, Eq, Structural)]
pub enum Error {
    /// A caller misused the protocol surface, e.g. initiated a rumor that is
    /// already in flight. Surfaced to the caller; does not stop the node.
    ProtocolMisuse,
    /// A send to or receive from a peer failed; the frame is dropped.
    TransportTransient,
    /// A decoded frame failed signature verification; the frame is dropped.
    SignatureInvalid,
    /// Malformed bytes; the frame is dropped.
    CodecFailure,
    /// An internal invariant was violated; terminates the node task.
    Fatal,
}

impl Error {
    /// A short description, suitable for logging.
    pub fn describe(&self) -> (r: &'static str)
    {
        match self {
            Error::ProtocolMisuse => "protocol misuse",
            Error::TransportTransient => "transient transport failure",
            Error::SignatureInvalid => "invalid signature",
            Error::CodecFailure => "malformed frame",
            Error::Fatal => "fatal internal error",
        }
    }
}

} // verus!
