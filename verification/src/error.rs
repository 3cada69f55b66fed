//! Error kinds of the protocol decoder and the session transport layer.

use vstd::prelude::*;

verus! {

/// A hard decode failure.  Token-level and entity-level failures abort the
/// whole parse: a corrupt frame is rejected wholesale, never partially
/// merged into the session state.
#[derive(Clone, Copy, Debug, PartialEq, Eq, Structural)]
pub enum DecodeError {
    /// The token stream ended while a field was still owed.
    UnexpectedEof,
    /// A token that had to be an integer did not parse as one.
    NotAnInteger,
    /// A token that had to be a floating-point number did not parse as one.
    NotAFloat,
    /// A declared repeat count was negative.  A negative count is never
    /// clamped to zero: that would silently truncate a corrupted stream.
    NegativeLength,
    /// One frame declared the same player id twice in one of its
    /// player-indexed sections.
    DuplicatePlayer,
}

/// A transport-level or session-level failure of `receive`.
#[derive(Clone, Copy, Debug, PartialEq, Eq, Structural)]
pub enum ClientError {
    /// `receive` was called while no request was outstanding: the channel
    /// demands strict request/reply alternation.
    ReceiveWithoutSend,
    /// `receive` was called before `connect` succeeded.
    NotConnected,
    /// No reply arrived within the receive-side wait bound.
    Timeout,
    /// The reply payload was not valid text.
    MalformedEncoding,
    /// The reply arrived but its envelope or frame failed to decode.
    Decode(DecodeError),
}

} // verus!
