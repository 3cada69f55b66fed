//! Client-side runtime for a real-time strategy game automation protocol.
//!
//! The library decodes a densely packed, text-tokenized wire format into a
//! structured per-frame game-state snapshot, and keeps a session-wide state
//! object current frame over frame.  The transport itself (a request/reply
//! messaging channel) is an external collaborator; this crate holds the
//! protocol logic: the token reader, the envelope codec, the recursive
//! entity decoder, and the session-state machine.

pub mod encode;
pub mod error;
pub mod frame;
pub mod client;
pub mod codec;
pub mod position;
pub mod state;
pub mod tokens;

use vstd::prelude::*;

verus! {

/// The protocol revision this client speaks, declared in the handshake
/// payload.
pub fn protocol_version() -> (v: u32)
    ensures
        v == 16,
{
    16
}

} // verus!
