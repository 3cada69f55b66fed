//! The session transport state machine: strict request/reply alternation
//! over one channel.  The channel itself (socket, polling, the wall-clock
//! timeout) lives outside this crate; the decisions live here.  The
//! runner reports each receive attempt's verdict as a [`ReplyEvent`] and
//! this machine decides what it means for the session.

use vstd::prelude::*;
use crate::error::ClientError;
use crate::state::{ServerState, envelope_result, state_after_parse, state_after_update};

verus! {

/// The transport's verdict on one receive attempt: a payload arrived, the
/// wait timed out, or the payload was not valid text.
pub enum ReplyEvent {
    Payload(Vec<u8>),
    TimedOut,
    BadText,
}

/// One session: the server state plus the request/reply bookkeeping.
/// `message_sent` must be set (via [`Client::note_sent`]) after each
/// command goes out, and is cleared by a successful receive: the channel
/// allows exactly one request in flight.
pub struct Client {
    pub state: ServerState,
    pub connected: bool,
    pub message_sent: bool,
}

/// Whether a receive attempt may begin: a request must be outstanding on
/// an established channel.
pub open spec fn receive_gate(c: Client) -> Result<(), ClientError> {
    if !c.message_sent {
        Err(ClientError::ReceiveWithoutSend)
    } else if !c.connected {
        Err(ClientError::NotConnected)
    } else {
        Ok(())
    }
}

impl Client {
    /// A fresh session: not connected, nothing in flight, pristine state.
    pub fn new() -> (c: Client)
        ensures
            !c.connected,
            !c.message_sent,
            c.state@ == crate::state::initial_state(),
    {
        Client { state: ServerState::new(), connected: false, message_sent: false }
    }

    /// Records that the handshake went through and the channel stands.
    pub fn mark_connected(&mut self)
        ensures
            final(self).connected,
            final(self).message_sent == old(self).message_sent,
            final(self).state == old(self).state,
    {
        self.connected = true;
    }

    /// Records that a command went out and a reply is now owed.
    pub fn note_sent(&mut self)
        ensures
            final(self).message_sent,
            final(self).connected == old(self).connected,
            final(self).state == old(self).state,
    {
        self.message_sent = true;
    }

    /// Whether a receive attempt may begin; fails with
    /// `ReceiveWithoutSend` when no request is outstanding, with
    /// `NotConnected` when the channel was never established.
    pub fn receive_ready(&self) -> (r: Result<(), ClientError>)
        ensures
            r == receive_gate(*self),
    {
        if !self.message_sent {
            Err(ClientError::ReceiveWithoutSend)
        } else if !self.connected {
            Err(ClientError::NotConnected)
        } else {
            Ok(())
        }
    }

    /// Consumes the transport's verdict on one receive attempt.  Called
    /// before any send, it fails with `ReceiveWithoutSend` and changes
    /// nothing.  A timeout or a non-text payload is reported unchanged.
    /// A payload is decoded wholesale and folded into the state by
    /// `parse` then `update`; only then is the outstanding request
    /// considered answered, and the raw message handed back.  On any
    /// decode failure the session, the previously published frame
    /// included, is exactly as it was.
    pub fn receive(&mut self, ev: ReplyEvent) -> (res: Result<Vec<u8>, ClientError>)
        ensures
            !old(self).message_sent ==> res == Err::<Vec<u8>, ClientError>(
                ClientError::ReceiveWithoutSend,
            ) && *final(self) == *old(self),
            old(self).message_sent && !old(self).connected ==> res == Err::<Vec<u8>, ClientError>(
                ClientError::NotConnected,
            ) && *final(self) == *old(self),
            old(self).message_sent && old(self).connected ==> match ev {
                ReplyEvent::TimedOut => res == Err::<Vec<u8>, ClientError>(ClientError::Timeout)
                    && *final(self) == *old(self),
                ReplyEvent::BadText => res == Err::<Vec<u8>, ClientError>(
                    ClientError::MalformedEncoding,
                ) && *final(self) == *old(self),
                ReplyEvent::Payload(m) => match envelope_result(m@) {
                    Err(e) => res == Err::<Vec<u8>, ClientError>(ClientError::Decode(e))
                        && *final(self) == *old(self),
                    Ok(_) => ({
                        &&& res matches Ok(out) && out@ == m@
                        &&& final(self).state@ == state_after_update(
                            state_after_parse(old(self).state@, m@),
                        )
                        &&& !final(self).message_sent
                        &&& final(self).connected
                    }),
                },
            },
    {
        if !self.message_sent {
            return Err(ClientError::ReceiveWithoutSend);
        }
        if !self.connected {
            return Err(ClientError::NotConnected);
        }
        match ev {
            ReplyEvent::TimedOut => Err(ClientError::Timeout),
            ReplyEvent::BadText => Err(ClientError::MalformedEncoding),
            ReplyEvent::Payload(m) => {
                match self.state.parse(m.as_slice()) {
                    Err(e) => Err(ClientError::Decode(e)),
                    Ok(_) => {
                        match self.state.update() {
                            Err(e) => Err(ClientError::Decode(e)),
                            Ok(_) => {
                                self.message_sent = false;
                                Ok(m)
                            },
                        }
                    },
                }
            },
        }
    }
}

} // verus!
