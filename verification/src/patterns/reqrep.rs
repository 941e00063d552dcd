//! The request/reply pattern: a strict one-request-one-reply exchange.
//!
//! The transport enforces alternation at the socket; this module makes
//! the same discipline an explicit, checked state machine, so that a
//! call out of turn fails fast with a `Protocol` error instead of
//! hanging or failing opaquely. When a bounded wait for a reply
//! expires, the requester stays in `AwaitingReply`: the socket has an
//! outstanding request, and every later request fails with `Protocol`
//! until the handle is recreated — the caller's documented
//! responsibility, never silently ignored.

use vstd::prelude::*;

use crate::error::OxideError;
use crate::message::Message;
use crate::message::MessageView;
use crate::message::spec_decode;
use crate::message::spec_encode;
use crate::patterns::RecvOutcome;
use crate::value::wf_value;

verus! {

/// Where a requester stands in its send-then-receive cycle.
#[derive(Debug, PartialEq, Eq, Structural, Clone, Copy)]
pub enum ReqPhase {
    /// Free to send a request.
    Idle,
    /// A request is out; only receiving a reply is in turn.
    AwaitingReply,
}

/// Where a replier stands in its receive-then-send cycle.
#[derive(Debug, PartialEq, Eq, Structural, Clone, Copy)]
pub enum RepPhase {
    /// Free to receive a request.
    Idle,
    /// A request is in; only sending a reply is in turn.
    PendingReply,
}

/// The requester's protocol state: `Idle`, send, `AwaitingReply`,
/// receive, `Idle`. A second request before any reply is a protocol
/// violation and fails deterministically.
pub struct RequesterState {
    /// The current phase of the cycle.
    pub phase: ReqPhase,
}

impl RequesterState {
    /// A fresh requester, free to send.
    pub fn new() -> (r: RequesterState)
        ensures
            r.phase is Idle,
    {
        RequesterState { phase: ReqPhase::Idle }
    }

    /// Encode a request and move into `AwaitingReply`; out of turn,
    /// change nothing and fail with `Protocol`.
    pub fn begin_request(&mut self, m: &Message) -> (r: Result<Vec<u8>, OxideError>)
        ensures
            old(self).phase is Idle ==> {
                &&& r matches Ok(b) && b@ == spec_encode(m@)
                &&& final(self).phase is AwaitingReply
            },
            old(self).phase is AwaitingReply ==> {
                &&& r matches Err(e) && e is Protocol
                &&& final(self).phase == old(self).phase
            },
    {
        match self.phase {
            ReqPhase::Idle => {
                let b = m.to_bytes();
                match b {
                    Ok(bytes) => {
                        self.phase = ReqPhase::AwaitingReply;
                        Ok(bytes)
                    },
                    Err(e) => {
                        proof {
                            assert(false);
                        }
                        Err(e)
                    },
                }
            },
            ReqPhase::AwaitingReply => Err(
                OxideError::Protocol("request while a reply is outstanding".to_owned()),
            ),
        }
    }

    /// Interpret what an unbounded wait for the reply came back with.
    /// A frame that decodes is the reply, and the cycle is complete; a
    /// frame that does not decode still completes the cycle, since the
    /// transport has delivered it — malformed bytes are per-message
    /// recoverable. A transport failure leaves the request
    /// outstanding. Out of turn, nothing changes and the call fails
    /// with `Protocol`.
    pub fn complete_request(&mut self, outcome: RecvOutcome) -> (r: Result<Message, OxideError>)
        ensures
            old(self).phase is Idle ==> {
                &&& r matches Err(e) && e is Protocol
                &&& final(self).phase == old(self).phase
            },
            old(self).phase is AwaitingReply ==> match outcome {
                RecvOutcome::Frame(b) => {
                    &&& final(self).phase is Idle
                    &&& match spec_decode(b@) {
                        Some(mv) => r matches Ok(m) && m@ == mv,
                        None => r matches Err(e) && e is Serialization,
                    }
                },
                RecvOutcome::WouldBlock => {
                    &&& r matches Err(e) && e is Receive
                    &&& final(self).phase == old(self).phase
                },
                RecvOutcome::Failed(s) => {
                    &&& r matches Err(e) && e is Receive && e.text() == s@
                    &&& final(self).phase == old(self).phase
                },
            },
    {
        match self.phase {
            ReqPhase::Idle => Err(
                OxideError::Protocol("no request is outstanding".to_owned()),
            ),
            ReqPhase::AwaitingReply => match outcome {
                RecvOutcome::Frame(b) => {
                    self.phase = ReqPhase::Idle;
                    Message::from_bytes(b.as_slice())
                },
                RecvOutcome::WouldBlock => Err(
                    OxideError::Receive("receive would block on a blocking call".to_owned()),
                ),
                RecvOutcome::Failed(s) => Err(OxideError::Receive(s)),
            },
        }
    }

    /// Interpret what a deadline-bounded wait for the reply came back
    /// with. Expiry is the absence result `None`, never an error, and
    /// the request stays outstanding: the handle must be recreated
    /// before another request, and until then `begin_request` fails
    /// fast with `Protocol`.
    pub fn complete_request_bounded(&mut self, outcome: RecvOutcome) -> (r: Result<
        Option<Message>,
        OxideError,
    >)
        ensures
            old(self).phase is Idle ==> {
                &&& r matches Err(e) && e is Protocol
                &&& final(self).phase == old(self).phase
            },
            old(self).phase is AwaitingReply ==> match outcome {
                RecvOutcome::Frame(b) => {
                    &&& final(self).phase is Idle
                    &&& match spec_decode(b@) {
                        Some(mv) => r matches Ok(o) && o matches Some(m) && m@ == mv,
                        None => r matches Err(e) && e is Serialization,
                    }
                },
                RecvOutcome::WouldBlock => {
                    &&& r matches Ok(o) && o is None
                    &&& final(self).phase == old(self).phase
                },
                RecvOutcome::Failed(s) => {
                    &&& r matches Err(e) && e is Receive && e.text() == s@
                    &&& final(self).phase == old(self).phase
                },
            },
    {
        match self.phase {
            ReqPhase::Idle => Err(
                OxideError::Protocol("no request is outstanding".to_owned()),
            ),
            ReqPhase::AwaitingReply => match outcome {
                RecvOutcome::Frame(b) => {
                    self.phase = ReqPhase::Idle;
                    match Message::from_bytes(b.as_slice()) {
                        Ok(m) => Ok(Some(m)),
                        Err(e) => Err(e),
                    }
                },
                RecvOutcome::WouldBlock => Ok(None),
                RecvOutcome::Failed(s) => Err(OxideError::Receive(s)),
            },
        }
    }
}

/// The replier's protocol state: `Idle`, receive, `PendingReply`,
/// send, `Idle`. Replying before receiving, or receiving twice without
/// an intervening reply, is a protocol violation and fails
/// deterministically.
pub struct ReplierState {
    /// The current phase of the cycle.
    pub phase: RepPhase,
}

impl ReplierState {
    /// A fresh replier, free to receive.
    pub fn new() -> (r: ReplierState)
        ensures
            r.phase is Idle,
    {
        ReplierState { phase: RepPhase::Idle }
    }

    /// Interpret what an unbounded wait for a request came back with.
    /// Once a frame has arrived the transport owes a reply, so the
    /// state moves to `PendingReply` whether or not the frame decodes;
    /// a transport failure leaves the replier free to receive. Out of
    /// turn, nothing changes and the call fails with `Protocol`.
    pub fn accept_request(&mut self, outcome: RecvOutcome) -> (r: Result<Message, OxideError>)
        ensures
            old(self).phase is PendingReply ==> {
                &&& r matches Err(e) && e is Protocol
                &&& final(self).phase == old(self).phase
            },
            old(self).phase is Idle ==> match outcome {
                RecvOutcome::Frame(b) => {
                    &&& final(self).phase is PendingReply
                    &&& match spec_decode(b@) {
                        Some(mv) => r matches Ok(m) && m@ == mv,
                        None => r matches Err(e) && e is Serialization,
                    }
                },
                RecvOutcome::WouldBlock => {
                    &&& r matches Err(e) && e is Receive
                    &&& final(self).phase == old(self).phase
                },
                RecvOutcome::Failed(s) => {
                    &&& r matches Err(e) && e is Receive && e.text() == s@
                    &&& final(self).phase == old(self).phase
                },
            },
    {
        match self.phase {
            RepPhase::PendingReply => Err(
                OxideError::Protocol("receive before the pending reply is sent".to_owned()),
            ),
            RepPhase::Idle => match outcome {
                RecvOutcome::Frame(b) => {
                    self.phase = RepPhase::PendingReply;
                    Message::from_bytes(b.as_slice())
                },
                RecvOutcome::WouldBlock => Err(
                    OxideError::Receive("receive would block on a blocking call".to_owned()),
                ),
                RecvOutcome::Failed(s) => Err(OxideError::Receive(s)),
            },
        }
    }

    /// Interpret what a deadline-bounded wait for a request came back
    /// with; expiry is `None`, never an error, and the replier stays
    /// free to receive.
    pub fn accept_request_bounded(&mut self, outcome: RecvOutcome) -> (r: Result<
        Option<Message>,
        OxideError,
    >)
        ensures
            old(self).phase is PendingReply ==> {
                &&& r matches Err(e) && e is Protocol
                &&& final(self).phase == old(self).phase
            },
            old(self).phase is Idle ==> match outcome {
                RecvOutcome::Frame(b) => {
                    &&& final(self).phase is PendingReply
                    &&& match spec_decode(b@) {
                        Some(mv) => r matches Ok(o) && o matches Some(m) && m@ == mv,
                        None => r matches Err(e) && e is Serialization,
                    }
                },
                RecvOutcome::WouldBlock => {
                    &&& r matches Ok(o) && o is None
                    &&& final(self).phase == old(self).phase
                },
                RecvOutcome::Failed(s) => {
                    &&& r matches Err(e) && e is Receive && e.text() == s@
                    &&& final(self).phase == old(self).phase
                },
            },
    {
        match self.phase {
            RepPhase::PendingReply => Err(
                OxideError::Protocol("receive before the pending reply is sent".to_owned()),
            ),
            RepPhase::Idle => match outcome {
                RecvOutcome::Frame(b) => {
                    self.phase = RepPhase::PendingReply;
                    match Message::from_bytes(b.as_slice()) {
                        Ok(m) => Ok(Some(m)),
                        Err(e) => Err(e),
                    }
                },
                RecvOutcome::WouldBlock => Ok(None),
                RecvOutcome::Failed(s) => Err(OxideError::Receive(s)),
            },
        }
    }

    /// Encode the one owed reply and return to `Idle`; out of turn,
    /// change nothing and fail with `Protocol`.
    pub fn prepare_reply(&mut self, m: &Message) -> (r: Result<Vec<u8>, OxideError>)
        ensures
            old(self).phase is PendingReply ==> {
                &&& r matches Ok(b) && b@ == spec_encode(m@)
                &&& final(self).phase is Idle
            },
            old(self).phase is Idle ==> {
                &&& r matches Err(e) && e is Protocol
                &&& final(self).phase == old(self).phase
            },
    {
        match self.phase {
            RepPhase::Idle => Err(
                OxideError::Protocol("reply with no request received".to_owned()),
            ),
            RepPhase::PendingReply => {
                let b = m.to_bytes();
                match b {
                    Ok(bytes) => {
                        self.phase = RepPhase::Idle;
                        Ok(bytes)
                    },
                    Err(e) => {
                        proof {
                            assert(false);
                        }
                        Err(e)
                    },
                }
            },
        }
    }
}

/// One full request/reply cycle carries each value across intact: the
/// frame a requester sends for `q` is accepted by the replier as
/// exactly `q`, and the frame the replier sends for its reply `r` is
/// received by the requester as exactly `r` — the requester unblocks
/// with the value from exactly that one reply.
pub proof fn lemma_request_reply_cycle(q: MessageView, r: MessageView)
    requires
        wf_value(q.payload),
        wf_value(r.payload),
    ensures
        spec_decode(spec_encode(q)) == Some(q),
        spec_decode(spec_encode(r)) == Some(r),
{
    crate::message::lemma_round_trip(q);
    crate::message::lemma_round_trip(r);
}

} // verus!
