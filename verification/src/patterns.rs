//! The three messaging patterns built over the envelope codec.

pub mod pipeline;
pub mod pubsub;
pub mod reqrep;

pub use pubsub::FilterSet;
pub use reqrep::ReplierState;
pub use reqrep::RequesterState;

use vstd::prelude::*;

use crate::error::OxideError;
use crate::message::Message;
use crate::message::spec_decode;

verus! {

/// What one receive attempt on the transport came back with: a whole
/// frame, a would-block signal (timeout expiry or nothing queued), or
/// a transport failure with its message text.
pub enum RecvOutcome {
    Frame(Vec<u8>),
    WouldBlock,
    Failed(String),
}

/// Interpret the outcome of an unbounded, blocking receive: a frame is
/// decoded, anything else is a receive failure.
pub fn decode_recv(outcome: RecvOutcome) -> (r: Result<Message, OxideError>)
    ensures
        match outcome {
            RecvOutcome::Frame(b) => match spec_decode(b@) {
                Some(mv) => r matches Ok(m) && m@ == mv,
                None => r matches Err(e) && e is Serialization,
            },
            RecvOutcome::WouldBlock => r matches Err(e) && e is Receive,
            RecvOutcome::Failed(s) => r matches Err(e) && e is Receive && e.text() == s@,
        },
{
    match outcome {
        RecvOutcome::Frame(b) => Message::from_bytes(b.as_slice()),
        RecvOutcome::WouldBlock => Err(
            OxideError::Receive("receive would block on a blocking call".to_owned()),
        ),
        RecvOutcome::Failed(s) => Err(OxideError::Receive(s)),
    }
}

/// Interpret the outcome of a deadline-bounded or non-blocking
/// receive: a would-block signal is the absence result `None`, never
/// an error; a frame is decoded; a transport failure is an error.
pub fn decode_recv_bounded(outcome: RecvOutcome) -> (r: Result<Option<Message>, OxideError>)
    ensures
        match outcome {
            RecvOutcome::Frame(b) => match spec_decode(b@) {
                Some(mv) => r matches Ok(o) && o matches Some(m) && m@ == mv,
                None => r matches Err(e) && e is Serialization,
            },
            RecvOutcome::WouldBlock => r matches Ok(o) && o is None,
            RecvOutcome::Failed(s) => r matches Err(e) && e is Receive && e.text() == s@,
        },
{
    match outcome {
        RecvOutcome::Frame(b) => match Message::from_bytes(b.as_slice()) {
            Ok(m) => Ok(Some(m)),
            Err(e) => Err(e),
        },
        RecvOutcome::WouldBlock => Ok(None),
        RecvOutcome::Failed(s) => Err(OxideError::Receive(s)),
    }
}

} // verus!
