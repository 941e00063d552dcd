//! Error kinds surfaced by the messaging layer.

use vstd::prelude::*;

verus! {

/// Every failure a caller can see, as a tagged variant over plain data.
///
/// A transport-specific error is carried as its message text, so the
/// type stays portable across transports. A receive that times out is
/// never represented here: timeout expiry is an absence result
/// (`None`), not an error.
#[derive(Debug, Clone)]
pub enum OxideError {
    /// Failure reported by the underlying socket transport.
    Zmq(String),
    /// Malformed bytes or a structural mismatch on decode or convert.
    Serialization(String),
    /// Invalid socket option, e.g. a bad timeout value.
    Configuration(String),
    /// Failure to establish a connection or binding.
    Connection(String),
    /// Transport-level send failure.
    Send(String),
    /// Transport-level receive failure.
    Receive(String),
    /// An operation called out of turn in a strict-alternation pattern.
    Protocol(String),
}

impl OxideError {
    /// The variant's descriptive text.
    pub fn message(&self) -> (r: &String)
        ensures
            r@ == self.text(),
    {
        match self {
            OxideError::Zmq(m) => m,
            OxideError::Serialization(m) => m,
            OxideError::Configuration(m) => m,
            OxideError::Connection(m) => m,
            OxideError::Send(m) => m,
            OxideError::Receive(m) => m,
            OxideError::Protocol(m) => m,
        }
    }

    /// The descriptive text, as a mathematical value.
    pub open spec fn text(&self) -> Seq<char> {
        match self {
            OxideError::Zmq(m) => m@,
            OxideError::Serialization(m) => m@,
            OxideError::Configuration(m) => m@,
            OxideError::Connection(m) => m@,
            OxideError::Send(m) => m@,
            OxideError::Receive(m) => m@,
            OxideError::Protocol(m) => m@,
        }
    }
}

} // verus!
