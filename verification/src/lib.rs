//! A typed-message layer over a message-queue socket transport.
//!
//! The crate models the three canonical messaging patterns
//! (publish/subscribe, request/reply, pipeline) around a verified
//! message envelope: a topic string plus a structured payload value,
//! encoded to and decoded from a self-describing JSON byte form.
//!
//! The socket transport itself is an external collaborator; this crate
//! holds the envelope codec, the subscription-filter model, and the
//! per-pattern state discipline, each with a proved contract.

pub mod error;
pub mod json;
pub mod message;
pub mod patterns;
pub mod text;
pub mod value;

pub use error::OxideError;
pub use message::Message;
pub use patterns::FilterSet;
pub use patterns::RecvOutcome;
pub use patterns::ReplierState;
pub use patterns::RequesterState;
pub use value::Value;
