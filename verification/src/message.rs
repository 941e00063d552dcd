//! The message envelope and its self-describing byte form.

use vstd::prelude::*;

use crate::error::OxideError;
use crate::json;
use crate::value::SpecValue;
use crate::value::Value;
use crate::value::wf_value;

verus! {

/// A message exchanged between pattern endpoints: a topic string plus
/// a structured payload.
///
/// Messages are value types; `to_bytes` and `from_bytes` are exact
/// inverses for every representable message.
#[derive(Debug, PartialEq)]
pub struct Message {
    /// Message topic or identifier.
    pub topic: String,
    /// Message payload as a structured value.
    pub payload: Value,
}

/// The mathematical form of a message.
pub struct MessageView {
    pub topic: Seq<char>,
    pub payload: SpecValue,
}

impl View for Message {
    type V = MessageView;

    open spec fn view(&self) -> MessageView {
        MessageView { topic: self.topic@, payload: self.payload@ }
    }
}

/// The characters of the fixed `topic` field name.
pub open spec fn topic_key() -> Seq<char> {
    seq!['t', 'o', 'p', 'i', 'c']
}

/// The characters of the fixed `payload` field name.
pub open spec fn payload_key() -> Seq<char> {
    seq!['p', 'a', 'y', 'l', 'o', 'a', 'd']
}

/// The document a message stands for: an object holding exactly the
/// `topic` and `payload` fields, in that order.
pub open spec fn message_value(m: MessageView) -> SpecValue {
    SpecValue::Obj(
        seq![(topic_key(), SpecValue::Str(m.topic)), (payload_key(), m.payload)],
    )
}

/// The canonical byte form of a message: the UTF-8 bytes of its
/// document's canonical text.
pub open spec fn spec_encode(m: MessageView) -> Seq<u8> {
    vstd::utf8::encode_utf8(json::enc_value(message_value(m)))
}

/// The message a byte form means, if any: the bytes must be valid
/// UTF-8 and parse as exactly one document holding the `topic` and
/// `payload` fields and nothing else, in either order.
pub open spec fn spec_decode(b: Seq<u8>) -> Option<MessageView> {
    if !vstd::utf8::valid_utf8(b) {
        None
    } else {
        let chars = vstd::utf8::decode_utf8(b);
        match json::parse_value(chars, 0) {
            None => None,
            Some((v, j)) => if json::skip_ws(chars, j) != chars.len() {
                None
            } else {
                match v {
                    SpecValue::Obj(entries) => if entries.len() != 2 {
                        None
                    } else if entries[0].0 == topic_key() && entries[1].0 == payload_key()
                        && entries[0].1 is Str {
                        Some(
                            MessageView { topic: entries[0].1->Str_0, payload: entries[1].1 },
                        )
                    } else if entries[0].0 == payload_key() && entries[1].0 == topic_key()
                        && entries[1].1 is Str {
                        Some(
                            MessageView { topic: entries[1].1->Str_0, payload: entries[0].1 },
                        )
                    } else {
                        None
                    },
                    _ => None,
                }
            },
        }
    }
}

impl Message {
    /// Build a message; any topic string and any payload are accepted.
    pub fn new(topic: &str, payload: Value) -> (r: Message)
        ensures
            r@.topic == topic@,
            r@.payload == payload@,
    {
        Message { topic: topic.to_owned(), payload }
    }

    /// Encode the message to its canonical byte form. Encoding cannot
    /// fail; the fallible shape keeps caller handling uniform.
    pub fn to_bytes(&self) -> (r: Result<Vec<u8>, OxideError>)
        ensures
            r is Ok,
            r matches Ok(b) ==> b@ == spec_encode(self@),
    {
        let mut out: Vec<char> = Vec::new();
        out.push('{');
        json::push_string("topic", &mut out);
        out.push(':');
        json::push_string(self.topic.as_str(), &mut out);
        out.push(',');
        json::push_string("payload", &mut out);
        out.push(':');
        json::push_value(&self.payload, &mut out);
        out.push('}');
        proof {
            reveal_strlit("topic");
            reveal_strlit("payload");
            assert("topic"@ =~= topic_key());
            assert("payload"@ =~= payload_key());
            let ms = seq![
                (topic_key(), SpecValue::Str(self@.topic)),
                (payload_key(), self@.payload),
            ];
            let e1 = seq![(payload_key(), self@.payload)];
            assert(ms.drop_first() =~= e1);
            assert(json::enc_value(SpecValue::Str(self@.topic)) == json::enc_string(self@.topic));
            assert(json::enc_members(e1) == json::enc_string(payload_key()) + seq![':']
                + json::enc_value(self@.payload));
            assert(json::enc_members(ms) == json::enc_string(topic_key()) + seq![':']
                + json::enc_string(self@.topic) + seq![','] + json::enc_members(e1));
            assert(json::enc_value(message_value(self@)) == seq!['{'] + json::enc_members(ms)
                + seq!['}']);
            assert(out@ =~= json::enc_value(message_value(self@)));
        }
        let st = crate::text::string_from_chars(&out);
        let b = st.as_str().as_bytes_vec();
        Ok(b)
    }

    /// Decode a message from bytes; fails with `Serialization` exactly
    /// on byte forms that mean no message.
    pub fn from_bytes(bytes: &[u8]) -> (r: Result<Message, OxideError>)
        ensures
            match r {
                Ok(m) => spec_decode(bytes@) == Some(m@),
                Err(e) => spec_decode(bytes@) is None && e is Serialization,
            },
    {
        let bv = vstd::slice::slice_to_vec(bytes);
        let st = match crate::text::string_from_utf8(bv) {
            Some(st) => st,
            None => {
                return Err(OxideError::Serialization("malformed envelope: invalid utf-8".to_owned()));
            },
        };
        let chars = crate::text::chars_of(st.as_str());
        let parsed = json::parse_value_at(&chars, 0);
        let (v, j) = match parsed {
            Some(p) => p,
            None => {
                return Err(OxideError::Serialization("malformed envelope: bad document".to_owned()));
            },
        };
        let end = json::skip_ws_at(&chars, j);
        if end != chars.len() {
            return Err(OxideError::Serialization("malformed envelope: trailing bytes".to_owned()));
        }
        match v {
            Value::Obj(mut entries) => {
                proof {
                    crate::value::lemma_pair_views_index(entries@);
                }
                if entries.len() != 2 {
                    return Err(
                        OxideError::Serialization("malformed envelope: wrong field count".to_owned()),
                    );
                }
                let pe = match entries.pop() {
                    Some(e) => e,
                    None => {
                        return Err(OxideError::Serialization("malformed envelope".to_owned()));
                    },
                };
                let te = match entries.pop() {
                    Some(e) => e,
                    None => {
                        return Err(OxideError::Serialization("malformed envelope".to_owned()));
                    },
                };
                let (kt, tv) = te;
                let (kp, pv) = pe;
                proof {
                    reveal_strlit("topic");
                    reveal_strlit("payload");
                    assert("topic"@ =~= topic_key());
                    assert("payload"@ =~= payload_key());
                }
                let first_is_topic = crate::text::str_eq(kt.as_str(), "topic")
                    && crate::text::str_eq(kp.as_str(), "payload");
                let first_is_payload = crate::text::str_eq(kt.as_str(), "payload")
                    && crate::text::str_eq(kp.as_str(), "topic");
                if first_is_topic {
                    match tv {
                        Value::Str(topic) => Ok(Message { topic, payload: pv }),
                        _ => Err(
                            OxideError::Serialization(
                                "malformed envelope: topic not a string".to_owned(),
                            ),
                        ),
                    }
                } else if first_is_payload {
                    match pv {
                        Value::Str(topic) => Ok(Message { topic, payload: tv }),
                        _ => Err(
                            OxideError::Serialization(
                                "malformed envelope: topic not a string".to_owned(),
                            ),
                        ),
                    }
                } else {
                    Err(
                        OxideError::Serialization(
                            "malformed envelope: wrong field names".to_owned(),
                        ),
                    )
                }
            },
            _ => Err(OxideError::Serialization("malformed envelope: not an object".to_owned())),
        }
    }
}

/// Round trip: for every topic and every representable payload,
/// decoding the encoded message returns exactly that message.
pub proof fn lemma_round_trip(m: MessageView)
    requires
        wf_value(m.payload),
    ensures
        spec_decode(spec_encode(m)) == Some(m),
{
    broadcast use vstd::utf8::encode_utf8_valid_utf8;
    broadcast use vstd::utf8::encode_utf8_decode_utf8;

    let mv = message_value(m);
    let doc = json::enc_value(mv);
    assert(wf_value(mv)) by {
        let ms = seq![(topic_key(), SpecValue::Str(m.topic)), (payload_key(), m.payload)];
        assert(wf_value(ms[0].1));
        assert(wf_value(ms[1].1));
    }
    json::lemma_inv_value(mv, Seq::empty(), Seq::empty());
    assert(Seq::<char>::empty() + doc + Seq::<char>::empty() =~= doc);
    assert(json::parse_value(doc, 0) == Some((mv, doc.len() as int)));
    let entries = seq![(topic_key(), SpecValue::Str(m.topic)), (payload_key(), m.payload)];
    assert(entries[0].0 == topic_key() && entries[1].0 == payload_key());
    assert(spec_decode(spec_encode(m)) == Some(MessageView { topic: m.topic, payload: m.payload }));
    assert(MessageView { topic: m.topic, payload: m.payload } == m);
}

/// Round trip for every actual message, with no side condition: the
/// view of a representable payload is always well formed.
pub proof fn lemma_message_round_trip(m: Message)
    ensures
        spec_decode(spec_encode(m@)) == Some(m@),
{
    crate::value::lemma_view_wf(m.payload);
    lemma_round_trip(m@);
}

} // verus!
