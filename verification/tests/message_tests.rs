use oxide_mq::Message;
use oxide_mq::OxideError;
use oxide_mq::Value;

fn obj(entries: Vec<(&str, Value)>) -> Value {
    Value::Obj(entries.into_iter().map(|(k, v)| (k.to_string(), v)).collect())
}

fn s(t: &str) -> Value {
    Value::Str(t.to_string())
}

fn round_trip(msg: &Message) -> Message {
    let bytes = msg.to_bytes().unwrap();
    Message::from_bytes(&bytes).unwrap()
}

#[test]
fn test_message_creation() {
    let msg = Message::new("test_topic", obj(vec![("key", s("value"))]));
    assert_eq!(msg.topic, "test_topic");
    assert_eq!(msg.payload, obj(vec![("key", s("value"))]));
}

#[test]
fn test_message_serialization() {
    let msg = Message::new("test", obj(vec![("data", Value::Int(42))]));
    let bytes = msg.to_bytes().unwrap();
    let decoded = Message::from_bytes(&bytes).unwrap();
    assert_eq!(msg.topic, decoded.topic);
    assert_eq!(msg.payload, decoded.payload);
}

#[test]
fn canonical_text_is_exact() {
    let msg = Message::new("a", Value::Int(7));
    let bytes = msg.to_bytes().unwrap();
    assert_eq!(bytes, b"{\"topic\":\"a\",\"payload\":7}".to_vec());
}

#[test]
fn round_trip_scalars() {
    for payload in [
        Value::Null,
        Value::Bool(true),
        Value::Bool(false),
        Value::Int(0),
        Value::Int(-1),
        Value::Int(i64::MAX),
        Value::Int(i64::MIN),
        s(""),
        s("plain"),
    ] {
        let msg = Message::new("t", payload);
        let back = round_trip(&msg);
        assert_eq!(back, msg);
    }
}

#[test]
fn round_trip_nested() {
    let payload = obj(vec![
        ("list", Value::Arr(vec![Value::Int(1), Value::Null, s("x"), Value::Arr(vec![])])),
        ("map", obj(vec![("inner", obj(vec![]))])),
        ("flag", Value::Bool(false)),
    ]);
    let msg = Message::new("nested", payload);
    assert_eq!(round_trip(&msg), msg);
}

#[test]
fn round_trip_empty_topic_and_containers() {
    let msg = Message::new("", Value::Arr(vec![Value::Obj(vec![]), Value::Arr(vec![])]));
    assert_eq!(round_trip(&msg), msg);
}

#[test]
fn round_trip_escapes_and_unicode() {
    let tricky = "quote \" backslash \\ newline \n tab \t nul \u{0} bell \u{7} accent é emoji 😀";
    let msg = Message::new(tricky, s(tricky));
    assert_eq!(round_trip(&msg), msg);
}

#[test]
fn decode_accepts_standard_escapes() {
    let bytes = b"{\"topic\":\"a\\n\\t\\\"\\\\\\/\\u0041\",\"payload\":null}".to_vec();
    let msg = Message::from_bytes(&bytes).unwrap();
    assert_eq!(msg.topic, "a\n\t\"\\/A");
    assert_eq!(msg.payload, Value::Null);
}

fn expect_serialization_error(bytes: &[u8]) {
    match Message::from_bytes(bytes) {
        Err(OxideError::Serialization(_)) => {}
        other => panic!("expected a serialization error, got {:?}", other),
    }
}

#[test]
fn decode_rejects_malformed() {
    expect_serialization_error(b"");
    expect_serialization_error(b"{");
    expect_serialization_error(b"{\"topic\":\"a\"}");
    expect_serialization_error(b"{\"topic\":\"a\",\"body\":1}");
    expect_serialization_error(b"{\"topic\":1,\"payload\":1}");
    expect_serialization_error(b"[1,2]");
    expect_serialization_error(b"{\"topic\":\"a\",\"payload\":7}x");
    expect_serialization_error(b"{\"topic\":\"a\",\"payload\":99999999999999999999}");
    expect_serialization_error(b"{\"topic\":\"a\",\"payload\":9223372036854775808}");
    expect_serialization_error(b"{\"topic\":\"a\",\"payload\":01}");
    expect_serialization_error(b"{\"topic\":\"a\",\"payload\":-}");
    expect_serialization_error(b"{\"topic\":\"\\ud800\",\"payload\":null}");
    expect_serialization_error(b"{\"topic\":\"\\x\",\"payload\":null}");
    expect_serialization_error(b"{\"topic\":\"a\",\"payload\":\"\x01\"}");
    expect_serialization_error(&[0xFF, 0xFE]);
}

#[test]
fn decode_accepts_inter_token_whitespace() {
    let pretty = b"\t{ \"topic\" : \"t\" ,\n  \"payload\" : [ 1 , { } , [ ] ] }\r\n";
    let msg = Message::from_bytes(pretty).unwrap();
    assert_eq!(msg.topic, "t");
    assert_eq!(
        msg.payload,
        Value::Arr(vec![Value::Int(1), Value::Obj(vec![]), Value::Arr(vec![])])
    );
    // Whitespace inside a number or a string is not inter-token space.
    match Message::from_bytes(b"{\"topic\":\"a\",\"payload\":1 2}") {
        Err(OxideError::Serialization(_)) => {}
        other => panic!("expected a serialization error, got {:?}", other),
    }
}

#[test]
fn decoder_reads_serde_pretty_output() {
    let mut doc = serde_json::Map::new();
    doc.insert("topic".to_string(), serde_json::Value::String("task".to_string()));
    doc.insert("payload".to_string(), serde_json::Value::Array(vec![
        serde_json::Value::Bool(true),
        serde_json::Value::Null,
    ]));
    let bytes = serde_json::to_vec_pretty(&serde_json::Value::Object(doc)).unwrap();
    let msg = Message::from_bytes(&bytes).unwrap();
    assert_eq!(msg.topic, "task");
    assert_eq!(msg.payload, Value::Arr(vec![Value::Bool(true), Value::Null]));
}

#[test]
fn decode_accepts_reversed_field_order() {
    let msg = Message::from_bytes(b"{\"payload\":1,\"topic\":\"a\"}").unwrap();
    assert_eq!(msg.topic, "a");
    assert_eq!(msg.payload, Value::Int(1));
}

#[test]
fn decode_boundary_integers() {
    let max = Message::from_bytes(b"{\"topic\":\"n\",\"payload\":9223372036854775807}").unwrap();
    assert_eq!(max.payload, Value::Int(i64::MAX));
    let min = Message::from_bytes(b"{\"topic\":\"n\",\"payload\":-9223372036854775808}").unwrap();
    assert_eq!(min.payload, Value::Int(i64::MIN));
}

#[test]
fn encoded_form_is_json_for_serde() {
    let msg = Message::new(
        "interop",
        obj(vec![("id", Value::Int(7)), ("name", s("worker \"one\"\n"))]),
    );
    let bytes = msg.to_bytes().unwrap();
    let parsed: serde_json::Value = serde_json::from_slice(&bytes).unwrap();
    assert_eq!(parsed["topic"], serde_json::Value::String("interop".to_string()));
    assert_eq!(parsed["payload"]["id"], serde_json::Value::Number(7.into()));
    assert_eq!(
        parsed["payload"]["name"],
        serde_json::Value::String("worker \"one\"\n".to_string())
    );
}

#[test]
fn decoder_reads_serde_output() {
    let mut payload = serde_json::Map::new();
    payload.insert("id".to_string(), serde_json::Value::Number(7.into()));
    let mut doc = serde_json::Map::new();
    doc.insert("topic".to_string(), serde_json::Value::String("task".to_string()));
    doc.insert("payload".to_string(), serde_json::Value::Object(payload));
    let bytes = serde_json::to_vec(&serde_json::Value::Object(doc)).unwrap();
    let msg = Message::from_bytes(&bytes).unwrap();
    assert_eq!(msg.topic, "task");
    assert_eq!(msg.payload, obj(vec![("id", Value::Int(7))]));
}
