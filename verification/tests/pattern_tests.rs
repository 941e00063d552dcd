use oxide_mq::Message;
use oxide_mq::OxideError;
use oxide_mq::Value;
use oxide_mq::patterns::FilterSet;
use oxide_mq::patterns::RecvOutcome;
use oxide_mq::patterns::ReplierState;
use oxide_mq::patterns::RequesterState;
use oxide_mq::patterns::decode_recv;
use oxide_mq::patterns::decode_recv_bounded;
use oxide_mq::patterns::pubsub::raw_topic_frame;

fn obj(entries: Vec<(&str, Value)>) -> Value {
    Value::Obj(entries.into_iter().map(|(k, v)| (k.to_string(), v)).collect())
}

#[test]
fn test_scenario_pipeline_task() {
    // One pushed task; the paired puller's bounded receive hands the
    // frame back and yields exactly the pushed envelope.
    let task = Message::new("task", obj(vec![("id", Value::Int(7))]));
    let frame = task.to_bytes().unwrap();
    let pulled = decode_recv_bounded(RecvOutcome::Frame(frame)).unwrap();
    let msg = pulled.expect("a pushed task must arrive");
    assert_eq!(msg.topic, "task");
    assert_eq!(msg.payload, obj(vec![("id", Value::Int(7))]));
}

#[test]
fn fan_out_partition_keeps_every_task() {
    // Two pullers, three tasks, each frame handed by the transport to
    // exactly one puller: the union of what the pullers decode is
    // exactly the pushed set, with no duplicate and no loss.
    let tasks: Vec<Message> = (0..3)
        .map(|i| Message::new("task", obj(vec![("id", Value::Int(i))])))
        .collect();
    let assign = [0usize, 1, 0];
    let mut received: Vec<Vec<Message>> = vec![Vec::new(), Vec::new()];
    for (task, worker) in tasks.iter().zip(assign.iter()) {
        let frame = task.to_bytes().unwrap();
        let msg = decode_recv_bounded(RecvOutcome::Frame(frame)).unwrap().unwrap();
        received[*worker].push(msg);
    }
    assert_eq!(received[0].len() + received[1].len(), tasks.len());
    for task in &tasks {
        let count: usize = received.iter().map(|r| r.iter().filter(|m| *m == task).count()).sum();
        assert_eq!(count, 1);
    }
}

#[test]
fn bounded_receive_timeout_is_absence_not_error() {
    let r = decode_recv_bounded(RecvOutcome::WouldBlock);
    assert!(matches!(r, Ok(None)));
}

#[test]
fn bounded_receive_failure_is_receive_error() {
    let r = decode_recv_bounded(RecvOutcome::Failed("link lost".to_string()));
    match r {
        Err(OxideError::Receive(m)) => assert_eq!(m, "link lost"),
        other => panic!("expected a receive error, got {:?}", other),
    }
}

#[test]
fn bounded_receive_garbage_is_serialization_error() {
    let r = decode_recv_bounded(RecvOutcome::Frame(b"not json".to_vec()));
    assert!(matches!(r, Err(OxideError::Serialization(_))));
}

#[test]
fn blocking_receive_decodes_frame() {
    let msg = Message::new("t", Value::Null);
    let r = decode_recv(RecvOutcome::Frame(msg.to_bytes().unwrap())).unwrap();
    assert_eq!(r, msg);
}

#[test]
fn empty_filter_matches_both_paths() {
    let mut filters = FilterSet::new();
    filters.subscribe("");
    let envelope_frame = Message::new("task", Value::Null).to_bytes().unwrap();
    let raw_frame = raw_topic_frame("task");
    assert!(filters.matches(&envelope_frame));
    assert!(filters.matches(&raw_frame));
}

#[test]
fn topic_filter_sees_only_raw_frames() {
    // The documented asymmetry: an envelope published for topic
    // "task" is a single JSON frame starting with `{`, so the filter
    // "task" never matches it; the raw path's first frame is the bare
    // topic, which it does match.
    let mut filters = FilterSet::new();
    filters.subscribe("task");
    let envelope_frame = Message::new("task", Value::Null).to_bytes().unwrap();
    assert!(!filters.matches(&envelope_frame));
    assert!(filters.matches(&raw_topic_frame("task")));
    assert!(filters.matches(&raw_topic_frame("task.created")));
    assert!(!filters.matches(&raw_topic_frame("tas")));
    assert!(!filters.matches(&raw_topic_frame("other")));
}

#[test]
fn no_filters_receive_nothing() {
    let filters = FilterSet::new();
    assert!(!filters.matches(&raw_topic_frame("anything")));
    assert!(!filters.matches(b""));
}

#[test]
fn unsubscribe_removes_one_registration() {
    let mut filters = FilterSet::new();
    filters.subscribe("a");
    filters.subscribe("a");
    filters.unsubscribe("a");
    assert!(filters.matches(&raw_topic_frame("a")));
    filters.unsubscribe("a");
    assert!(!filters.matches(&raw_topic_frame("a")));
    filters.unsubscribe("a");
    assert!(!filters.matches(&raw_topic_frame("a")));
}

#[test]
fn requester_single_cycle() {
    let mut req = RequesterState::new();
    let question = Message::new("ping", Value::Null);
    let frame = req.begin_request(&question).unwrap();
    assert_eq!(frame, question.to_bytes().unwrap());

    // A second request before any reply fails deterministically.
    assert!(matches!(req.begin_request(&question), Err(OxideError::Protocol(_))));

    let reply = Message::new("pong", obj(vec![("status", Value::Str("ok".to_string()))]));
    let got = req.complete_request(RecvOutcome::Frame(reply.to_bytes().unwrap())).unwrap();
    assert_eq!(got, reply);

    // The cycle is complete: a new request is in turn again.
    assert!(req.begin_request(&question).is_ok());
}

#[test]
fn requester_timeout_leaves_request_outstanding() {
    let mut req = RequesterState::new();
    let question = Message::new("ping", Value::Null);
    req.begin_request(&question).unwrap();
    let waited = req.complete_request_bounded(RecvOutcome::WouldBlock).unwrap();
    assert!(waited.is_none());
    // The socket still has an outstanding request: the handle must be
    // recreated, and until then every request fails fast.
    assert!(matches!(req.begin_request(&question), Err(OxideError::Protocol(_))));
}

#[test]
fn requester_out_of_turn_completion() {
    let mut req = RequesterState::new();
    let r = req.complete_request(RecvOutcome::WouldBlock);
    assert!(matches!(r, Err(OxideError::Protocol(_))));
}

#[test]
fn replier_single_cycle() {
    let mut rep = ReplierState::new();
    let reply = Message::new("pong", Value::Null);

    // Replying before receiving is out of turn.
    assert!(matches!(rep.prepare_reply(&reply), Err(OxideError::Protocol(_))));

    let question = Message::new("ping", Value::Null);
    let got = rep.accept_request(RecvOutcome::Frame(question.to_bytes().unwrap())).unwrap();
    assert_eq!(got, question);

    // Receiving twice without an intervening reply is out of turn.
    let r = rep.accept_request(RecvOutcome::Frame(question.to_bytes().unwrap()));
    assert!(matches!(r, Err(OxideError::Protocol(_))));

    let frame = rep.prepare_reply(&reply).unwrap();
    assert_eq!(frame, reply.to_bytes().unwrap());

    // Back in turn for the next request.
    assert!(rep.accept_request_bounded(RecvOutcome::WouldBlock).unwrap().is_none());
}

#[test]
fn request_reply_values_cross_intact() {
    // The value the requester unblocks with is the value the replier
    // sent, carried through encode and decode unchanged.
    let mut req = RequesterState::new();
    let mut rep = ReplierState::new();
    let question = Message::new("ask", obj(vec![("q", Value::Int(1))]));
    let answer = Message::new("answer", obj(vec![("a", Value::Int(2))]));

    let wire_q = req.begin_request(&question).unwrap();
    let got_q = rep.accept_request(RecvOutcome::Frame(wire_q)).unwrap();
    assert_eq!(got_q, question);

    let wire_a = rep.prepare_reply(&answer).unwrap();
    let got_a = req.complete_request(RecvOutcome::Frame(wire_a)).unwrap();
    assert_eq!(got_a, answer);
}
