//! The framed backend: encoding, decoding, the sender's payload
//! bookkeeping, and the startup handshake.

use redbush::bencode::{encode_frame, parse_frame, FrameParse, FrameValue};
use redbush::nrepl::{FramedHandshake, HandshakeStep, NreplReceiver, NreplSender};
use redbush::repl::{Param, Params, ReplError, Request, Response};

fn bytes(s: &str) -> FrameValue {
    FrameValue::Bytes(s.as_bytes().to_vec())
}

fn dict(pairs: Vec<(FrameValue, FrameValue)>) -> FrameValue {
    FrameValue::Dict(pairs)
}

/// Decodes one frame of our encoder's output with the independent
/// bencode crate and hands back its dictionary pairs as text/ints.
fn oracle_dict(encoded: &[u8]) -> Vec<(String, String)> {
    let values = bencode_rs::parse_all(encoded).expect("oracle rejected the encoding");
    assert_eq!(values.len(), 1);
    let mut out = Vec::new();
    match &values[0] {
        bencode_rs::Value::Dictionary(pairs) => {
            for (k, v) in pairs {
                let key = match k {
                    bencode_rs::Value::ByteString(b) => String::from_utf8(b.clone()).unwrap(),
                    other => panic!("non-string key: {:?}", other),
                };
                let val = match v {
                    bencode_rs::Value::ByteString(b) => String::from_utf8(b.clone()).unwrap(),
                    bencode_rs::Value::Integer(i) => i.to_string(),
                    other => panic!("unexpected value: {:?}", other),
                };
                out.push((key, val));
            }
        }
        other => panic!("not a dictionary: {:?}", other),
    }
    out
}

fn lookup<'a>(pairs: &'a [(String, String)], key: &str) -> Option<&'a str> {
    pairs.iter().find(|(k, _)| k == key).map(|(_, v)| v.as_str())
}

#[test]
fn encoder_agrees_with_outside_decoder() {
    let v = dict(vec![
        (bytes("op"), bytes("eval")),
        (bytes("n"), FrameValue::Int(-42)),
        (
            bytes("items"),
            FrameValue::List(vec![FrameValue::Int(0), bytes("x")]),
        ),
    ]);
    let enc = encode_frame(&v);
    let parsed = bencode_rs::parse_all(&enc).expect("outside decoder rejected our bytes");
    assert_eq!(parsed.len(), 1);
    assert_eq!(
        parsed[0],
        bencode_rs::Value::Dictionary(vec![
            (
                bencode_rs::Value::ByteString(b"op".to_vec()),
                bencode_rs::Value::ByteString(b"eval".to_vec())
            ),
            (
                bencode_rs::Value::ByteString(b"n".to_vec()),
                bencode_rs::Value::Integer(-42)
            ),
            (
                bencode_rs::Value::ByteString(b"items".to_vec()),
                bencode_rs::Value::List(vec![
                    bencode_rs::Value::Integer(0),
                    bencode_rs::Value::ByteString(b"x".to_vec())
                ])
            ),
        ])
    );
}

#[test]
fn own_parser_round_trips_own_encoder() {
    let v = dict(vec![
        (bytes("a"), FrameValue::Int(i64::MAX)),
        (bytes("b"), FrameValue::Int(i64::MIN)),
        (bytes("c"), bytes("")),
    ]);
    let enc = encode_frame(&v);
    match parse_frame(&enc, 0) {
        FrameParse::Frame(back, used) => {
            assert_eq!(back, v);
            assert_eq!(used, enc.len());
        }
        other => panic!("round trip failed: {:?}", other),
    }
}

#[test]
fn own_parser_rejects_noncanonical_and_reports_incomplete() {
    assert_eq!(parse_frame(b"i-0e", 0), FrameParse::Malformed);
    assert_eq!(parse_frame(b"i03e", 0), FrameParse::Malformed);
    assert_eq!(parse_frame(b"3:ab", 0), FrameParse::Incomplete);
    assert_eq!(parse_frame(b"i42", 0), FrameParse::Incomplete);
    assert_eq!(parse_frame(b"xyz", 0), FrameParse::Malformed);
    assert_eq!(parse_frame(b"i9223372036854775808e", 0), FrameParse::Malformed);
    match parse_frame(b"i-9223372036854775808e", 0) {
        FrameParse::Frame(FrameValue::Int(i), 22) => assert_eq!(i, i64::MIN),
        other => panic!("minimum integer failed: {:?}", other),
    }
}

#[test]
fn sent_eval_carries_exactly_op_code_session_and_id() {
    let mut sender = NreplSender::new();
    sender.session_id = String::from("sess-7");
    let mut payload = Params::new();
    payload.insert(
        Param::Str(String::from("code")),
        Param::Str(String::from("(+ 1 1)")),
    );
    let wire = sender.send(Request::Eval(payload));
    let pairs = oracle_dict(&wire);
    assert_eq!(lookup(&pairs, "op"), Some("eval"));
    assert_eq!(lookup(&pairs, "code"), Some("(+ 1 1)"));
    assert_eq!(lookup(&pairs, "session"), Some("sess-7"));
    assert_eq!(lookup(&pairs, "id"), Some("0"));
    assert_eq!(pairs.len(), 4);
}

#[test]
fn sent_eval_without_session_has_no_session_key() {
    let mut sender = NreplSender::new();
    let mut payload = Params::new();
    payload.insert(
        Param::Str(String::from("code")),
        Param::Str(String::from("1")),
    );
    let wire = sender.send(Request::Eval(payload));
    let pairs = oracle_dict(&wire);
    assert_eq!(lookup(&pairs, "session"), None);
    assert_eq!(lookup(&pairs, "op"), Some("eval"));
    assert_eq!(lookup(&pairs, "id"), Some("0"));
    assert_eq!(pairs.len(), 3);
}

#[test]
fn sent_interrupt_carries_interrupt_id() {
    let mut sender = NreplSender::new();
    sender.session_id = String::from("s");
    sender.request_cnt = 9;
    let wire = sender.send(Request::Interrupt(Params::new()));
    let pairs = oracle_dict(&wire);
    assert_eq!(lookup(&pairs, "op"), Some("interrupt"));
    assert_eq!(lookup(&pairs, "interrupt-id"), Some("9"));
    assert_eq!(lookup(&pairs, "id"), Some("9"));
    assert_eq!(lookup(&pairs, "session"), Some("s"));
    assert_eq!(sender.request_cnt, 10);
}

#[test]
fn sent_interrupt_transports_the_callers_id() {
    let mut sender = NreplSender::new();
    sender.session_id = String::from("s");
    sender.request_cnt = 9;
    let mut payload = Params::new();
    payload.insert(
        Param::Str(String::from("interrupt-id")),
        Param::Str(String::from("4")),
    );
    let wire = sender.send(Request::Interrupt(payload));
    let pairs = oracle_dict(&wire);
    assert_eq!(lookup(&pairs, "interrupt-id"), Some("4"));
    assert_eq!(lookup(&pairs, "id"), Some("9"));
    assert_eq!(lookup(&pairs, "op"), Some("interrupt"));
}

#[test]
fn disable_namespace_maps_twice_differs_only_in_id() {
    let mut sender = NreplSender::new();
    sender.session_id = String::from("sess");
    let first = oracle_dict(&sender.send(Request::DisableNamespaceMaps));
    let second = oracle_dict(&sender.send(Request::DisableNamespaceMaps));
    assert_eq!(lookup(&first, "id"), Some("0"));
    assert_eq!(lookup(&second, "id"), Some("1"));
    let strip = |pairs: &[(String, String)]| -> Vec<(String, String)> {
        pairs.iter().filter(|(k, _)| k != "id").cloned().collect()
    };
    assert_eq!(strip(&first), strip(&second));
}

#[test]
fn classify_value_requires_namespace() {
    let mut receiver = NreplReceiver::new();
    receiver.feed(&b"d5:value1:2e".to_vec());
    match receiver.try_receive(false) {
        Some(Err(ReplError::Error(msg))) => {
            assert_eq!(msg, "Missing 'ns' in nREPL value-response: 2")
        }
        other => panic!("expected the missing-ns error: {:?}", other),
    }
}

#[test]
fn classify_unknown_dictionary_is_protocol_error() {
    let mut receiver = NreplReceiver::new();
    receiver.feed(&b"d7:unknown1:xe".to_vec());
    match receiver.try_receive(false) {
        Some(Err(ReplError::Error(msg))) => {
            assert_eq!(msg, "Unsupported nREPL response: d7:unknown1:xe")
        }
        other => panic!("expected the unsupported error: {:?}", other),
    }
}

#[test]
fn receiver_reassembles_split_frames_and_sees_eof() {
    let mut receiver = NreplReceiver::new();
    receiver.feed(&b"d3:out2:h".to_vec());
    assert_eq!(receiver.try_receive(false), None);
    receiver.feed(&b"ie".to_vec());
    assert_eq!(
        receiver.try_receive(false),
        Some(Ok(Response::StdOut(String::from("hi"))))
    );
    assert_eq!(receiver.try_receive(true), Some(Ok(Response::EndOfStream)));
}

#[test]
fn eof_in_the_middle_of_a_frame_is_an_error() {
    let mut receiver = NreplReceiver::new();
    receiver.feed(&b"d3:out".to_vec());
    match receiver.try_receive(true) {
        Some(Err(ReplError::Error(msg))) => assert_eq!(msg, "Connection closed mid-frame"),
        other => panic!("expected the mid-frame error: {:?}", other),
    }
}

#[test]
fn malformed_frame_is_an_error() {
    let mut receiver = NreplReceiver::new();
    receiver.feed(&b"q".to_vec());
    match receiver.try_receive(false) {
        Some(Err(ReplError::Error(msg))) => assert_eq!(msg, "Malformed nREPL message"),
        other => panic!("expected the malformed error: {:?}", other),
    }
}

#[test]
fn nrepl_exception_uses_throwable_rendering() {
    let mut receiver = NreplReceiver::new();
    let doc = "#error {:via [{:message \"boom\"}] :trace [[sym1 \"file.ext\" 42]]}";
    let mut frame = Vec::new();
    frame.extend_from_slice(b"d2:ex5:oops!33:nrepl.middleware.caught/throwable");
    frame.extend_from_slice(format!("{}:{}", doc.len(), doc).as_bytes());
    frame.extend_from_slice(b"e");
    receiver.feed(&frame);
    match receiver.try_receive(false) {
        Some(Ok(Response::Exception(trace, message))) => {
            assert_eq!(trace, "sym1 file.ext 42\n");
            assert_eq!(message, "");
        }
        other => panic!("expected an exception: {:?}", other),
    }
}

#[test]
fn handshake_completes_with_matching_session_ids() {
    let (mut hs, first) = FramedHandshake::new();
    let first_pairs = oracle_dict(&first);
    assert_eq!(lookup(&first_pairs, "op"), Some("clone"));
    assert_eq!(lookup(&first_pairs, "id"), Some("0"));
    assert_eq!(lookup(&first_pairs, "session"), None);
    assert_eq!(first_pairs.len(), 2);
    hs.feed(&b"d11:new-session6:sess-1e".to_vec());
    let disable = match hs.step() {
        HandshakeStep::Write(bytes) => bytes,
        other => panic!("expected the disable write: {:?}", other),
    };
    let disable_pairs = oracle_dict(&disable);
    assert_eq!(lookup(&disable_pairs, "op"), Some("eval"));
    assert_eq!(
        lookup(&disable_pairs, "code"),
        Some("(set! *print-namespace-maps* false)")
    );
    assert_eq!(lookup(&disable_pairs, "session"), Some("sess-1"));
    assert_eq!(lookup(&disable_pairs, "id"), Some("1"));
    hs.feed(&b"d2:ns4:user5:value3:nile".to_vec());
    assert!(matches!(hs.step(), HandshakeStep::Advanced));
    hs.feed(&b"d6:statusl4:doneee".to_vec());
    assert!(matches!(hs.step(), HandshakeStep::Complete));
    let (sender, receiver) = hs.finish();
    assert_eq!(sender.session_id, "sess-1");
    assert_eq!(receiver.session_id, "sess-1");
    assert!(!sender.session_id.is_empty());
}

#[test]
fn handshake_hands_leftover_bytes_to_the_receiver() {
    let (mut hs, _) = FramedHandshake::new();
    hs.feed(&b"d11:new-session2:ide".to_vec());
    assert!(matches!(hs.step(), HandshakeStep::Write(_)));
    // The value reply, the done status, and the first steady-state
    // frame arrive in one chunk.
    hs.feed(&b"d2:ns4:user5:value3:niled6:statusl4:doneeed3:out2:hie".to_vec());
    assert!(matches!(hs.step(), HandshakeStep::Advanced));
    assert!(matches!(hs.step(), HandshakeStep::Complete));
    let (sender, mut receiver) = hs.finish();
    assert_eq!(sender.request_cnt, 2);
    assert_eq!(
        receiver.try_receive(false),
        Some(Ok(Response::StdOut(String::from("hi"))))
    );
}

#[test]
fn handshake_rejects_empty_session_id() {
    let (mut hs, _) = FramedHandshake::new();
    hs.feed(&b"d11:new-session0:e".to_vec());
    match hs.step() {
        HandshakeStep::Fail(ReplError::Error(msg)) => {
            assert_eq!(msg, "Empty nREPL session id")
        }
        other => panic!("expected the empty-id failure: {:?}", other),
    }
}

#[test]
fn handshake_rejects_wrong_first_response() {
    let (mut hs, _) = FramedHandshake::new();
    hs.feed(&b"d3:out2:hie".to_vec());
    match hs.step() {
        HandshakeStep::Fail(ReplError::Error(msg)) => {
            assert_eq!(msg, "Unexpected nREPL response for 'new session'")
        }
        other => panic!("expected the wrong-response failure: {:?}", other),
    }
}

#[test]
fn handshake_rejects_status_without_done() {
    let (mut hs, _) = FramedHandshake::new();
    hs.feed(&b"d11:new-session2:ide".to_vec());
    assert!(matches!(hs.step(), HandshakeStep::Write(_)));
    hs.feed(&b"d2:ns4:user5:value3:nile".to_vec());
    assert!(matches!(hs.step(), HandshakeStep::Advanced));
    hs.feed(&b"d6:statusl5:erroree".to_vec());
    match hs.step() {
        HandshakeStep::Fail(ReplError::Error(msg)) => {
            assert_eq!(msg, "Unable to disable ns-maps")
        }
        other => panic!("expected the not-done failure: {:?}", other),
    }
}
