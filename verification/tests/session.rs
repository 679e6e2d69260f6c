//! The detector, the worker loop's forwarding order, and the shared
//! protocol model.

use redbush::detect::{detect_backend, detector_probe, BackendKind};
use redbush::nrepl::NreplReceiver;
use redbush::repl::{Param, Params, ReplError, Request, Response};
use redbush::worker::{host_command_to_request, repl_loop, respond, LoopControl, SinkCall};

#[test]
fn detector_selects_backends_by_first_byte() {
    assert_eq!(detect_backend(Some(0x7B)), Some(BackendKind::Line));
    assert_eq!(detect_backend(Some(0x64)), Some(BackendKind::Framed));
    assert_eq!(detect_backend(Some(0x00)), None);
    assert_eq!(detect_backend(Some(0xFF)), None);
    assert_eq!(detect_backend(None), None);
}

#[test]
fn probe_is_a_valid_framed_eval() {
    let probe = detector_probe();
    assert_eq!(probe, b"d4:code7:(+ 1 1)2:op4:evale\n".to_vec());
    let frame = &probe[..probe.len() - 1];
    let parsed = bencode_rs::parse_all(frame).expect("probe is not valid framing");
    assert_eq!(
        parsed,
        vec![bencode_rs::Value::Dictionary(vec![
            (
                bencode_rs::Value::ByteString(b"code".to_vec()),
                bencode_rs::Value::ByteString(b"(+ 1 1)".to_vec())
            ),
            (
                bencode_rs::Value::ByteString(b"op".to_vec()),
                bencode_rs::Value::ByteString(b"eval".to_vec())
            ),
        ])]
    );
}

#[test]
fn framed_eval_scenario_forwards_value_then_status() {
    let mut receiver = NreplReceiver::new();
    receiver.feed(&b"d2:ns4:user5:value1:2e".to_vec());
    receiver.feed(&b"d6:statusl4:doneee".to_vec());
    let mut events = Vec::new();
    events.push(receiver.try_receive(false).expect("no value frame"));
    events.push(receiver.try_receive(false).expect("no status frame"));
    let (calls, control) = repl_loop(events);
    assert_eq!(control, LoopControl::Continue);
    assert_eq!(
        calls,
        vec![
            SinkCall::Marker(String::from("Start")),
            SinkCall::Show(String::new(), String::from("2")),
            SinkCall::Show(String::from(";=> "), String::from("user")),
            SinkCall::OutWrite(String::from("2\n")),
            SinkCall::Show(String::from(";; Status: "), String::from("done ")),
        ]
    );
    for call in &calls {
        match call {
            SinkCall::Show(prefix, _) => {
                assert_ne!(prefix, ";\u{2716} ");
                assert_ne!(prefix, ";  ");
            }
            _ => {}
        }
    }
}

#[test]
fn responses_reach_the_sink_in_arrival_order() {
    let events: Vec<Result<Response, ReplError>> = vec![
        Ok(Response::StdOut(String::from("one"))),
        Ok(Response::StdErr(String::from("two"))),
        Ok(Response::StdOut(String::from("three"))),
    ];
    let mut expected: Vec<SinkCall> = vec![SinkCall::Marker(String::from("Start"))];
    for e in &events {
        let (calls, _) = respond(e);
        expected.extend(calls);
    }
    let (calls, control) = repl_loop(events);
    assert_eq!(calls, expected);
    assert_eq!(control, LoopControl::Continue);
}

#[test]
fn session_closed_status_ends_the_run() {
    let events: Vec<Result<Response, ReplError>> = vec![
        Ok(Response::StdOut(String::from("a"))),
        Ok(Response::Status(vec![String::from("session-closed")])),
        Ok(Response::StdOut(String::from("never-shown"))),
    ];
    let (calls, control) = repl_loop(events);
    assert_eq!(control, LoopControl::SessionClosed);
    assert_eq!(
        calls,
        vec![
            SinkCall::Marker(String::from("Start")),
            SinkCall::Show(String::from(";"), String::from("a")),
            SinkCall::Show(
                String::from(";; Status: "),
                String::from("session-closed ")
            ),
            SinkCall::Marker(String::from("End")),
        ]
    );
}

#[test]
fn end_of_stream_is_fatal() {
    let events: Vec<Result<Response, ReplError>> = vec![Ok(Response::EndOfStream)];
    let (calls, control) = repl_loop(events);
    assert_eq!(control, LoopControl::Fatal);
    assert_eq!(
        calls,
        vec![
            SinkCall::Marker(String::from("Start")),
            SinkCall::Marker(String::from("REPL died?")),
        ]
    );
}

#[test]
fn receive_errors_are_fatal() {
    let events: Vec<Result<Response, ReplError>> =
        vec![Err(ReplError::Io(String::from("broken pipe")))];
    let (_, control) = repl_loop(events);
    assert_eq!(control, LoopControl::Fatal);
}

#[test]
fn host_commands_map_to_requests_with_exit_fallback() {
    let mut p = Params::new();
    p.insert(Param::Str(String::from("code")), Param::Str(String::from("1")));
    match host_command_to_request(&String::from("eval"), p) {
        Request::Eval(_) => {}
        other => panic!("eval mapped wrongly: {:?}", other),
    }
    match host_command_to_request(&String::from("interrupt"), Params::new()) {
        Request::Interrupt(_) => {}
        other => panic!("interrupt mapped wrongly: {:?}", other),
    }
    assert_eq!(
        host_command_to_request(&String::from("exit"), Params::new()),
        Request::Exit
    );
    assert_eq!(
        host_command_to_request(&String::from("stop"), Params::new()),
        Request::Exit
    );
    assert_eq!(
        host_command_to_request(&String::from("anything-else"), Params::new()),
        Request::Exit
    );
}

#[test]
fn params_bind_and_replace_like_a_mapping() {
    let mut p = Params::new();
    p.insert(Param::Str(String::from("k")), Param::Int(1));
    p.insert(Param::Str(String::from("other")), Param::Int(2));
    p.insert(Param::Str(String::from("k")), Param::Int(3));
    assert_eq!(p.len(), 2);
    assert_eq!(p.get(&Param::Str(String::from("k"))), Some(&Param::Int(3)));
    assert_eq!(p.get(&Param::Str(String::from("missing"))), None);
}

#[test]
fn error_messages_render_like_the_error_kind() {
    assert_eq!(
        ReplError::Error(String::from("bad")).to_message(),
        "Repl Error: bad "
    );
    assert_eq!(
        ReplError::Io(String::from("refused")).to_message(),
        "Repl Io: refused"
    );
}

#[test]
fn decimal_renderings_are_exact() {
    assert_eq!(redbush::strutil::u64_to_string(0), "0");
    assert_eq!(redbush::strutil::u64_to_string(90210), "90210");
    assert_eq!(redbush::repl::i64_to_string(-42), "-42");
    assert_eq!(redbush::repl::i64_to_string(i64::MIN), "-9223372036854775808");
}

#[test]
fn marker_stripping_removes_every_occurrence() {
    assert_eq!(
        redbush::nrepl::strip_marker_string(&String::from("#error {:a 1}")),
        "{:a 1}"
    );
    assert_eq!(
        redbush::nrepl::strip_marker_string(&String::from("x #error y #error z")),
        "x y z"
    );
    assert_eq!(redbush::nrepl::strip_marker_string(&String::from("plain")), "plain");
}

#[test]
fn prefixed_lines_follow_the_splitting_rules() {
    let r = redbush::logbuf::prefix_lines(&String::from(";"), &String::from("a\nb\r\nc\n"));
    assert_eq!(r, vec![String::from(";a"), String::from(";b"), String::from(";c")]);
    let empty = redbush::logbuf::prefix_lines(&String::from(";"), &String::from(""));
    assert_eq!(empty, Vec::<String>::new());
}

#[test]
fn append_plan_trims_exactly_at_the_limit() {
    assert_eq!(redbush::logbuf::append_plan(10, 5, 100), (None, 15));
    assert_eq!(redbush::logbuf::append_plan(98, 5, 100), (Some(50), 55));
    assert_eq!(redbush::logbuf::append_plan(95, 5, 100), (None, 100));
}
