//! The line backend: raw-text sending, line decoding, and the nested
//! exception documents.

use redbush::prepl::{PreplReceiver, PreplSender};
use redbush::repl::{parse_exception, Param, Params, ReplError, Request, Response};

fn eval_request(code: &str) -> Request {
    let mut payload = Params::new();
    payload.insert(
        Param::Str(String::from("code")),
        Param::Str(String::from(code)),
    );
    Request::Eval(payload)
}

#[test]
fn sender_writes_code_with_newline() {
    let mut sender = PreplSender::new();
    assert_eq!(sender.send(eval_request("(+ 1 2)")), b"(+ 1 2)\n".to_vec());
    assert_eq!(sender.request_cnt, 1);
}

#[test]
fn sender_writes_quit_token_on_exit() {
    let mut sender = PreplSender::new();
    assert_eq!(sender.send(Request::Exit), b":repl/quit\n".to_vec());
    assert_eq!(sender.request_cnt, 0);
}

#[test]
fn sender_ignores_unsupported_operations() {
    let mut sender = PreplSender::new();
    assert_eq!(sender.send(Request::NewSession), Vec::<u8>::new());
    assert_eq!(sender.send(Request::DisableNamespaceMaps), Vec::<u8>::new());
    assert_eq!(sender.send(Request::Interrupt(Params::new())), Vec::<u8>::new());
    assert_eq!(sender.send(eval_request("")), b"\n".to_vec());
    assert_eq!(sender.request_cnt, 1);
}

#[test]
fn sender_has_the_placeholder_session() {
    let sender = PreplSender::new();
    assert_eq!(sender.session_id(), "prepl_default_session");
}

#[test]
fn ret_line_becomes_value() {
    let mut receiver = PreplReceiver::new();
    let line = "{:tag :ret, :val \"2\", :ns \"user\", :ms 17, :form \"(+ 1 1)\"}";
    assert_eq!(
        receiver.receive(line),
        Ok(Response::Value(
            String::from("2"),
            String::from("user"),
            17,
            String::from("(+ 1 1)")
        ))
    );
}

#[test]
fn absent_ret_fields_default_to_empty_and_zero() {
    let mut receiver = PreplReceiver::new();
    assert_eq!(
        receiver.receive("{:tag :ret}"),
        Ok(Response::Value(String::new(), String::new(), 0, String::new()))
    );
}

#[test]
fn out_and_err_lines_both_become_output() {
    let mut receiver = PreplReceiver::new();
    assert_eq!(
        receiver.receive("{:tag :out, :val \"hi\\n\"}"),
        Ok(Response::StdOut(String::from("hi\n")))
    );
    assert_eq!(
        receiver.receive("{:tag :err, :val \"oops\"}"),
        Ok(Response::StdOut(String::from("oops")))
    );
}

#[test]
fn unknown_tag_becomes_other() {
    let mut receiver = PreplReceiver::new();
    assert_eq!(
        receiver.receive("{:tag :prompt}"),
        Ok(Response::Other(String::from("prompt")))
    );
}

#[test]
fn empty_line_is_a_decode_error() {
    let mut receiver = PreplReceiver::new();
    assert_eq!(
        receiver.receive("   "),
        Err(ReplError::Error(String::from(
            "EDN parser Error: trying to parse empty string"
        )))
    );
}

#[test]
fn malformed_line_is_a_decode_error() {
    let mut receiver = PreplReceiver::new();
    assert_eq!(
        receiver.receive("}"),
        Err(ReplError::Error(String::from(
            "EDN parser Error: malformed response from pREPL"
        )))
    );
}

#[test]
fn non_map_line_is_a_decode_error() {
    let mut receiver = PreplReceiver::new();
    assert_eq!(
        receiver.receive("[1 2 3]"),
        Err(ReplError::Error(String::from(
            "EDN parser Error: unexpected response from pREPL"
        )))
    );
}

#[test]
fn missing_tag_is_a_decode_error() {
    let mut receiver = PreplReceiver::new();
    assert_eq!(
        receiver.receive("{:val \"2\"}"),
        Err(ReplError::Error(String::from(
            "Missing 'tag' in pREPL response"
        )))
    );
}

#[test]
fn exception_document_renders_message_then_trace() {
    let doc = "{:via [{:message \"boom\"}] :trace [[sym1 \"file.ext\" 42]]}";
    let (trace, message) = parse_exception(doc);
    assert_eq!(message, "boom\n");
    assert_eq!(trace, "sym1 file.ext 42\n");
    let receiver = PreplReceiver::new();
    let merged = receiver.parse_exception(doc);
    assert_eq!(merged, "boom\n\n-- Trace --\nsym1 file.ext 42\n");
    assert!(merged.contains("boom\n"));
    assert!(merged.contains("sym1 file.ext 42"));
}

#[test]
fn exception_line_uses_the_nested_document() {
    let mut receiver = PreplReceiver::new();
    let line = "{:tag :ret, :exception true, :val \"{:via [{:message \\\"boom\\\"}] :trace [[f \\\"g.clj\\\" 1]]}\"}";
    assert_eq!(
        receiver.receive(line),
        Ok(Response::Exception(
            String::from("boom\n\n-- Trace --\nf g.clj 1\n"),
            String::new()
        ))
    );
}

#[test]
fn multiple_causes_join_their_messages() {
    let doc = "{:via [{:message \"outer\"} {:other 1} {:message \"inner\"}] :trace []}";
    let (trace, message) = parse_exception(doc);
    assert_eq!(message, "outer\ninner\n");
    assert_eq!(trace, "");
}

#[test]
fn parser_agrees_with_outside_parser_on_acceptance() {
    let good = [
        "{:tag :ret, :val \"2\"}",
        "[1 -2 +3 symbol :kw \"str\" true false nil]",
        "{:a {:b [1 2]}, :c #{1}}",
    ];
    for doc in good {
        let ours = redbush::edn_value::parse_edn_value(doc.as_bytes(), 0);
        assert!(
            matches!(ours, redbush::edn_value::EdnParsed::Val(_, _)),
            "our parser rejected {}",
            doc
        );
        let mut oracle = edn::parser::Parser::new(doc);
        let theirs = oracle.read().expect("oracle saw no value");
        assert!(theirs.is_ok(), "oracle rejected {}", doc);
    }
    let ours_bad = redbush::edn_value::parse_edn_value(b"\"unterminated", 0);
    assert!(matches!(ours_bad, redbush::edn_value::EdnParsed::Fail));
    let mut oracle = edn::parser::Parser::new("\"unterminated");
    assert!(oracle.read().unwrap().is_err());
}
