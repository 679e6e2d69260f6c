//! The line backend: the sender that writes raw evaluable text, and
//! the receiver that reads one structured-text document per line.

use vstd::prelude::*;
use vstd::string::StringSliceAdditionalSpecFns;
use crate::repl::{Param, ParamV, Request, ReqV, Response, RespV, ReplError, ErrV, assoc_find,
    doc_trace_text, doc_via_text, parsed_doc, edn_map_find, response_matches};
use crate::edn_value::{EdnValue, EdnV, ws_end, parse_edn_value, EdnParsed};

verus! {

/// The evaluable text of an eval request's payload, if its `code`
/// entry is text.
pub open spec fn eval_code(p: Seq<(ParamV, ParamV)>) -> Option<Seq<char>> {
    match assoc_find(p, ParamV::Str("code"@)) {
        Some(ParamV::Str(s)) => Some(s),
        _ => None,
    }
}

/// What one request puts on the wire: the code line for an eval, the
/// quit token for an exit, nothing for the dialect's unsupported
/// operations.
pub open spec fn prepl_wire_bytes(req: ReqV) -> Seq<u8> {
    match req {
        ReqV::Eval(p) => match eval_code(p) {
            Some(code) => vstd::utf8::encode_utf8(code.push('\n')),
            None => Seq::empty(),
        },
        ReqV::Exit => vstd::utf8::encode_utf8(":repl/quit\n"@),
        _ => Seq::empty(),
    }
}

/// Whether a send counts against the request counter: only an eval
/// that carries code does.
pub open spec fn prepl_counts(req: ReqV) -> bool {
    match req {
        ReqV::Eval(p) => eval_code(p) is Some,
        _ => false,
    }
}

/// The line backend's sender. The dialect has no session concept, so
/// the session id is a fixed placeholder.
pub struct PreplSender {
    pub session_id: String,
    pub request_cnt: u64,
}

impl PreplSender {
    /// The number of evaluations sent so far.
    pub open spec fn counter(&self) -> nat {
        self.request_cnt as nat
    }

    /// A fresh sender with the placeholder session id.
    pub fn new() -> (r: PreplSender)
        ensures
            r.session_id@ == "prepl_default_session"@,
            r.counter() == 0,
    {
        PreplSender { session_id: String::from_str("prepl_default_session"), request_cnt: 0 }
    }

    /// The placeholder session id.
    pub fn session_id(&self) -> (r: String)
        ensures
            r@ == self.session_id@,
    {
        self.session_id.clone()
    }

    /// Encodes one request as the bytes to be written: the payload's
    /// code followed by a newline for an eval, the quit token for an
    /// exit, nothing otherwise.
    pub fn send(&mut self, req: Request) -> (r: Vec<u8>)
        requires
            old(self).counter() < u64::MAX,
        ensures
            r@ == prepl_wire_bytes(req@),
            final(self).session_id@ == old(self).session_id@,
            final(self).counter() == old(self).counter() + (if prepl_counts(req@) {
                1int
            } else {
                0int
            }),
    {
        match req {
            Request::Eval(p) => {
                match p.get(&Param::Str(String::from_str("code"))) {
                    Some(Param::Str(s)) => {
                        let mut line = s.clone();
                        line.append("\n");
                        proof {
                            reveal_strlit("\n");
                            assert(line@ =~= s@.push('\n'));
                        }
                        self.request_cnt = self.request_cnt + 1;
                        vstd::string::StrSliceExecFns::as_bytes_vec(line.as_str())
                    },
                    Some(Param::Int(_)) => Vec::new(),
                    None => Vec::new(),
                }
            },
            Request::Exit => {
                let quit = String::from_str(":repl/quit\n");
                vstd::string::StrSliceExecFns::as_bytes_vec(quit.as_str())
            },
            _ => Vec::new(),
        }
    }
}

impl crate::repl::ReplSender for PreplSender {
    open spec fn session_view(&self) -> Seq<char> {
        self.session_id@
    }

    open spec fn ready(&self) -> bool {
        self.counter() < u64::MAX
    }

    open spec fn wire_bytes(&self, req: ReqV) -> Seq<u8> {
        prepl_wire_bytes(req)
    }

    fn session_id(&self) -> (r: String) {
        PreplSender::session_id(self)
    }

    fn send(&mut self, req: Request) -> (r: Vec<u8>) {
        PreplSender::send(self, req)
    }
}

/// The merged exception text of the line dialect: the cause messages,
/// a separator, then the rendered trace frames; empty when the text
/// does not parse as a map.
pub open spec fn prepl_exception_text(bytes: Seq<u8>) -> Seq<char> {
    match parsed_doc(bytes) {
        Some(doc) => match doc {
            EdnV::MapLit(m) => doc_trace_text(doc, doc_via_text(doc) + "\n-- Trace --\n"@),
            _ => Seq::empty(),
        },
        None => Seq::empty(),
    }
}

/// The response decoded from one line, or the error that line earns.
pub open spec fn prepl_response(bytes: Seq<u8>) -> Result<RespV, ErrV> {
    match parsed_doc(bytes) {
        None => if ws_end(bytes, 0) == bytes.len() {
            Err(ErrV::Error("EDN parser Error: trying to parse empty string"@))
        } else {
            Err(ErrV::Error("EDN parser Error: malformed response from pREPL"@))
        },
        Some(doc) => match doc {
            EdnV::MapLit(m) => match edn_map_find(m, EdnV::Keyword("tag"@)) {
                Some(EdnV::Keyword(key)) => if key == "ret"@ {
                    ret_response(m)
                } else if key == "out"@ || key == "err"@ {
                    Ok(RespV::StdOut(field_str(m, "val"@)))
                } else {
                    Ok(RespV::Other(key))
                },
                Some(other) => Ok(RespV::Other(Seq::empty())),
                None => Err(ErrV::Error("Missing 'tag' in pREPL response"@)),
            },
            _ => Err(ErrV::Error("EDN parser Error: unexpected response from pREPL"@)),
        },
    }
}

/// A text field of the document, defaulting to empty.
pub open spec fn field_str(m: Seq<(EdnV, EdnV)>, name: Seq<char>) -> Seq<char> {
    match edn_map_find(m, EdnV::Keyword(name)) {
        Some(EdnV::Str(s)) => s,
        _ => Seq::empty(),
    }
}

/// The elapsed-milliseconds field, defaulting to zero.
pub open spec fn field_ms(m: Seq<(EdnV, EdnV)>) -> int {
    match edn_map_find(m, EdnV::Keyword("ms"@)) {
        Some(EdnV::Int(i)) => i,
        _ => 0,
    }
}

/// The exception flag, defaulting to false.
pub open spec fn field_exception(m: Seq<(EdnV, EdnV)>) -> bool {
    match edn_map_find(m, EdnV::Keyword("exception"@)) {
        Some(EdnV::Bool(b)) => b,
        _ => false,
    }
}

/// The response for a `ret` document: an exception when flagged, else
/// the value with its namespace, elapsed time and source form.
pub open spec fn ret_response(m: Seq<(EdnV, EdnV)>) -> Result<RespV, ErrV> {
    if field_exception(m) {
        Ok(
            RespV::Exception {
                trace: prepl_exception_text(vstd::utf8::encode_utf8(field_str(m, "val"@))),
                message: Seq::empty(),
            },
        )
    } else {
        Ok(
            RespV::Value {
                val: field_str(m, "val"@),
                ns: field_str(m, "ns"@),
                ms: (field_ms(m) as usize) as int,
                form: field_str(m, "form"@),
            },
        )
    }
}

/// The line backend's receiver: holds its copy of the (placeholder)
/// session id for diagnostics only.
pub struct PreplReceiver {
    pub session_id: String,
}

impl PreplReceiver {
    /// A fresh receiver with no session id recorded.
    pub fn new() -> (r: PreplReceiver)
        ensures
            r.session_id@.len() == 0,
    {
        PreplReceiver { session_id: String::new() }
    }

    /// Decodes a nested structured-text exception document into one
    /// merged text: messages, separator, trace.
    pub fn parse_exception(&self, edn_s: &str) -> (r: String)
        ensures
            r@ == prepl_exception_text(edn_s.spec_bytes()),
    {
        match parse_edn_value(edn_s.as_bytes(), 0) {
            EdnParsed::Val(doc, _) => {
                match &doc {
                    EdnValue::MapLit(m) => {
                        let mut result = String::new();
                        match crate::repl::map_find_keyword(m, &String::from_str("via")) {
                            Some(EdnValue::Vector(v)) => {
                                crate::repl::push_via_messages(v, 0, &mut result);
                                proof {
                                    assert(crate::edn_value::edn_views(v@).skip(0)
                                        =~= crate::edn_value::edn_views(v@));
                                }
                            },
                            _ => {},
                        }
                        result.append("\n-- Trace --\n");
                        match crate::repl::map_find_keyword(m, &String::from_str("trace")) {
                            Some(EdnValue::Vector(v)) => {
                                result = crate::repl::render_trace_frames(v, 0, result);
                                proof {
                                    assert(crate::edn_value::edn_views(v@).skip(0)
                                        =~= crate::edn_value::edn_views(v@));
                                }
                            },
                            _ => {},
                        }
                        result
                    },
                    _ => String::new(),
                }
            },
            EdnParsed::Fail => String::new(),
        }
    }

    /// Decodes one line as a response, dispatching on its `tag` field;
    /// malformed text, an empty line or a missing tag is a decode
    /// error.
    pub fn receive(&mut self, line: &str) -> (r: Result<Response, ReplError>)
        ensures
            response_matches(r, prepl_response(line.spec_bytes())),
            final(self).session_id@ == old(self).session_id@,
    {
        let bytes = line.as_bytes();
        match parse_edn_value(bytes, 0) {
            EdnParsed::Fail => {
                let e = crate::edn_value::ws_scan(bytes, 0);
                if e == bytes.len() {
                    Err(
                        ReplError::Error(
                            String::from_str("EDN parser Error: trying to parse empty string"),
                        ),
                    )
                } else {
                    Err(
                        ReplError::Error(
                            String::from_str("EDN parser Error: malformed response from pREPL"),
                        ),
                    )
                }
            },
            EdnParsed::Val(doc, _) => {
                match &doc {
                    EdnValue::MapLit(m) => {
                        match crate::repl::map_find_keyword(m, &String::from_str("tag")) {
                            Some(EdnValue::Keyword(key)) => {
                                if *key == String::from_str("ret") {
                                    self.ret_line(m)
                                } else if *key == String::from_str("out") || *key
                                    == String::from_str("err") {
                                    Ok(Response::StdOut(self.field_string(m, "val")))
                                } else {
                                    Ok(Response::Other(key.clone()))
                                }
                            },
                            Some(_) => Ok(Response::Other(String::new())),
                            None => Err(
                                ReplError::Error(
                                    String::from_str("Missing 'tag' in pREPL response"),
                                ),
                            ),
                        }
                    },
                    _ => Err(
                        ReplError::Error(
                            String::from_str(
                                "EDN parser Error: unexpected response from pREPL",
                            ),
                        ),
                    ),
                }
            },
        }
    }

    /// A text field of the document, defaulting to empty.
    fn field_string(&self, m: &Vec<(EdnValue, EdnValue)>, name: &str) -> (r: String)
        ensures
            r@ == field_str(crate::edn_value::edn_pair_views(m@), name@),
    {
        match crate::repl::map_find_keyword(m, &String::from_str(name)) {
            Some(EdnValue::Str(s)) => s.clone(),
            Some(_) => String::new(),
            None => String::new(),
        }
    }

    /// The response for a `ret` document.
    fn ret_line(&self, m: &Vec<(EdnValue, EdnValue)>) -> (r: Result<Response, ReplError>)
        ensures
            response_matches(r, ret_response(crate::edn_value::edn_pair_views(m@))),
    {
        let val = self.field_string(m, "val");
        let exception: bool = match crate::repl::map_find_keyword(
            m,
            &String::from_str("exception"),
        ) {
            Some(EdnValue::Bool(b)) => *b,
            Some(_) => false,
            None => false,
        };
        if exception {
            Ok(Response::Exception(self.parse_exception(val.as_str()), String::new()))
        } else {
            let ns = self.field_string(m, "ns");
            let form = self.field_string(m, "form");
            let ms: i64 = match crate::repl::map_find_keyword(m, &String::from_str("ms")) {
                Some(EdnValue::Int(i)) => *i,
                Some(_) => 0,
                None => 0,
            };
            #[verifier::truncate]
            let msu: usize = ms as usize;
            Ok(Response::Value(val, ns, msu, form))
        }
    }
}

impl crate::repl::ReplReceiver for PreplReceiver {
    type Wire = String;

    open spec fn session_view(&self) -> Seq<char> {
        self.session_id@
    }

    open spec fn response_spec(&self, wire: String) -> Result<RespV, ErrV> {
        prepl_response(vstd::utf8::encode_utf8(wire@))
    }

    fn receive(&mut self, wire: String) -> (r: Result<Response, ReplError>) {
        PreplReceiver::receive(self, wire.as_str())
    }
}

} // verus!
