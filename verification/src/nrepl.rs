//! The framed backend: the sender that turns a `Request` into one
//! framed dictionary message, and the bookkeeping it owns (request
//! counter and session id).

use vstd::prelude::*;
use vstd::string::StringSliceAdditionalSpecFns;
use crate::bencode::{FrameValue, FrameV, spec_encode_frame, encode_frame, frame_view, pair_views,
    lemma_pair_views_index};
use crate::repl::{Param, ParamV, Params, Request, ReqV, Response, RespV, ReplError, ErrV,
    assoc_find, assoc_set, lemma_assoc_set_find};
use crate::strutil::{u64_to_string, spec_dec_chars};

verus! {

/// How one payload parameter goes on the wire: text as its UTF-8
/// bytes, an integer as itself.
pub open spec fn param_frame(p: ParamV) -> FrameV {
    match p {
        ParamV::Str(s) => FrameV::Bytes(vstd::utf8::encode_utf8(s)),
        ParamV::Int(i) => FrameV::Int(i),
    }
}

/// A payload mapping as the dictionary that is encoded.
pub open spec fn dict_of_params(m: Seq<(ParamV, ParamV)>) -> Seq<(FrameV, FrameV)> {
    Seq::new(m.len(), |i: int| (param_frame(m[i].0), param_frame(m[i].1)))
}

/// The wire bytes of one outgoing request with payload mapping `m`.
pub open spec fn request_wire_bytes(m: Seq<(ParamV, ParamV)>) -> Seq<u8> {
    spec_encode_frame(FrameV::Dict(dict_of_params(m)))
}

/// The operation name each request variant is sent under.
pub open spec fn op_name(req: ReqV) -> Seq<char> {
    match req {
        ReqV::NewSession => "clone"@,
        ReqV::DisableNamespaceMaps => "eval"@,
        ReqV::Eval(p) => "eval"@,
        ReqV::Interrupt(p) => "interrupt"@,
        ReqV::Exit => "close"@,
    }
}

/// The caller's payload of a request, empty for payload-free variants.
pub open spec fn payload_of(req: ReqV) -> Seq<(ParamV, ParamV)> {
    match req {
        ReqV::Eval(p) => p,
        ReqV::Interrupt(p) => p,
        _ => Seq::empty(),
    }
}

/// The payload with the operation bookkeeping folded in, before the
/// session and id keys are bound.
pub open spec fn op_pairs(req: ReqV, cnt: nat) -> Seq<(ParamV, ParamV)> {
    match req {
        ReqV::NewSession => assoc_set(
            Seq::empty(),
            ParamV::Str("op"@),
            ParamV::Str("clone"@),
        ),
        ReqV::DisableNamespaceMaps => assoc_set(
            assoc_set(Seq::empty(), ParamV::Str("op"@), ParamV::Str("eval"@)),
            ParamV::Str("code"@),
            ParamV::Str("(set! *print-namespace-maps* false)"@),
        ),
        ReqV::Eval(p) => assoc_set(p, ParamV::Str("op"@), ParamV::Str("eval"@)),
        ReqV::Interrupt(p) => {
            let with_op = assoc_set(p, ParamV::Str("op"@), ParamV::Str("interrupt"@));
            if assoc_find(p, ParamV::Str("interrupt-id"@)) is Some {
                with_op
            } else {
                assoc_set(with_op, ParamV::Str("interrupt-id"@), ParamV::Str(spec_dec_chars(cnt)))
            }
        },
        ReqV::Exit => assoc_set(Seq::empty(), ParamV::Str("op"@), ParamV::Str("close"@)),
    }
}

/// The complete payload mapping of one send: operation bookkeeping,
/// then the session id if one is established, then the request id.
pub open spec fn framed_pairs(req: ReqV, session: Seq<char>, cnt: nat) -> Seq<(ParamV, ParamV)> {
    let base = op_pairs(req, cnt);
    let with_session = if session.len() > 0 {
        assoc_set(base, ParamV::Str("session"@), ParamV::Str(session))
    } else {
        base
    };
    assoc_set(with_session, ParamV::Str("id"@), ParamV::Str(spec_dec_chars(cnt)))
}

/// One payload parameter, converted for the wire.
fn param_to_frame(p: &Param) -> (r: FrameValue)
    ensures
        r@ == param_frame(p@),
{
    match p {
        Param::Str(s) => FrameValue::Bytes(
            vstd::string::StrSliceExecFns::as_bytes_vec(s.as_str()),
        ),
        Param::Int(i) => FrameValue::Int(*i as i64),
    }
}

/// A payload mapping, converted into the dictionary that is encoded.
fn frame_of_params(p: &Params) -> (r: FrameValue)
    ensures
        r@ == FrameV::Dict(dict_of_params(p@)),
{
    let mut dict: Vec<(FrameValue, FrameValue)> = Vec::new();
    let n: usize = p.len();
    let mut i: usize = 0;
    while i < n
        invariant
            i <= n,
            n == p@.len(),
            dict@.len() == i,
            forall|j: int|
                0 <= j < i ==> (#[trigger] dict@[j]).0@ == param_frame(p@[j].0) && dict@[j].1@
                    == param_frame(p@[j].1),
        decreases n - i,
    {
        let (k, v) = p.pair_at(i);
        dict.push((param_to_frame(k), param_to_frame(v)));
        i = i + 1;
    }
    proof {
        lemma_pair_views_index(dict@);
        assert forall|j: int| 0 <= j < dict@.len() implies pair_views(dict@)[j] == (
            param_frame(p@[j].0),
            param_frame(p@[j].1),
        ) by {
            assert(dict@[j].0@ == frame_view(dict@[j].0));
            assert(dict@[j].1@ == frame_view(dict@[j].1));
        }
        assert(pair_views(dict@) =~= dict_of_params(p@));
    }
    FrameValue::Dict(dict)
}

/// The framed backend's sender: owns the write half of the connection
/// at the protocol level, the session id, and the request counter.
pub struct NreplSender {
    pub session_id: String,
    pub request_cnt: u64,
}

impl NreplSender {
    /// The number of requests sent so far, which also supplies the
    /// next request id.
    pub open spec fn counter(&self) -> nat {
        self.request_cnt as nat
    }

    /// A fresh sender: no session, no requests sent.
    pub fn new() -> (r: NreplSender)
        ensures
            r.session_id@.len() == 0,
            r.counter() == 0,
    {
        NreplSender { session_id: String::new(), request_cnt: 0 }
    }

    /// The session id used for outgoing requests.
    pub fn session_id(&self) -> (r: String)
        ensures
            r@ == self.session_id@,
    {
        self.session_id.clone()
    }

    /// Encodes one request as the framed message to be written:
    /// the payload mapping gains the operation name, the session id if
    /// one is established, and a fresh request id; the counter moves on
    /// by one.
    pub fn send(&mut self, req: Request) -> (r: Vec<u8>)
        requires
            old(self).counter() < u64::MAX,
        ensures
            r@ == request_wire_bytes(
                framed_pairs(req@, old(self).session_id@, old(self).counter()),
            ),
            final(self).session_id@ == old(self).session_id@,
            final(self).counter() == old(self).counter() + 1,
    {
        let ghost rv = req@;
        let cnt = self.request_cnt;
        let mut params: Params = match req {
            Request::NewSession => {
                let mut p = Params::new();
                p.insert(Param::Str(String::from_str("op")), Param::Str(String::from_str("clone")));
                p
            },
            Request::DisableNamespaceMaps => {
                let mut p = Params::new();
                p.insert(Param::Str(String::from_str("op")), Param::Str(String::from_str("eval")));
                p.insert(
                    Param::Str(String::from_str("code")),
                    Param::Str(String::from_str("(set! *print-namespace-maps* false)")),
                );
                p
            },
            Request::Eval(mut p) => {
                p.insert(Param::Str(String::from_str("op")), Param::Str(String::from_str("eval")));
                p
            },
            Request::Interrupt(mut p) => {
                let caller_gave_id = p.get(
                    &Param::Str(String::from_str("interrupt-id")),
                ).is_some();
                p.insert(
                    Param::Str(String::from_str("op")),
                    Param::Str(String::from_str("interrupt")),
                );
                if !caller_gave_id {
                    p.insert(
                        Param::Str(String::from_str("interrupt-id")),
                        Param::Str(u64_to_string(cnt)),
                    );
                }
                p
            },
            Request::Exit => {
                let mut p = Params::new();
                p.insert(Param::Str(String::from_str("op")), Param::Str(String::from_str("close")));
                p
            },
        };
        assert(params@ == op_pairs(rv, cnt as nat));
        if !self.session_id.as_str().is_empty() {
            params.insert(
                Param::Str(String::from_str("session")),
                Param::Str(self.session_id.clone()),
            );
        }
        params.insert(Param::Str(String::from_str("id")), Param::Str(u64_to_string(cnt)));
        assert(params@ == framed_pairs(rv, self.session_id@, cnt as nat));
        let frame = frame_of_params(&params);
        let bytes = encode_frame(&frame);
        self.request_cnt = cnt + 1;
        bytes
    }
}

/// Removes every occurrence of the `#error ` marker, leftmost first,
/// as the throwable rendering carries it.
pub open spec fn strip_marker(s: Seq<char>) -> Seq<char>
    decreases s.len(),
{
    if s.len() >= 7 && s.subrange(0, 7) == "#error "@ {
        strip_marker(s.skip(7))
    } else if s.len() == 0 {
        s
    } else {
        seq![s[0]] + strip_marker(s.skip(1))
    }
}

/// Removes every `#error ` marker from a text.
pub fn strip_marker_string(s: &String) -> (r: String)
    ensures
        r@ == strip_marker(s@),
{
    proof {
        reveal_strlit("#error ");
    }
    let v = crate::strutil::chars_of(s.as_str());
    let n = v.len();
    let mut out: Vec<char> = Vec::new();
    let mut i: usize = 0;
    proof {
        if s@.len() >= 0 {
            assert(out@ + strip_marker(s@.skip(0)) =~= strip_marker(s@.skip(0)));
            assert(s@.skip(0) =~= s@);
        }
    }
    while i < n
        invariant
            i <= n,
            n == v@.len(),
            v@ == s@,
            strip_marker(s@) == out@ + strip_marker(s@.skip(i as int)),
        decreases n - i,
    {
        let ghost rest = s@.skip(i as int);
        let marker: bool = n - i >= 7 && v[i] == '#' && v[i + 1] == 'e' && v[i + 2] == 'r' && v[i
            + 3] == 'r' && v[i + 4] == 'o' && v[i + 5] == 'r' && v[i + 6] == ' ';
        proof {
            broadcast use vstd::string::group_string_axioms;

            reveal_strlit("#error ");
            assert(("#error "@).len() == 7);
            assert(rest.len() == n - i);
            if marker {
                assert forall|k: int| 0 <= k < 7 implies rest.subrange(0, 7)[k] == "#error "@[k]
                    by {
                    assert(rest.subrange(0, 7)[k] == s@[i + k]);
                }
                assert(rest.subrange(0, 7) =~= "#error "@);
                assert(rest.skip(7) =~= s@.skip(i + 7 as int));
            } else {
                if rest.len() >= 7 && rest.subrange(0, 7) == "#error "@ {
                    assert(("#error "@)[0] == '#');
                    assert(rest.subrange(0, 7)[0] == s@[i as int]);
                    assert(rest.subrange(0, 7)[1] == s@[i + 1 as int]);
                    assert(rest.subrange(0, 7)[2] == s@[i + 2 as int]);
                    assert(rest.subrange(0, 7)[3] == s@[i + 3 as int]);
                    assert(rest.subrange(0, 7)[4] == s@[i + 4 as int]);
                    assert(rest.subrange(0, 7)[5] == s@[i + 5 as int]);
                    assert(rest.subrange(0, 7)[6] == s@[i + 6 as int]);
                    assert(false);
                }
                assert(rest[0] == s@[i as int]);
                assert(rest.skip(1) =~= s@.skip(i + 1 as int));
            }
        }
        if marker {
            i = i + 7;
        } else {
            let ghost out_prev = out@;
            out.push(v[i]);
            proof {
                assert(out@ =~= out_prev + seq![s@[i as int]]);
                assert(out_prev + (seq![s@[i as int]] + strip_marker(s@.skip(i + 1 as int)))
                    =~= out@ + strip_marker(s@.skip(i + 1 as int)));
            }
            i = i + 1;
        }
    }
    proof {
        assert(s@.skip(n as int) =~= Seq::<char>::empty());
        assert(out@ + Seq::<char>::empty() =~= out@);
    }
    crate::strutil::string_from_chars(&out)
}

/// The trace text decoded from a throwable rendering: the marker is
/// stripped, the rest is parsed as an exception document, and its
/// trace frames are rendered.
pub open spec fn throwable_trace(t: Seq<char>) -> Seq<char> {
    match crate::repl::parsed_doc(vstd::utf8::encode_utf8(strip_marker(t))) {
        Some(doc) => crate::repl::doc_trace_text(doc, Seq::empty()),
        None => Seq::empty(),
    }
}

/// Looks a key up in a framed dictionary: the value of the first pair
/// whose key is exactly that byte string.
pub open spec fn dict_find(d: Seq<(FrameV, FrameV)>, key: Seq<u8>) -> Option<FrameV>
    decreases d.len(),
{
    if d.len() == 0 {
        None
    } else if d[0].0 == FrameV::Bytes(key) {
        Some(d[0].1)
    } else {
        dict_find(d.skip(1), key)
    }
}

proof fn lemma_dict_find_at(d: Seq<(FrameV, FrameV)>, key: Seq<u8>, i: int)
    requires
        0 <= i < d.len(),
        d[i].0 == FrameV::Bytes(key),
        forall|j: int| 0 <= j < i ==> (#[trigger] d[j]).0 != FrameV::Bytes(key),
    ensures
        dict_find(d, key) == Some(d[i].1),
    decreases i,
{
    if i > 0 {
        lemma_dict_find_at(d.skip(1), key, i - 1);
    }
}

proof fn lemma_dict_find_none(d: Seq<(FrameV, FrameV)>, key: Seq<u8>)
    requires
        forall|j: int| 0 <= j < d.len() ==> (#[trigger] d[j]).0 != FrameV::Bytes(key),
    ensures
        dict_find(d, key) is None,
    decreases d.len(),
{
    if d.len() > 0 {
        lemma_dict_find_none(d.skip(1), key);
    }
}

/// Whether a frame is exactly the byte string spelling `name`.
fn bytes_value_is(v: &FrameValue, name: &str) -> (r: bool)
    ensures
        r == (frame_view(*v) == FrameV::Bytes(name.spec_bytes())),
{
    match v {
        FrameValue::Bytes(b) => {
            let nb = name.as_bytes();
            if b.len() != nb.len() {
                assert(b@ != name.spec_bytes());
                false
            } else {
                let mut i: usize = 0;
                while i < b.len()
                    invariant
                        i <= b@.len(),
                        b@.len() == name.spec_bytes().len(),
                        nb@ == name.spec_bytes(),
                        frame_view(*v) == FrameV::Bytes(b@),
                        forall|k: int| 0 <= k < i ==> b@[k] == name.spec_bytes()[k],
                    decreases b@.len() - i,
                {
                    if b[i] != nb[i] {
                        assert(b@ != name.spec_bytes());
                        return false;
                    }
                    i = i + 1;
                }
                assert(b@ =~= name.spec_bytes());
                true
            }
        },
        _ => false,
    }
}

/// The value under a byte-string key in a framed dictionary, if any.
fn dict_get<'a>(d: &'a Vec<(FrameValue, FrameValue)>, name: &str) -> (r: Option<&'a FrameValue>)
    ensures
        match r {
            Some(v) => dict_find(pair_views(d@), name.spec_bytes()) == Some(frame_view(*v)),
            None => dict_find(pair_views(d@), name.spec_bytes()) is None,
        },
{
    proof {
        lemma_pair_views_index(d@);
    }
    let ghost key = name.spec_bytes();
    let ghost dv = pair_views(d@);
    let mut i: usize = 0;
    while i < d.len()
        invariant
            i <= d@.len(),
            key == name.spec_bytes(),
            dv == pair_views(d@),
            dv.len() == d@.len(),
            forall|j: int|
                0 <= j < d@.len() ==> dv[j] == (
                frame_view(#[trigger] d@[j].0),
                frame_view(d@[j].1),
            ),
            forall|j: int| 0 <= j < i ==> (#[trigger] dv[j]).0 != FrameV::Bytes(key),
        decreases d@.len() - i,
    {
        if bytes_value_is(&d[i].0, name) {
            proof {
                assert(dv[i as int] == (frame_view(d@[i as int].0), frame_view(d@[i as int].1)));
                lemma_dict_find_at(dv, key, i as int);
            }
            return Some(&d[i].1);
        }
        proof {
            assert(dv[i as int] == (frame_view(d@[i as int].0), frame_view(d@[i as int].1)));
        }
        i = i + 1;
    }
    proof {
        lemma_dict_find_none(dv, key);
    }
    None
}

/// A frame rendered for diagnostics: its own wire bytes as text,
/// when they are text.
pub open spec fn frame_diag_spec(v: FrameV) -> Seq<char> {
    match crate::edn_value::text_of(spec_encode_frame(v)) {
        Some(t) => t,
        None => Seq::empty(),
    }
}

/// Renders a frame for diagnostics.
fn frame_diag(v: &FrameValue) -> (r: String)
    ensures
        r@ == frame_diag_spec(frame_view(*v)),
{
    match crate::strutil::utf8_to_string(encode_frame(v)) {
        Some(t) => t,
        None => String::new(),
    }
}

/// The status tokens of a status list: its byte strings that hold
/// text, in order; other elements are passed over.
pub open spec fn status_tokens(l: Seq<FrameV>) -> Seq<Seq<char>>
    decreases l.len(),
{
    if l.len() == 0 {
        Seq::empty()
    } else {
        let rest = status_tokens(l.skip(1));
        match l[0] {
            FrameV::Bytes(b) => match crate::edn_value::text_of(b) {
                Some(t) => seq![t] + rest,
                None => rest,
            },
            _ => rest,
        }
    }
}

/// How one received frame is classified, by probing keys in fixed
/// priority order: new session id, error text, standard output,
/// exception markers, status list, then value with its namespace.
pub open spec fn classify_frame_spec(v: FrameV) -> Result<RespV, ErrV> {
    match v {
        FrameV::Dict(d) => classify_dict(d),
        _ => Err(ErrV::Error("Unexpected nREPL response: "@ + frame_diag_spec(v))),
    }
}

/// The classification of a dictionary frame.
pub open spec fn classify_dict(d: Seq<(FrameV, FrameV)>) -> Result<RespV, ErrV> {
    match dict_find(d, "new-session".spec_bytes()) {
        Some(FrameV::Bytes(b)) => match crate::edn_value::text_of(b) {
            Some(t) => Ok(RespV::NewSession(t)),
            None => Err(ErrV::Error("Invalid text in nREPL response"@)),
        },
        _ => match dict_find(d, "err".spec_bytes()) {
            Some(FrameV::Bytes(b)) => match crate::edn_value::text_of(b) {
                Some(t) => Ok(RespV::StdErr(t)),
                None => Err(ErrV::Error("Invalid text in nREPL response"@)),
            },
            _ => match dict_find(d, "out".spec_bytes()) {
                Some(FrameV::Bytes(b)) => match crate::edn_value::text_of(b) {
                    Some(t) => Ok(RespV::StdOut(t)),
                    None => Err(ErrV::Error("Invalid text in nREPL response"@)),
                },
                _ => match dict_find(d, "ex".spec_bytes()) {
                    Some(FrameV::Bytes(b)) => classify_exception(d, b),
                    _ => match dict_find(d, "status".spec_bytes()) {
                        Some(FrameV::List(l)) => Ok(RespV::Status(status_tokens(l))),
                        _ => match dict_find(d, "value".spec_bytes()) {
                            Some(FrameV::Bytes(vb)) => classify_value(d, vb),
                            _ => Err(
                                ErrV::Error(
                                    "Unsupported nREPL response: "@ + frame_diag_spec(
                                        FrameV::Dict(d),
                                    ),
                                ),
                            ),
                        },
                    },
                },
            },
        },
    }
}

/// An exception frame: when the throwable rendering is present its
/// decoded trace is emitted, else the bare exception text.
pub open spec fn classify_exception(d: Seq<(FrameV, FrameV)>, ex: Seq<u8>) -> Result<
    RespV,
    ErrV,
> {
    match dict_find(d, "nrepl.middleware.caught/throwable".spec_bytes()) {
        Some(FrameV::Bytes(tb)) => match crate::edn_value::text_of(tb) {
            Some(t) => Ok(RespV::Exception { trace: throwable_trace(t), message: Seq::empty() }),
            None => Err(ErrV::Error("Invalid text in nREPL response"@)),
        },
        _ => match crate::edn_value::text_of(ex) {
            Some(t) => Ok(RespV::Exception { trace: t, message: Seq::empty() }),
            None => Err(ErrV::Error("Invalid text in nREPL response"@)),
        },
    }
}

/// A value frame: well formed only together with its namespace.
pub open spec fn classify_value(d: Seq<(FrameV, FrameV)>, vb: Seq<u8>) -> Result<RespV, ErrV> {
    match dict_find(d, "ns".spec_bytes()) {
        Some(FrameV::Bytes(nsb)) => match (
            crate::edn_value::text_of(vb),
            crate::edn_value::text_of(nsb),
        ) {
            (Some(tv), Some(tn)) => Ok(
                RespV::Value { val: tv, ns: tn, ms: 0, form: Seq::empty() },
            ),
            _ => Err(ErrV::Error("Invalid text in nREPL response"@)),
        },
        _ => match crate::edn_value::text_of(vb) {
            Some(tv) => Err(ErrV::Error("Missing 'ns' in nREPL value-response: "@ + tv)),
            None => Err(ErrV::Error("Invalid text in nREPL response"@)),
        },
    }
}

/// Text from a framed byte string, or the fixed decode error.
fn frame_text(b: &Vec<u8>) -> (r: Result<String, ReplError>)
    ensures
        match crate::edn_value::text_of(b@) {
            Some(t) => r matches Ok(s) && s@ == t,
            None => r matches Err(e) && e@ == ErrV::Error("Invalid text in nREPL response"@),
        },
{
    match crate::strutil::utf8_to_string(vstd::slice::slice_to_vec(b.as_slice())) {
        Some(s) => Ok(s),
        None => Err(ReplError::Error(String::from_str("Invalid text in nREPL response"))),
    }
}

/// Collects the status tokens from `j` on into `out`.
fn collect_status(l: &Vec<FrameValue>, j: usize, out: &mut Vec<String>)
    requires
        j <= l@.len(),
    ensures
        final(out).deep_view() == old(out).deep_view() + status_tokens(
            crate::bencode::list_views(l@).skip(j as int),
        ),
    decreases l@.len() - j,
{
    proof {
        crate::bencode::lemma_list_views_index(l@);
    }
    if j < l.len() {
        let ghost lv = crate::bencode::list_views(l@);
        proof {
            assert(lv.skip(j as int)[0] == lv[j as int]);
            assert(lv.skip(j as int).skip(1) =~= lv.skip(j + 1 as int));
        }
        match &l[j] {
            FrameValue::Bytes(b) => {
                match crate::strutil::utf8_to_string(vstd::slice::slice_to_vec(b.as_slice())) {
                    Some(s) => {
                        let ghost prev = out.deep_view();
                        out.push(s);
                        proof {
                            assert(out.deep_view() =~= prev.push(s@));
                        }
                    },
                    None => {},
                }
            },
            _ => {},
        }
        collect_status(l, j + 1, out);
        assert(final(out).deep_view() =~= old(out).deep_view() + status_tokens(
            crate::bencode::list_views(l@).skip(j as int),
        ));
    } else {
        proof {
            assert(crate::bencode::list_views(l@).skip(j as int) =~= Seq::<FrameV>::empty());
        }
        assert(final(out).deep_view() =~= old(out).deep_view() + status_tokens(
            crate::bencode::list_views(l@).skip(j as int),
        ));
    }
}

/// Classifies one decoded frame as a response, following
/// `classify_frame_spec` exactly.
pub fn classify_frame(v: &FrameValue) -> (r: Result<Response, ReplError>)
    ensures
        crate::repl::response_matches(r, classify_frame_spec(frame_view(*v))),
{
    match v {
        FrameValue::Dict(d) => {
            match dict_get(d, "new-session") {
                Some(FrameValue::Bytes(b)) => match frame_text(b) {
                    Ok(s) => Ok(Response::NewSession(s)),
                    Err(e) => Err(e),
                },
                _ => match dict_get(d, "err") {
                    Some(FrameValue::Bytes(b)) => match frame_text(b) {
                        Ok(s) => Ok(Response::StdErr(s)),
                        Err(e) => Err(e),
                    },
                    _ => match dict_get(d, "out") {
                        Some(FrameValue::Bytes(b)) => match frame_text(b) {
                            Ok(s) => Ok(Response::StdOut(s)),
                            Err(e) => Err(e),
                        },
                        _ => match dict_get(d, "ex") {
                            Some(FrameValue::Bytes(exb)) => {
                                match dict_get(d, "nrepl.middleware.caught/throwable") {
                                    Some(FrameValue::Bytes(tb)) => match frame_text(tb) {
                                        Ok(s) => {
                                            let cleaned = strip_marker_string(&s);
                                            let parts = crate::repl::parse_exception(
                                                cleaned.as_str(),
                                            );
                                            proof {
                                                match crate::repl::parsed_doc(
                                                    vstd::utf8::encode_utf8(cleaned@),
                                                ) {
                                                    Some(doc) => {},
                                                    None => {
                                                        assert(parts.0@ =~= Seq::<char>::empty());
                                                    },
                                                }
                                            }
                                            Ok(Response::Exception(parts.0, String::new()))
                                        },
                                        Err(e) => Err(e),
                                    },
                                    _ => match frame_text(exb) {
                                        Ok(s) => Ok(Response::Exception(s, String::new())),
                                        Err(e) => Err(e),
                                    },
                                }
                            },
                            _ => match dict_get(d, "status") {
                                Some(FrameValue::List(l)) => {
                                    let mut toks: Vec<String> = Vec::new();
                                    collect_status(l, 0, &mut toks);
                                    proof {
                                        assert(crate::bencode::list_views(l@).skip(0)
                                            =~= crate::bencode::list_views(l@));
                                        assert(toks.deep_view() =~= status_tokens(
                                            crate::bencode::list_views(l@),
                                        ));
                                    }
                                    Ok(Response::Status(toks))
                                },
                                _ => match dict_get(d, "value") {
                                    Some(FrameValue::Bytes(vb)) => {
                                        match dict_get(d, "ns") {
                                            Some(FrameValue::Bytes(nsb)) => {
                                                match (frame_text(vb), frame_text(nsb)) {
                                                    (Ok(tv), Ok(tn)) => Ok(
                                                        Response::Value(tv, tn, 0, String::new()),
                                                    ),
                                                    (Err(e), _) => Err(e),
                                                    (_, Err(e)) => Err(e),
                                                }
                                            },
                                            _ => match frame_text(vb) {
                                                Ok(tv) => Err(
                                                    ReplError::Error(
                                                        String::from_str(
                                                            "Missing 'ns' in nREPL value-response: ",
                                                        ).concat(tv.as_str()),
                                                    ),
                                                ),
                                                Err(e) => Err(e),
                                            },
                                        }
                                    },
                                    _ => Err(
                                        ReplError::Error(
                                            String::from_str(
                                                "Unsupported nREPL response: ",
                                            ).concat(frame_diag(v).as_str()),
                                        ),
                                    ),
                                },
                            },
                        },
                    },
                },
            }
        },
        _ => Err(
            ReplError::Error(
                String::from_str("Unexpected nREPL response: ").concat(frame_diag(v).as_str()),
            ),
        ),
    }
}

/// The framed backend's receiver: the read half at the protocol
/// level. It holds the bytes read so far and hands out one decoded
/// response per complete frame; its copy of the session id is
/// recorded for diagnostics only.
pub struct NreplReceiver {
    pub session_id: String,
    pub buf: Vec<u8>,
    pub start: usize,
}

impl NreplReceiver {
    /// The bytes received and not yet consumed.
    pub open spec fn pending(&self) -> Seq<u8> {
        self.buf@.skip(self.start as int)
    }

    /// The consumed prefix never runs past the buffer.
    pub open spec fn wf(&self) -> bool {
        self.start <= self.buf@.len()
    }

    /// A fresh receiver with nothing buffered.
    pub fn new() -> (r: NreplReceiver)
        ensures
            r.wf(),
            r.session_id@.len() == 0,
            r.pending() == Seq::<u8>::empty(),
    {
        let r = NreplReceiver { session_id: String::new(), buf: Vec::new(), start: 0 };
        proof {
            assert(r.pending() =~= Seq::<u8>::empty());
        }
        r
    }

    /// Adds bytes read from the socket.
    pub fn feed(&mut self, chunk: &Vec<u8>)
        requires
            old(self).wf(),
        ensures
            final(self).wf(),
            final(self).session_id@ == old(self).session_id@,
            final(self).pending() == old(self).pending() + chunk@,
    {
        let ghost before = self.buf@;
        let mut k: usize = 0;
        while k < chunk.len()
            invariant
                k <= chunk@.len(),
                self.buf@ == before + chunk@.subrange(0, k as int),
                self.start == old(self).start,
                self.session_id == old(self).session_id,
                old(self).wf(),
            decreases chunk@.len() - k,
        {
            self.buf.push(chunk[k]);
            assert(self.buf@ =~= before + chunk@.subrange(0, k + 1 as int));
            k = k + 1;
        }
        proof {
            assert(chunk@.subrange(0, chunk@.len() as int) =~= chunk@);
            assert(final(self).pending() =~= old(self).pending() + chunk@);
        }
    }

    /// Takes one response out of the buffered bytes, if a whole frame
    /// is there: a complete frame is consumed and classified; a
    /// malformed frame is a decode error; at end of stream, an empty
    /// buffer is the orderly end and leftover bytes are an error.
    pub fn try_receive(&mut self, at_eof: bool) -> (r: Option<Result<Response, ReplError>>)
        requires
            old(self).wf(),
        ensures
            final(self).wf(),
            final(self).session_id@ == old(self).session_id@,
            match crate::bencode::spec_parse_frame(old(self).pending(), 0) {
                crate::bencode::SpecParse::Frame(v, p) => final(self).pending() == old(
                    self,
                ).pending().skip(p) && (match r {
                    Some(res) => crate::repl::response_matches(res, classify_frame_spec(v)),
                    None => false,
                }),
                crate::bencode::SpecParse::Incomplete => final(self).pending() == old(
                    self,
                ).pending() && (if at_eof {
                    match r {
                        Some(res) => if old(self).pending().len() == 0 {
                            crate::repl::response_matches(res, Ok(RespV::EndOfStream))
                        } else {
                            crate::repl::response_matches(
                                res,
                                Err(ErrV::Error("Connection closed mid-frame"@)),
                            )
                        },
                        None => false,
                    }
                } else {
                    r is None
                }),
                crate::bencode::SpecParse::Malformed => final(self).pending() == old(
                    self,
                ).pending() && (match r {
                    Some(res) => crate::repl::response_matches(
                        res,
                        Err(ErrV::Error("Malformed nREPL message"@)),
                    ),
                    None => false,
                }),
            },
    {
        let pending_bytes = self.pending_copy();
        let buflen: usize = self.buf.len();
        proof {
            crate::bencode::lemma_parse_frame_bounds(old(self).pending(), 0);
        }
        match crate::bencode::parse_frame(pending_bytes.as_slice(), 0) {
            crate::bencode::FrameParse::Frame(v, p) => {
                proof {
                    match crate::bencode::spec_parse_frame(old(self).pending(), 0) {
                        crate::bencode::SpecParse::Frame(vv, pp) => {
                            assert(p as int == pp);
                            assert(pp <= old(self).pending().len());
                            assert(old(self).pending().len() == self.buf@.len()
                                - self.start);
                            assert(self.start + pp <= buflen);
                        },
                        _ => {
                            assert(false);
                        },
                    }
                }
                self.start = self.start + p;
                proof {
                    assert(final(self).pending() =~= old(self).pending().skip(p as int));
                }
                Some(classify_frame(&v))
            },
            crate::bencode::FrameParse::Incomplete => {
                if at_eof {
                    if pending_bytes.len() == 0 {
                        Some(Ok(Response::EndOfStream))
                    } else {
                        Some(
                            Err(
                                ReplError::Error(
                                    String::from_str("Connection closed mid-frame"),
                                ),
                            ),
                        )
                    }
                } else {
                    None
                }
            },
            crate::bencode::FrameParse::Malformed => {
                Some(Err(ReplError::Error(String::from_str("Malformed nREPL message"))))
            },
        }
    }

    /// A copy of the pending bytes.
    fn pending_copy(&self) -> (r: Vec<u8>)
        requires
            self.wf(),
        ensures
            r@ == self.pending(),
    {
        let mut out: Vec<u8> = Vec::new();
        let mut k: usize = self.start;
        while k < self.buf.len()
            invariant
                self.start <= k <= self.buf@.len(),
                out@ == self.buf@.subrange(self.start as int, k as int),
            decreases self.buf@.len() - k,
        {
            out.push(self.buf[k]);
            assert(out@ =~= self.buf@.subrange(self.start as int, k + 1 as int));
            k = k + 1;
        }
        proof {
            assert(self.buf@.subrange(self.start as int, self.buf@.len() as int) =~= self.pending());
        }
        out
    }
}

impl crate::repl::ReplSender for NreplSender {
    open spec fn session_view(&self) -> Seq<char> {
        self.session_id@
    }

    open spec fn ready(&self) -> bool {
        self.counter() < u64::MAX
    }

    open spec fn wire_bytes(&self, req: ReqV) -> Seq<u8> {
        request_wire_bytes(framed_pairs(req, self.session_id@, self.counter()))
    }

    fn session_id(&self) -> (r: String) {
        NreplSender::session_id(self)
    }

    fn send(&mut self, req: Request) -> (r: Vec<u8>)
        ensures
            final(self).counter() == old(self).counter() + 1,
    {
        NreplSender::send(self, req)
    }
}

impl crate::repl::ReplReceiver for NreplReceiver {
    type Wire = FrameValue;

    open spec fn session_view(&self) -> Seq<char> {
        self.session_id@
    }

    open spec fn response_spec(&self, wire: FrameValue) -> Result<RespV, ErrV> {
        classify_frame_spec(frame_view(wire))
    }

    fn receive(&mut self, wire: FrameValue) -> (r: Result<Response, ReplError>) {
        classify_frame(&wire)
    }
}

/// Where the startup handshake stands.
pub enum HsPhase {
    /// The session-opening request is out; its reply is awaited.
    AwaitSession,
    /// The display-quirk toggle is out; its value reply is awaited.
    AwaitValue,
    /// The toggle's done-status reply is awaited.
    AwaitStatus,
    /// The handshake succeeded.
    Complete,
    /// The handshake failed; the connection must not be used.
    Failed,
}

/// What the caller must do next to move the handshake along.
#[derive(Debug)]
pub enum HandshakeStep {
    /// Read more bytes from the socket and feed them in.
    NeedMoreBytes,
    /// Write these bytes, then step again.
    Write(Vec<u8>),
    /// A response was consumed; step again.
    Advanced,
    /// The handshake is finished.
    Complete,
    /// The handshake is over and the connection must not be used.
    Fail(ReplError),
}

/// The framed backend's startup handshake: open a session, then
/// disable the display quirk and check its value/done answer. It owns
/// the sender and receiver until it completes, which is how both end
/// up carrying the session id the server assigned.
pub struct FramedHandshake {
    sender: NreplSender,
    receiver: NreplReceiver,
    phase: HsPhase,
}

/// Nothing observable about a handshake moved.
pub open spec fn hs_unchanged(pre: FramedHandshake, post: FramedHandshake) -> bool {
    &&& post.phase() == pre.phase()
    &&& post.pending() == pre.pending()
    &&& post.session() == pre.session()
    &&& post.counter() == pre.counter()
}

impl FramedHandshake {
    /// Which reply the handshake awaits.
    pub closed spec fn phase(&self) -> HsPhase {
        self.phase
    }

    /// The reply bytes received and not yet consumed.
    pub closed spec fn pending(&self) -> Seq<u8> {
        self.receiver.pending()
    }

    /// The session id taken from the server's session reply; empty
    /// until that reply is consumed.
    pub closed spec fn session(&self) -> Seq<char> {
        self.sender.session_id@
    }

    /// Requests sent so far (the opening request counts as the
    /// first).
    pub closed spec fn counter(&self) -> nat {
        self.sender.counter()
    }

    /// The handshake has succeeded.
    pub open spec fn complete(&self) -> bool {
        self.phase() is Complete
    }

    /// What each phase guarantees of the pair being built: past the
    /// session reply, sender and receiver carry the same non-empty
    /// server-assigned id and both startup requests are out.
    pub closed spec fn inv(&self) -> bool {
        &&& self.receiver.wf()
        &&& match self.phase {
            HsPhase::AwaitSession => self.sender.counter() == 1
                && self.sender.session_id@.len() == 0,
            HsPhase::AwaitValue | HsPhase::AwaitStatus | HsPhase::Complete => {
                &&& self.sender.session_id@ == self.receiver.session_id@
                &&& self.sender.session_id@.len() > 0
                &&& self.sender.counter() == 2
            },
            HsPhase::Failed => true,
        }
    }

    /// Starts the handshake: a fresh sender and receiver, and the
    /// session-opening request (the `clone` operation under request
    /// id zero) as the first bytes to write.
    pub fn new() -> (r: (FramedHandshake, Vec<u8>))
        ensures
            r.0.inv(),
            r.0.phase() is AwaitSession,
            r.0.pending() == Seq::<u8>::empty(),
            r.0.session() == Seq::<char>::empty(),
            r.0.counter() == 1,
            r.1@ == request_wire_bytes(framed_pairs(ReqV::NewSession, Seq::empty(), 0)),
    {
        let mut sender = NreplSender::new();
        let first = sender.send(Request::NewSession);
        proof {
            assert(sender.session_id@ =~= Seq::<char>::empty());
        }
        let hs = FramedHandshake {
            sender,
            receiver: NreplReceiver::new(),
            phase: HsPhase::AwaitSession,
        };
        (hs, first)
    }

    /// Adds bytes read from the socket: the buffered reply bytes grow
    /// by exactly the chunk, and nothing else moves.
    pub fn feed(&mut self, chunk: &Vec<u8>)
        requires
            old(self).inv(),
        ensures
            final(self).inv(),
            final(self).phase() == old(self).phase(),
            final(self).session() == old(self).session(),
            final(self).counter() == old(self).counter(),
            final(self).pending() == old(self).pending() + chunk@,
    {
        self.receiver.feed(chunk);
    }

    /// Consumes at most one buffered reply and moves the handshake
    /// along. In each awaiting phase: with no whole frame buffered the
    /// caller must read more; a malformed frame fails the handshake;
    /// a whole frame is consumed and must be, in order, a non-empty
    /// session id (answered by writing the display-quirk toggle under
    /// that session), a value, and a status carrying the done token —
    /// anything else fails the handshake.
    pub fn step(&mut self) -> (r: HandshakeStep)
        requires
            old(self).inv(),
        ensures
            final(self).inv(),
            ({
                let parsed = crate::bencode::spec_parse_frame(old(self).pending(), 0);
                match old(self).phase() {
                    HsPhase::AwaitSession => match parsed {
                        crate::bencode::SpecParse::Incomplete => r is NeedMoreBytes
                            && hs_unchanged(*old(self), *final(self)),
                        crate::bencode::SpecParse::Malformed => r is Fail && final(self).phase()
                            is Failed,
                        crate::bencode::SpecParse::Frame(v, p) => {
                            &&& final(self).pending() == old(self).pending().skip(p)
                            &&& match classify_frame_spec(v) {
                                Ok(RespV::NewSession(sid)) => if sid.len() == 0 {
                                    r is Fail && final(self).phase() is Failed
                                } else {
                                    &&& r matches HandshakeStep::Write(b) && b@
                                        == request_wire_bytes(
                                        framed_pairs(
                                            ReqV::DisableNamespaceMaps,
                                            sid,
                                            old(self).counter(),
                                        ),
                                    )
                                    &&& final(self).phase() is AwaitValue
                                    &&& final(self).session() == sid
                                    &&& final(self).counter() == old(self).counter() + 1
                                },
                                _ => r is Fail && final(self).phase() is Failed,
                            }
                        },
                    },
                    HsPhase::AwaitValue => match parsed {
                        crate::bencode::SpecParse::Incomplete => r is NeedMoreBytes
                            && hs_unchanged(*old(self), *final(self)),
                        crate::bencode::SpecParse::Malformed => r is Fail && final(self).phase()
                            is Failed,
                        crate::bencode::SpecParse::Frame(v, p) => {
                            &&& final(self).pending() == old(self).pending().skip(p)
                            &&& match classify_frame_spec(v) {
                                Ok(RespV::Value { val, ns, ms, form }) => {
                                    &&& r is Advanced
                                    &&& final(self).phase() is AwaitStatus
                                    &&& final(self).session() == old(self).session()
                                    &&& final(self).counter() == old(self).counter()
                                },
                                _ => r is Fail && final(self).phase() is Failed,
                            }
                        },
                    },
                    HsPhase::AwaitStatus => match parsed {
                        crate::bencode::SpecParse::Incomplete => r is NeedMoreBytes
                            && hs_unchanged(*old(self), *final(self)),
                        crate::bencode::SpecParse::Malformed => r is Fail && final(self).phase()
                            is Failed,
                        crate::bencode::SpecParse::Frame(v, p) => {
                            &&& final(self).pending() == old(self).pending().skip(p)
                            &&& match classify_frame_spec(v) {
                                Ok(RespV::Status(toks)) => if toks.contains("done"@) {
                                    &&& r is Complete
                                    &&& final(self).phase() is Complete
                                    &&& final(self).session() == old(self).session()
                                } else {
                                    r is Fail && final(self).phase() is Failed
                                },
                                _ => r is Fail && final(self).phase() is Failed,
                            }
                        },
                    },
                    HsPhase::Complete => r is Complete && hs_unchanged(
                        *old(self),
                        *final(self),
                    ),
                    HsPhase::Failed => r is Fail && hs_unchanged(*old(self), *final(self)),
                }
            }),
    {
        match self.phase {
            HsPhase::AwaitSession => {
                match self.receiver.try_receive(false) {
                    None => HandshakeStep::NeedMoreBytes,
                    Some(Ok(Response::NewSession(id))) => {
                        if id.as_str().is_empty() {
                            self.phase = HsPhase::Failed;
                            HandshakeStep::Fail(
                                ReplError::Error(String::from_str("Empty nREPL session id")),
                            )
                        } else {
                            self.sender.session_id = id.clone();
                            self.receiver.session_id = id;
                            let bytes = self.sender.send(Request::DisableNamespaceMaps);
                            self.phase = HsPhase::AwaitValue;
                            HandshakeStep::Write(bytes)
                        }
                    },
                    Some(Ok(_)) => {
                        self.phase = HsPhase::Failed;
                        HandshakeStep::Fail(
                            ReplError::Error(
                                String::from_str("Unexpected nREPL response for 'new session'"),
                            ),
                        )
                    },
                    Some(Err(e)) => {
                        self.phase = HsPhase::Failed;
                        HandshakeStep::Fail(e)
                    },
                }
            },
            HsPhase::AwaitValue => {
                match self.receiver.try_receive(false) {
                    None => HandshakeStep::NeedMoreBytes,
                    Some(Ok(Response::Value(_, _, _, _))) => {
                        self.phase = HsPhase::AwaitStatus;
                        HandshakeStep::Advanced
                    },
                    Some(Ok(_)) => {
                        self.phase = HsPhase::Failed;
                        HandshakeStep::Fail(
                            ReplError::Error(String::from_str("Failed to disable ns-maps")),
                        )
                    },
                    Some(Err(e)) => {
                        self.phase = HsPhase::Failed;
                        HandshakeStep::Fail(
                            ReplError::Error(String::from_str("Failed to disable ns-maps")),
                        )
                    },
                }
            },
            HsPhase::AwaitStatus => {
                match self.receiver.try_receive(false) {
                    None => HandshakeStep::NeedMoreBytes,
                    Some(Ok(Response::Status(v))) => {
                        if crate::repl::vec_contains_str(&v, &String::from_str("done")) {
                            self.phase = HsPhase::Complete;
                            HandshakeStep::Complete
                        } else {
                            self.phase = HsPhase::Failed;
                            HandshakeStep::Fail(
                                ReplError::Error(String::from_str("Unable to disable ns-maps")),
                            )
                        }
                    },
                    Some(Ok(_)) => {
                        self.phase = HsPhase::Failed;
                        HandshakeStep::Fail(
                            ReplError::Error(
                                String::from_str(
                                    "Unexpected response when trying to disable ns-maps",
                                ),
                            ),
                        )
                    },
                    Some(Err(e)) => {
                        self.phase = HsPhase::Failed;
                        HandshakeStep::Fail(ReplError::Error(e.to_message()))
                    },
                }
            },
            HsPhase::Complete => HandshakeStep::Complete,
            HsPhase::Failed => {
                HandshakeStep::Fail(ReplError::Error(String::from_str("Handshake failed")))
            },
        }
    }

    /// Hands out the sender/receiver pair. Both carry exactly the
    /// server-assigned session id the handshake consumed — identical,
    /// non-empty, never invented — and the sender's counter stands at
    /// two, so its next request carries the next id.
    pub fn finish(self) -> (r: (NreplSender, NreplReceiver))
        requires
            self.inv(),
            self.complete(),
        ensures
            r.0.session_id@ == self.session(),
            r.1.session_id@ == self.session(),
            r.0.session_id@ == r.1.session_id@,
            r.0.session_id@.len() > 0,
            r.0.counter() == 2,
            r.1.wf(),
            r.1.pending() == self.pending(),
    {
        (self.sender, self.receiver)
    }
}

/// The payload mapping of any send reads back exactly as specified:
/// the operation name under `op`, the fresh id under `id`, the session
/// id under `session` exactly when one is established, and every other
/// key just as the caller's payload had it.
pub proof fn lemma_framed_pairs_shape(req: ReqV, session: Seq<char>, cnt: nat, k: ParamV)
    ensures
        assoc_find(framed_pairs(req, session, cnt), ParamV::Str("id"@)) == Some(
            ParamV::Str(spec_dec_chars(cnt)),
        ),
        session.len() > 0 && k == ParamV::Str("session"@) && k != ParamV::Str("id"@) ==> assoc_find(
            framed_pairs(req, session, cnt),
            k,
        ) == Some(ParamV::Str(session)),
        session.len() == 0 && k != ParamV::Str("id"@) ==> assoc_find(
            framed_pairs(req, session, cnt),
            k,
        ) == assoc_find(op_pairs(req, cnt), k),
        k != ParamV::Str("id"@) && k != ParamV::Str("session"@) ==> assoc_find(
            framed_pairs(req, session, cnt),
            k,
        ) == assoc_find(op_pairs(req, cnt), k),
        assoc_find(op_pairs(req, cnt), ParamV::Str("op"@)) == Some(ParamV::Str(op_name(req))),
        forall|k2: ParamV|
            k2 != ParamV::Str("op"@) && k2 != ParamV::Str("code"@) && k2 != ParamV::Str(
                "interrupt-id"@,
            ) ==> #[trigger] assoc_find(op_pairs(req, cnt), k2) == assoc_find(
                payload_of(req),
                k2,
            ),
        req is Interrupt ==> assoc_find(
            framed_pairs(req, session, cnt),
            ParamV::Str("interrupt-id"@),
        ) == (if assoc_find(payload_of(req), ParamV::Str("interrupt-id"@)) is Some {
            assoc_find(payload_of(req), ParamV::Str("interrupt-id"@))
        } else {
            Some(ParamV::Str(spec_dec_chars(cnt)))
        }),
{
    let iid = ParamV::Str("interrupt-id"@);
    proof_strings_distinct();
    lemma_assoc_set_find(
        if session.len() > 0 {
            assoc_set(op_pairs(req, cnt), ParamV::Str("session"@), ParamV::Str(session))
        } else {
            op_pairs(req, cnt)
        },
        ParamV::Str("id"@),
        ParamV::Str(spec_dec_chars(cnt)),
        iid,
    );
    if session.len() > 0 {
        lemma_assoc_set_find(op_pairs(req, cnt), ParamV::Str("session"@), ParamV::Str(session), iid);
    }
    lemma_op_pairs_find(req, cnt, iid);
    let base = op_pairs(req, cnt);
    let with_session = if session.len() > 0 {
        assoc_set(base, ParamV::Str("session"@), ParamV::Str(session))
    } else {
        base
    };
    lemma_assoc_set_find(with_session, ParamV::Str("id"@), ParamV::Str(spec_dec_chars(cnt)), k);
    lemma_assoc_set_find(
        with_session,
        ParamV::Str("id"@),
        ParamV::Str(spec_dec_chars(cnt)),
        ParamV::Str("id"@),
    );
    if session.len() > 0 {
        lemma_assoc_set_find(base, ParamV::Str("session"@), ParamV::Str(session), k);
    }
    lemma_op_pairs_find(req, cnt, ParamV::Str("op"@));
    assert forall|k2: ParamV|
        k2 != ParamV::Str("op"@) && k2 != ParamV::Str("code"@) && k2 != ParamV::Str(
            "interrupt-id"@,
        ) implies #[trigger] assoc_find(op_pairs(req, cnt), k2) == assoc_find(
        payload_of(req),
        k2,
    ) by {
        lemma_op_pairs_find(req, cnt, k2);
    }
}

/// How the op-augmented payload reads back, key by key.
proof fn lemma_op_pairs_find(req: ReqV, cnt: nat, k: ParamV)
    ensures
        k == ParamV::Str("op"@) ==> assoc_find(op_pairs(req, cnt), k) == Some(
            ParamV::Str(op_name(req)),
        ),
        k != ParamV::Str("op"@) && k != ParamV::Str("code"@) && k != ParamV::Str("interrupt-id"@)
            ==> assoc_find(op_pairs(req, cnt), k) == assoc_find(payload_of(req), k),
        req is Interrupt && k == ParamV::Str("interrupt-id"@) ==> assoc_find(
            op_pairs(req, cnt),
            k,
        ) == (if assoc_find(payload_of(req), k) is Some {
            assoc_find(payload_of(req), k)
        } else {
            Some(ParamV::Str(spec_dec_chars(cnt)))
        }),
{
    match req {
        ReqV::NewSession => {
            lemma_assoc_set_find(Seq::empty(), ParamV::Str("op"@), ParamV::Str("clone"@), k);
        },
        ReqV::DisableNamespaceMaps => {
            let inner = assoc_set(Seq::empty(), ParamV::Str("op"@), ParamV::Str("eval"@));
            lemma_assoc_set_find(
                inner,
                ParamV::Str("code"@),
                ParamV::Str("(set! *print-namespace-maps* false)"@),
                k,
            );
            lemma_assoc_set_find(Seq::empty(), ParamV::Str("op"@), ParamV::Str("eval"@), k);
            proof_strings_distinct();
        },
        ReqV::Eval(p) => {
            lemma_assoc_set_find(p, ParamV::Str("op"@), ParamV::Str("eval"@), k);
        },
        ReqV::Interrupt(p) => {
            let iid = ParamV::Str("interrupt-id"@);
            let with_op = assoc_set(p, ParamV::Str("op"@), ParamV::Str("interrupt"@));
            lemma_assoc_set_find(p, ParamV::Str("op"@), ParamV::Str("interrupt"@), k);
            lemma_assoc_set_find(p, ParamV::Str("op"@), ParamV::Str("interrupt"@), iid);
            proof_strings_distinct();
            if assoc_find(p, iid) is Some {
            } else {
                lemma_assoc_set_find(with_op, iid, ParamV::Str(spec_dec_chars(cnt)), k);
                lemma_assoc_set_find(with_op, iid, ParamV::Str(spec_dec_chars(cnt)), iid);
            }
        },
        ReqV::Exit => {
            lemma_assoc_set_find(Seq::empty(), ParamV::Str("op"@), ParamV::Str("close"@), k);
        },
    }
}

/// The fixed bookkeeping key names are pairwise distinct.
proof fn proof_strings_distinct()
    ensures
        "op"@ != "code"@,
        "op"@ != "interrupt-id"@,
        "op"@ != "id"@,
        "op"@ != "session"@,
        "code"@ != "interrupt-id"@,
        "id"@ != "session"@,
        "id"@ != "code"@,
        "id"@ != "interrupt-id"@,
        "session"@ != "code"@,
        "session"@ != "interrupt-id"@,
{
    broadcast use vstd::string::group_string_axioms;

    reveal_strlit("op");
    reveal_strlit("code");
    reveal_strlit("interrupt-id");
    reveal_strlit("id");
    reveal_strlit("session");
    assert(("op"@).len() == 2);
    assert(("code"@).len() == 4);
    assert(("id"@).len() == 2);
    assert(("session"@).len() == 7);
    assert(("interrupt-id"@).len() == 12);
    assert(("op"@)[0] == 'o');
    assert(("id"@)[0] == 'i');
}

/// A parameter the wire can carry exactly: text always, an integer
/// when it fits the signed 64-bit range (the executable `Param` type
/// only ever builds these).
pub open spec fn param_wf(p: ParamV) -> bool {
    match p {
        ParamV::Str(s) => true,
        ParamV::Int(i) => i64::MIN <= i <= i64::MAX,
    }
}

/// Every parameter of the mapping is representable.
pub open spec fn params_representable(m: Seq<(ParamV, ParamV)>) -> bool {
    forall|i: int| 0 <= i < m.len() ==> param_wf((#[trigger] m[i]).0) && param_wf(m[i].1)
}

proof fn lemma_assoc_set_representable(m: Seq<(ParamV, ParamV)>, k: ParamV, v: ParamV)
    requires
        params_representable(m),
        param_wf(k),
        param_wf(v),
    ensures
        params_representable(assoc_set(m, k, v)),
    decreases m.len(),
{
    let r = assoc_set(m, k, v);
    if m.len() == 0 {
        assert(r == seq![(k, v)]);
        assert(forall|i: int| 0 <= i < r.len() ==> r[i] == (k, v));
    } else if m[0].0 == k {
        assert(r == seq![(k, v)] + m.skip(1));
        assert forall|i: int|
            0 <= i < r.len() implies param_wf((#[trigger] r[i]).0) && param_wf(r[i].1) by {
            if i > 0 {
                assert(r[i] == m.skip(1)[i - 1]);
                assert(m.skip(1)[i - 1] == m[i]);
            }
        }
    } else {
        assert(params_representable(m.skip(1))) by {
            assert(forall|i: int|
                0 <= i < m.skip(1).len() ==> (#[trigger] m.skip(1)[i]) == m[i + 1]);
        }
        lemma_assoc_set_representable(m.skip(1), k, v);
        assert(r == seq![m[0]] + assoc_set(m.skip(1), k, v));
        assert forall|i: int|
            0 <= i < r.len() implies param_wf((#[trigger] r[i]).0) && param_wf(r[i].1) by {
            if i > 0 {
                assert(r[i] == assoc_set(m.skip(1), k, v)[i - 1]);
            }
        }
    }
}

/// The bookkeeping keys only ever bind text, so a representable
/// payload stays representable through a send.
pub proof fn lemma_framed_pairs_representable(req: ReqV, session: Seq<char>, cnt: nat)
    requires
        params_representable(payload_of(req)),
    ensures
        params_representable(framed_pairs(req, session, cnt)),
{
    assert(params_representable(Seq::<(ParamV, ParamV)>::empty()));
    match req {
        ReqV::NewSession => {
            lemma_assoc_set_representable(
                Seq::empty(),
                ParamV::Str("op"@),
                ParamV::Str("clone"@),
            );
        },
        ReqV::DisableNamespaceMaps => {
            lemma_assoc_set_representable(
                Seq::empty(),
                ParamV::Str("op"@),
                ParamV::Str("eval"@),
            );
            lemma_assoc_set_representable(
                assoc_set(Seq::empty(), ParamV::Str("op"@), ParamV::Str("eval"@)),
                ParamV::Str("code"@),
                ParamV::Str("(set! *print-namespace-maps* false)"@),
            );
        },
        ReqV::Eval(p) => {
            lemma_assoc_set_representable(p, ParamV::Str("op"@), ParamV::Str("eval"@));
        },
        ReqV::Interrupt(p) => {
            lemma_assoc_set_representable(p, ParamV::Str("op"@), ParamV::Str("interrupt"@));
            if assoc_find(p, ParamV::Str("interrupt-id"@)) is Some {
            } else {
                lemma_assoc_set_representable(
                    assoc_set(p, ParamV::Str("op"@), ParamV::Str("interrupt"@)),
                    ParamV::Str("interrupt-id"@),
                    ParamV::Str(spec_dec_chars(cnt)),
                );
            }
        },
        ReqV::Exit => {
            lemma_assoc_set_representable(
                Seq::empty(),
                ParamV::Str("op"@),
                ParamV::Str("close"@),
            );
        },
    }
    let base = op_pairs(req, cnt);
    if session.len() > 0 {
        lemma_assoc_set_representable(base, ParamV::Str("session"@), ParamV::Str(session));
    }
    let with_session = if session.len() > 0 {
        assoc_set(base, ParamV::Str("session"@), ParamV::Str(session))
    } else {
        base
    };
    lemma_assoc_set_representable(
        with_session,
        ParamV::Str("id"@),
        ParamV::Str(spec_dec_chars(cnt)),
    );
}

proof fn lemma_params_frame_wf(m: Seq<(ParamV, ParamV)>)
    requires
        params_representable(m),
    ensures
        crate::bencode::frame_wf(FrameV::Dict(dict_of_params(m))),
{
    let d = dict_of_params(m);
    assert forall|i: int|
        0 <= i < d.len() implies crate::bencode::frame_wf((#[trigger] d[i]).0)
        && crate::bencode::frame_wf(d[i].1) by {
        assert(param_wf(m[i].0) && param_wf(m[i].1));
    }
}

/// Round trip of one whole send: the encoded output of any request,
/// decoded by the same framing rules, is exactly the dictionary whose
/// keys `lemma_framed_pairs_shape` describes — the operation name and
/// payload entries, one `id` key, and a `session` key exactly when a
/// session is established.
pub proof fn lemma_send_round_trip(req: ReqV, session: Seq<char>, cnt: nat, rest: Seq<u8>)
    requires
        params_representable(payload_of(req)),
    ensures
        ({
            let m = framed_pairs(req, session, cnt);
            crate::bencode::spec_parse_frame(request_wire_bytes(m) + rest, 0)
                == crate::bencode::SpecParse::Frame(
                FrameV::Dict(dict_of_params(m)),
                request_wire_bytes(m).len() as int,
            )
        }),
{
    let m = framed_pairs(req, session, cnt);
    lemma_framed_pairs_representable(req, session, cnt);
    lemma_params_frame_wf(m);
    crate::bencode::lemma_encode_parse_round_trip(FrameV::Dict(dict_of_params(m)), rest);
}

/// Disabling the display quirk twice sends the same payload mapping
/// both times, apart from the fresh request id: for every other key
/// the two sends agree.
pub proof fn lemma_disable_ns_maps_idempotent(session: Seq<char>, c1: nat, c2: nat, k: ParamV)
    requires
        k != ParamV::Str("id"@),
    ensures
        assoc_find(framed_pairs(ReqV::DisableNamespaceMaps, session, c1), k) == assoc_find(
            framed_pairs(ReqV::DisableNamespaceMaps, session, c2),
            k,
        ),
{
    lemma_framed_pairs_shape(ReqV::DisableNamespaceMaps, session, c1, k);
    lemma_framed_pairs_shape(ReqV::DisableNamespaceMaps, session, c2, k);
    if k == ParamV::Str("session"@) {
        proof_strings_distinct();
    }
}

} // verus!
