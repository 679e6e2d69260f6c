//! The protocol model shared by both backends: request payload parameters,
//! requests, responses, and the error taxonomy.

use vstd::prelude::*;
use vstd::string::StringSliceAdditionalSpecFns;

verus! {

/// Errors surfaced by the protocol layer: `Error` covers decode and
/// protocol faults, `Io` carries the rendered text of a socket failure
/// (the raw I/O error itself lives outside this crate).
#[derive(Debug, PartialEq)]
pub enum ReplError {
    Error(String),
    Io(String),
}

/// Ghost form of `ReplError`.
pub enum ErrV {
    Error(Seq<char>),
    Io(Seq<char>),
}

impl View for ReplError {
    type V = ErrV;

    open spec fn view(&self) -> ErrV {
        match self {
            ReplError::Error(s) => ErrV::Error(s@),
            ReplError::Io(s) => ErrV::Io(s@),
        }
    }
}

/// The rendered text of an error.
pub open spec fn message_view(e: ErrV) -> Seq<char> {
    match e {
        ErrV::Error(s) => "Repl Error: "@ + s + " "@,
        ErrV::Io(s) => "Repl Io: "@ + s,
    }
}

impl ReplError {
    /// The error as one line of text.
    pub fn to_message(&self) -> (r: String)
        ensures
            r@ == message_view(self@),
    {
        match self {
            ReplError::Error(s) => String::from_str("Repl Error: ").concat(s.as_str()).concat(
                " ",
            ),
            ReplError::Io(s) => String::from_str("Repl Io: ").concat(s.as_str()),
        }
    }
}

/// Whether some element of `v` is exactly the text `needle`.
pub fn vec_contains_str(v: &Vec<String>, needle: &String) -> (r: bool)
    ensures
        r == v.deep_view().contains(needle@),
{
    let mut i: usize = 0;
    while i < v.len()
        invariant
            i <= v@.len(),
            forall|j: int| 0 <= j < i ==> v.deep_view()[j] != needle@,
        decreases v@.len() - i,
    {
        if v[i] == *needle {
            assert(v.deep_view()[i as int] == needle@);
            return true;
        }
        assert(v.deep_view()[i as int] == v@[i as int]@);
        i = i + 1;
    }
    assert(!v.deep_view().contains(needle@));
    false
}

/// A scalar request-payload parameter: text or a 32-bit signed integer.
#[derive(Debug)]
pub enum Param {
    Str(String),
    Int(i32),
}

/// Ghost form of `Param`.
pub enum ParamV {
    Str(Seq<char>),
    Int(int),
}

impl View for Param {
    type V = ParamV;

    open spec fn view(&self) -> ParamV {
        match self {
            Param::Str(s) => ParamV::Str(s@),
            Param::Int(i) => ParamV::Int(*i as int),
        }
    }
}

impl PartialEq for Param {
    fn eq(&self, other: &Param) -> (r: bool) {
        match (self, other) {
            (Param::Str(a), Param::Str(b)) => *a == *b,
            (Param::Int(a), Param::Int(b)) => *a == *b,
            _ => false,
        }
    }
}

impl vstd::std_specs::cmp::PartialEqSpecImpl for Param {
    open spec fn obeys_eq_spec() -> bool {
        true
    }

    open spec fn eq_spec(&self, other: &Param) -> bool {
        self@ == other@
    }
}

/// Looks a key up in an association list: the value of the first pair
/// whose key matches, if any.
pub open spec fn assoc_find(m: Seq<(ParamV, ParamV)>, k: ParamV) -> Option<ParamV>
    decreases m.len(),
{
    if m.len() == 0 {
        None
    } else if m[0].0 == k {
        Some(m[0].1)
    } else {
        assoc_find(m.skip(1), k)
    }
}

/// Binds a key in an association list: replaces the value of the first
/// pair whose key matches, in place, or appends a new pair at the end.
pub open spec fn assoc_set(m: Seq<(ParamV, ParamV)>, k: ParamV, v: ParamV) -> Seq<
    (ParamV, ParamV),
>
    decreases m.len(),
{
    if m.len() == 0 {
        seq![(k, v)]
    } else if m[0].0 == k {
        seq![(k, v)] + m.skip(1)
    } else {
        seq![m[0]] + assoc_set(m.skip(1), k, v)
    }
}

proof fn lemma_assoc_find_at(m: Seq<(ParamV, ParamV)>, k: ParamV, i: int)
    requires
        0 <= i < m.len(),
        m[i].0 == k,
        forall|j: int| 0 <= j < i ==> m[j].0 != k,
    ensures
        assoc_find(m, k) == Some(m[i].1),
    decreases i,
{
    if i > 0 {
        lemma_assoc_find_at(m.skip(1), k, i - 1);
    }
}

proof fn lemma_assoc_find_none(m: Seq<(ParamV, ParamV)>, k: ParamV)
    requires
        forall|j: int| 0 <= j < m.len() ==> m[j].0 != k,
    ensures
        assoc_find(m, k) is None,
    decreases m.len(),
{
    if m.len() > 0 {
        lemma_assoc_find_none(m.skip(1), k);
    }
}

proof fn lemma_assoc_set_at(m: Seq<(ParamV, ParamV)>, k: ParamV, v: ParamV, i: int)
    requires
        0 <= i < m.len(),
        m[i].0 == k,
        forall|j: int| 0 <= j < i ==> m[j].0 != k,
    ensures
        assoc_set(m, k, v) =~= m.update(i, (k, v)),
    decreases i,
{
    if i == 0 {
        assert(assoc_set(m, k, v) =~= m.update(0, (k, v)));
    } else {
        lemma_assoc_set_at(m.skip(1), k, v, i - 1);
        assert(assoc_set(m, k, v) =~= m.update(i, (k, v)));
    }
}

proof fn lemma_assoc_set_append(m: Seq<(ParamV, ParamV)>, k: ParamV, v: ParamV)
    requires
        forall|j: int| 0 <= j < m.len() ==> m[j].0 != k,
    ensures
        assoc_set(m, k, v) =~= m.push((k, v)),
    decreases m.len(),
{
    if m.len() > 0 {
        lemma_assoc_set_append(m.skip(1), k, v);
        assert(assoc_set(m, k, v) =~= m.push((k, v)));
    }
}

/// How binding a key reads back: the bound key gets the new value,
/// every other key is untouched.
pub proof fn lemma_assoc_set_find(m: Seq<(ParamV, ParamV)>, k: ParamV, v: ParamV, k2: ParamV)
    ensures
        assoc_find(assoc_set(m, k, v), k2) == if k2 == k {
            Some(v)
        } else {
            assoc_find(m, k2)
        },
    decreases m.len(),
{
    let r = assoc_set(m, k, v);
    if m.len() == 0 {
        assert(r == seq![(k, v)]);
        assert(r[0] == (k, v));
        assert(r.len() == 1);
        assert(r.skip(1) =~= Seq::<(ParamV, ParamV)>::empty());
        if k2 == k {
            assert(assoc_find(r, k2) == Some(v));
        } else {
            assert(assoc_find(r, k2) == assoc_find(r.skip(1), k2));
            assert(assoc_find(r, k2) is None);
            assert(assoc_find(m, k2) is None);
        }
    } else if m[0].0 == k {
        assert(r == seq![(k, v)] + m.skip(1));
        assert(r[0] == (k, v));
        assert(r.len() == 1 + m.skip(1).len());
        assert(r.skip(1) =~= m.skip(1));
        if k2 == k {
            assert(assoc_find(r, k2) == Some(v));
        } else {
            assert(assoc_find(r, k2) == assoc_find(m.skip(1), k2));
            assert(assoc_find(m, k2) == assoc_find(m.skip(1), k2));
        }
    } else {
        lemma_assoc_set_find(m.skip(1), k, v, k2);
        assert(r == seq![m[0]] + assoc_set(m.skip(1), k, v));
        assert(r[0] == m[0]);
        assert(r.len() == 1 + assoc_set(m.skip(1), k, v).len());
        assert(r.skip(1) =~= assoc_set(m.skip(1), k, v));
        if k2 == m[0].0 {
            assert(assoc_find(r, k2) == Some(m[0].1));
            assert(assoc_find(m, k2) == Some(m[0].1));
        } else {
            assert(assoc_find(r, k2) == assoc_find(assoc_set(m.skip(1), k, v), k2));
            assert(assoc_find(m, k2) == assoc_find(m.skip(1), k2));
        }
    }
}

/// A request payload mapping: an ordered list of key/value pairs in
/// which every key occurs at most once (binding a key again replaces
/// the value in place, as a hash map would, but keeps the order in
/// which keys first appeared, which fixes the encoded byte layout).
#[derive(Debug, PartialEq)]
pub struct Params {
    pairs: Vec<(Param, Param)>,
}

impl View for Params {
    type V = Seq<(ParamV, ParamV)>;

    closed spec fn view(&self) -> Seq<(ParamV, ParamV)> {
        Seq::new(self.pairs@.len(), |i: int| (self.pairs@[i].0@, self.pairs@[i].1@))
    }
}

impl Params {
    /// No binding hides another: keys are pairwise distinct.
    pub open spec fn wf(&self) -> bool {
        forall|i: int, j: int|
            0 <= i < j < self@.len() ==> (#[trigger] self@[i]).0 != (#[trigger] self@[j]).0
    }

    /// The empty mapping.
    pub fn new() -> (r: Params)
        ensures
            r@ =~= Seq::<(ParamV, ParamV)>::empty(),
            r.wf(),
    {
        Params { pairs: Vec::new() }
    }

    pub fn len(&self) -> (n: usize)
        ensures
            n == self@.len(),
    {
        self.pairs.len()
    }

    /// Index of the first pair bound to `k`, if any.
    fn position_of(&self, k: &Param) -> (r: Option<usize>)
        ensures
            match r {
                Some(i) => i < self@.len() && self@[i as int].0 == k@ && (forall|j: int|
                    0 <= j < i ==> self@[j].0 != k@),
                None => forall|j: int| 0 <= j < self@.len() ==> self@[j].0 != k@,
            },
    {
        let mut i: usize = 0;
        while i < self.pairs.len()
            invariant
                i <= self@.len(),
                self@.len() == self.pairs@.len(),
                forall|j: int| 0 <= j < i ==> self@[j].0 != k@,
            decreases self@.len() - i,
        {
            if self.pairs[i].0 == *k {
                return Some(i);
            }
            i = i + 1;
        }
        None
    }

    /// Binds `k` to `v`: replaces the first binding of `k` in place, or
    /// appends a new pair.
    pub fn insert(&mut self, k: Param, v: Param)
        ensures
            final(self)@ == assoc_set(old(self)@, k@, v@),
            old(self).wf() ==> final(self).wf(),
    {
        let ghost m = self@;
        let ghost kv = k@;
        let ghost vv = v@;
        match self.position_of(&k) {
            Some(i) => {
                proof {
                    lemma_assoc_set_at(m, kv, vv, i as int);
                }
                self.pairs.set(i, (k, v));
                assert(self@ =~= m.update(i as int, (kv, vv)));
            },
            None => {
                proof {
                    lemma_assoc_set_append(m, kv, vv);
                }
                self.pairs.push((k, v));
                assert(self@ =~= m.push((kv, vv)));
            },
        }
    }

    /// The pair at position `i`.
    pub fn pair_at(&self, i: usize) -> (r: (&Param, &Param))
        requires
            i < self@.len(),
        ensures
            r.0@ == self@[i as int].0,
            r.1@ == self@[i as int].1,
    {
        (&self.pairs[i].0, &self.pairs[i].1)
    }

    /// The value bound to `k`, if any.
    pub fn get(&self, k: &Param) -> (r: Option<&Param>)
        ensures
            match r {
                Some(p) => assoc_find(self@, k@) == Some(p@),
                None => assoc_find(self@, k@) is None,
            },
    {
        match self.position_of(k) {
            Some(i) => {
                proof {
                    lemma_assoc_find_at(self@, k@, i as int);
                }
                Some(&self.pairs[i].1)
            },
            None => {
                proof {
                    lemma_assoc_find_none(self@, k@);
                }
                None
            },
        }
    }
}

/// A host-issued command in the shared protocol vocabulary.
#[derive(Debug, PartialEq)]
pub enum Request {
    Eval(Params),
    Interrupt(Params),
    NewSession,
    DisableNamespaceMaps,
    Exit,
}

/// Ghost form of `Request`.
pub enum ReqV {
    Eval(Seq<(ParamV, ParamV)>),
    Interrupt(Seq<(ParamV, ParamV)>),
    NewSession,
    DisableNamespaceMaps,
    Exit,
}

impl View for Request {
    type V = ReqV;

    open spec fn view(&self) -> ReqV {
        match self {
            Request::Eval(p) => ReqV::Eval(p@),
            Request::Interrupt(p) => ReqV::Interrupt(p@),
            Request::NewSession => ReqV::NewSession,
            Request::DisableNamespaceMaps => ReqV::DisableNamespaceMaps,
            Request::Exit => ReqV::Exit,
        }
    }
}

/// One decoded server message.
#[derive(Debug, PartialEq)]
pub enum Response {
    /// An evaluation result: value text, namespace, elapsed milliseconds,
    /// source form.
    Value(String, String, usize, String),
    /// Server-emitted error output.
    StdErr(String),
    /// Server-emitted standard output.
    StdOut(String),
    /// A decoded exception: rendered trace, then message text.
    Exception(String, String),
    /// Lifecycle status tokens, matched by exact membership.
    Status(Vec<String>),
    /// The session id assigned by the server.
    NewSession(String),
    /// The socket closed in an orderly way.
    EndOfStream,
    /// A well-formed message this protocol layer does not interpret.
    Other(String),
}

/// Ghost form of `Response`.
pub enum RespV {
    Value { val: Seq<char>, ns: Seq<char>, ms: int, form: Seq<char> },
    StdErr(Seq<char>),
    StdOut(Seq<char>),
    Exception { trace: Seq<char>, message: Seq<char> },
    Status(Seq<Seq<char>>),
    NewSession(Seq<char>),
    EndOfStream,
    Other(Seq<char>),
}

impl View for Response {
    type V = RespV;

    open spec fn view(&self) -> RespV {
        match self {
            Response::Value(val, ns, ms, form) => (RespV::Value {
                val: val@,
                ns: ns@,
                ms: *ms as int,
                form: form@,
            }),
            Response::StdErr(s) => RespV::StdErr(s@),
            Response::StdOut(s) => RespV::StdOut(s@),
            Response::Exception(trace, message) => (RespV::Exception {
                trace: trace@,
                message: message@,
            }),
            Response::Status(v) => RespV::Status(v.deep_view()),
            Response::NewSession(s) => RespV::NewSession(s@),
            Response::EndOfStream => RespV::EndOfStream,
            Response::Other(s) => RespV::Other(s@),
        }
    }
}

/// The capability of a backend's sending half: it owns the session
/// id and turns each request into the bytes one message puts on the
/// wire.
pub trait ReplSender: Sized {
    /// The session id outgoing requests carry.
    spec fn session_view(&self) -> Seq<char>;

    /// Whether another request may still be sent.
    spec fn ready(&self) -> bool;

    /// The bytes one request puts on the wire from this state.
    spec fn wire_bytes(&self, req: ReqV) -> Seq<u8>;

    /// The session id, as text.
    fn session_id(&self) -> (r: String)
        ensures
            r@ == self.session_view(),
    ;

    /// Encodes one request as the message bytes to write; the session
    /// id is unchanged by sending.
    fn send(&mut self, req: Request) -> (r: Vec<u8>)
        requires
            old(self).ready(),
        ensures
            r@ == old(self).wire_bytes(req@),
            final(self).session_view() == old(self).session_view(),
    ;
}

/// The capability of a backend's receiving half: it decodes one wire
/// unit (a frame, or a line) into one response.
pub trait ReplReceiver: Sized {
    /// What one wire unit is for this dialect.
    type Wire;

    /// The receiver's record of the session id.
    spec fn session_view(&self) -> Seq<char>;

    /// The response a wire unit decodes to from this state.
    spec fn response_spec(&self, wire: Self::Wire) -> Result<RespV, ErrV>;

    /// Decodes one wire unit; the recorded session id is unchanged.
    fn receive(&mut self, wire: Self::Wire) -> (r: Result<Response, ReplError>)
        ensures
            response_matches(r, old(self).response_spec(wire)),
            final(self).session_view() == old(self).session_view(),
    ;
}

/// Whitespace for trimming rendered trace lines: the characters the
/// host language's trim removes (the Unicode white-space set).
pub open spec fn is_ws_char(c: char) -> bool {
    ('\u{9}' <= c <= '\u{d}') || c == ' ' || c == '\u{85}' || c == '\u{a0}' || c == '\u{1680}'
        || ('\u{2000}' <= c <= '\u{200a}') || c == '\u{2028}' || c == '\u{2029}' || c
        == '\u{202f}' || c == '\u{205f}' || c == '\u{3000}'
}

/// Drops leading whitespace.
pub open spec fn trim_start(s: Seq<char>) -> Seq<char>
    decreases s.len(),
{
    if s.len() > 0 && is_ws_char(s[0]) {
        trim_start(s.skip(1))
    } else {
        s
    }
}

/// Drops trailing whitespace.
pub open spec fn trim_end(s: Seq<char>) -> Seq<char>
    decreases s.len(),
{
    if s.len() > 0 && is_ws_char(s[s.len() - 1]) {
        trim_end(s.take(s.len() - 1))
    } else {
        s
    }
}

/// Drops whitespace from both ends.
pub open spec fn spec_trim(s: Seq<char>) -> Seq<char> {
    trim_end(trim_start(s))
}

proof fn lemma_trim_start_at(s: Seq<char>, a: int)
    requires
        0 <= a <= s.len(),
        forall|k: int| 0 <= k < a ==> is_ws_char(#[trigger] s[k]),
        a < s.len() ==> !is_ws_char(s[a]),
    ensures
        trim_start(s) =~= s.skip(a),
    decreases a,
{
    if a > 0 {
        lemma_trim_start_at(s.skip(1), a - 1);
        assert(s.skip(1).skip(a - 1) =~= s.skip(a));
    } else {
        if s.len() > 0 {
            assert(!is_ws_char(s[0]));
        }
        assert(s.skip(0) =~= s);
    }
}

proof fn lemma_trim_end_at(s: Seq<char>, b: int)
    requires
        0 <= b <= s.len(),
        forall|k: int| b <= k < s.len() ==> is_ws_char(#[trigger] s[k]),
        b > 0 ==> !is_ws_char(s[b - 1]),
    ensures
        trim_end(s) =~= s.take(b),
    decreases s.len() - b,
{
    if b < s.len() {
        lemma_trim_end_at(s.take(s.len() - 1), b);
        assert(s.take(s.len() - 1).take(b) =~= s.take(b));
    } else {
        assert(s.take(s.len() as int) =~= s);
    }
}

/// Trims whitespace from both ends of a text.
pub fn trim_string(s: &String) -> (r: String)
    ensures
        r@ == spec_trim(s@),
{
    let v = crate::strutil::chars_of(s.as_str());
    let n = v.len();
    let mut a: usize = 0;
    while a < n && is_ws(v[a])
        invariant
            a <= n,
            n == v@.len(),
            v@ == s@,
            forall|k: int| 0 <= k < a ==> is_ws_char(#[trigger] v@[k]),
        decreases n - a,
    {
        a = a + 1;
    }
    proof {
        lemma_trim_start_at(s@, a as int);
    }
    let mut b: usize = n;
    while b > a && is_ws(v[b - 1])
        invariant
            a <= b <= n,
            n == v@.len(),
            v@ == s@,
            forall|k: int| b <= k < n ==> is_ws_char(#[trigger] v@[k]),
        decreases b,
    {
        b = b - 1;
    }
    let mut mid: Vec<char> = Vec::new();
    let mut i: usize = a;
    while i < b
        invariant
            a <= i <= b <= n,
            n == v@.len(),
            mid@ == v@.subrange(a as int, i as int),
        decreases b - i,
    {
        mid.push(v[i]);
        assert(mid@ =~= v@.subrange(a as int, i + 1 as int));
        i = i + 1;
    }
    proof {
        let x = s@.skip(a as int);
        lemma_trim_end_at(x, b - a as int);
        assert(x.take(b - a as int) =~= s@.subrange(a as int, b as int));
    }
    crate::strutil::string_from_chars(&mid)
}

/// Whitespace test for one character.
fn is_ws(c: char) -> (r: bool)
    ensures
        r == is_ws_char(c),
{
    ('\u{9}' <= c && c <= '\u{d}') || c == ' ' || c == '\u{85}' || c == '\u{a0}' || c
        == '\u{1680}' || ('\u{2000}' <= c && c <= '\u{200a}') || c == '\u{2028}' || c
        == '\u{2029}' || c == '\u{202f}' || c == '\u{205f}' || c == '\u{3000}'
}

/// The executable outcome agrees with the specified one.
pub open spec fn response_matches(r: Result<Response, ReplError>, s: Result<RespV, ErrV>) -> bool {
    match (r, s) {
        (Ok(resp), Ok(rv)) => resp@ == rv,
        (Err(e), Err(ev)) => e@ == ev,
        _ => false,
    }
}

/// Looks a key up in a structured-text map: the value of the last
/// matching pair, as a sorted map built by repeated insertion would
/// hold it.
pub open spec fn edn_map_find(
    m: Seq<(crate::edn_value::EdnV, crate::edn_value::EdnV)>,
    k: crate::edn_value::EdnV,
) -> Option<crate::edn_value::EdnV>
    decreases m.len(),
{
    if m.len() == 0 {
        None
    } else if m[m.len() - 1].0 == k {
        Some(m[m.len() - 1].1)
    } else {
        edn_map_find(m.drop_last(), k)
    }
}

proof fn lemma_edn_map_find_at(
    m: Seq<(crate::edn_value::EdnV, crate::edn_value::EdnV)>,
    k: crate::edn_value::EdnV,
    i: int,
)
    requires
        0 <= i < m.len(),
        m[i].0 == k,
        forall|j: int| i < j < m.len() ==> (#[trigger] m[j]).0 != k,
    ensures
        edn_map_find(m, k) == Some(m[i].1),
    decreases m.len(),
{
    if i < m.len() - 1 {
        lemma_edn_map_find_at(m.drop_last(), k, i);
    }
}

proof fn lemma_edn_map_find_none(
    m: Seq<(crate::edn_value::EdnV, crate::edn_value::EdnV)>,
    k: crate::edn_value::EdnV,
)
    requires
        forall|j: int| 0 <= j < m.len() ==> (#[trigger] m[j]).0 != k,
    ensures
        edn_map_find(m, k) is None,
    decreases m.len(),
{
    if m.len() > 0 {
        lemma_edn_map_find_none(m.drop_last(), k);
    }
}

/// The value under a keyword key in a structured-text map, if any.
pub(crate) fn map_find_keyword<'a>(
    m: &'a Vec<(crate::edn_value::EdnValue, crate::edn_value::EdnValue)>,
    name: &String,
) -> (r: Option<&'a crate::edn_value::EdnValue>)
    ensures
        match r {
            Some(v) => edn_map_find(
                crate::edn_value::edn_pair_views(m@),
                crate::edn_value::EdnV::Keyword(name@),
            ) == Some(crate::edn_value::edn_view(*v)),
            None => edn_map_find(
                crate::edn_value::edn_pair_views(m@),
                crate::edn_value::EdnV::Keyword(name@),
            ) is None,
        },
{
    proof {
        crate::edn_value::lemma_edn_pair_views_index(m@);
    }
    let ghost key = crate::edn_value::EdnV::Keyword(name@);
    let ghost mv = crate::edn_value::edn_pair_views(m@);
    let mut i: usize = m.len();
    while i > 0
        invariant
            i <= m@.len(),
            key == crate::edn_value::EdnV::Keyword(name@),
            mv == crate::edn_value::edn_pair_views(m@),
            mv.len() == m@.len(),
            forall|j: int|
                0 <= j < m@.len() ==> mv[j] == (
                crate::edn_value::edn_view(#[trigger] m@[j].0),
                crate::edn_value::edn_view(m@[j].1),
            ),
            forall|j: int| i <= j < mv.len() ==> (#[trigger] mv[j]).0 != key,
        decreases i,
    {
        i = i - 1;
        let hit = keyword_matches(&m[i].0, name);
        if hit {
            proof {
                assert(mv[i as int] == (
                    crate::edn_value::edn_view(m@[i as int].0),
                    crate::edn_value::edn_view(m@[i as int].1),
                ));
                assert(mv[i as int].0 == key);
                lemma_edn_map_find_at(mv, key, i as int);
            }
            return Some(&m[i].1);
        }
        proof {
            assert(mv[i as int] == (
                crate::edn_value::edn_view(m@[i as int].0),
                crate::edn_value::edn_view(m@[i as int].1),
            ));
            assert(mv[i as int].0 != key);
        }
    }
    proof {
        lemma_edn_map_find_none(mv, key);
    }
    None
}

/// Whether a value is exactly the keyword named `name`.
fn keyword_matches(v: &crate::edn_value::EdnValue, name: &String) -> (r: bool)
    ensures
        r == (crate::edn_value::edn_view(*v) == crate::edn_value::EdnV::Keyword(name@)),
{
    match v {
        crate::edn_value::EdnValue::Keyword(s) => *s == *name,
        _ => false,
    }
}

/// The decimal rendering of a signed number.
pub open spec fn spec_dec_int_chars(i: int) -> Seq<char> {
    if i < 0 {
        seq!['-'] + crate::strutil::spec_dec_chars((-i) as nat)
    } else {
        crate::strutil::spec_dec_chars(i as nat)
    }
}

/// Renders `i` in decimal.
pub fn i64_to_string(i: i64) -> (r: String)
    ensures
        r@ == spec_dec_int_chars(i as int),
{
    if i < 0 {
        let magnitude: u64 = ((-(i + 1)) as u64) + 1;
        assert(magnitude as int == -(i as int));
        let r = String::from_str("-").concat(crate::strutil::u64_to_string(magnitude).as_str());
        proof {
            reveal_strlit("-");
            assert(r@ =~= spec_dec_int_chars(i as int));
        }
        r
    } else {
        crate::strutil::u64_to_string(i as u64)
    }
}

/// How one trace token is rendered: symbols, strings and integers get
/// a trailing space; anything else adds nothing.
pub open spec fn token_text(t: crate::edn_value::EdnV) -> Seq<char> {
    match t {
        crate::edn_value::EdnV::Sym(s) => s + seq![' '],
        crate::edn_value::EdnV::Str(s) => s + seq![' '],
        crate::edn_value::EdnV::Int(i) => spec_dec_int_chars(i) + seq![' '],
        _ => Seq::empty(),
    }
}

/// The concatenated renderings of one frame's tokens.
pub open spec fn frame_tokens(toks: Seq<crate::edn_value::EdnV>) -> Seq<char>
    decreases toks.len(),
{
    if toks.len() == 0 {
        Seq::empty()
    } else {
        token_text(toks[0]) + frame_tokens(toks.skip(1))
    }
}

/// How the trace accumulates: each frame that is a sequence appends
/// its tokens, and the whole text so far is trimmed and given a final
/// newline; other frames change nothing.
pub open spec fn trace_frames(frames: Seq<crate::edn_value::EdnV>, acc: Seq<char>) -> Seq<char>
    decreases frames.len(),
{
    if frames.len() == 0 {
        acc
    } else {
        match frames[0] {
            crate::edn_value::EdnV::Vector(toks) => trace_frames(
                frames.skip(1),
                spec_trim(acc + frame_tokens(toks)).push('\n'),
            ),
            _ => trace_frames(frames.skip(1), acc),
        }
    }
}

/// One cause map's contribution: its message and a newline, if it has
/// one.
pub open spec fn via_item_text(e: crate::edn_value::EdnV) -> Seq<char> {
    match e {
        crate::edn_value::EdnV::MapLit(mm) => match edn_map_find(
            mm,
            crate::edn_value::EdnV::Keyword("message"@),
        ) {
            Some(crate::edn_value::EdnV::Str(s)) => s.push('\n'),
            _ => Seq::empty(),
        },
        _ => Seq::empty(),
    }
}

/// The newline-joined messages of the cause chain.
pub open spec fn via_messages(items: Seq<crate::edn_value::EdnV>) -> Seq<char>
    decreases items.len(),
{
    if items.len() == 0 {
        Seq::empty()
    } else {
        via_item_text(items[0]) + via_messages(items.skip(1))
    }
}

/// The message block of an exception document: the `via` entries'
/// messages, when the document is a map with a `via` sequence.
pub open spec fn doc_via_text(doc: crate::edn_value::EdnV) -> Seq<char> {
    match doc {
        crate::edn_value::EdnV::MapLit(m) => match edn_map_find(
            m,
            crate::edn_value::EdnV::Keyword("via"@),
        ) {
            Some(crate::edn_value::EdnV::Vector(v)) => via_messages(v),
            _ => Seq::empty(),
        },
        _ => Seq::empty(),
    }
}

/// The trace block of an exception document, accumulated on top of
/// `init`: the rendered `trace` frames, when the document is a map
/// with a `trace` sequence.
pub open spec fn doc_trace_text(doc: crate::edn_value::EdnV, init: Seq<char>) -> Seq<char> {
    match doc {
        crate::edn_value::EdnV::MapLit(m) => match edn_map_find(
            m,
            crate::edn_value::EdnV::Keyword("trace"@),
        ) {
            Some(crate::edn_value::EdnV::Vector(v)) => trace_frames(v, init),
            _ => init,
        },
        _ => init,
    }
}

/// The document written at the head of `bytes`, if it parses.
pub open spec fn parsed_doc(bytes: Seq<u8>) -> Option<crate::edn_value::EdnV> {
    match crate::edn_value::spec_edn_value(bytes, 0) {
        crate::edn_value::EdnParse::Val(v, e) => Some(v),
        crate::edn_value::EdnParse::Fail => None,
    }
}

/// Appends the rendering of one token to `out`.
fn push_token_text(t: &crate::edn_value::EdnValue, out: &mut String)
    ensures
        final(out)@ == old(out)@ + token_text(crate::edn_value::edn_view(*t)),
{
    match t {
        crate::edn_value::EdnValue::Sym(s) => {
            out.append(s.as_str());
            out.append(" ");
            proof {
                reveal_strlit(" ");
                assert(final(out)@ =~= old(out)@ + token_text(crate::edn_value::edn_view(*t)));
            }
        },
        crate::edn_value::EdnValue::Str(s) => {
            out.append(s.as_str());
            out.append(" ");
            proof {
                reveal_strlit(" ");
                assert(final(out)@ =~= old(out)@ + token_text(crate::edn_value::edn_view(*t)));
            }
        },
        crate::edn_value::EdnValue::Int(i) => {
            out.append(i64_to_string(*i).as_str());
            out.append(" ");
            proof {
                reveal_strlit(" ");
                assert(final(out)@ =~= old(out)@ + token_text(crate::edn_value::edn_view(*t)));
            }
        },
        _ => {
            assert(final(out)@ =~= old(out)@ + token_text(crate::edn_value::edn_view(*t)));
        },
    }
}

/// Appends the renderings of the tokens from `j` on to `out`.
fn push_frame_tokens(toks: &Vec<crate::edn_value::EdnValue>, j: usize, out: &mut String)
    requires
        j <= toks@.len(),
    ensures
        final(out)@ == old(out)@ + frame_tokens(
            crate::edn_value::edn_views(toks@).skip(j as int),
        ),
    decreases toks@.len() - j,
{
    proof {
        crate::edn_value::lemma_edn_views_index(toks@);
    }
    if j < toks.len() {
        push_token_text(&toks[j], out);
        push_frame_tokens(toks, j + 1, out);
        proof {
            let tv = crate::edn_value::edn_views(toks@);
            assert(tv.skip(j as int)[0] == tv[j as int]);
            assert(tv.skip(j as int).skip(1) =~= tv.skip(j + 1 as int));
            assert(final(out)@ =~= old(out)@ + frame_tokens(tv.skip(j as int)));
        }
    } else {
        proof {
            assert(crate::edn_value::edn_views(toks@).skip(j as int) =~= Seq::<
                crate::edn_value::EdnV,
            >::empty());
        }
        assert(final(out)@ =~= old(out)@ + frame_tokens(
            crate::edn_value::edn_views(toks@).skip(j as int),
        ));
    }
}

/// Renders the trace frames from `j` on, on top of `acc`.
pub(crate) fn render_trace_frames(frames: &Vec<crate::edn_value::EdnValue>, j: usize, acc: String) -> (r:
    String)
    requires
        j <= frames@.len(),
    ensures
        r@ == trace_frames(crate::edn_value::edn_views(frames@).skip(j as int), acc@),
    decreases frames@.len() - j,
{
    proof {
        crate::edn_value::lemma_edn_views_index(frames@);
    }
    if j < frames.len() {
        let ghost fv = crate::edn_value::edn_views(frames@);
        proof {
            assert(fv.skip(j as int)[0] == fv[j as int]);
            assert(fv.skip(j as int).skip(1) =~= fv.skip(j + 1 as int));
        }
        match &frames[j] {
            crate::edn_value::EdnValue::Vector(toks) => {
                let mut line = acc;
                push_frame_tokens(toks, 0, &mut line);
                proof {
                    assert(crate::edn_value::edn_views(toks@).skip(0) =~= crate::edn_value::edn_views(toks@));
                }
                let mut trimmed = trim_string(&line);
                trimmed.push('\n');
                render_trace_frames(frames, j + 1, trimmed)
            },
            _ => {
                render_trace_frames(frames, j + 1, acc)
            },
        }
    } else {
        proof {
            assert(crate::edn_value::edn_views(frames@).skip(j as int) =~= Seq::<
                crate::edn_value::EdnV,
            >::empty());
        }
        acc
    }
}

/// Appends the cause messages from `j` on to `out`.
pub(crate) fn push_via_messages(items: &Vec<crate::edn_value::EdnValue>, j: usize, out: &mut String)
    requires
        j <= items@.len(),
    ensures
        final(out)@ == old(out)@ + via_messages(
            crate::edn_value::edn_views(items@).skip(j as int),
        ),
    decreases items@.len() - j,
{
    proof {
        crate::edn_value::lemma_edn_views_index(items@);
    }
    if j < items.len() {
        let ghost iv = crate::edn_value::edn_views(items@);
        proof {
            assert(iv.skip(j as int)[0] == iv[j as int]);
            assert(iv.skip(j as int).skip(1) =~= iv.skip(j + 1 as int));
        }
        match &items[j] {
            crate::edn_value::EdnValue::MapLit(mm) => {
                match map_find_keyword(mm, &String::from_str("message")) {
                    Some(crate::edn_value::EdnValue::Str(s)) => {
                        out.append(s.as_str());
                        out.append("\n");
                        proof {
                            reveal_strlit("\n");
                            assert(old(out)@ + (s@.push('\n')) =~= old(out)@ + s@ + "\n"@);
                        }
                    },
                    _ => {},
                }
            },
            _ => {},
        }
        push_via_messages(items, j + 1, out);
        assert(final(out)@ =~= old(out)@ + via_messages(
            crate::edn_value::edn_views(items@).skip(j as int),
        ));
    } else {
        proof {
            assert(crate::edn_value::edn_views(items@).skip(j as int) =~= Seq::<
                crate::edn_value::EdnV,
            >::empty());
        }
        assert(final(out)@ =~= old(out)@ + via_messages(
            crate::edn_value::edn_views(items@).skip(j as int),
        ));
    }
}

/// Decodes a structured-text exception document: the rendered trace
/// frames, and the newline-joined cause messages. Text that does not
/// parse, or a document that is not a map, yields empty parts.
pub fn parse_exception(edn_s: &str) -> (r: (String, String))
    ensures
        ({
            match parsed_doc(edn_s.spec_bytes()) {
                Some(doc) => r.0@ == doc_trace_text(doc, Seq::empty()) && r.1@ == doc_via_text(
                    doc,
                ),
                None => r.0@.len() == 0 && r.1@.len() == 0,
            }
        }),
{
    let bytes = edn_s.as_bytes();
    match crate::edn_value::parse_edn_value(bytes, 0) {
        crate::edn_value::EdnParsed::Val(doc, _) => {
            let mut errmsg = String::new();
            let mut trace = String::new();
            match &doc {
                crate::edn_value::EdnValue::MapLit(m) => {
                    match map_find_keyword(m, &String::from_str("via")) {
                        Some(crate::edn_value::EdnValue::Vector(v)) => {
                            push_via_messages(v, 0, &mut errmsg);
                            proof {
                                assert(crate::edn_value::edn_views(v@).skip(0)
                                    =~= crate::edn_value::edn_views(v@));
                                assert(errmsg@ =~= via_messages(crate::edn_value::edn_views(v@)));
                            }
                        },
                        _ => {},
                    }
                    match map_find_keyword(m, &String::from_str("trace")) {
                        Some(crate::edn_value::EdnValue::Vector(v)) => {
                            trace = render_trace_frames(v, 0, trace);
                            proof {
                                assert(crate::edn_value::edn_views(v@).skip(0)
                                    =~= crate::edn_value::edn_views(v@));
                            }
                        },
                        _ => {},
                    }
                },
                _ => {},
            }
            (trace, errmsg)
        },
        crate::edn_value::EdnParsed::Fail => (String::new(), String::new()),
    }
}

} // verus!
