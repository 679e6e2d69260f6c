//! The line dialect's structured-text values: the tagged maps the
//! server emits, and the nested exception documents inside them.
//!
//! The grammar is defined by `spec_edn_value`; the executable parser is
//! proved to follow it exactly. Malformed text is a parse failure, never
//! a panic.

use vstd::prelude::*;
use crate::bencode::{is_digit_byte, digits_end, digits_val};

verus! {

/// One structured-text value.
#[derive(Debug, PartialEq)]
pub enum EdnValue {
    Nil,
    Bool(bool),
    Int(i64),
    /// A numeric literal with a fractional part, kept as written.
    FloatLit(String),
    Str(String),
    Sym(String),
    Keyword(String),
    /// A character literal, kept as the name written after the
    /// backslash.
    CharLit(String),
    List(Vec<EdnValue>),
    Vector(Vec<EdnValue>),
    SetLit(Vec<EdnValue>),
    MapLit(Vec<(EdnValue, EdnValue)>),
    Tagged(String, Box<EdnValue>),
}

/// Ghost form of `EdnValue`.
pub enum EdnV {
    Nil,
    Bool(bool),
    Int(int),
    FloatLit(Seq<char>),
    Str(Seq<char>),
    Sym(Seq<char>),
    Keyword(Seq<char>),
    CharLit(Seq<char>),
    List(Seq<EdnV>),
    Vector(Seq<EdnV>),
    SetLit(Seq<EdnV>),
    MapLit(Seq<(EdnV, EdnV)>),
    Tagged(Seq<char>, Box<EdnV>),
}

/// Ghost form of one executable value.
pub open spec fn edn_view(v: EdnValue) -> EdnV
    decreases v, 1int,
{
    match v {
        EdnValue::Nil => EdnV::Nil,
        EdnValue::Bool(b) => EdnV::Bool(b),
        EdnValue::Int(i) => EdnV::Int(i as int),
        EdnValue::FloatLit(s) => EdnV::FloatLit(s@),
        EdnValue::Str(s) => EdnV::Str(s@),
        EdnValue::Sym(s) => EdnV::Sym(s@),
        EdnValue::Keyword(s) => EdnV::Keyword(s@),
        EdnValue::CharLit(s) => EdnV::CharLit(s@),
        EdnValue::List(l) => EdnV::List(edn_views(l@)),
        EdnValue::Vector(l) => EdnV::Vector(edn_views(l@)),
        EdnValue::SetLit(l) => EdnV::SetLit(edn_views(l@)),
        EdnValue::MapLit(m) => EdnV::MapLit(edn_pair_views(m@)),
        EdnValue::Tagged(t, b) => EdnV::Tagged(t@, Box::new(edn_view(*b))),
    }
}

/// Ghost forms of a sequence of executable values.
pub open spec fn edn_views(l: Seq<EdnValue>) -> Seq<EdnV>
    decreases l, 0int,
{
    if l.len() == 0 {
        Seq::empty()
    } else {
        seq![edn_view(l[0])] + edn_views(l.skip(1))
    }
}

/// Ghost forms of a sequence of executable pairs.
pub open spec fn edn_pair_views(m: Seq<(EdnValue, EdnValue)>) -> Seq<(EdnV, EdnV)>
    decreases m, 0int,
{
    if m.len() == 0 {
        Seq::empty()
    } else {
        seq![(edn_view(m[0].0), edn_view(m[0].1))] + edn_pair_views(m.skip(1))
    }
}

impl View for EdnValue {
    type V = EdnV;

    open spec fn view(&self) -> EdnV {
        edn_view(*self)
    }
}

/// `edn_views` read pointwise.
pub broadcast proof fn lemma_edn_views_index(l: Seq<EdnValue>)
    ensures
        (#[trigger] edn_views(l)).len() == l.len(),
        forall|i: int| 0 <= i < l.len() ==> edn_views(l)[i] == edn_view(l[i]),
    decreases l.len(),
{
    if l.len() > 0 {
        lemma_edn_views_index(l.skip(1));
    }
}

/// `edn_pair_views` read pointwise.
pub broadcast proof fn lemma_edn_pair_views_index(m: Seq<(EdnValue, EdnValue)>)
    ensures
        (#[trigger] edn_pair_views(m)).len() == m.len(),
        forall|i: int|
            0 <= i < m.len() ==> edn_pair_views(m)[i] == (edn_view(m[i].0), edn_view(m[i].1)),
    decreases m.len(),
{
    if m.len() > 0 {
        lemma_edn_pair_views_index(m.skip(1));
    }
}

/// Bytes skipped between values: ASCII whitespace and commas.
pub open spec fn is_ws_byte(b: u8) -> bool {
    b == 32 || (9 <= b <= 13) || b == 44
}

/// The first head character of a symbol.
pub open spec fn is_sym_head(b: u8) -> bool {
    (97 <= b <= 122)  // a-z
     || (65 <= b <= 90)  // A-Z
     || b == 46 || b == 42 || b == 43 || b == 33 || b == 45 || b == 95  // . * + ! - _
     || b == 63 || b == 36 || b == 37 || b == 38 || b == 61 || b == 60 || b == 62  // ? $ % & = < >
}

/// A later character of a symbol.
pub open spec fn is_sym_tail(b: u8) -> bool {
    is_sym_head(b) || is_digit_byte(b) || b == 58 || b == 35 || b == 47  // : # /
}

/// The end of the run of skipped bytes starting at `pos`.
pub open spec fn ws_end(s: Seq<u8>, pos: int) -> int
    decreases s.len() - pos,
{
    if 0 <= pos < s.len() && is_ws_byte(s[pos]) {
        ws_end(s, pos + 1)
    } else {
        pos
    }
}

/// The end of the run of symbol characters starting at `pos`.
pub open spec fn sym_end(s: Seq<u8>, pos: int) -> int
    decreases s.len() - pos,
{
    if 0 <= pos < s.len() && is_sym_tail(s[pos]) {
        sym_end(s, pos + 1)
    } else {
        pos
    }
}

/// The end of the run of non-whitespace bytes starting at `pos`
/// (commas do not stop it).
pub open spec fn nonws_end(s: Seq<u8>, pos: int) -> int
    decreases s.len() - pos,
{
    if 0 <= pos < s.len() && !(s[pos] == 32 || (9 <= s[pos] <= 13)) {
        nonws_end(s, pos + 1)
    } else {
        pos
    }
}

/// Outcome of scanning a quoted string body: the content bytes with
/// escapes resolved, and the position just past the closing quote.
pub enum StrScan {
    Done(Seq<u8>, int),
    Fail,
}

/// Scans a quoted string body starting just after the opening quote.
pub open spec fn scan_string(s: Seq<u8>, pos: int) -> StrScan
    decreases s.len() - pos,
{
    if !(0 <= pos < s.len()) {
        StrScan::Fail
    } else if s[pos] == 34 {
        StrScan::Done(Seq::empty(), pos + 1)
    } else if s[pos] == 92 {
        if pos + 1 < s.len() {
            let c = s[pos + 1];
            let unescaped: u8 = if c == 116 {
                9
            } else if c == 114 {
                13
            } else if c == 110 {
                10
            } else if c == 92 {
                92
            } else {
                34
            };
            if c == 116 || c == 114 || c == 110 || c == 92 || c == 34 {
                match scan_string(s, pos + 2) {
                    StrScan::Done(b, e) => StrScan::Done(seq![unescaped] + b, e),
                    StrScan::Fail => StrScan::Fail,
                }
            } else {
                StrScan::Fail
            }
        } else {
            StrScan::Fail
        }
    } else {
        match scan_string(s, pos + 1) {
            StrScan::Done(b, e) => StrScan::Done(seq![s[pos]] + b, e),
            StrScan::Fail => StrScan::Fail,
        }
    }
}

/// Text decoded from bytes, or nothing when they are not UTF-8.
pub open spec fn text_of(b: Seq<u8>) -> Option<Seq<char>> {
    if vstd::utf8::valid_utf8(b) {
        Some(vstd::utf8::decode_utf8(b))
    } else {
        None
    }
}

/// Outcome of parsing one value.
pub enum EdnParse {
    Val(EdnV, int),
    Fail,
}

/// Outcome of parsing the elements of a bracketed form.
pub enum EdnSeqParse {
    Done(Seq<EdnV>, int),
    Fail,
}

/// Pairs consecutive elements of a map body; fails on an odd count.
pub open spec fn pair_up(items: Seq<EdnV>) -> Option<Seq<(EdnV, EdnV)>>
    decreases items.len(),
{
    if items.len() == 0 {
        Some(Seq::empty())
    } else if items.len() == 1 {
        None
    } else {
        match pair_up(items.skip(2)) {
            Some(rest) => Some(seq![(items[0], items[1])] + rest),
            None => None,
        }
    }
}

/// The signed-64-bit integer denoted by a digit run, or a failure when
/// it does not fit.
pub open spec fn int_of_digits(s: Seq<u8>, from: int, to: int, neg: bool) -> EdnParse {
    let val = if neg {
        -digits_val(s, from, to)
    } else {
        digits_val(s, from, to)
    };
    if val < i64::MIN || val > i64::MAX {
        EdnParse::Fail
    } else {
        EdnParse::Val(EdnV::Int(val), to)
    }
}

/// Parses a number starting at its first digit `q`; `start` is where
/// the written literal begins (at a sign, if any).
pub open spec fn spec_edn_number(s: Seq<u8>, start: int, q: int, neg: bool) -> EdnParse {
    let e = digits_end(s, q);
    if e < s.len() && s[e] == 46 {
        let f = digits_end(s, e + 1);
        match text_of(s.subrange(start, f)) {
            Some(t) => EdnParse::Val(EdnV::FloatLit(t), f),
            None => EdnParse::Fail,
        }
    } else {
        int_of_digits(s, q, e, neg)
    }
}

/// The word forms: the two booleans, nil, and every other symbol.
pub open spec fn word_value(t: Seq<char>) -> EdnV {
    if t == "true"@ {
        EdnV::Bool(true)
    } else if t == "false"@ {
        EdnV::Bool(false)
    } else if t == "nil"@ {
        EdnV::Nil
    } else {
        EdnV::Sym(t)
    }
}

/// A character-literal name: one of the four written names, or any
/// single character.
pub open spec fn char_name_ok(t: Seq<char>) -> bool {
    t == "newline"@ || t == "return"@ || t == "space"@ || t == "tab"@ || t.len() == 1
}

/// Parses one value at `pos`, after skipping whitespace and commas.
pub open spec fn spec_edn_value(s: Seq<u8>, pos: int) -> EdnParse
    decreases s.len() - pos, 2int,
{
    let p = ws_end(s, pos);
    if !(pos <= p <= s.len()) {
        EdnParse::Fail
    } else if p == s.len() {
        EdnParse::Fail
    } else {
        let b = s[p];
        if is_digit_byte(b) {
            spec_edn_number(s, p, p, false)
        } else if b == 43 || b == 45 {
            // + -
            let q = p + 1;
            if q < s.len() && is_digit_byte(s[q]) {
                spec_edn_number(s, if b == 43 {
                    q
                } else {
                    p
                }, q, b == 45)
            } else if q < s.len() && is_sym_tail(s[q]) {
                let e = sym_end(s, q);
                match text_of(s.subrange(p, e)) {
                    Some(t) => EdnParse::Val(EdnV::Sym(t), e),
                    None => EdnParse::Fail,
                }
            } else if q == s.len() || s[q] == 32 || s[q] == 9 || s[q] == 10 {
                EdnParse::Val(EdnV::Sym(seq![b as char]), q)
            } else {
                EdnParse::Fail
            }
        } else if b == 46 {
            // .
            let q = p + 1;
            if q < s.len() && is_digit_byte(s[q]) {
                let f = digits_end(s, q);
                match text_of(s.subrange(p, f)) {
                    Some(t) => EdnParse::Val(EdnV::FloatLit(t), f),
                    None => EdnParse::Fail,
                }
            } else {
                let e = sym_end(s, q);
                match text_of(s.subrange(p, e)) {
                    Some(t) => EdnParse::Val(EdnV::Sym(t), e),
                    None => EdnParse::Fail,
                }
            }
        } else if b == 92 {
            // a character literal
            let e = nonws_end(s, p + 1);
            match text_of(s.subrange(p + 1, e)) {
                Some(t) => if char_name_ok(t) {
                    EdnParse::Val(EdnV::CharLit(t), e)
                } else {
                    EdnParse::Fail
                },
                None => EdnParse::Fail,
            }
        } else if b == 34 {
            // a quoted string
            match scan_string(s, p + 1) {
                StrScan::Done(bytes, e) => match text_of(bytes) {
                    Some(t) => EdnParse::Val(EdnV::Str(t), e),
                    None => EdnParse::Fail,
                },
                StrScan::Fail => EdnParse::Fail,
            }
        } else if b == 58 {
            // a keyword
            let e = sym_end(s, p + 1);
            match text_of(s.subrange(p + 1, e)) {
                Some(t) => EdnParse::Val(EdnV::Keyword(t), e),
                None => EdnParse::Fail,
            }
        } else if b == 40 {
            // ( ... )
            match spec_edn_seq(s, p + 1, 41) {
                EdnSeqParse::Done(l, e) => EdnParse::Val(EdnV::List(l), e),
                EdnSeqParse::Fail => EdnParse::Fail,
            }
        } else if b == 91 {
            // [ ... ]
            match spec_edn_seq(s, p + 1, 93) {
                EdnSeqParse::Done(l, e) => EdnParse::Val(EdnV::Vector(l), e),
                EdnSeqParse::Fail => EdnParse::Fail,
            }
        } else if b == 123 {
            // { ... }
            match spec_edn_seq(s, p + 1, 125) {
                EdnSeqParse::Done(l, e) => match pair_up(l) {
                    Some(m) => EdnParse::Val(EdnV::MapLit(m), e),
                    None => EdnParse::Fail,
                },
                EdnSeqParse::Fail => EdnParse::Fail,
            }
        } else if b == 35 {
            // # ...
            let q = p + 1;
            if q < s.len() && s[q] == 123 {
                match spec_edn_seq(s, q + 1, 125) {
                    EdnSeqParse::Done(l, e) => EdnParse::Val(EdnV::SetLit(l), e),
                    EdnSeqParse::Fail => EdnParse::Fail,
                }
            } else if q < s.len() && is_sym_head(s[q]) {
                let e = sym_end(s, q + 1);
                if !(q < e <= s.len()) {
                    EdnParse::Fail
                } else {
                    match text_of(s.subrange(q, e)) {
                        Some(t) => match spec_edn_value(s, e) {
                            EdnParse::Val(v, e2) => EdnParse::Val(
                                EdnV::Tagged(t, Box::new(v)),
                                e2,
                            ),
                            EdnParse::Fail => EdnParse::Fail,
                        },
                        None => EdnParse::Fail,
                    }
                }
            } else {
                EdnParse::Fail
            }
        } else if is_sym_head(b) {
            // a bare word
            let e = sym_end(s, p + 1);
            match text_of(s.subrange(p, e)) {
                Some(t) => EdnParse::Val(word_value(t), e),
                None => EdnParse::Fail,
            }
        } else if b == 47 {
            // the bare division symbol
            EdnParse::Val(EdnV::Sym(seq!['/']), p + 1)
        } else {
            EdnParse::Fail
        }
    }
}

/// Parses the elements of a bracketed form until the closing byte.
pub open spec fn spec_edn_seq(s: Seq<u8>, pos: int, close: u8) -> EdnSeqParse
    decreases s.len() - pos, 3int,
{
    let p = ws_end(s, pos);
    if !(pos <= p <= s.len()) {
        EdnSeqParse::Fail
    } else if p == s.len() {
        EdnSeqParse::Fail
    } else if s[p] == close {
        EdnSeqParse::Done(Seq::empty(), p + 1)
    } else {
        match spec_edn_value(s, p) {
            EdnParse::Val(v, e) => if !(p < e <= s.len()) {
                EdnSeqParse::Fail
            } else {
                match spec_edn_seq(s, e, close) {
                    EdnSeqParse::Done(l, e2) => EdnSeqParse::Done(seq![v] + l, e2),
                    EdnSeqParse::Fail => EdnSeqParse::Fail,
                }
            },
            EdnParse::Fail => EdnSeqParse::Fail,
        }
    }
}

/// A digit run keeps its value when a leading zero is dropped.
proof fn lemma_strip_leading_zero(s: Seq<u8>, q: int, e: int)
    requires
        0 <= q < e <= s.len(),
        s[q] == 48,
    ensures
        digits_val(s, q, e) == digits_val(s, q + 1, e),
    decreases e - q,
{
    if e == q + 1 {
        assert(digits_val(s, q, e) == digits_val(s, q, q) * 10 + (s[q] - 48));
    } else {
        lemma_strip_leading_zero(s, q, e - 1);
        assert(digits_val(s, q, e) == digits_val(s, q, e - 1) * 10 + (s[e - 1] - 48));
        assert(digits_val(s, q + 1, e) == digits_val(s, q + 1, e - 1) * 10 + (s[e - 1] - 48));
    }
}

/// Executable outcome of parsing one value.
#[derive(Debug, PartialEq)]
pub enum EdnParsed {
    Val(EdnValue, usize),
    Fail,
}

/// Executable outcome of parsing a bracketed form's elements.
enum EdnSeqParsed {
    Done(Vec<EdnValue>, usize),
    Fail,
}

/// The executable outcome agrees with the specified one.
pub open spec fn edn_parse_matches(r: EdnParsed, sp: EdnParse) -> bool {
    match (r, sp) {
        (EdnParsed::Val(v, p), EdnParse::Val(vv, pp)) => edn_view(v) == vv && p as int == pp,
        (EdnParsed::Fail, EdnParse::Fail) => true,
        _ => false,
    }
}

spec fn edn_seq_matches(r: EdnSeqParsed, sp: EdnSeqParse) -> bool {
    match (r, sp) {
        (EdnSeqParsed::Done(l, p), EdnSeqParse::Done(ll, pp)) => edn_views(l@) == ll && p as int
            == pp,
        (EdnSeqParsed::Fail, EdnSeqParse::Fail) => true,
        _ => false,
    }
}

/// Scans past skipped bytes.
pub(crate) fn ws_scan(s: &[u8], pos: usize) -> (e: usize)
    requires
        pos <= s@.len(),
    ensures
        e as int == ws_end(s@, pos as int),
        pos <= e <= s@.len(),
{
    let mut i: usize = pos;
    while i < s.len() && (s[i] == 32 || (9 <= s[i] && s[i] <= 13) || s[i] == 44)
        invariant
            pos <= i <= s@.len(),
            ws_end(s@, pos as int) == ws_end(s@, i as int),
        decreases s@.len() - i,
    {
        i = i + 1;
    }
    i
}

/// Scans past symbol characters.
fn sym_scan(s: &[u8], pos: usize) -> (e: usize)
    requires
        pos <= s@.len(),
    ensures
        e as int == sym_end(s@, pos as int),
        pos <= e <= s@.len(),
{
    let mut i: usize = pos;
    while i < s.len() && is_sym_tail_byte(s[i])
        invariant
            pos <= i <= s@.len(),
            sym_end(s@, pos as int) == sym_end(s@, i as int),
        decreases s@.len() - i,
    {
        i = i + 1;
    }
    i
}

/// Scans past non-whitespace bytes.
fn nonws_scan(s: &[u8], pos: usize) -> (e: usize)
    requires
        pos <= s@.len(),
    ensures
        e as int == nonws_end(s@, pos as int),
        pos <= e <= s@.len(),
{
    let mut i: usize = pos;
    while i < s.len() && !(s[i] == 32 || (9 <= s[i] && s[i] <= 13))
        invariant
            pos <= i <= s@.len(),
            nonws_end(s@, pos as int) == nonws_end(s@, i as int),
        decreases s@.len() - i,
    {
        i = i + 1;
    }
    i
}

/// A later character of a symbol.
fn is_sym_tail_byte(b: u8) -> (r: bool)
    ensures
        r == is_sym_tail(b),
{
    is_sym_head_byte(b) || (48 <= b && b <= 57) || b == 58 || b == 35 || b == 47
}

/// The first head character of a symbol.
fn is_sym_head_byte(b: u8) -> (r: bool)
    ensures
        r == is_sym_head(b),
{
    (97 <= b && b <= 122) || (65 <= b && b <= 90) || b == 46 || b == 42 || b == 43 || b == 33
        || b == 45 || b == 95 || b == 63 || b == 36 || b == 37 || b == 38 || b == 61 || b == 60
        || b == 62
}

/// The bytes `s[from..to]`.
fn bytes_range(s: &[u8], from: usize, to: usize) -> (r: Vec<u8>)
    requires
        from <= to <= s@.len(),
    ensures
        r@ == s@.subrange(from as int, to as int),
{
    let mut out: Vec<u8> = Vec::new();
    let mut k: usize = from;
    while k < to
        invariant
            from <= k <= to <= s@.len(),
            out@ == s@.subrange(from as int, k as int),
        decreases to - k,
    {
        out.push(s[k]);
        assert(out@ =~= s@.subrange(from as int, k + 1 as int));
        k = k + 1;
    }
    out
}

/// The text written at `s[from..to]`, when it is valid UTF-8.
fn text_range(s: &[u8], from: usize, to: usize) -> (r: Option<String>)
    requires
        from <= to <= s@.len(),
    ensures
        match r {
            Some(t) => text_of(s@.subrange(from as int, to as int)) == Some(t@),
            None => text_of(s@.subrange(from as int, to as int)) is None,
        },
{
    crate::strutil::utf8_to_string(bytes_range(s, from, to))
}

/// Scans a quoted string body, following `scan_string` exactly.
fn string_scan(s: &[u8], pos: usize) -> (r: Option<(Vec<u8>, usize)>)
    requires
        pos <= s@.len(),
    ensures
        match r {
            Some(be) => scan_string(s@, pos as int) == StrScan::Done(be.0@, be.1 as int)
                && be.1 <= s@.len(),
            None => scan_string(s@, pos as int) == StrScan::Fail,
        },
{
    let mut acc: Vec<u8> = Vec::new();
    let mut i: usize = pos;
    proof {
        if let StrScan::Done(b, e) = scan_string(s@, pos as int) {
            assert(acc@ + b =~= b);
        }
    }
    loop
        invariant
            pos <= i <= s@.len(),
            match scan_string(s@, i as int) {
                StrScan::Done(b, e) => scan_string(s@, pos as int) == StrScan::Done(acc@ + b, e),
                StrScan::Fail => scan_string(s@, pos as int) == StrScan::Fail,
            },
        decreases s@.len() - i,
    {
        if i == s.len() {
            return None;
        }
        let b = s[i];
        if b == 34 {
            proof {
                assert(acc@ + Seq::<u8>::empty() =~= acc@);
            }
            return Some((acc, i + 1));
        } else if b == 92 {
            if i + 1 == s.len() {
                return None;
            }
            let c = s[i + 1];
            let unescaped: u8 = if c == 116 {
                9
            } else if c == 114 {
                13
            } else if c == 110 {
                10
            } else if c == 92 {
                92
            } else {
                34
            };
            if c == 116 || c == 114 || c == 110 || c == 92 || c == 34 {
                let ghost prev = acc@;
                proof {
                    if let StrScan::Done(b2, e2) = scan_string(s@, i + 2 as int) {
                        assert(prev + (seq![unescaped] + b2) =~= (prev + seq![unescaped]) + b2);
                    }
                }
                acc.push(unescaped);
                proof {
                    assert(acc@ =~= prev + seq![unescaped]);
                }
                i = i + 2;
            } else {
                return None;
            }
        } else {
            let ghost prev = acc@;
            proof {
                if let StrScan::Done(b2, e2) = scan_string(s@, i + 1 as int) {
                    assert(prev + (seq![s@[i as int]] + b2) =~= (prev + seq![s@[i as int]]) + b2);
                }
            }
            acc.push(b);
            proof {
                assert(acc@ =~= prev + seq![s@[i as int]]);
            }
            i = i + 1;
        }
    }
}

/// Parses a number, following `spec_edn_number` exactly.
fn parse_number(s: &[u8], start: usize, q: usize, neg: bool) -> (r: EdnParsed)
    requires
        start <= q < s@.len(),
        is_digit_byte(s@[q as int]),
    ensures
        edn_parse_matches(r, spec_edn_number(s@, start as int, q as int, neg)),
{
    let e: usize = crate::bencode::scan_digits(s, q);
    proof {
        crate::bencode::lemma_digits_end(s@, q as int);
    }
    if e < s.len() && s[e] == 46 {
        let f: usize = crate::bencode::scan_digits(s, e + 1);
        match text_range(s, start, f) {
            Some(t) => EdnParsed::Val(EdnValue::FloatLit(t), f),
            None => EdnParsed::Fail,
        }
    } else {
        let mut z: usize = q;
        while z < e && s[z] == 48
            invariant
                q <= z <= e <= s@.len(),
                forall|k: int| q <= k < e ==> is_digit_byte(#[trigger] s@[k]),
                digits_val(s@, q as int, e as int) == digits_val(s@, z as int, e as int),
            decreases e - z,
        {
            proof {
                lemma_strip_leading_zero(s@, z as int, e as int);
            }
            z = z + 1;
        }
        if e - z > 20 {
            proof {
                crate::bencode::lemma_digits_val_lower(s@, z as int, e as int);
                crate::bencode::lemma_pow10_monotone(20nat, (e - z - 1) as nat);
                crate::bencode::lemma_pow10_20();
            }
            EdnParsed::Fail
        } else {
            let magnitude: u128 = crate::bencode::digit_run_value(s, z, e);
            if neg {
                if magnitude > 9223372036854775808u128 {
                    EdnParsed::Fail
                } else if magnitude == 9223372036854775808u128 {
                    EdnParsed::Val(EdnValue::Int(i64::MIN), e)
                } else {
                    EdnParsed::Val(EdnValue::Int(-(magnitude as i64)), e)
                }
            } else {
                if magnitude > 9223372036854775807u128 {
                    EdnParsed::Fail
                } else {
                    EdnParsed::Val(EdnValue::Int(magnitude as i64), e)
                }
            }
        }
    }
}

/// Parses one value at `pos`, following `spec_edn_value` exactly.
pub fn parse_edn_value(s: &[u8], pos: usize) -> (r: EdnParsed)
    requires
        pos <= s@.len(),
    ensures
        edn_parse_matches(r, spec_edn_value(s@, pos as int)),
    decreases s@.len() - pos, 2int,
{
    let p: usize = ws_scan(s, pos);
    if p == s.len() {
        return EdnParsed::Fail;
    }
    let b = s[p];
    if 48 <= b && b <= 57 {
        parse_number(s, p, p, false)
    } else if b == 43 || b == 45 {
        let q = p + 1;
        if q < s.len() && 48 <= s[q] && s[q] <= 57 {
            parse_number(s, if b == 43 { q } else { p }, q, b == 45)
        } else if q < s.len() && is_sym_tail_byte(s[q]) {
            let e = sym_scan(s, q);
            match text_range(s, p, e) {
                Some(t) => EdnParsed::Val(EdnValue::Sym(t), e),
                None => EdnParsed::Fail,
            }
        } else if q == s.len() || s[q] == 32 || s[q] == 9 || s[q] == 10 {
            let t = if b == 43 {
                String::from_str("+")
            } else {
                String::from_str("-")
            };
            proof {
                reveal_strlit("+");
                reveal_strlit("-");
                assert(t@ =~= seq![b as char]);
            }
            EdnParsed::Val(EdnValue::Sym(t), q)
        } else {
            EdnParsed::Fail
        }
    } else if b == 46 {
        let q = p + 1;
        if q < s.len() && 48 <= s[q] && s[q] <= 57 {
            let f = crate::bencode::scan_digits(s, q);
            match text_range(s, p, f) {
                Some(t) => EdnParsed::Val(EdnValue::FloatLit(t), f),
                None => EdnParsed::Fail,
            }
        } else {
            let e = sym_scan(s, q);
            match text_range(s, p, e) {
                Some(t) => EdnParsed::Val(EdnValue::Sym(t), e),
                None => EdnParsed::Fail,
            }
        }
    } else if b == 92 {
        let e = nonws_scan(s, p + 1);
        match text_range(s, p + 1, e) {
            Some(t) => {
                let one = vstd::string::StrSliceExecFns::unicode_len(t.as_str()) == 1;
                if one || char_name_is(&t) {
                    EdnParsed::Val(EdnValue::CharLit(t), e)
                } else {
                    EdnParsed::Fail
                }
            },
            None => EdnParsed::Fail,
        }
    } else if b == 34 {
        match string_scan(s, p + 1) {
            Some((bytes, e)) => match crate::strutil::utf8_to_string(bytes) {
                Some(t) => EdnParsed::Val(EdnValue::Str(t), e),
                None => EdnParsed::Fail,
            },
            None => EdnParsed::Fail,
        }
    } else if b == 58 {
        let e = sym_scan(s, p + 1);
        match text_range(s, p + 1, e) {
            Some(t) => EdnParsed::Val(EdnValue::Keyword(t), e),
            None => EdnParsed::Fail,
        }
    } else if b == 40 {
        match parse_edn_seq(s, p + 1, 41) {
            EdnSeqParsed::Done(l, e) => EdnParsed::Val(EdnValue::List(l), e),
            EdnSeqParsed::Fail => EdnParsed::Fail,
        }
    } else if b == 91 {
        match parse_edn_seq(s, p + 1, 93) {
            EdnSeqParsed::Done(l, e) => EdnParsed::Val(EdnValue::Vector(l), e),
            EdnSeqParsed::Fail => EdnParsed::Fail,
        }
    } else if b == 123 {
        match parse_edn_seq(s, p + 1, 125) {
            EdnSeqParsed::Done(l, e) => match pair_items(l) {
                Some(m) => EdnParsed::Val(EdnValue::MapLit(m), e),
                None => EdnParsed::Fail,
            },
            EdnSeqParsed::Fail => EdnParsed::Fail,
        }
    } else if b == 35 {
        let q = p + 1;
        if q < s.len() && s[q] == 123 {
            match parse_edn_seq(s, q + 1, 125) {
                EdnSeqParsed::Done(l, e) => EdnParsed::Val(EdnValue::SetLit(l), e),
                EdnSeqParsed::Fail => EdnParsed::Fail,
            }
        } else if q < s.len() && is_sym_head_byte(s[q]) {
            let e = sym_scan(s, q + 1);
            match text_range(s, q, e) {
                Some(t) => match parse_edn_value(s, e) {
                    EdnParsed::Val(v, e2) => EdnParsed::Val(
                        EdnValue::Tagged(t, Box::new(v)),
                        e2,
                    ),
                    EdnParsed::Fail => EdnParsed::Fail,
                },
                None => EdnParsed::Fail,
            }
        } else {
            EdnParsed::Fail
        }
    } else if is_sym_head_byte(b) {
        let e = sym_scan(s, p + 1);
        match text_range(s, p, e) {
            Some(t) => {
                let word = if t == String::from_str("true") {
                    EdnValue::Bool(true)
                } else if t == String::from_str("false") {
                    EdnValue::Bool(false)
                } else if t == String::from_str("nil") {
                    EdnValue::Nil
                } else {
                    EdnValue::Sym(t)
                };
                EdnParsed::Val(word, e)
            },
            None => EdnParsed::Fail,
        }
    } else if b == 47 {
        let t = String::from_str("/");
        proof {
            reveal_strlit("/");
            assert(t@ =~= seq!['/']);
        }
        EdnParsed::Val(EdnValue::Sym(t), p + 1)
    } else {
        EdnParsed::Fail
    }
}

/// Parses a bracketed form's elements, following `spec_edn_seq`.
fn parse_edn_seq(s: &[u8], pos: usize, close: u8) -> (r: EdnSeqParsed)
    requires
        pos <= s@.len(),
    ensures
        edn_seq_matches(r, spec_edn_seq(s@, pos as int, close)),
    decreases s@.len() - pos, 3int,
{
    let p: usize = ws_scan(s, pos);
    if p == s.len() {
        return EdnSeqParsed::Fail;
    }
    if s[p] == close {
        return EdnSeqParsed::Done(Vec::new(), p + 1);
    }
    match parse_edn_value(s, p) {
        EdnParsed::Val(v, e) => {
            if e <= p || e > s.len() {
                EdnSeqParsed::Fail
            } else {
                match parse_edn_seq(s, e, close) {
                    EdnSeqParsed::Done(mut l, e2) => {
                        let ghost rest = l@;
                        l.insert(0, v);
                        proof {
                            lemma_edn_views_index(l@);
                            lemma_edn_views_index(rest);
                            assert(edn_views(l@) =~= seq![edn_view(v)] + edn_views(rest));
                        }
                        EdnSeqParsed::Done(l, e2)
                    },
                    EdnSeqParsed::Fail => EdnSeqParsed::Fail,
                }
            }
        },
        EdnParsed::Fail => EdnSeqParsed::Fail,
    }
}

/// Pairs up the elements of a map body, following `pair_up`.
#[verifier::loop_isolation(false)]
fn pair_items(items: Vec<EdnValue>) -> (r: Option<Vec<(EdnValue, EdnValue)>>)
    ensures
        match r {
            Some(m) => pair_up(edn_views(items@)) == Some(edn_pair_views(m@)),
            None => pair_up(edn_views(items@)) is None,
        },
{
    let ghost whole = edn_views(items@);
    let mut rest = items;
    let mut out: Vec<(EdnValue, EdnValue)> = Vec::new();
    proof {
        if let Some(m0) = pair_up(edn_views(rest@)) {
            assert(edn_pair_views(out@) + m0 =~= m0);
        }
    }
    loop
        invariant
            match pair_up(edn_views(rest@)) {
                Some(m) => pair_up(whole) == Some(edn_pair_views(out@) + m),
                None => pair_up(whole) is None,
            },
        decreases rest@.len(),
    {
        if rest.len() == 0 {
            proof {
                if let Some(m) = pair_up(edn_views(rest@)) {
                    assert(edn_pair_views(out@) + m =~= edn_pair_views(out@));
                }
            }
            return Some(out);
        }
        if rest.len() == 1 {
            proof {
                lemma_edn_views_index(rest@);
            }
            return None;
        }
        let ghost rest_old = rest@;
        let a = rest.remove(0);
        let bb = rest.remove(0);
        let ghost va = edn_view(a);
        let ghost vb = edn_view(bb);
        proof {
            assert(rest_old =~= seq![a, bb] + rest@);
            let two = seq![a, bb] + rest@;
            lemma_edn_views_index(two);
            lemma_edn_views_index(rest@);
            assert(edn_views(two).skip(2) =~= edn_views(rest@));
            assert(edn_views(two)[0] == va);
            assert(edn_views(two)[1] == vb);
        }
        let ghost out_before = out@;
        out.push((a, bb));
        proof {
            lemma_edn_pair_views_index(out@);
            lemma_edn_pair_views_index(out_before);
            assert(out@ =~= out_before.push((a, bb)));
            assert(edn_pair_views(out@) =~= edn_pair_views(out_before) + seq![(va, vb)]);
            let ev = edn_views(rest_old);
            assert(ev.len() >= 2);
            match pair_up(edn_views(rest@)) {
                Some(m2) => {
                    assert(pair_up(ev) == Some(seq![(ev[0], ev[1])] + m2));
                    assert(edn_pair_views(out_before) + (seq![(va, vb)] + m2) =~= edn_pair_views(
                        out@,
                    ) + m2);
                },
                None => {
                    assert(pair_up(ev) is None);
                },
            }
        }
    }
}

/// An odd-length body cannot be paired.
proof fn lemma_pair_up_odd(items: Seq<EdnV>)
    requires
        items.len() % 2 == 1,
    ensures
        pair_up(items) is None,
    decreases items.len(),
{
    if items.len() > 1 {
        assert(items.skip(2).len() % 2 == 1);
        lemma_pair_up_odd(items.skip(2));
    }
}

/// Whether a character-literal name is one of the written names.
fn char_name_is(t: &String) -> (r: bool)
    ensures
        r == (t@ == "newline"@ || t@ == "return"@ || t@ == "space"@ || t@ == "tab"@),
{
    let newline = String::from_str("newline");
    let ret = String::from_str("return");
    let space = String::from_str("space");
    let tab = String::from_str("tab");
    *t == newline || *t == ret || *t == space || *t == tab
}

} // verus!
