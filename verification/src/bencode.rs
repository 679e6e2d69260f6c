//! The framed dialect's wire format: nested values built from
//! byte-length-prefixed strings, sentinel-delimited decimal integers,
//! and start/end-delimited lists and dictionaries.
//!
//! Encoding and decoding are defined by the spec functions here
//! (`spec_encode_frame`, `spec_parse_frame`); the executable encoder and
//! parser are proved to follow them exactly, and an encoded frame is
//! proved to parse back to the value it came from.

use vstd::prelude::*;

verus! {

/// One decoded value of the framed dialect.
#[derive(Debug, PartialEq)]
pub enum FrameValue {
    Int(i64),
    Bytes(Vec<u8>),
    List(Vec<FrameValue>),
    Dict(Vec<(FrameValue, FrameValue)>),
}

/// Ghost form of `FrameValue`.
pub enum FrameV {
    Int(int),
    Bytes(Seq<u8>),
    List(Seq<FrameV>),
    Dict(Seq<(FrameV, FrameV)>),
}

/// Ghost form of one executable frame.
pub open spec fn frame_view(v: FrameValue) -> FrameV
    decreases v, 1int,
{
    match v {
        FrameValue::Int(i) => FrameV::Int(i as int),
        FrameValue::Bytes(b) => FrameV::Bytes(b@),
        FrameValue::List(l) => FrameV::List(list_views(l@)),
        FrameValue::Dict(d) => FrameV::Dict(pair_views(d@)),
    }
}

/// Ghost forms of a sequence of executable frames.
pub open spec fn list_views(l: Seq<FrameValue>) -> Seq<FrameV>
    decreases l, 0int,
{
    if l.len() == 0 {
        Seq::empty()
    } else {
        seq![frame_view(l[0])] + list_views(l.skip(1))
    }
}

/// Ghost forms of a sequence of executable frame pairs.
pub open spec fn pair_views(d: Seq<(FrameValue, FrameValue)>) -> Seq<(FrameV, FrameV)>
    decreases d, 0int,
{
    if d.len() == 0 {
        Seq::empty()
    } else {
        seq![(frame_view(d[0].0), frame_view(d[0].1))] + pair_views(d.skip(1))
    }
}

impl View for FrameValue {
    type V = FrameV;

    open spec fn view(&self) -> FrameV {
        frame_view(*self)
    }
}

/// `list_views` read pointwise.
pub broadcast proof fn lemma_list_views_index(l: Seq<FrameValue>)
    ensures
        (#[trigger] list_views(l)).len() == l.len(),
        forall|i: int| 0 <= i < l.len() ==> list_views(l)[i] == frame_view(l[i]),
    decreases l.len(),
{
    if l.len() > 0 {
        lemma_list_views_index(l.skip(1));
    }
}

/// `pair_views` read pointwise.
pub broadcast proof fn lemma_pair_views_index(d: Seq<(FrameValue, FrameValue)>)
    ensures
        (#[trigger] pair_views(d)).len() == d.len(),
        forall|i: int|
            0 <= i < d.len() ==> pair_views(d)[i] == (frame_view(d[i].0), frame_view(d[i].1)),
    decreases d.len(),
{
    if d.len() > 0 {
        lemma_pair_views_index(d.skip(1));
    }
}

/// A ghost frame the executable layer can represent: every integer in
/// it fits the signed 64-bit range.
pub open spec fn frame_wf(v: FrameV) -> bool
    decreases v,
{
    match v {
        FrameV::Int(i) => i64::MIN <= i <= i64::MAX,
        FrameV::Bytes(b) => true,
        FrameV::List(l) => forall|i: int| 0 <= i < l.len() ==> frame_wf(#[trigger] l[i]),
        FrameV::Dict(d) => forall|i: int|
            0 <= i < d.len() ==> frame_wf((#[trigger] d[i]).0) && frame_wf(d[i].1),
    }
}

/// The decimal digits of `n`, most significant first, as ASCII bytes.
pub open spec fn spec_digits(n: nat) -> Seq<u8>
    decreases n,
{
    if n < 10 {
        seq![(48 + n) as u8]
    } else {
        spec_digits(n / 10).push((48 + n % 10) as u8)
    }
}

/// The decimal literal of `i`: a minus sign for negative values, then
/// the digits of the magnitude.
pub open spec fn spec_int_literal(i: int) -> Seq<u8> {
    if i < 0 {
        seq![45u8] + spec_digits((-i) as nat)
    } else {
        spec_digits(i as nat)
    }
}

/// The wire bytes of one frame.
pub open spec fn spec_encode_frame(v: FrameV) -> Seq<u8>
    decreases v, 1int,
{
    match v {
        FrameV::Int(i) => seq![105u8] + spec_int_literal(i) + seq![101u8],
        FrameV::Bytes(b) => spec_digits(b.len()) + seq![58u8] + b,
        FrameV::List(l) => seq![108u8] + spec_encode_items(l) + seq![101u8],
        FrameV::Dict(d) => seq![100u8] + spec_encode_pairs(d) + seq![101u8],
    }
}

/// The concatenated wire bytes of a list body.
pub open spec fn spec_encode_items(l: Seq<FrameV>) -> Seq<u8>
    decreases l, 0int,
{
    if l.len() == 0 {
        Seq::empty()
    } else {
        spec_encode_frame(l[0]) + spec_encode_items(l.skip(1))
    }
}

/// The concatenated wire bytes of a dictionary body.
pub open spec fn spec_encode_pairs(d: Seq<(FrameV, FrameV)>) -> Seq<u8>
    decreases d, 0int,
{
    if d.len() == 0 {
        Seq::empty()
    } else {
        spec_encode_frame(d[0].0) + spec_encode_frame(d[0].1) + spec_encode_pairs(d.skip(1))
    }
}

/// Appends the decimal digits of `n` to `out`.
pub(crate) fn push_digits(n: u64, out: &mut Vec<u8>)
    ensures
        final(out)@ == old(out)@ + spec_digits(n as nat),
    decreases n,
{
    if n < 10 {
        out.push(48 + n as u8);
        assert(final(out)@ =~= old(out)@ + spec_digits(n as nat));
    } else {
        push_digits(n / 10, out);
        out.push(48 + (n % 10) as u8);
        assert(final(out)@ =~= old(out)@ + spec_digits(n as nat));
    }
}

/// Appends the decimal literal of `i` to `out`.
fn push_int_literal(i: i64, out: &mut Vec<u8>)
    ensures
        final(out)@ == old(out)@ + spec_int_literal(i as int),
{
    if i < 0 {
        out.push(45);
        let magnitude: u64 = ((-(i + 1)) as u64) + 1;
        assert(magnitude as int == -(i as int));
        push_digits(magnitude, out);
        assert(final(out)@ =~= old(out)@ + spec_int_literal(i as int));
    } else {
        push_digits(i as u64, out);
    }
}

/// Appends the wire bytes of `v` to `out`.
pub fn encode_frame_into(v: &FrameValue, out: &mut Vec<u8>)
    ensures
        final(out)@ == old(out)@ + spec_encode_frame(v@),
    decreases *v, 0int,
{
    match v {
        FrameValue::Int(i) => {
            out.push(105);
            push_int_literal(*i, out);
            out.push(101);
            assert(final(out)@ =~= old(out)@ + spec_encode_frame(v@));
        },
        FrameValue::Bytes(b) => {
            push_digits(b.len() as u64, out);
            out.push(58);
            let mut j: usize = 0;
            while j < b.len()
                invariant
                    j <= b.len(),
                    out@ == old(out)@ + spec_digits(b@.len()) + seq![58u8] + b@.subrange(
                        0,
                        j as int,
                    ),
                decreases b.len() - j,
            {
                out.push(b[j]);
                assert(out@ =~= old(out)@ + spec_digits(b@.len()) + seq![58u8] + b@.subrange(
                    0,
                    j + 1 as int,
                ));
                j = j + 1;
            }
            assert(b@.subrange(0, b@.len() as int) =~= b@);
            assert(final(out)@ =~= old(out)@ + spec_encode_frame(v@));
        },
        FrameValue::List(l) => {
            out.push(108);
            encode_items_into(l, 0, out);
            out.push(101);
            proof {
                assert(list_views(l@).skip(0) =~= list_views(l@));
                assert(final(out)@ =~= old(out)@ + spec_encode_frame(v@));
            }
        },
        FrameValue::Dict(d) => {
            out.push(100);
            encode_pairs_into(d, 0, out);
            out.push(101);
            proof {
                assert(pair_views(d@).skip(0) =~= pair_views(d@));
                assert(final(out)@ =~= old(out)@ + spec_encode_frame(v@));
            }
        },
    }
}

/// Appends the wire bytes of the list elements from `j` on to `out`.
fn encode_items_into(l: &Vec<FrameValue>, j: usize, out: &mut Vec<u8>)
    requires
        j <= l@.len(),
    ensures
        final(out)@ == old(out)@ + spec_encode_items(list_views(l@).skip(j as int)),
    decreases *l, (l@.len() - j as int),
{
    proof {
        lemma_list_views_index(l@);
    }
    if j < l.len() {
        encode_frame_into(&l[j], out);
        encode_items_into(l, j + 1, out);
        proof {
            let lv = list_views(l@);
            assert(lv.skip(j as int)[0] == lv[j as int]);
            assert(lv.skip(j as int).skip(1) =~= lv.skip(j + 1 as int));
            assert(final(out)@ =~= old(out)@ + spec_encode_items(lv.skip(j as int)));
        }
    } else {
        proof {
            assert(list_views(l@).skip(j as int) =~= Seq::<FrameV>::empty());
        }
        assert(final(out)@ =~= old(out)@ + spec_encode_items(list_views(l@).skip(j as int)));
    }
}

/// Appends the wire bytes of the dictionary pairs from `j` on to `out`.
fn encode_pairs_into(d: &Vec<(FrameValue, FrameValue)>, j: usize, out: &mut Vec<u8>)
    requires
        j <= d@.len(),
    ensures
        final(out)@ == old(out)@ + spec_encode_pairs(pair_views(d@).skip(j as int)),
    decreases *d, (d@.len() - j as int),
{
    proof {
        lemma_pair_views_index(d@);
    }
    if j < d.len() {
        proof {
            assert(decreases_to!(*d => d@[j as int]));
            assert(decreases_to!(d@[j as int] => d@[j as int].0));
            assert(decreases_to!(d@[j as int] => d@[j as int].1));
        }
        encode_frame_into(&d[j].0, out);
        encode_frame_into(&d[j].1, out);
        encode_pairs_into(d, j + 1, out);
        proof {
            let dv = pair_views(d@);
            assert(dv.skip(j as int)[0] == dv[j as int]);
            assert(dv.skip(j as int).skip(1) =~= dv.skip(j + 1 as int));
            assert(final(out)@ =~= old(out)@ + spec_encode_pairs(dv.skip(j as int)));
        }
    } else {
        proof {
            assert(pair_views(d@).skip(j as int) =~= Seq::<(FrameV, FrameV)>::empty());
        }
        assert(final(out)@ =~= old(out)@ + spec_encode_pairs(pair_views(d@).skip(j as int)));
    }
}

/// The wire bytes of `v` on their own.
pub fn encode_frame(v: &FrameValue) -> (r: Vec<u8>)
    ensures
        r@ == spec_encode_frame(v@),
{
    let mut out: Vec<u8> = Vec::new();
    encode_frame_into(v, &mut out);
    assert(out@ =~= spec_encode_frame(v@));
    out
}

/// Outcome of parsing one frame at a position: the frame and the
/// position just past it, or a request for more bytes, or a rejection.
pub enum SpecParse {
    Frame(FrameV, int),
    Incomplete,
    Malformed,
}

/// Outcome of parsing a list body.
pub enum SpecItems {
    Items(Seq<FrameV>, int),
    Incomplete,
    Malformed,
}

/// Outcome of parsing a dictionary body.
pub enum SpecPairs {
    Pairs(Seq<(FrameV, FrameV)>, int),
    Incomplete,
    Malformed,
}

/// ASCII decimal digit.
pub open spec fn is_digit_byte(b: u8) -> bool {
    48 <= b <= 57
}

/// The end of the run of decimal digits starting at `pos`.
pub open spec fn digits_end(s: Seq<u8>, pos: int) -> int
    decreases s.len() - pos,
{
    if 0 <= pos < s.len() && is_digit_byte(s[pos]) {
        digits_end(s, pos + 1)
    } else {
        pos
    }
}

/// The number denoted by the decimal digits `s[from..to]`.
pub open spec fn digits_val(s: Seq<u8>, from: int, to: int) -> int
    decreases to - from,
{
    if from >= to {
        0
    } else {
        digits_val(s, from, to - 1) * 10 + (s[to - 1] - 48)
    }
}

/// Powers of ten.
pub open spec fn pow10(n: nat) -> nat
    decreases n,
{
    if n == 0 {
        1
    } else {
        10 * pow10((n - 1) as nat)
    }
}

/// What a digit run looks like: where it ends and what stands there.
pub(crate) proof fn lemma_digits_end(s: Seq<u8>, pos: int)
    requires
        0 <= pos <= s.len(),
    ensures
        pos <= digits_end(s, pos) <= s.len(),
        forall|k: int| pos <= k < digits_end(s, pos) ==> is_digit_byte(#[trigger] s[k]),
        digits_end(s, pos) < s.len() ==> !is_digit_byte(s[digits_end(s, pos)]),
    decreases s.len() - pos,
{
    if pos < s.len() && is_digit_byte(s[pos]) {
        lemma_digits_end(s, pos + 1);
    }
}

/// A digit run denotes a non-negative number below ten to its length.
pub(crate) proof fn lemma_digits_val_bounds(s: Seq<u8>, from: int, to: int)
    requires
        from <= to,
        forall|k: int| from <= k < to ==> is_digit_byte(#[trigger] s[k]),
    ensures
        0 <= digits_val(s, from, to) < pow10((to - from) as nat),
    decreases to - from,
{
    if from < to {
        lemma_digits_val_bounds(s, from, to - 1);
    }
}

/// A digit run without a leading zero denotes at least ten to one
/// less than its length.
pub(crate) proof fn lemma_digits_val_lower(s: Seq<u8>, from: int, to: int)
    requires
        from < to,
        forall|k: int| from <= k < to ==> is_digit_byte(#[trigger] s[k]),
        s[from] != 48,
    ensures
        digits_val(s, from, to) >= pow10((to - from - 1) as nat),
    decreases to - from,
{
    if from == to - 1 {
        assert(digits_val(s, from, to) == digits_val(s, from, from) * 10 + (s[from] - 48));
    } else {
        lemma_digits_val_lower(s, from, to - 1);
        lemma_pow10_positive((to - from - 2) as nat);
    }
}

proof fn lemma_pow10_positive(n: nat)
    ensures
        pow10(n) >= 1,
    decreases n,
{
    if n > 0 {
        lemma_pow10_positive((n - 1) as nat);
    }
}

/// Reads the integer body that follows the `i` marker.
pub open spec fn spec_parse_int_body(s: Seq<u8>, p: int) -> SpecParse {
    let neg = p < s.len() && s[p] == 45;
    let q = if neg {
        p + 1
    } else {
        p
    };
    let e = digits_end(s, q);
    if e == q {
        if q == s.len() {
            SpecParse::Incomplete
        } else {
            SpecParse::Malformed
        }
    } else if s[q] == 48 && e - q > 1 {
        SpecParse::Malformed
    } else if neg && s[q] == 48 {
        SpecParse::Malformed
    } else if e == s.len() {
        SpecParse::Incomplete
    } else if s[e] != 101 {
        SpecParse::Malformed
    } else {
        let val = if neg {
            -digits_val(s, q, e)
        } else {
            digits_val(s, q, e)
        };
        if val < i64::MIN || val > i64::MAX {
            SpecParse::Malformed
        } else {
            SpecParse::Frame(FrameV::Int(val), e + 1)
        }
    }
}

/// Reads a length-prefixed byte string starting at its first length digit.
pub open spec fn spec_parse_bytes(s: Seq<u8>, pos: int) -> SpecParse {
    let e = digits_end(s, pos);
    if s[pos] == 48 && e - pos > 1 {
        SpecParse::Malformed
    } else if e == s.len() {
        SpecParse::Incomplete
    } else if s[e] != 58 {
        SpecParse::Malformed
    } else {
        let len = digits_val(s, pos, e);
        if s.len() - (e + 1) < len {
            SpecParse::Incomplete
        } else {
            SpecParse::Frame(FrameV::Bytes(s.subrange(e + 1, e + 1 + len)), e + 1 + len)
        }
    }
}

/// Parses one frame of the wire format at `pos`. Only the canonical
/// spelling is accepted: no leading zeros, no negative zero.
pub open spec fn spec_parse_frame(s: Seq<u8>, pos: int) -> SpecParse
    decreases s.len() - pos, 0int,
{
    if !(0 <= pos <= s.len()) {
        SpecParse::Malformed
    } else if pos == s.len() {
        SpecParse::Incomplete
    } else if s[pos] == 105 {
        spec_parse_int_body(s, pos + 1)
    } else if is_digit_byte(s[pos]) {
        spec_parse_bytes(s, pos)
    } else if s[pos] == 108 {
        match spec_parse_items(s, pos + 1) {
            SpecItems::Items(l, p) => SpecParse::Frame(FrameV::List(l), p),
            SpecItems::Incomplete => SpecParse::Incomplete,
            SpecItems::Malformed => SpecParse::Malformed,
        }
    } else if s[pos] == 100 {
        match spec_parse_pairs(s, pos + 1) {
            SpecPairs::Pairs(d, p) => SpecParse::Frame(FrameV::Dict(d), p),
            SpecPairs::Incomplete => SpecParse::Incomplete,
            SpecPairs::Malformed => SpecParse::Malformed,
        }
    } else {
        SpecParse::Malformed
    }
}

/// Parses list elements until the closing marker.
pub open spec fn spec_parse_items(s: Seq<u8>, pos: int) -> SpecItems
    decreases s.len() - pos, 1int,
{
    if !(0 <= pos <= s.len()) {
        SpecItems::Malformed
    } else if pos == s.len() {
        SpecItems::Incomplete
    } else if s[pos] == 101 {
        SpecItems::Items(Seq::empty(), pos + 1)
    } else {
        match spec_parse_frame(s, pos) {
            SpecParse::Frame(v, p) => if !(pos < p <= s.len()) {
                SpecItems::Malformed
            } else {
                match spec_parse_items(s, p) {
                    SpecItems::Items(l, q) => SpecItems::Items(seq![v] + l, q),
                    SpecItems::Incomplete => SpecItems::Incomplete,
                    SpecItems::Malformed => SpecItems::Malformed,
                }
            },
            SpecParse::Incomplete => SpecItems::Incomplete,
            SpecParse::Malformed => SpecItems::Malformed,
        }
    }
}

/// Parses dictionary pairs until the closing marker.
pub open spec fn spec_parse_pairs(s: Seq<u8>, pos: int) -> SpecPairs
    decreases s.len() - pos, 1int,
{
    if !(0 <= pos <= s.len()) {
        SpecPairs::Malformed
    } else if pos == s.len() {
        SpecPairs::Incomplete
    } else if s[pos] == 101 {
        SpecPairs::Pairs(Seq::empty(), pos + 1)
    } else {
        match spec_parse_frame(s, pos) {
            SpecParse::Frame(k, p1) => if !(pos < p1 <= s.len()) {
                SpecPairs::Malformed
            } else {
                match spec_parse_frame(s, p1) {
                    SpecParse::Frame(w, p2) => if !(p1 < p2 <= s.len()) {
                        SpecPairs::Malformed
                    } else {
                        match spec_parse_pairs(s, p2) {
                            SpecPairs::Pairs(d, q) => SpecPairs::Pairs(seq![(k, w)] + d, q),
                            SpecPairs::Incomplete => SpecPairs::Incomplete,
                            SpecPairs::Malformed => SpecPairs::Malformed,
                        }
                    },
                    SpecParse::Incomplete => SpecPairs::Incomplete,
                    SpecParse::Malformed => SpecPairs::Malformed,
                }
            },
            SpecParse::Incomplete => SpecPairs::Incomplete,
            SpecParse::Malformed => SpecPairs::Malformed,
        }
    }
}

/// Executable outcome of parsing one frame.
#[derive(Debug, PartialEq)]
pub enum FrameParse {
    /// One whole frame and the position just past it.
    Frame(FrameValue, usize),
    /// The buffer holds no whole frame yet; more bytes may complete it.
    Incomplete,
    /// The buffer can never grow into a well-formed frame here.
    Malformed,
}

/// Executable outcome of parsing a list body.
enum ItemsParse {
    Items(Vec<FrameValue>, usize),
    Incomplete,
    Malformed,
}

/// Executable outcome of parsing a dictionary body.
enum PairsParse {
    Pairs(Vec<(FrameValue, FrameValue)>, usize),
    Incomplete,
    Malformed,
}

/// The executable outcome agrees with the specified one.
pub open spec fn frame_parse_matches(r: FrameParse, sp: SpecParse) -> bool {
    match (r, sp) {
        (FrameParse::Frame(v, p), SpecParse::Frame(vv, pp)) => frame_view(v) == vv && p as int
            == pp,
        (FrameParse::Incomplete, SpecParse::Incomplete) => true,
        (FrameParse::Malformed, SpecParse::Malformed) => true,
        _ => false,
    }
}

spec fn items_parse_matches(r: ItemsParse, sp: SpecItems) -> bool {
    match (r, sp) {
        (ItemsParse::Items(l, p), SpecItems::Items(ll, pp)) => list_views(l@) == ll && p as int
            == pp,
        (ItemsParse::Incomplete, SpecItems::Incomplete) => true,
        (ItemsParse::Malformed, SpecItems::Malformed) => true,
        _ => false,
    }
}

spec fn pairs_parse_matches(r: PairsParse, sp: SpecPairs) -> bool {
    match (r, sp) {
        (PairsParse::Pairs(d, p), SpecPairs::Pairs(dd, pp)) => pair_views(d@) == dd && p as int
            == pp,
        (PairsParse::Incomplete, SpecPairs::Incomplete) => true,
        (PairsParse::Malformed, SpecPairs::Malformed) => true,
        _ => false,
    }
}

/// Scans past the decimal digits starting at `pos`.
pub(crate) fn scan_digits(s: &[u8], pos: usize) -> (e: usize)
    requires
        pos <= s@.len(),
    ensures
        e as int == digits_end(s@, pos as int),
        pos <= e <= s@.len(),
{
    let mut i: usize = pos;
    while i < s.len() && 48 <= s[i] && s[i] <= 57
        invariant
            pos <= i <= s@.len(),
            digits_end(s@, pos as int) == digits_end(s@, i as int),
        decreases s@.len() - i,
    {
        i = i + 1;
    }
    proof {
        lemma_digits_end(s@, i as int);
    }
    i
}

/// Reads the number denoted by up to twenty digits.
pub(crate) fn digit_run_value(s: &[u8], from: usize, to: usize) -> (r: u128)
    requires
        from <= to <= s@.len(),
        to - from <= 20,
        forall|k: int| from <= k < to ==> is_digit_byte(#[trigger] s@[k]),
    ensures
        r as int == digits_val(s@, from as int, to as int),
{
    proof {
        lemma_pow10_20();
    }
    let mut acc: u128 = 0;
    let mut i: usize = from;
    while i < to
        invariant
            from <= i <= to <= s@.len(),
            to - from <= 20,
            forall|k: int| from <= k < to ==> is_digit_byte(#[trigger] s@[k]),
            acc as int == digits_val(s@, from as int, i as int),
            pow10(20) == 100000000000000000000,
        decreases to - i,
    {
        proof {
            lemma_digits_val_bounds(s@, from as int, i as int);
            lemma_pow10_monotone((i - from) as nat, 19nat);
        }
        acc = acc * 10 + ((s[i] - 48) as u128);
        i = i + 1;
    }
    acc
}

pub(crate) proof fn lemma_pow10_20()
    ensures
        pow10(20) == 100000000000000000000,
{
    reveal_with_fuel(pow10, 21);
}

pub(crate) proof fn lemma_pow10_monotone(a: nat, b: nat)
    requires
        a <= b,
    ensures
        pow10(a) <= pow10(b),
    decreases b,
{
    if a < b {
        lemma_pow10_monotone(a, (b - 1) as nat);
        lemma_pow10_positive((b - 1) as nat);
    }
}

/// Parses the integer body that follows the `i` marker.
fn parse_int_body(s: &[u8], p: usize) -> (r: FrameParse)
    requires
        p <= s@.len(),
    ensures
        frame_parse_matches(r, spec_parse_int_body(s@, p as int)),
{
    let neg: bool = p < s.len() && s[p] == 45;
    let q: usize = if neg {
        p + 1
    } else {
        p
    };
    let e: usize = scan_digits(s, q);
    proof {
        lemma_digits_end(s@, q as int);
    }
    if e == q {
        if q == s.len() {
            FrameParse::Incomplete
        } else {
            FrameParse::Malformed
        }
    } else if s[q] == 48 && e - q > 1 {
        FrameParse::Malformed
    } else if neg && s[q] == 48 {
        FrameParse::Malformed
    } else if e == s.len() {
        FrameParse::Incomplete
    } else if s[e] != 101 {
        FrameParse::Malformed
    } else if e - q > 20 {
        proof {
            lemma_digits_val_lower(s@, q as int, e as int);
            lemma_pow10_monotone(20nat, (e - q - 1) as nat);
            lemma_pow10_20();
        }
        FrameParse::Malformed
    } else {
        let magnitude: u128 = digit_run_value(s, q, e);
        if neg {
            if magnitude > 9223372036854775808u128 {
                FrameParse::Malformed
            } else if magnitude == 9223372036854775808u128 {
                FrameParse::Frame(FrameValue::Int(i64::MIN), e + 1)
            } else {
                FrameParse::Frame(FrameValue::Int(-(magnitude as i64)), e + 1)
            }
        } else {
            if magnitude > 9223372036854775807u128 {
                FrameParse::Malformed
            } else {
                FrameParse::Frame(FrameValue::Int(magnitude as i64), e + 1)
            }
        }
    }
}

/// Parses a length-prefixed byte string starting at its first length digit.
fn parse_bytes_body(s: &[u8], pos: usize) -> (r: FrameParse)
    requires
        pos < s@.len(),
        is_digit_byte(s@[pos as int]),
    ensures
        frame_parse_matches(r, spec_parse_bytes(s@, pos as int)),
{
    let e: usize = scan_digits(s, pos);
    proof {
        lemma_digits_end(s@, pos as int);
        assert(digits_end(s@, pos as int) == digits_end(s@, pos + 1 as int));
        lemma_digits_end(s@, pos + 1 as int);
    }
    if s[pos] == 48 && e - pos > 1 {
        FrameParse::Malformed
    } else if e == s.len() {
        FrameParse::Incomplete
    } else if s[e] != 58 {
        FrameParse::Malformed
    } else if e - pos > 20 {
        proof {
            lemma_digits_val_lower(s@, pos as int, e as int);
            lemma_pow10_monotone(20nat, (e - pos - 1) as nat);
            lemma_pow10_20();
        }
        FrameParse::Incomplete
    } else {
        let length: u128 = digit_run_value(s, pos, e);
        let remaining: usize = s.len() - (e + 1);
        if (remaining as u128) < length {
            FrameParse::Incomplete
        } else {
            let len: usize = length as usize;
            proof {
                assert(length <= remaining as u128);
                assert(len as int == length as int);
                assert(e + 1 + len <= s@.len());
            }
            let n: usize = s.len();
            let mut content: Vec<u8> = Vec::new();
            let mut k: usize = 0;
            while k < len
                invariant
                    k <= len,
                    n == s@.len(),
                    e + 1 + len <= n,
                    content@ == s@.subrange(e + 1 as int, e + 1 + k as int),
                decreases len - k,
            {
                content.push(s[e + 1 + k]);
                assert(content@ =~= s@.subrange(e + 1 as int, e + 1 + (k + 1) as int));
                k = k + 1;
            }
            FrameParse::Frame(FrameValue::Bytes(content), e + 1 + len)
        }
    }
}

/// Parses one frame of the wire format at `pos`, following
/// `spec_parse_frame` exactly.
pub fn parse_frame(s: &[u8], pos: usize) -> (r: FrameParse)
    requires
        pos <= s@.len(),
    ensures
        frame_parse_matches(r, spec_parse_frame(s@, pos as int)),
    decreases s@.len() - pos, 0int,
{
    if pos == s.len() {
        FrameParse::Incomplete
    } else if s[pos] == 105 {
        parse_int_body(s, pos + 1)
    } else if 48 <= s[pos] && s[pos] <= 57 {
        parse_bytes_body(s, pos)
    } else if s[pos] == 108 {
        match parse_items(s, pos + 1) {
            ItemsParse::Items(l, p) => FrameParse::Frame(FrameValue::List(l), p),
            ItemsParse::Incomplete => FrameParse::Incomplete,
            ItemsParse::Malformed => FrameParse::Malformed,
        }
    } else if s[pos] == 100 {
        match parse_pairs(s, pos + 1) {
            PairsParse::Pairs(d, p) => FrameParse::Frame(FrameValue::Dict(d), p),
            PairsParse::Incomplete => FrameParse::Incomplete,
            PairsParse::Malformed => FrameParse::Malformed,
        }
    } else {
        FrameParse::Malformed
    }
}

/// Parses list elements until the closing marker.
fn parse_items(s: &[u8], pos: usize) -> (r: ItemsParse)
    requires
        pos <= s@.len(),
    ensures
        items_parse_matches(r, spec_parse_items(s@, pos as int)),
    decreases s@.len() - pos, 1int,
{
    if pos == s.len() {
        ItemsParse::Incomplete
    } else if s[pos] == 101 {
        ItemsParse::Items(Vec::new(), pos + 1)
    } else {
        match parse_frame(s, pos) {
            FrameParse::Frame(v, p) => {
                if p <= pos || p > s.len() {
                    ItemsParse::Malformed
                } else {
                    match parse_items(s, p) {
                        ItemsParse::Items(mut l, q) => {
                            let ghost rest = l@;
                            l.insert(0, v);
                            proof {
                                lemma_list_views_index(l@);
                                lemma_list_views_index(rest);
                                assert(list_views(l@) =~= seq![frame_view(v)] + list_views(
                                    rest,
                                ));
                            }
                            ItemsParse::Items(l, q)
                        },
                        ItemsParse::Incomplete => ItemsParse::Incomplete,
                        ItemsParse::Malformed => ItemsParse::Malformed,
                    }
                }
            },
            FrameParse::Incomplete => ItemsParse::Incomplete,
            FrameParse::Malformed => ItemsParse::Malformed,
        }
    }
}

/// Parses dictionary pairs until the closing marker.
fn parse_pairs(s: &[u8], pos: usize) -> (r: PairsParse)
    requires
        pos <= s@.len(),
    ensures
        pairs_parse_matches(r, spec_parse_pairs(s@, pos as int)),
    decreases s@.len() - pos, 1int,
{
    if pos == s.len() {
        PairsParse::Incomplete
    } else if s[pos] == 101 {
        PairsParse::Pairs(Vec::new(), pos + 1)
    } else {
        match parse_frame(s, pos) {
            FrameParse::Frame(k, p1) => {
                if p1 <= pos || p1 > s.len() {
                    PairsParse::Malformed
                } else {
                    match parse_frame(s, p1) {
                        FrameParse::Frame(w, p2) => {
                            if p2 <= p1 || p2 > s.len() {
                                PairsParse::Malformed
                            } else {
                                match parse_pairs(s, p2) {
                                    PairsParse::Pairs(mut d, q) => {
                                        let ghost rest = d@;
                                        d.insert(0, (k, w));
                                        proof {
                                            lemma_pair_views_index(d@);
                                            lemma_pair_views_index(rest);
                                            assert(pair_views(d@) =~= seq![
                                                (frame_view(d@[0].0), frame_view(d@[0].1)),
                                            ] + pair_views(rest));
                                        }
                                        PairsParse::Pairs(d, q)
                                    },
                                    PairsParse::Incomplete => PairsParse::Incomplete,
                                    PairsParse::Malformed => PairsParse::Malformed,
                                }
                            }
                        },
                        FrameParse::Incomplete => PairsParse::Incomplete,
                        FrameParse::Malformed => PairsParse::Malformed,
                    }
                }
            },
            FrameParse::Incomplete => PairsParse::Incomplete,
            FrameParse::Malformed => PairsParse::Malformed,
        }
    }
}

/// A parsed frame always makes progress and stays inside the buffer.
pub proof fn lemma_parse_frame_bounds(s: Seq<u8>, pos: int)
    ensures
        spec_parse_frame(s, pos) matches SpecParse::Frame(v, p) ==> pos < p <= s.len(),
    decreases s.len() - pos, 0int,
{
    if 0 <= pos < s.len() {
        if s[pos] == 105 {
            let pb = pos + 1;
            let neg = pb < s.len() && s[pb] == 45;
            let q: int = if neg {
                pb + 1
            } else {
                pb
            };
            lemma_digits_end(s, q);
            let e = digits_end(s, q);
            match spec_parse_int_body(s, pb) {
                SpecParse::Frame(v, p) => {
                    assert(e != q);
                    assert(e < s.len());
                    assert(p == e + 1);
                },
                _ => {},
            }
        } else if is_digit_byte(s[pos]) {
            lemma_digits_end(s, pos);
            let e = digits_end(s, pos);
            match spec_parse_bytes(s, pos) {
                SpecParse::Frame(v, p) => {
                    assert(e < s.len());
                    assert(p == e + 1 + digits_val(s, pos, e));
                    lemma_digits_val_bounds(s, pos, e);
                },
                _ => {},
            }
        } else if s[pos] == 108 {
            lemma_parse_items_bounds(s, pos + 1);
        } else if s[pos] == 100 {
            lemma_parse_pairs_bounds(s, pos + 1);
        }
    }
}

proof fn lemma_parse_items_bounds(s: Seq<u8>, pos: int)
    ensures
        spec_parse_items(s, pos) matches SpecItems::Items(l, p) ==> pos < p <= s.len(),
    decreases s.len() - pos, 1int,
{
    if 0 <= pos < s.len() && s[pos] != 101 {
        lemma_parse_frame_bounds(s, pos);
        match spec_parse_frame(s, pos) {
            SpecParse::Frame(v, p) => {
                if pos < p <= s.len() {
                    lemma_parse_items_bounds(s, p);
                }
            },
            _ => {},
        }
    }
}

proof fn lemma_parse_pairs_bounds(s: Seq<u8>, pos: int)
    ensures
        spec_parse_pairs(s, pos) matches SpecPairs::Pairs(d, p) ==> pos < p <= s.len(),
    decreases s.len() - pos, 1int,
{
    if 0 <= pos < s.len() && s[pos] != 101 {
        lemma_parse_frame_bounds(s, pos);
        match spec_parse_frame(s, pos) {
            SpecParse::Frame(k, p1) => {
                if pos < p1 <= s.len() {
                    lemma_parse_frame_bounds(s, p1);
                    match spec_parse_frame(s, p1) {
                        SpecParse::Frame(w, p2) => {
                            if p1 < p2 <= s.len() {
                                lemma_parse_pairs_bounds(s, p2);
                            }
                        },
                        _ => {},
                    }
                }
            },
            _ => {},
        }
    }
}

/// Every byte of a decimal rendering is a digit, and there is at
/// least one.
proof fn lemma_spec_digits_shape(n: nat)
    ensures
        spec_digits(n).len() >= 1,
        forall|k: int| 0 <= k < spec_digits(n).len() ==> is_digit_byte(#[trigger] spec_digits(n)[k]),
        n > 0 ==> spec_digits(n)[0] != 48,
        n == 0 ==> spec_digits(n) =~= seq![48u8],
        n < 10 ==> spec_digits(n).len() == 1,
    decreases n,
{
    if n >= 10 {
        lemma_spec_digits_shape(n / 10);
    }
}

/// Bytes of a slice equality, read pointwise.
proof fn lemma_subrange_pointwise(s: Seq<u8>, pos: int, part: Seq<u8>)
    requires
        0 <= pos,
        pos + part.len() <= s.len(),
        s.subrange(pos, pos + part.len()) == part,
    ensures
        forall|k: int| 0 <= k < part.len() ==> s[pos + k] == part[k],
{
    assert forall|k: int| 0 <= k < part.len() implies s[pos + k] == part[k] by {
        assert(s.subrange(pos, pos + part.len() as int)[k] == s[pos + k]);
    }
}

/// Pointwise byte equality, folded back into a slice equality.
proof fn lemma_pointwise_subrange(s: Seq<u8>, pos: int, part: Seq<u8>)
    requires
        0 <= pos,
        pos + part.len() <= s.len(),
        forall|k: int| 0 <= k < part.len() ==> s[pos + k] == part[k],
    ensures
        s.subrange(pos, pos + part.len()) == part,
{
    assert forall|k: int| 0 <= k < part.len() implies s.subrange(pos, pos + part.len() as int)[k]
        == part[k] by {
        assert(s.subrange(pos, pos + part.len() as int)[k] == s[pos + k]);
    }
    assert(s.subrange(pos, pos + part.len()) =~= part);
}

/// How a concatenation is indexed.
proof fn lemma_concat_index(a: Seq<u8>, b: Seq<u8>)
    ensures
        (a + b).len() == a.len() + b.len(),
        forall|k: int| 0 <= k < a.len() ==> #[trigger] (a + b)[k] == a[k],
        forall|k: int| a.len() <= k < a.len() + b.len() ==> #[trigger] (a + b)[k] == b[k - a.len()],
{
}

/// A digit run laid down by `spec_digits` reads back as the number it
/// came from.
proof fn lemma_digits_val_of_spec_digits(n: nat, s: Seq<u8>, from: int)
    requires
        0 <= from,
        from + spec_digits(n).len() <= s.len(),
        s.subrange(from, from + spec_digits(n).len()) == spec_digits(n),
    ensures
        digits_val(s, from, from + spec_digits(n).len()) == n,
    decreases n,
{
    let d = spec_digits(n);
    let to = from + d.len();
    lemma_subrange_pointwise(s, from, d);
    assert(s[from + 0] == d[0]);
    if n < 10 {
        assert(d[0] == (48 + n) as u8);
        assert(to - 1 == from);
        assert(digits_val(s, from, to) == digits_val(s, from, to - 1) * 10 + (s[to - 1] - 48));
    } else {
        let dq = spec_digits(n / 10);
        assert(d == dq.push((48 + n % 10) as u8));
        assert forall|k: int| 0 <= k < dq.len() implies s.subrange(from, from + dq.len() as int)[k]
            == dq[k] by {
            assert(s.subrange(from, from + dq.len() as int)[k] == s[from + k]);
            assert(d[k] == dq[k]);
        }
        assert(s.subrange(from, from + dq.len() as int) =~= dq);
        lemma_digits_val_of_spec_digits(n / 10, s, from);
        assert(s[from + (d.len() - 1)] == d[d.len() - 1]);
        assert(to - 1 == from + (d.len() - 1));
        assert(d[d.len() - 1] == (48 + n % 10) as u8);
        assert(digits_val(s, from, to) == digits_val(s, from, to - 1) * 10 + (s[to - 1] - 48));
    }
}

/// A run of digits bounded by a non-digit ends exactly at that bound.
proof fn lemma_digits_end_of_run(s: Seq<u8>, pos: int, end: int)
    requires
        0 <= pos <= end <= s.len(),
        forall|k: int| pos <= k < end ==> is_digit_byte(#[trigger] s[k]),
        end < s.len() ==> !is_digit_byte(s[end]),
    ensures
        digits_end(s, pos) == end,
    decreases end - pos,
{
    if pos < end {
        lemma_digits_end_of_run(s, pos + 1, end);
    }
}

/// The first byte of any encoded frame: a marker or a digit, never a
/// closing `e`.
proof fn lemma_encode_first_byte(v: FrameV)
    ensures
        spec_encode_frame(v).len() >= 1,
        spec_encode_frame(v)[0] == 105 || spec_encode_frame(v)[0] == 108 || spec_encode_frame(v)[0]
            == 100 || is_digit_byte(spec_encode_frame(v)[0]),
{
    match v {
        FrameV::Int(i) => {
            lemma_concat_index(seq![105u8] + spec_int_literal(i), seq![101u8]);
            lemma_concat_index(seq![105u8], spec_int_literal(i));
        },
        FrameV::Bytes(b) => {
            lemma_spec_digits_shape(b.len());
            lemma_concat_index(spec_digits(b.len()) + seq![58u8], b);
            lemma_concat_index(spec_digits(b.len()), seq![58u8]);
            assert(spec_encode_frame(v)[0] == spec_digits(b.len())[0]);
        },
        FrameV::List(l) => {
            lemma_concat_index(seq![108u8] + spec_encode_items(l), seq![101u8]);
            lemma_concat_index(seq![108u8], spec_encode_items(l));
        },
        FrameV::Dict(d) => {
            lemma_concat_index(seq![100u8] + spec_encode_pairs(d), seq![101u8]);
            lemma_concat_index(seq![100u8], spec_encode_pairs(d));
        },
    }
}

/// Parsing starts over the bytes of an encoded frame and yields that
/// frame, leaving the position just past its encoding.
pub proof fn lemma_parse_of_encoded(v: FrameV, s: Seq<u8>, pos: int)
    requires
        frame_wf(v),
        0 <= pos,
        pos + spec_encode_frame(v).len() <= s.len(),
        s.subrange(pos, pos + spec_encode_frame(v).len() as int) == spec_encode_frame(v),
    ensures
        spec_parse_frame(s, pos) == SpecParse::Frame(v, pos + spec_encode_frame(v).len()),
    decreases v, 0int,
{
    let enc = spec_encode_frame(v);
    lemma_subrange_pointwise(s, pos, enc);
    match v {
        FrameV::Int(i) => {
            let neg = i < 0;
            let mag: nat = if i < 0 {
                (-i) as nat
            } else {
                i as nat
            };
            let lit = spec_int_literal(i);
            let d = spec_digits(mag);
            lemma_spec_digits_shape(mag);
            lemma_concat_index(seq![105u8] + lit, seq![101u8]);
            lemma_concat_index(seq![105u8], lit);
            if neg {
                lemma_concat_index(seq![45u8], d);
            }
            let off: int = if neg {
                2
            } else {
                1
            };
            let q: int = pos + off;
            let e: int = q + d.len();
            assert(enc[0] == 105);
            assert(s[pos + 0] == enc[0]);
            assert(enc[enc.len() - 1] == 101);
            assert(s[pos + (enc.len() - 1)] == 101);
            assert(e == pos + (enc.len() - 1));
            if neg {
                assert(enc[1] == lit[0]);
                assert(lit[0] == 45);
                assert(s[pos + 1] == 45);
            } else {
                assert(enc[1] == lit[0]);
                assert(lit[0] == d[0]);
                assert(s[pos + 1] == d[0]);
                assert(is_digit_byte(s[pos + 1]));
                assert(s[pos + 1] != 45);
            }
            assert forall|k: int| 0 <= k < d.len() implies s[q + k] == d[k] by {
                assert(s[pos + (off + k)] == enc[off + k]);
                assert(enc[off + k] == lit[off - 1 + k]);
                if neg {
                    assert(lit[1 + k] == d[k]);
                } else {
                    assert(lit[k] == d[k]);
                }
            }
            assert forall|k: int| q <= k < e implies is_digit_byte(#[trigger] s[k]) by {
                assert(s[q + (k - q)] == d[k - q]);
            }
            lemma_digits_end_of_run(s, q, e);
            lemma_pointwise_subrange(s, q, d);
            lemma_digits_val_of_spec_digits(mag, s, q);
            assert(s[q + 0] == d[0]);
            if mag == 0 {
                assert(d.len() == 1);
            } else {
                assert(d[0] != 48);
            }
            assert(spec_parse_int_body(s, pos + 1) == SpecParse::Frame(FrameV::Int(i), e + 1));
            assert(spec_parse_frame(s, pos) == SpecParse::Frame(v, pos + enc.len()));
        },
        FrameV::Bytes(b) => {
            let d = spec_digits(b.len());
            lemma_spec_digits_shape(b.len());
            lemma_concat_index(d + seq![58u8], b);
            lemma_concat_index(d, seq![58u8]);
            let e: int = pos + d.len();
            assert forall|k: int| 0 <= k < d.len() implies s[pos + k] == d[k] by {
                assert(s[pos + k] == enc[k]);
                assert(enc[k] == (d + seq![58u8])[k]);
            }
            assert forall|k: int| pos <= k < e implies is_digit_byte(#[trigger] s[k]) by {
                assert(s[pos + (k - pos)] == d[k - pos]);
            }
            assert(enc[d.len() as int] == (d + seq![58u8])[d.len() as int]);
            assert(s[pos + d.len()] == 58);
            lemma_digits_end_of_run(s, pos, e);
            lemma_pointwise_subrange(s, pos, d);
            lemma_digits_val_of_spec_digits(b.len(), s, pos);
            assert forall|k: int| 0 <= k < b.len() implies s[e + 1 + k] == b[k] by {
                assert(s[pos + (d.len() + 1 + k)] == enc[d.len() + 1 + k]);
                assert(enc[d.len() + 1 + k] == b[k]);
            }
            lemma_pointwise_subrange(s, e + 1, b);
            assert(s[pos + 0] == d[0]);
            assert(is_digit_byte(s[pos]) && s[pos] != 105);
            if b.len() == 0 {
                assert(d.len() == 1);
            } else {
                assert(d[0] != 48);
            }
            assert(spec_parse_bytes(s, pos) == SpecParse::Frame(FrameV::Bytes(b), pos + enc.len()));
            assert(spec_parse_frame(s, pos) == SpecParse::Frame(v, pos + enc.len()));
        },
        FrameV::List(l) => {
            let body = spec_encode_items(l);
            lemma_concat_index(seq![108u8] + body, seq![101u8]);
            lemma_concat_index(seq![108u8], body);
            assert(enc[0] == 108);
            assert(s[pos + 0] == 108);
            assert(!is_digit_byte(108u8));
            assert forall|k: int| 0 <= k < body.len() implies s[pos + 1 + k] == body[k] by {
                assert(s[pos + (1 + k)] == enc[1 + k]);
                assert(enc[1 + k] == (seq![108u8] + body)[1 + k]);
            }
            lemma_pointwise_subrange(s, pos + 1, body);
            assert(enc[enc.len() - 1] == 101);
            assert(s[pos + (enc.len() - 1)] == 101);
            assert(pos + 1 + body.len() == pos + (enc.len() - 1));
            lemma_parse_items_of_encoded(l, s, pos + 1);
            assert(spec_parse_frame(s, pos) == SpecParse::Frame(v, pos + enc.len()));
        },
        FrameV::Dict(d) => {
            let body = spec_encode_pairs(d);
            lemma_concat_index(seq![100u8] + body, seq![101u8]);
            lemma_concat_index(seq![100u8], body);
            assert(enc[0] == 100);
            assert(s[pos + 0] == 100);
            assert(!is_digit_byte(100u8));
            assert forall|k: int| 0 <= k < body.len() implies s[pos + 1 + k] == body[k] by {
                assert(s[pos + (1 + k)] == enc[1 + k]);
                assert(enc[1 + k] == (seq![100u8] + body)[1 + k]);
            }
            lemma_pointwise_subrange(s, pos + 1, body);
            assert(enc[enc.len() - 1] == 101);
            assert(s[pos + (enc.len() - 1)] == 101);
            assert(pos + 1 + body.len() == pos + (enc.len() - 1));
            lemma_parse_pairs_of_encoded(d, s, pos + 1);
            assert(spec_parse_frame(s, pos) == SpecParse::Frame(v, pos + enc.len()));
        },
    }
}

/// Parsing a list body laid down by the encoder yields the encoded
/// elements and stops just past the closing marker.
proof fn lemma_parse_items_of_encoded(l: Seq<FrameV>, s: Seq<u8>, pos: int)
    requires
        forall|i: int| 0 <= i < l.len() ==> frame_wf(#[trigger] l[i]),
        0 <= pos,
        pos + spec_encode_items(l).len() + 1 <= s.len(),
        s.subrange(pos, pos + spec_encode_items(l).len()) == spec_encode_items(l),
        s[pos + spec_encode_items(l).len()] == 101,
    ensures
        spec_parse_items(s, pos) == SpecItems::Items(l, pos + spec_encode_items(l).len() + 1),
    decreases l, 1int,
{
    let body = spec_encode_items(l);
    lemma_subrange_pointwise(s, pos, body);
    if l.len() == 0 {
        assert(s[pos] == 101);
        assert(spec_parse_items(s, pos) == SpecItems::Items(Seq::<FrameV>::empty(), pos + 1));
        assert(l =~= Seq::<FrameV>::empty());
    } else {
        let head = spec_encode_frame(l[0]);
        let rest = spec_encode_items(l.skip(1));
        assert(body == head + rest);
        lemma_concat_index(head, rest);
        lemma_encode_first_byte(l[0]);
        assert forall|k: int| 0 <= k < head.len() implies s[pos + k] == head[k] by {
            assert(s[pos + k] == body[k]);
        }
        assert(s[pos + 0] == head[0]);
        assert(s[pos] != 101);
        lemma_pointwise_subrange(s, pos, head);
        lemma_parse_of_encoded(l[0], s, pos);
        let p = pos + head.len();
        assert forall|k: int| 0 <= k < rest.len() implies s[p + k] == rest[k] by {
            assert(s[pos + (head.len() + k)] == body[head.len() + k]);
            assert(body[head.len() + k] == rest[k]);
        }
        lemma_pointwise_subrange(s, p, rest);
        assert(p + rest.len() == pos + body.len());
        assert(s[p + rest.len()] == 101);
        lemma_parse_items_of_encoded(l.skip(1), s, p);
        assert(seq![l[0]] + l.skip(1) =~= l);
        assert(spec_parse_items(s, pos) == SpecItems::Items(
            l,
            pos + spec_encode_items(l).len() + 1,
        ));
    }
}

/// Parsing a dictionary body laid down by the encoder yields the
/// encoded pairs and stops just past the closing marker.
proof fn lemma_parse_pairs_of_encoded(d: Seq<(FrameV, FrameV)>, s: Seq<u8>, pos: int)
    requires
        forall|i: int| 0 <= i < d.len() ==> frame_wf((#[trigger] d[i]).0) && frame_wf(d[i].1),
        0 <= pos,
        pos + spec_encode_pairs(d).len() + 1 <= s.len(),
        s.subrange(pos, pos + spec_encode_pairs(d).len()) == spec_encode_pairs(d),
        s[pos + spec_encode_pairs(d).len()] == 101,
    ensures
        spec_parse_pairs(s, pos) == SpecPairs::Pairs(d, pos + spec_encode_pairs(d).len() + 1),
    decreases d, 1int,
{
    let body = spec_encode_pairs(d);
    lemma_subrange_pointwise(s, pos, body);
    if d.len() == 0 {
        assert(s[pos] == 101);
        assert(spec_parse_pairs(s, pos) == SpecPairs::Pairs(
            Seq::<(FrameV, FrameV)>::empty(),
            pos + 1,
        ));
        assert(d =~= Seq::<(FrameV, FrameV)>::empty());
    } else {
        let ke = spec_encode_frame(d[0].0);
        let we = spec_encode_frame(d[0].1);
        let rest = spec_encode_pairs(d.skip(1));
        assert(body == ke + we + rest);
        lemma_concat_index(ke + we, rest);
        lemma_concat_index(ke, we);
        lemma_encode_first_byte(d[0].0);
        assert forall|k: int| 0 <= k < ke.len() implies s[pos + k] == ke[k] by {
            assert(s[pos + k] == body[k]);
            assert(body[k] == (ke + we)[k]);
        }
        assert(s[pos + 0] == ke[0]);
        assert(s[pos] != 101);
        lemma_pointwise_subrange(s, pos, ke);
        lemma_parse_of_encoded(d[0].0, s, pos);
        let p1 = pos + ke.len();
        assert forall|k: int| 0 <= k < we.len() implies s[p1 + k] == we[k] by {
            assert(s[pos + (ke.len() + k)] == body[ke.len() + k]);
            assert(body[ke.len() + k] == (ke + we)[ke.len() + k]);
        }
        lemma_pointwise_subrange(s, p1, we);
        lemma_parse_of_encoded(d[0].1, s, p1);
        let p2 = p1 + we.len();
        assert forall|k: int| 0 <= k < rest.len() implies s[p2 + k] == rest[k] by {
            assert(s[pos + (ke.len() + we.len() + k)] == body[ke.len() + we.len() + k]);
            assert(body[ke.len() + we.len() + k] == rest[k]);
        }
        lemma_pointwise_subrange(s, p2, rest);
        assert(p2 + rest.len() == pos + body.len());
        assert(s[p2 + rest.len()] == 101);
        lemma_parse_pairs_of_encoded(d.skip(1), s, p2);
        assert(seq![(d[0].0, d[0].1)] + d.skip(1) =~= d);
        assert(spec_parse_pairs(s, pos) == SpecPairs::Pairs(
            d,
            pos + spec_encode_pairs(d).len() + 1,
        ));
    }
}

/// Every frame the executable layer builds is well formed.
pub proof fn lemma_frame_view_wf(v: FrameValue)
    ensures
        frame_wf(frame_view(v)),
    decreases v, 1int,
{
    match v {
        FrameValue::Int(i) => {
            assert(frame_view(v) == FrameV::Int(i as int));
        },
        FrameValue::Bytes(b) => {
            assert(frame_view(v) == FrameV::Bytes(b@));
        },
        FrameValue::List(l) => {
            lemma_seq_views_wf(l@);
            assert(frame_view(v) == FrameV::List(list_views(l@)));
        },
        FrameValue::Dict(d) => {
            lemma_pair_seq_views_wf(d@);
            assert(frame_view(v) == FrameV::Dict(pair_views(d@)));
        },
    }
}

proof fn lemma_seq_views_wf(l: Seq<FrameValue>)
    ensures
        forall|i: int| 0 <= i < list_views(l).len() ==> frame_wf(#[trigger] list_views(l)[i]),
    decreases l, 0int,
{
    lemma_list_views_index(l);
    if l.len() > 0 {
        lemma_frame_view_wf(l[0]);
        lemma_seq_views_wf(l.skip(1));
        lemma_list_views_index(l.skip(1));
        assert forall|i: int| 0 <= i < list_views(l).len() implies frame_wf(
            #[trigger] list_views(l)[i],
        ) by {
            if i > 0 {
                assert(list_views(l)[i] == frame_view(l[i]));
                assert(l.skip(1)[i - 1] == l[i]);
                assert(list_views(l.skip(1))[i - 1] == frame_view(l.skip(1)[i - 1]));
            }
        }
    }
}

proof fn lemma_pair_seq_views_wf(d: Seq<(FrameValue, FrameValue)>)
    ensures
        forall|i: int|
            0 <= i < pair_views(d).len() ==> frame_wf((#[trigger] pair_views(d)[i]).0) && frame_wf(
                pair_views(d)[i].1,
            ),
    decreases d, 0int,
{
    lemma_pair_views_index(d);
    if d.len() > 0 {
        lemma_frame_view_wf(d[0].0);
        lemma_frame_view_wf(d[0].1);
        lemma_pair_seq_views_wf(d.skip(1));
        lemma_pair_views_index(d.skip(1));
        assert forall|i: int| 0 <= i < pair_views(d).len() implies frame_wf(
            (#[trigger] pair_views(d)[i]).0,
        ) && frame_wf(pair_views(d)[i].1) by {
            if i > 0 {
                assert(pair_views(d)[i] == (frame_view(d[i].0), frame_view(d[i].1)));
                assert(d.skip(1)[i - 1] == d[i]);
            }
        }
    }
}

/// Round trip: the encoded bytes of any representable frame, however
/// they are followed, parse back to exactly that frame.
pub proof fn lemma_encode_parse_round_trip(v: FrameV, rest: Seq<u8>)
    requires
        frame_wf(v),
    ensures
        spec_parse_frame(spec_encode_frame(v) + rest, 0) == SpecParse::Frame(
            v,
            spec_encode_frame(v).len() as int,
        ),
{
    let s = spec_encode_frame(v) + rest;
    assert(s.subrange(0, spec_encode_frame(v).len() as int) =~= spec_encode_frame(v));
    lemma_parse_of_encoded(v, s, 0);
}


} // verus!
