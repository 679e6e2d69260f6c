//! Small text helpers: decimal rendering of counters and the one
//! byte-to-text conversion this crate takes on trust.

use vstd::prelude::*;
use crate::bencode::spec_digits;

verus! {

/// The decimal digits of `n`, most significant first, as characters.
pub open spec fn spec_dec_chars(n: nat) -> Seq<char>
    decreases n,
{
    if n < 10 {
        seq![((48 + n) as u8) as char]
    } else {
        spec_dec_chars(n / 10).push(((48 + n % 10) as u8) as char)
    }
}

/// The decimal characters of `n` are ASCII and encode to exactly the
/// decimal bytes of `n`.
pub proof fn lemma_dec_chars_bytes(n: nat)
    ensures
        vstd::utf8::is_ascii_chars(spec_dec_chars(n)),
        vstd::utf8::encode_utf8(spec_dec_chars(n)) == spec_digits(n),
    decreases n,
{
    lemma_dec_chars_pointwise(n);
    vstd::utf8::is_ascii_chars_encode_utf8(spec_dec_chars(n));
    assert(vstd::utf8::encode_utf8(spec_dec_chars(n)) =~= spec_digits(n));
}

proof fn lemma_dec_chars_pointwise(n: nat)
    ensures
        spec_dec_chars(n).len() == spec_digits(n).len(),
        forall|i: int|
            0 <= i < spec_dec_chars(n).len() ==> (#[trigger] spec_dec_chars(n)[i]) as u8
                == spec_digits(n)[i] && '\0' <= spec_dec_chars(n)[i] <= '\u{7f}',
    decreases n,
{
    if n >= 10 {
        lemma_dec_chars_pointwise(n / 10);
    }
}

/// Turns bytes into text when they are valid UTF-8.
///
/// Relies on `String::from_utf8` of std: it succeeds exactly on valid
/// UTF-8 input and decodes it without change.
#[verifier::external_body]
pub fn utf8_to_string(b: Vec<u8>) -> (r: Option<String>)
    ensures
        r is Some <==> vstd::utf8::valid_utf8(b@),
        r matches Some(s) ==> s@ == vstd::utf8::decode_utf8(b@),
{
    String::from_utf8(b).ok()
}

/// Relies on `String::push` of std: it appends exactly the one
/// character.
pub assume_specification[ String::push ](s: &mut String, c: char)
    ensures
        final(s)@ == old(s)@.push(c),
;

/// The characters of `s`, in order.
pub fn chars_of(s: &str) -> (v: Vec<char>)
    ensures
        v@ == s@,
{
    broadcast use vstd::string::group_string_axioms;

    let mut it = s.chars();
    let mut v: Vec<char> = Vec::new();
    loop
        invariant
            vstd::std_specs::iter::IteratorSpec::obeys_prophetic_iter_laws(&it),
            v@ + vstd::std_specs::iter::IteratorSpec::remaining(&it) == s@,
        decreases s@.len() - v@.len(),
    {
        let ghost prev = v@;
        let ghost rem = vstd::std_specs::iter::IteratorSpec::remaining(&it);
        match it.next() {
            Some(c) => {
                v.push(c);
                proof {
                    assert(v@ =~= prev.push(c));
                    assert(v@ + vstd::std_specs::iter::IteratorSpec::remaining(&it) =~= s@);
                }
            },
            None => {
                proof {
                    assert(v@ + rem =~= v@);
                }
                return v;
            },
        }
    }
}

/// The text made of the characters of `v`, in order.
pub fn string_from_chars(v: &Vec<char>) -> (r: String)
    ensures
        r@ == v@,
{
    let mut out = String::new();
    let mut i: usize = 0;
    while i < v.len()
        invariant
            i <= v@.len(),
            out@ == v@.subrange(0, i as int),
        decreases v@.len() - i,
    {
        out.push(v[i]);
        assert(out@ =~= v@.subrange(0, i + 1 as int));
        i = i + 1;
    }
    proof {
        assert(v@.subrange(0, v@.len() as int) =~= v@);
    }
    out
}

/// Renders `n` in decimal.
pub fn u64_to_string(n: u64) -> (r: String)
    ensures
        r@ == spec_dec_chars(n as nat),
{
    let mut digits: Vec<u8> = Vec::new();
    crate::bencode::push_digits(n, &mut digits);
    proof {
        lemma_dec_chars_bytes(n as nat);
        vstd::utf8::encode_utf8_valid_utf8(spec_dec_chars(n as nat));
        vstd::utf8::encode_utf8_decode_utf8(spec_dec_chars(n as nat));
    }
    match utf8_to_string(digits) {
        Some(s) => s,
        None => {
            proof {
                assert(false);
            }
            String::new()
        },
    }
}

} // verus!
