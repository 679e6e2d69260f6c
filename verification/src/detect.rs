//! The backend detector: a universally valid probe in the framed
//! dialect's syntax, and the decision taken on the first reply byte.

use vstd::prelude::*;
use vstd::string::StringSliceAdditionalSpecFns;

verus! {

/// Which dialect the server speaks.
#[derive(Debug, PartialEq)]
pub enum BackendKind {
    /// The binary length/type-tagged dialect.
    Framed,
    /// The newline-delimited structured-text dialect.
    Line,
}

/// The probe written before any session exists: a harmless
/// evaluation request in the framed dialect's wire syntax.
pub fn detector_probe() -> (r: Vec<u8>)
    ensures
        r@ == vstd::utf8::encode_utf8("d4:code7:(+ 1 1)2:op4:evale\n"@),
{
    let probe = String::from_str("d4:code7:(+ 1 1)2:op4:evale\n");
    vstd::string::StrSliceExecFns::as_bytes_vec(probe.as_str())
}

/// Decides the backend from the first reply byte: a structured-text
/// map opener selects the line backend, a framed dictionary opener
/// selects the framed backend, anything else (or a failed read) means
/// no usable server answered.
pub fn detect_backend(first: Option<u8>) -> (r: Option<BackendKind>)
    ensures
        first == Some(123u8) ==> r == Some(BackendKind::Line),
        first == Some(100u8) ==> r == Some(BackendKind::Framed),
        (match first {
            Some(b) => b != 123 && b != 100,
            None => true,
        }) ==> r is None,
{
    match first {
        Some(b) => {
            if b == 123 {
                Some(BackendKind::Line)
            } else if b == 100 {
                Some(BackendKind::Framed)
            } else {
                None
            }
        },
        None => None,
    }
}

} // verus!
