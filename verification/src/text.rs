//! Conversions between bytes and text that the standard library performs.
//!
//! The functions here are the only ones in this crate that turn bytes into a
//! `String`. Their contracts restate the standard library's documentation over
//! the UTF-8 model of `vstd::utf8`; their bodies are not verified.

use vstd::prelude::*;
use vstd::utf8::*;

verus! {

/// The text that `String::from_utf8_lossy` makes of a byte sequence: the
/// decoded characters where the bytes are well-formed UTF-8, and otherwise
/// the decoded text with a replacement character in place of each malformed
/// part.
pub uninterp spec fn lossy_text(bytes: Seq<u8>) -> Seq<char>;

/// Calls `String::from_utf8`. Trusted: the call succeeds exactly on
/// well-formed UTF-8, and the string then consists of the given bytes.
#[verifier::external_body]
pub(crate) fn string_from_utf8(bytes: Vec<u8>) -> (text: Option<String>)
    ensures
        text is Some <==> valid_utf8(bytes@),
        text matches Some(s) ==> encode_utf8(s@) == bytes@,
{
    match String::from_utf8(bytes) {
        Ok(s) => Some(s),
        Err(_) => None,
    }
}

/// Calls `String::from_utf8_lossy`. Trusted: the result depends on the bytes
/// alone, and on well-formed UTF-8 it is the text that the bytes encode.
#[verifier::external_body]
pub(crate) fn string_from_utf8_lossy(bytes: &[u8]) -> (text: String)
    ensures
        text@ == lossy_text(bytes@),
        valid_utf8(bytes@) ==> text@ == decode_utf8(bytes@),
{
    String::from_utf8_lossy(bytes).into_owned()
}

} // verus!
