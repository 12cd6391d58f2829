//! Text and its UTF-8 bytes.

use vstd::prelude::*;
use vstd::utf8::{decode_utf8, valid_utf8};

verus! {

/// The text that a byte string encodes, if it is UTF-8.
pub open spec fn text_of(b: Seq<u8>) -> Option<Seq<char>> {
    if valid_utf8(b) {
        Some(decode_utf8(b))
    } else {
        None
    }
}

/// `String::from_utf8`: a text comes out if and only if the bytes are valid UTF-8,
/// and it is the text that they encode.
#[verifier::external_body]
fn string_from_utf8(bytes: Vec<u8>) -> (text: Option<String>)
    ensures
        text is Some == valid_utf8(bytes@),
        text matches Some(s) ==> s@ == decode_utf8(bytes@),
{
    String::from_utf8(bytes).ok()
}

/// The text that a byte string encodes, if it is UTF-8.
pub fn decode_text(bytes: Vec<u8>) -> (text: Option<String>)
    ensures
        text is Some == text_of(bytes@) is Some,
        text matches Some(s) ==> text_of(bytes@) == Some(s@),
{
    string_from_utf8(bytes)
}

} // verus!
