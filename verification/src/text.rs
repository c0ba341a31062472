//! Turning decoded bytes into text.

use vstd::prelude::*;
use vstd::utf8::{decode_utf8, valid_utf8};

verus! {

/// The text that lossy UTF-8 decoding makes of `bytes`: the text itself where
/// the bytes are valid UTF-8, and otherwise a rendering in which the
/// replacement character U+FFFD stands for what cannot be decoded.
pub uninterp spec fn lossy_text(bytes: Seq<u8>) -> Seq<char>;

/// The text that decoding makes of `bytes`: what they encode where they are
/// valid UTF-8, and their lossy rendering otherwise.
pub open spec fn decoded_text(bytes: Seq<u8>) -> Seq<char> {
    if valid_utf8(bytes) {
        decode_utf8(bytes)
    } else {
        lossy_text(bytes)
    }
}

/// Decodes `bytes` with the standard library's `String::from_utf8_lossy`.
///
/// Trusted, not proved: the result is a function of the bytes alone, named
/// `lossy_text`; and, as the standard library documents, bytes that are valid
/// UTF-8 come back as the very text they encode.
#[verifier::external_body]
pub(crate) fn text_from_bytes(bytes: &Vec<u8>) -> (text: String)
    ensures
        text@ == lossy_text(bytes@),
        valid_utf8(bytes@) ==> text@ == decode_utf8(bytes@),
{
    String::from_utf8_lossy(bytes.as_slice()).into_owned()
}

} // verus!
