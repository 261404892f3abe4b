//! Images that the front end hands over as base64 text (a chart exported as
//! a data URI, or bare base64): the payload and its bytes.

use base64::Engine;
use vstd::prelude::*;

use crate::brand::standard_base64;
use crate::text::{chars_of, find, push_range, push_str, str_contains, string_from};

verus! {

#[verifier::external_type_specification]
#[verifier::external_body]
pub struct ExDecodeError(base64::DecodeError);

/// What the standard base64 engine (with padding) decodes a text to, or
/// `None` when it refuses it.
pub uninterp spec fn base64_standard_decoded(text: Seq<char>) -> Option<Seq<u8>>;

/// `base64::engine::general_purpose::STANDARD.decode(text)`: the bytes, or
/// the crate's error when the text is no valid padded base64; the text that
/// standard padded base64 makes of some bytes (see
/// [`crate::brand::standard_base64`]) gives those bytes back. Which other
/// texts it accepts, and what it makes of them, is left to the name.
#[verifier::external_body]
fn base64_decode(text: &str) -> (r: Result<Vec<u8>, base64::DecodeError>)
    ensures
        match base64_standard_decoded(text@) {
            Some(b) => r matches Ok(v) && v@ == b,
            None => r is Err,
        },
        r matches Ok(v) ==> forall|x: Seq<u8>| #[trigger] standard_base64(x) == text@ ==> v@ == x,
        r is Err ==> forall|x: Seq<u8>| #[trigger] standard_base64(x) != text@,
{
    base64::engine::general_purpose::STANDARD.decode(text)
}

/// The crate's description of a decoding error (its `Display`). What it
/// says is not stated.
#[verifier::external_body]
fn decode_error_text(e: &base64::DecodeError) -> (r: String) {
    format!("{e}")
}

/// The base64 part of an image text: what follows the first `base64,` (the
/// data of a data URI), or the whole text.
pub open spec fn payload_spec(data: Seq<char>) -> Seq<char> {
    match find(data, "base64,"@) {
        Some(i) => data.skip(i + 7),
        None => data,
    }
}

pub fn base64_payload(data: &str) -> (r: String)
    ensures
        r@ == payload_spec(data@),
{
    let s = chars_of(data);
    let marker = chars_of("base64,");
    proof {
        reveal_strlit("base64,");
    }
    match crate::text::find_in(&s, 0, s.len(), marker.as_slice()) {
        Some(i) => {
            proof {
                assert(s@.subrange(0, s@.len() as int) =~= s@);
            }
            let mut out: Vec<char> = Vec::new();
            push_range(&mut out, &s, i + 7, s.len());
            proof {
                assert(out@ =~= data@.skip(i + 7));
            }
            string_from(out.as_slice())
        },
        None => {
            proof {
                assert(s@.subrange(0, s@.len() as int) =~= s@);
            }
            string_from(s.as_slice())
        },
    }
}

/// The bytes of an image text: its payload decoded (the bytes whose
/// standard base64 it is); an error naming the decoding failure when the
/// payload is no valid base64.
pub fn decode_image(data: &str) -> (r: Result<Vec<u8>, String>)
    ensures
        match base64_standard_decoded(payload_spec(data@)) {
            Some(b) => r matches Ok(v) && v@ == b,
            None => r matches Err(m) && m@.len() >= 30 && m@.take(30) == "Failed to decode base64 data: "@,
        },
        forall|x: Seq<u8>| #[trigger] standard_base64(x) == payload_spec(data@) ==> (r matches Ok(v) && v@ == x),
{
    let payload = base64_payload(data);
    match base64_decode(payload.as_str()) {
        Ok(v) => Ok(v),
        Err(e) => {
            let mut m: Vec<char> = Vec::new();
            push_str(&mut m, "Failed to decode base64 data: ");
            let text = decode_error_text(&e);
            push_str(&mut m, text.as_str());
            proof {
                reveal_strlit("Failed to decode base64 data: ");
                assert(m@.take(30) =~= "Failed to decode base64 data: "@);
            }
            Err(string_from(m.as_slice()))
        },
    }
}

} // verus!
