//! Turning a frame body into message text: gzip-compressed bodies are
//! inflated, anything else falls back to lossy text decoding.
use vstd::prelude::*;
use crate::text::{lossy_text, utf8_lossy};

verus! {

/// The text that inflating `b` as one gzip member gives, or `None` when `b`
/// is not a well-formed gzip stream of UTF-8 text.
pub uninterp spec fn gunzip_text(b: Seq<u8>) -> Option<Seq<char>>;

/// Relies on flate2's `read::GzDecoder` read to the end with
/// `Read::read_to_string`: it succeeds, with the inflated text, exactly on
/// what `gunzip_text` names, and depends on the bytes alone.
#[verifier::external_body]
fn decompress_gzipped_data(compressed: &[u8]) -> (r: Option<String>)
    ensures
        match r {
            Some(s) => gunzip_text(compressed@) == Some(s@),
            None => gunzip_text(compressed@) is None,
        },
{
    let mut gz = flate2::read::GzDecoder::new(compressed);
    let mut decompressed = String::new();
    match std::io::Read::read_to_string(&mut gz, &mut decompressed) {
        Ok(_) => Some(decompressed),
        Err(_) => None,
    }
}

/// The message for `body` given what inflating it gave: empty for an empty
/// body, the inflated text where there is one, the lossy text of the raw
/// bytes otherwise.
pub open spec fn message_from(body: Seq<u8>, inflated: Option<Seq<char>>) -> Seq<char> {
    if body.len() == 0 {
        Seq::empty()
    } else {
        match inflated {
            Some(t) => t,
            None => utf8_lossy(body),
        }
    }
}

/// The message that a frame body decodes to.
pub open spec fn message_of(body: Seq<u8>) -> Seq<char> {
    message_from(body, gunzip_text(body))
}

/// The text that an optional string holds.
pub open spec fn text_view(t: Option<String>) -> Option<Seq<char>> {
    match t {
        Some(s) => Some(s@),
        None => None,
    }
}

/// Picks the message for `body` once inflating it has given `inflated`.
pub fn select_message(body: &[u8], inflated: Option<String>) -> (r: String)
    ensures
        r@ == message_from(body@, text_view(inflated)),
{
    if body.len() == 0 {
        return String::new();
    }
    match inflated {
        Some(t) => t,
        None => lossy_text(body),
    }
}

/// Decodes a frame body into its message. Inflation is not tried on an
/// empty body; a body that does not inflate is read as lossy text.
pub fn decode_body(body: &[u8]) -> (r: String)
    ensures
        r@ == message_of(body@),
        body@.len() == 0 ==> r@.len() == 0,
        body@.len() > 0 && gunzip_text(body@) is None ==> r@ == utf8_lossy(body@),
{
    if body.len() == 0 {
        return String::new();
    }
    select_message(body, decompress_gzipped_data(body))
}

} // verus!
