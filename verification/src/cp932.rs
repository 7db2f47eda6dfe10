//! CP932 (Windows-31J) text, through the `encoding` crate.

use encoding::all::WINDOWS_31J;
use encoding::{DecoderTrap, EncoderTrap, Encoding};
use vstd::prelude::*;

verus! {

/// What strict CP932 decoding of `bytes` gives, or `None` where it fails.
pub uninterp spec fn cp932_decoded(bytes: Seq<u8>) -> Option<Seq<char>>;

/// What strict CP932 encoding of `text` gives, or `None` where it fails.
pub uninterp spec fn cp932_encoded(text: Seq<char>) -> Option<Seq<u8>>;

/// Whether every byte is at most 0x80, the range CP932 maps to the same code points.
pub open spec fn is_low_bytes(bytes: Seq<u8>) -> bool {
    forall|i: int| 0 <= i < bytes.len() ==> #[trigger] bytes[i] <= 0x80
}

/// Whether every character is at most U+0080.
pub open spec fn is_low_text(text: Seq<char>) -> bool {
    forall|i: int| 0 <= i < text.len() ==> #[trigger] (text[i] as u32) <= 0x80
}

/// The characters whose code points are the given bytes.
pub open spec fn bytes_as_chars(bytes: Seq<u8>) -> Seq<char> {
    bytes.map_values(|b: u8| b as char)
}

/// The bytes whose values are the code points of the given characters.
pub open spec fn chars_as_bytes(text: Seq<char>) -> Seq<u8> {
    text.map_values(|c: char| c as u8)
}

/// Calls `Encoding::decode` of `encoding::all::WINDOWS_31J` with `DecoderTrap::Strict`.
/// Trusted: its result is `cp932_decoded` of the bytes, and bytes up to 0x80 come out as the
/// characters with the same code points (the decoder emits bytes 0x00 to 0x80 as they are).
#[verifier::external_body]
fn decode_windows_31j(bytes: &[u8]) -> (r: Option<String>)
    ensures
        r.is_some() == cp932_decoded(bytes@).is_some(),
        r.is_some() ==> cp932_decoded(bytes@) == Some(r.unwrap()@),
        is_low_bytes(bytes@) ==> r.is_some() && r.unwrap()@ == bytes_as_chars(bytes@),
{
    WINDOWS_31J.decode(bytes, DecoderTrap::Strict).ok()
}

/// Calls `Encoding::encode` of `encoding::all::WINDOWS_31J` with `EncoderTrap::Strict`.
/// Trusted: its result is `cp932_encoded` of the text, and characters up to U+0080 come out
/// as the bytes with the same values (the encoder writes them as they are).
#[verifier::external_body]
fn encode_windows_31j(text: &str) -> (r: Option<Vec<u8>>)
    ensures
        r.is_some() == cp932_encoded(text@).is_some(),
        r.is_some() ==> cp932_encoded(text@) == Some(r.unwrap()@),
        is_low_text(text@) ==> r.is_some() && r.unwrap()@ == chars_as_bytes(text@),
{
    WINDOWS_31J.encode(text, EncoderTrap::Strict).ok()
}

/// Decodes CP932 bytes into a string; `Err("CP932 decoding error")` where they are not
/// valid CP932. Bytes up to 0x80 (all of ASCII) come out unchanged.
pub fn cp932_to_utf8(bytes: &[u8]) -> (r: Result<String, &'static str>)
    ensures
        match cp932_decoded(bytes@) {
            Some(t) => r matches Ok(s) && s@ == t,
            None => r matches Err(e) && e@ == "CP932 decoding error"@,
        },
        is_low_bytes(bytes@) ==> (r matches Ok(s) && s@ == bytes_as_chars(bytes@)),
{
    match decode_windows_31j(bytes) {
        Some(s) => Ok(s),
        None => Err("CP932 decoding error"),
    }
}

/// Encodes a string as CP932; `Err("CP932 encoding error")` where a character has no
/// CP932 form. Characters up to U+0080 come out as bytes of the same value.
pub fn utf8_to_cp932(s: &str) -> (r: Result<Vec<u8>, &'static str>)
    ensures
        match cp932_encoded(s@) {
            Some(b) => r matches Ok(v) && v@ == b,
            None => r matches Err(e) && e@ == "CP932 encoding error"@,
        },
        is_low_text(s@) ==> (r matches Ok(v) && v@ == chars_as_bytes(s@)),
{
    match encode_windows_31j(s) {
        Some(b) => Ok(b),
        None => Err("CP932 encoding error"),
    }
}

} // verus!
