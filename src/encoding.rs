//! Text encodings of byte strings used for symbol identifiers.

use base64::Engine;
use vstd::prelude::*;
use vstd::utf8::encode_utf8;

verus! {

/// The digit of the standard base64 alphabet (`A-Z`, `a-z`, `0-9`, `+`, `/`)
/// for a six-bit value.
pub open spec fn base64_digit(v: int) -> char {
    if v < 26 {
        ((65 + v) as u8) as char
    } else if v < 52 {
        ((97 + (v - 26)) as u8) as char
    } else if v < 62 {
        ((48 + (v - 52)) as u8) as char
    } else if v == 62 {
        '+'
    } else {
        '/'
    }
}

/// Standard base64 with `=` padding: each group of three bytes becomes four
/// digits; a final group of one or two bytes is padded to four characters.
pub open spec fn base64_of(b: Seq<u8>) -> Seq<char>
    decreases b.len(),
{
    if b.len() == 0 {
        Seq::empty()
    } else {
        let b0 = b[0] as int;
        let b1 = if b.len() > 1 { b[1] as int } else { 0 };
        let b2 = if b.len() > 2 { b[2] as int } else { 0 };
        let d0 = base64_digit(b0 / 4);
        let d1 = base64_digit((b0 % 4) * 16 + b1 / 16);
        let d2 = base64_digit((b1 % 16) * 4 + b2 / 64);
        let d3 = base64_digit(b2 % 64);
        if b.len() == 1 {
            seq![d0, d1, '=', '=']
        } else if b.len() == 2 {
            seq![d0, d1, d2, '=']
        } else {
            seq![d0, d1, d2, d3] + base64_of(b.subrange(3, b.len() as int))
        }
    }
}

/// Relies on base64's `STANDARD` engine (`Engine::encode`): RFC 4648 base64
/// with the `+` and `/` alphabet and `=` padding. The size computation that
/// could panic overflows only for inputs longer than any slice can be.
#[verifier::external_body]
pub(crate) fn encode_base64(b: &[u8]) -> (r: String)
    ensures
        r@ == base64_of(b@),
{
    base64::engine::general_purpose::STANDARD.encode(b)
}

/// What base32's decoder (RFC 4648 alphabet) makes of a text: its bytes, or
/// `None` when the text is not ASCII or holds a character outside the
/// alphabet. It accepts lower-case letters as upper-case ones, drops up to
/// six trailing `=`, and reads any other `=` as the digit 0.
pub uninterp spec fn base32_decoded(s: Seq<char>) -> Option<Seq<u8>>;

/// The longest text, in bytes, that is handed to the base32 decoder, whose
/// size computation multiplies the length by five.
pub const MAX_BASE32_BYTES: usize = usize::MAX / 8;

/// Relies on base32's `decode` with the RFC 4648 alphabet: the decoded
/// bytes, or `None` for a text it does not accept; the result depends on the
/// text alone.
#[verifier::external_body]
fn decode_base32(s: &str) -> (r: Option<Vec<u8>>)
    requires
        encode_utf8(s@).len() <= MAX_BASE32_BYTES,
    ensures
        r matches Some(v) ==> base32_decoded(s@) == Some(v@),
        r is None ==> base32_decoded(s@) is None,
{
    base32::decode(base32::Alphabet::RFC4648 { padding: false }, s)
}

/// The base64 form of the bytes that a base32 text holds; `None` when the
/// text is too long for the decoder or is not base32.
pub open spec fn base32_to_base64(s: Seq<char>) -> Option<Seq<char>> {
    if encode_utf8(s).len() > MAX_BASE32_BYTES {
        None
    } else {
        match base32_decoded(s) {
            Some(b) => Some(base64_of(b)),
            None => None,
        }
    }
}

/// Re-encodes a base32 text as base64.
pub fn reencode_base32_as_base64(s: &str) -> (r: Option<String>)
    ensures
        r matches Some(t) ==> base32_to_base64(s@) == Some(t@),
        r is None ==> base32_to_base64(s@) is None,
{
    let n = s.as_bytes().len();
    if n > MAX_BASE32_BYTES {
        return None;
    }
    match decode_base32(s) {
        Some(bytes) => Some(encode_base64(bytes.as_slice())),
        None => None,
    }
}

} // verus!
