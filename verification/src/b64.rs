use base64::Engine;
use vstd::prelude::*;

verus! {

use crate::asciitext::{ascii_chars, json_safe_byte};

/// What base64's URL-safe no-padding engine returns for a byte sequence,
/// as the bytes of the encoded text.
pub uninterp spec fn b64_of(b: Seq<u8>) -> Seq<u8>;

/// True of a byte of the URL-safe base64 alphabet.
pub open spec fn b64_byte(x: u8) -> bool {
    (0x41 <= x && x <= 0x5a) || (0x61 <= x && x <= 0x7a) || (0x30 <= x && x <= 0x39) || x
        == 0x2d || x == 0x5f
}

/// True of a byte sequence written in the URL-safe base64 alphabet.
pub open spec fn b64_bytes(s: Seq<u8>) -> bool {
    forall|i: int| 0 <= i < s.len() ==> b64_byte(#[trigger] s[i])
}

/// Every alphabet byte is printable ASCII, no quote, no backslash, and no
/// dot: an encoded segment can sit inside a JSON string and between the
/// dots of a compact token without clashing with either.
pub proof fn lemma_b64_byte_safe(x: u8)
    requires
        b64_byte(x),
    ensures
        json_safe_byte(x),
        x != 0x2e,
        x < 0x80,
{
}

/// True of a character of the URL-safe base64 alphabet.
pub open spec fn b64_char(c: char) -> bool {
    ('A' <= c && c <= 'Z') || ('a' <= c && c <= 'z') || ('0' <= c && c <= '9') || c == '-'
        || c == '_'
}

/// A byte sequence whose characters, read as ASCII, lie in the alphabet
/// lies in the alphabet itself.
pub proof fn lemma_b64_chars_bytes(b: Seq<u8>)
    requires
        forall|i: int| 0 <= i < b.len() ==> b64_char(#[trigger] ascii_chars(b)[i]),
    ensures
        b64_bytes(b),
{
    assert forall|i: int| 0 <= i < b.len() implies b64_byte(#[trigger] b[i]) by {
        let c = b[i] as char;
        assert(ascii_chars(b)[i] == c);
        assert(b64_char(c));
        assert('\0' <= c <= '\u{ff}');
        assert((b[i] as char) as u8 == b[i]);
        if 'A' <= c && c <= 'Z' {
            assert(('A' as u8) <= c as u8 <= ('Z' as u8));
        } else if 'a' <= c && c <= 'z' {
            assert(('a' as u8) <= c as u8 <= ('z' as u8));
        } else if '0' <= c && c <= '9' {
            assert(('0' as u8) <= c as u8 <= ('9' as u8));
        }
    }
}

/// Relies on base64::engine::general_purpose::URL_SAFE_NO_PAD.encode: the
/// result is a function of the input bytes alone, written in the URL-safe
/// alphabet (A-Z, a-z, 0-9, '-', '_'), without padding, four characters
/// for every three input bytes and two or three for a trailing one or
/// two.
#[verifier::external_body]
pub fn b64e(input: &[u8]) -> (r: String)
    ensures
        r@ == ascii_chars(b64_of(input@)),
        forall|i: int| 0 <= i < r@.len() ==> b64_char(#[trigger] r@[i]),
        r@.len() == (input@.len() * 4 + 2) / 3,
{
    base64::engine::general_purpose::URL_SAFE_NO_PAD.encode(input)
}

/// Relies on base64::engine::general_purpose::URL_SAFE_NO_PAD.decode: this
/// engine refuses padding characters and non-zero trailing bits, so it
/// succeeds exactly on the canonical encoding of some byte sequence, and
/// then returns that sequence.
#[verifier::external_body]
pub fn b64d(input: &[u8]) -> (r: Option<Vec<u8>>)
    ensures
        r is None ==> (forall|b: Seq<u8>| input@ != b64_of(b)),
        r matches Some(v) ==> input@ == b64_of(v@) && b64_bytes(input@) && (forall|b: Seq<u8>|
            input@ == b64_of(b) ==> b == v@),
{
    base64::engine::general_purpose::URL_SAFE_NO_PAD.decode(input).ok()
}

} // verus!
