use vstd::prelude::*;

verus! {

use crate::{json_safe, json_safe_char};
use vstd::string::StringSliceAdditionalSpecFns;

/// True of a character sequence that holds ASCII characters only.
pub open spec fn ascii_seq(s: Seq<char>) -> bool {
    vstd::utf8::is_ascii_chars(s)
}

/// The bytes of an ASCII character sequence, one byte per character.
pub open spec fn ascii_bytes(s: Seq<char>) -> Seq<u8> {
    Seq::new(s.len(), |i: int| s[i] as u8)
}

/// The characters of a byte sequence read as ASCII, one character per byte.
pub open spec fn ascii_chars(b: Seq<u8>) -> Seq<char> {
    Seq::new(b.len(), |i: int| b[i] as char)
}

/// True of a byte that may stand unescaped inside a JSON string.
pub open spec fn json_safe_byte(b: u8) -> bool {
    0x20 <= b && b < 0x7f && b != 0x22 && b != 0x5c
}

/// True of a byte sequence all of whose bytes are safe inside a JSON string.
pub open spec fn json_safe_bytes(b: Seq<u8>) -> bool {
    forall|i: int| 0 <= i < b.len() ==> json_safe_byte(#[trigger] b[i])
}

pub proof fn lemma_ascii_chars_of_bytes(s: Seq<char>)
    requires
        ascii_seq(s),
    ensures
        ascii_chars(ascii_bytes(s)) == s,
{
    assert forall|i: int| 0 <= i < s.len() implies ascii_chars(ascii_bytes(s))[i] == s[i] by {
        let c = s[i];
        assert('\0' <= c <= '\u{7f}');
        assert((c as u8) as char == c);
    }
    assert(ascii_chars(ascii_bytes(s)) =~= s);
}

pub proof fn lemma_ascii_bytes_of_chars(b: Seq<u8>)
    requires
        forall|i: int| 0 <= i < b.len() ==> (#[trigger] b[i]) < 0x80,
    ensures
        ascii_bytes(ascii_chars(b)) == b,
        ascii_seq(ascii_chars(b)),
{
    assert forall|i: int| 0 <= i < b.len() implies ascii_bytes(ascii_chars(b))[i] == b[i] by {
        assert((b[i] as char) as u8 == b[i]);
    }
    assert(ascii_bytes(ascii_chars(b)) =~= b);
    assert forall|i: int| 0 <= i < ascii_chars(b).len() implies '\0' <= #[trigger] ascii_chars(
        b,
    )[i] <= '\u{7f}' by {
        assert(b[i] < 0x80);
    }
}

pub proof fn lemma_json_safe_ascii(s: Seq<char>)
    requires
        json_safe(s),
    ensures
        ascii_seq(s),
        json_safe_bytes(ascii_bytes(s)),
{
    assert forall|i: int| 0 <= i < s.len() implies '\0' <= #[trigger] s[i] <= '\u{7f}' by {
        assert(json_safe_char(s[i]));
    }
    assert forall|i: int| 0 <= i < ascii_bytes(s).len() implies json_safe_byte(
        #[trigger] ascii_bytes(s)[i],
    ) by {
        let c = s[i];
        assert(json_safe_char(c));
        assert(' ' <= c <= '~');
        if c as u8 == 0x22 {
            assert(c == '"');
        }
        if c as u8 == 0x5c {
            assert(c == '\\');
        }
    }
}

/// A sequence of JSON-safe bytes read as characters is a JSON-safe string.
pub proof fn lemma_json_safe_of_bytes(b: Seq<u8>)
    requires
        json_safe_bytes(b),
    ensures
        json_safe(ascii_chars(b)),
{
    assert forall|i: int| 0 <= i < ascii_chars(b).len() implies json_safe_char(
        #[trigger] ascii_chars(b)[i],
    ) by {
        assert(json_safe_byte(b[i]));
        let c = b[i] as char;
        assert(c as u8 == b[i]);
        if c == '"' {
            assert(b[i] == 0x22);
        }
        if c == '\\' {
            assert(b[i] == 0x5c);
        }
    }
}

/// For an ASCII character sequence the UTF-8 encoding is the one-byte-per-
/// character mapping.
pub proof fn lemma_ascii_encode_utf8(s: Seq<char>)
    requires
        ascii_seq(s),
    ensures
        vstd::utf8::encode_utf8(s) == ascii_bytes(s),
{
    vstd::utf8::is_ascii_chars_encode_utf8(s);
    assert(vstd::utf8::encode_utf8(s) =~= ascii_bytes(s));
}

/// A byte sequence below 0x80 decodes to its characters read as ASCII.
pub proof fn lemma_ascii_decode_utf8(b: Seq<u8>)
    requires
        forall|i: int| 0 <= i < b.len() ==> (#[trigger] b[i]) < 0x80,
    ensures
        vstd::utf8::decode_utf8(b) == ascii_chars(b),
        vstd::utf8::valid_utf8(b),
{
    lemma_ascii_bytes_of_chars(b);
    lemma_ascii_encode_utf8(ascii_chars(b));
    vstd::utf8::encode_utf8_valid_utf8(ascii_chars(b));
    vstd::utf8::encode_utf8_decode_utf8(ascii_chars(b));
}

/// Whether two texts hold the same characters.
pub fn str_eq(a: &str, b: &str) -> (r: bool)
    ensures
        r == (a@ == b@),
{
    proof {
        vstd::utf8::encode_utf8_decode_utf8(a@);
        vstd::utf8::encode_utf8_decode_utf8(b@);
    }
    let ab = a.as_bytes();
    let bb = b.as_bytes();
    proof {
        assert(ab@ == vstd::utf8::encode_utf8(a@));
        assert(bb@ == vstd::utf8::encode_utf8(b@));
    }
    if ab.len() != bb.len() {
        proof {
            if a@ == b@ {
                assert(vstd::utf8::encode_utf8(a@) == vstd::utf8::encode_utf8(b@));
            }
        }
        return false;
    }
    let n = ab.len();
    let mut i: usize = 0;
    while i < n
        invariant
            0 <= i <= n,
            n == ab@.len() == bb@.len(),
            ab@ == vstd::utf8::encode_utf8(a@),
            bb@ == vstd::utf8::encode_utf8(b@),
            forall|m: int| 0 <= m < i ==> ab@[m] == bb@[m],
        decreases n - i,
    {
        if ab[i] != bb[i] {
            proof {
                vstd::utf8::encode_utf8_decode_utf8(a@);
                vstd::utf8::encode_utf8_decode_utf8(b@);
                if a@ == b@ {
                    assert(vstd::utf8::encode_utf8(a@) == vstd::utf8::encode_utf8(b@));
                }
            }
            return false;
        }
        i = i + 1;
    }
    proof {
        assert(ab@ =~= bb@);
    }
    true
}

/// Whether two byte vectors hold the same bytes.
pub fn bytes_eq(a: &Vec<u8>, b: &Vec<u8>) -> (r: bool)
    ensures
        r == (a@ == b@),
{
    if a.len() != b.len() {
        return false;
    }
    let n = a.len();
    let mut i: usize = 0;
    while i < n
        invariant
            0 <= i <= n,
            n == a@.len() == b@.len(),
            forall|m: int| 0 <= m < i ==> a@[m] == b@[m],
        decreases n - i,
    {
        if a[i] != b[i] {
            return false;
        }
        i = i + 1;
    }
    proof {
        assert(a@ =~= b@);
    }
    true
}

/// The first position at or after `from` where byte `x` stands, if any.
pub fn find_byte(b: &[u8], from: usize, x: u8) -> (r: Option<usize>)
    requires
        from <= b@.len(),
    ensures
        r matches Some(p) ==> from <= p < b@.len() && b@[p as int] == x && (forall|m: int|
            from <= m < p ==> b@[m] != x),
        r is None ==> (forall|m: int| from <= m < b@.len() ==> b@[m] != x),
{
    let n = b.len();
    let mut i: usize = from;
    while i < n
        invariant
            from <= i <= n,
            n == b@.len(),
            forall|m: int| from <= m < i ==> b@[m] != x,
        decreases n - i,
    {
        if b[i] == x {
            return Some(i);
        }
        i = i + 1;
    }
    None
}

/// Relies on String::from_utf8: it succeeds exactly on valid UTF-8 and
/// returns the text those bytes encode.
#[verifier::external_body]
pub fn bytes_to_string(v: Vec<u8>) -> (r: Option<String>)
    ensures
        r matches Some(s) ==> vstd::utf8::encode_utf8(s@) == v@,
        r is None ==> !vstd::utf8::valid_utf8(v@),
{
    String::from_utf8(v).ok()
}

/// Relies on String::from_utf8: bytes below 0x80 are valid UTF-8 and decode
/// to the characters with the same code points.
#[verifier::external_body]
pub fn ascii_to_string(v: Vec<u8>) -> (r: String)
    requires
        forall|i: int| 0 <= i < v@.len() ==> (#[trigger] v@[i]) < 0x80,
    ensures
        r@ == ascii_chars(v@),
{
    String::from_utf8(v).unwrap_or_default()
}

/// The bytes of `b` from `from` (inclusive) to `to` (exclusive), as a fresh vector.
pub fn sub_vec(b: &[u8], from: usize, to: usize) -> (r: Vec<u8>)
    requires
        from <= to <= b@.len(),
    ensures
        r@ == b@.subrange(from as int, to as int),
{
    let mut out: Vec<u8> = Vec::new();
    let mut i: usize = from;
    while i < to
        invariant
            from <= i <= to <= b@.len(),
            out@ == b@.subrange(from as int, i as int),
        decreases to - i,
    {
        out.push(b[i]);
        i = i + 1;
        proof {
            assert(out@ =~= b@.subrange(from as int, i as int));
        }
    }
    out
}

} // verus!
