use vstd::prelude::*;

verus! {

use crate::asciitext::ascii_chars;
use crate::b64::{b64_of, b64e, b64_char};

/// The BLAKE3 hash of a byte sequence: a function of the bytes alone.
pub uninterp spec fn blake3_of(data: Seq<u8>) -> Seq<u8>;

/// Relies on blake3::hash: deterministic, with a 32-byte result.
#[verifier::external_body]
fn blake3_hash(data: &[u8]) -> (r: Vec<u8>)
    ensures
        r@ == blake3_of(data@),
        r@.len() == 32,
{
    blake3::hash(data).as_bytes().to_vec()
}

/// The BLAKE3 digest of `data`, URL-safe base64 encoded without padding:
/// 43 characters for the 32-byte hash.
pub fn blake3_b64(data: &[u8]) -> (r: String)
    ensures
        r@ == ascii_chars(b64_of(blake3_of(data@))),
        r@.len() == 43,
{
    let h = blake3_hash(data);
    b64e(h.as_slice())
}

/// The salted address binding: the BLAKE3 digest of the salt followed by
/// the address bytes, URL-safe base64 encoded without padding. A holder
/// of the address can confirm the binding; nobody can reverse it.
pub fn addr_hash_b64(salt: &[u8], addr: &str) -> (r: String)
    ensures
        r@ == ascii_chars(
            b64_of(blake3_of(salt@ + vstd::utf8::encode_utf8(addr@))),
        ),
        r@.len() == 43,
{
    let mut joined: Vec<u8> = Vec::new();
    joined.extend_from_slice(salt);
    joined.extend_from_slice(addr.as_bytes());
    proof {
        assert(joined@ =~= salt@ + vstd::utf8::encode_utf8(addr@));
    }
    let h = blake3_hash(joined.as_slice());
    b64e(h.as_slice())
}

/// Relies on uuid::Uuid::new_v4 and its hyphenated text form: whatever
/// identifier comes out, its text is 36 characters of hexadecimal digits
/// and hyphens.
#[verifier::external_body]
pub fn new_ack_id() -> (r: String)
    ensures
        r@.len() == 36,
        forall|i: int| 0 <= i < r@.len() ==> b64_char(#[trigger] r@[i]) || r@[i] == '-',
{
    uuid::Uuid::new_v4().to_string()
}

} // verus!
