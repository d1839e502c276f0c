use ed25519_dalek::Signer;
use ed25519_dalek::Verifier;
use vstd::prelude::*;

verus! {

use crate::asciitext::{
    ascii_chars,
    find_byte,
    lemma_ascii_bytes_of_chars,
    lemma_ascii_decode_utf8,
    lemma_ascii_encode_utf8,
    str_eq,
    sub_vec,
};
use crate::b64::{b64_bytes, b64_of, b64d, b64e, lemma_b64_byte_safe, lemma_b64_chars_bytes};
use crate::dat::{
    DatPayload,
    JwsHeader,
    header_eq,
    header_from_json,
    header_json,
    header_to_json,
    header_wf,
    payload_eq,
    payload_from_json,
    payload_json,
    payload_to_json,
    payload_wf,
};
use crate::json_safe;
use crate::registry::KeyRegistry;
use vstd::string::StringExecFns;
use vstd::string::StringSliceAdditionalSpecFns;

/// Why an envelope was rejected.
#[derive(Debug, Clone, Copy, PartialEq, Eq, Structural)]
pub enum EnvelopeError {
    MalformedEnvelope,
    UnsupportedAlgorithm,
    UnknownKeyId,
    SignatureInvalid,
}

/// The Ed25519 signature of a message under a 32-byte signing key:
/// RFC 8032 signing is deterministic, a function of key and message alone.
pub uninterp spec fn ed_sig(sk: Seq<u8>, msg: Seq<u8>) -> Seq<u8>;

/// The verification key derived from a 32-byte Ed25519 signing key.
pub uninterp spec fn ed_vk(sk: Seq<u8>) -> Seq<u8>;

/// Whether Ed25519 verification accepts `sig` on `msg` under the
/// verification-key bytes `vk`: a function of the three byte strings
/// alone; bytes that decode to no key or no signature accept nothing.
pub uninterp spec fn ed_ok(vk: Seq<u8>, msg: Seq<u8>, sig: Seq<u8>) -> bool;

/// Relies on ed25519_dalek::SigningKey::sign: deterministic RFC 8032
/// signing with a 64-byte signature, and the signature it returns
/// verifies under the signing key's own verification key.
#[verifier::external_body]
fn ed_sign(sk: &Vec<u8>, msg: &[u8]) -> (r: Vec<u8>)
    requires
        sk@.len() == 32,
    ensures
        r@ == ed_sig(sk@, msg@),
        r@.len() == 64,
        ed_ok(ed_vk(sk@), msg@, r@),
{
    let mut kb = [0u8; 32];
    kb.copy_from_slice(sk.as_slice());
    let key = ed25519_dalek::SigningKey::from_bytes(&kb);
    key.sign(msg).to_bytes().to_vec()
}

/// Relies on ed25519_dalek::VerifyingKey::verify: the outcome is a
/// function of key bytes, message and signature bytes; bytes that are no
/// valid key or no 64-byte signature verify nothing.
#[verifier::external_body]
fn ed_check(vk: &Vec<u8>, msg: &[u8], sig: &Vec<u8>) -> (r: bool)
    ensures
        r == ed_ok(vk@, msg@, sig@),
{
    let Ok(kb): Result<[u8; 32], _> = vk.as_slice().try_into() else {
        return false;
    };
    let Ok(key) = ed25519_dalek::VerifyingKey::from_bytes(&kb) else {
        return false;
    };
    let Ok(s) = ed25519_dalek::Signature::from_slice(sig.as_slice()) else {
        return false;
    };
    key.verify(msg, &s).is_ok()
}

/// Relies on ed25519_dalek::SigningKey::generate with rand::rngs::OsRng
/// and on SigningKey::verifying_key: whatever key comes out, the returned
/// verification key is the one derived from it, and both are 32 bytes.
#[verifier::external_body]
pub fn generate_keypair() -> (r: (Vec<u8>, Vec<u8>))
    ensures
        r.0@.len() == 32,
        r.1@ == ed_vk(r.0@),
{
    let sk = ed25519_dalek::SigningKey::generate(&mut rand::rngs::OsRng);
    (sk.to_bytes().to_vec(), sk.verifying_key().to_bytes().to_vec())
}

/// The two base64url segments a signature covers, dot-joined: exactly the
/// transmitted bytes, never a re-serialization.
pub open spec fn signing_input(d: DatPayload, h: JwsHeader) -> Seq<u8> {
    b64_of(header_json(h)) + seq![0x2eu8] + b64_of(payload_json(d))
}

/// The compact token bytes: signing input, a dot, the encoded signature.
pub open spec fn token_bytes(d: DatPayload, h: JwsHeader, sk: Seq<u8>) -> Seq<u8> {
    signing_input(d, h) + seq![0x2eu8] + b64_of(ed_sig(sk, signing_input(d, h)))
}

/// The compact token as text.
pub open spec fn token_of(d: DatPayload, h: JwsHeader, sk: Seq<u8>) -> Seq<char> {
    ascii_chars(token_bytes(d, h, sk))
}

/// A well-formed compact token: exactly three dot-joined base64url
/// segments carrying this header, this payload and these signature
/// bytes, whoever produced them.
#[verifier::opaque]
pub open spec fn token_shaped(t: Seq<char>, h: JwsHeader, d: DatPayload, sb: Seq<u8>) -> bool {
    &&& header_wf(h)
    &&& payload_wf(d)
    &&& t == ascii_chars(
        b64_of(header_json(h)) + seq![0x2eu8] + b64_of(payload_json(d)) + seq![0x2eu8] + b64_of(
            sb,
        ),
    )
    &&& b64_bytes(b64_of(header_json(h)))
    &&& b64_bytes(b64_of(payload_json(d)))
    &&& b64_bytes(b64_of(sb))
}

/// What `jws_sign` guarantees of a token it built: the well-formed shape,
/// carrying its own key's signature over the signing input, which
/// verifies under the signing key's verification key.
#[verifier::opaque]
pub open spec fn built_token(t: Seq<char>, d: DatPayload, h: JwsHeader, sk: Seq<u8>) -> bool {
    &&& t == token_of(d, h, sk)
    &&& b64_bytes(b64_of(header_json(h)))
    &&& b64_bytes(b64_of(payload_json(d)))
    &&& b64_bytes(b64_of(ed_sig(sk, signing_input(d, h))))
    &&& ed_ok(ed_vk(sk), signing_input(d, h), ed_sig(sk, signing_input(d, h)))
}

/// What acceptance means: a well-formed token under the one supported
/// algorithm whose signature segment verifies, under the registered key,
/// over the transmitted bytes of the first two segments.
#[verifier::opaque]
pub open spec fn accepted_token(
    jws: Seq<char>,
    reg: KeyRegistry,
    h: JwsHeader,
    d: DatPayload,
) -> bool {
    &&& h.alg@ == "EdDSA"@
    &&& reg.find(h.kid@) is Some
    &&& exists|sb: Seq<u8>|
        #[trigger] token_shaped(jws, h, d, sb) && ed_ok(
            reg.find(h.kid@)->Some_0,
            signing_input(d, h),
            sb,
        )
}

/// A token the library built under a well-formed header is well-formed,
/// and carries its signer's own signature.
pub proof fn lemma_built_token_shaped(t: Seq<char>, d: DatPayload, h: JwsHeader, sk: Seq<u8>)
    requires
        built_token(t, d, h, sk),
        header_wf(h),
        payload_wf(d),
    ensures
        token_shaped(t, h, d, ed_sig(sk, signing_input(d, h))),
        ed_ok(ed_vk(sk), signing_input(d, h), ed_sig(sk, signing_input(d, h))),
{
    reveal(built_token);
    reveal(token_shaped);
}

/// Builds the compact signed token for `payload`: base64url of the header
/// and payload JSON, dot-joined, signed, the signature appended as a
/// third dot-separated segment.
pub fn jws_sign(payload: &DatPayload, kid: &String, sk: &Vec<u8>) -> (r: String)
    requires
        payload_wf(*payload),
        json_safe(kid@),
        sk@.len() == 32,
    ensures
        exists|h: JwsHeader|
            #[trigger] built_token(r@, *payload, h, sk@) && h.alg@ == "EdDSA"@ && h.kid@ == kid@
                && header_wf(h),
{
    proof {
        reveal_strlit("EdDSA");
        reveal_strlit(".");
        assert(json_safe("EdDSA"@));
        assert("."@ == seq!['.']);
    }
    let hdr = JwsHeader { alg: String::from_str("EdDSA"), kid: kid.clone() };
    let hj = header_to_json(&hdr);
    let h64 = b64e(hj.as_slice());
    let pj = payload_to_json(payload);
    let p64 = b64e(pj.as_slice());
    let ghost hx = b64_of(header_json(hdr));
    let ghost px = b64_of(payload_json(*payload));
    let ghost siv = signing_input(*payload, hdr);
    let mut tok = h64;
    tok.append(".");
    tok.append(p64.as_str());
    proof {
        lemma_b64_chars_bytes(hx);
        lemma_b64_chars_bytes(px);
        assert forall|i: int| 0 <= i < siv.len() implies (#[trigger] siv[i]) < 0x80 by {
            if i < hx.len() {
                lemma_b64_byte_safe(hx[i]);
            } else if i == hx.len() {
            } else {
                lemma_b64_byte_safe(px[i - hx.len() - 1]);
            }
        }
        assert(tok@ =~= ascii_chars(siv));
        lemma_ascii_bytes_of_chars(siv);
        lemma_ascii_encode_utf8(ascii_chars(siv));
        assert(vstd::utf8::encode_utf8(tok@) == siv);
    }
    let sigb = ed_sign(sk, tok.as_str().as_bytes());
    let s64 = b64e(sigb.as_slice());
    let ghost sx = b64_of(ed_sig(sk@, siv));
    tok.append(".");
    tok.append(s64.as_str());
    proof {
        reveal(built_token);
        assert(tok@ =~= ascii_chars(token_bytes(*payload, hdr, sk@)));
        lemma_b64_chars_bytes(sx);
        assert(built_token(tok@, *payload, hdr, sk@));
    }
    tok
}

/// The byte-level shape of a well-formed token: where its dots stand and
/// what its segments hold.
pub open spec fn token_facts(tb: Seq<u8>, h: JwsHeader, d: DatPayload, sb: Seq<u8>) -> bool {
    let hx = b64_of(header_json(h));
    let px = b64_of(payload_json(d));
    let sx = b64_of(sb);
    &&& tb == hx + seq![0x2eu8] + px + seq![0x2eu8] + sx
    &&& tb.len() == hx.len() + 1 + px.len() + 1 + sx.len()
    &&& tb[hx.len() as int] == 0x2e
    &&& tb[hx.len() as int + 1 + px.len() as int] == 0x2e
    &&& (forall|m: int| 0 <= m < hx.len() ==> #[trigger] tb[m] != 0x2e)
    &&& (forall|m: int| hx.len() < m < hx.len() + 1 + px.len() ==> #[trigger] tb[m] != 0x2e)
    &&& (forall|m: int|
        hx.len() + 1 + px.len() < m < tb.len() ==> #[trigger] tb[m] != 0x2e)
    &&& tb.subrange(0, hx.len() as int) == hx
    &&& tb.subrange(hx.len() as int + 1, hx.len() as int + 1 + px.len() as int) == px
    &&& tb.subrange(hx.len() as int + 2 + px.len() as int, tb.len() as int) == sx
    &&& tb.subrange(0, hx.len() as int + 1 + px.len() as int) == signing_input(d, h)
}

/// A well-formed token's text determines its bytes and their
/// segmentation.
pub proof fn lemma_token_shaped_bytes(
    t: Seq<char>,
    tb: Seq<u8>,
    h: JwsHeader,
    d: DatPayload,
    sb: Seq<u8>,
)
    requires
        token_shaped(t, h, d, sb),
        tb == vstd::utf8::encode_utf8(t),
    ensures
        token_facts(tb, h, d, sb),
        header_wf(h),
        payload_wf(d),
{
    reveal(token_shaped);
    let hx = b64_of(header_json(h));
    let px = b64_of(payload_json(d));
    let sx = b64_of(sb);
    let w = hx + seq![0x2eu8] + px + seq![0x2eu8] + sx;
    assert forall|i: int| 0 <= i < w.len() implies (#[trigger] w[i]) < 0x80 by {
        byte_of_token(w, hx, px, sx, i);
    }
    lemma_ascii_bytes_of_chars(w);
    lemma_ascii_encode_utf8(ascii_chars(w));
    assert(tb == w);
    assert forall|m: int| 0 <= m < hx.len() implies #[trigger] tb[m] != 0x2e by {
        lemma_b64_byte_safe(hx[m]);
    }
    assert forall|m: int|
        hx.len() < m < hx.len() + 1 + px.len() implies #[trigger] tb[m] != 0x2e by {
        lemma_b64_byte_safe(px[m - hx.len() - 1]);
    }
    assert forall|m: int|
        hx.len() + 1 + px.len() < m < tb.len() implies #[trigger] tb[m] != 0x2e by {
        lemma_b64_byte_safe(sx[m - (hx.len() + 2 + px.len())]);
    }
    assert(tb.subrange(0, hx.len() as int) =~= hx);
    assert(tb.subrange(hx.len() as int + 1, hx.len() as int + 1 + px.len() as int) =~= px);
    assert(tb.subrange(hx.len() as int + 2 + px.len() as int, tb.len() as int) =~= sx);
    assert(tb.subrange(0, hx.len() as int + 1 + px.len() as int) =~= signing_input(d, h));
}

proof fn byte_of_token(w: Seq<u8>, hx: Seq<u8>, px: Seq<u8>, sx: Seq<u8>, i: int)
    requires
        b64_bytes(hx),
        b64_bytes(px),
        b64_bytes(sx),
        w == hx + seq![0x2eu8] + px + seq![0x2eu8] + sx,
        0 <= i < w.len(),
    ensures
        w[i] < 0x80,
{
    if i < hx.len() {
        lemma_b64_byte_safe(hx[i]);
    } else if i == hx.len() {
    } else if i < hx.len() + 1 + px.len() {
        lemma_b64_byte_safe(px[i - hx.len() - 1]);
    } else if i == hx.len() + 1 + px.len() {
    } else {
        lemma_b64_byte_safe(sx[i - (hx.len() + 2 + px.len())]);
    }
}

/// A well-formed token's first dot stands at the end of its header
/// segment.
proof fn lemma_first_dot(tb: Seq<u8>, h: JwsHeader, d: DatPayload, sb: Seq<u8>, d1: int)
    requires
        token_facts(tb, h, d, sb),
        0 <= d1 < tb.len(),
        tb[d1] == 0x2e,
        forall|m: int| 0 <= m < d1 ==> tb[m] != 0x2e,
    ensures
        d1 == b64_of(header_json(h)).len(),
        tb.subrange(0, d1) == b64_of(header_json(h)),
{
    let hl = b64_of(header_json(h)).len() as int;
    if d1 < hl {
        assert(tb[d1] != 0x2e);
    }
    if d1 > hl {
        assert(tb[hl] != 0x2e);
    }
}

/// A well-formed token's second dot stands at the end of its payload
/// segment.
proof fn lemma_dots_pin(
    tb: Seq<u8>,
    h: JwsHeader,
    d: DatPayload,
    sb: Seq<u8>,
    d1: int,
    d2: int,
)
    requires
        token_facts(tb, h, d, sb),
        d1 == b64_of(header_json(h)).len(),
        d1 < d2 < tb.len(),
        tb[d2] == 0x2e,
        forall|m: int| d1 < m < d2 ==> tb[m] != 0x2e,
    ensures
        d2 == d1 + 1 + b64_of(payload_json(d)).len(),
        tb.subrange(d1 + 1, d2) == b64_of(payload_json(d)),
        tb.subrange(d2 + 1, tb.len() as int) == b64_of(sb),
        tb.subrange(0, d2) == signing_input(d, h),
        forall|m: int| d2 < m < tb.len() ==> tb[m] != 0x2e,
{
    let pe = d1 + 1 + b64_of(payload_json(d)).len() as int;
    if d2 < pe {
        assert(tb[d2] != 0x2e);
    }
    if d2 > pe {
        assert(tb[pe] != 0x2e);
    }
}

/// All bytes of a dot-joined triple of base64 segments are ASCII.
proof fn lemma_segments_ascii(tb: Seq<u8>, a: Seq<u8>, b: Seq<u8>, c: Seq<u8>)
    requires
        tb == a + seq![0x2eu8] + b + seq![0x2eu8] + c,
        b64_bytes(a),
        b64_bytes(b),
        b64_bytes(c),
    ensures
        forall|i: int| 0 <= i < tb.len() ==> (#[trigger] tb[i]) < 0x80,
        vstd::utf8::decode_utf8(tb) == ascii_chars(tb),
{
    assert forall|i: int| 0 <= i < tb.len() implies (#[trigger] tb[i]) < 0x80 by {
        byte_of_token(tb, a, b, c, i);
    }
    lemma_ascii_decode_utf8(tb);
}

/// Splits a compact token on its dots, decodes and checks each segment,
/// and verifies the signature over the exact transmitted bytes against
/// the key the registry holds under the header's key id. Every
/// well-formed token whose registered key verifies its signature is
/// accepted with its own header and payload; any other well-formed token
/// gets the error its first failing gate names. Expiration is not
/// checked here: that is the caller's policy gate.
#[verifier::rlimit(100)]
#[verifier::spinoff_prover]
pub fn jws_verify(jws: &str, reg: &KeyRegistry) -> (r: Result<
    (JwsHeader, DatPayload),
    EnvelopeError,
>)
    ensures
        r matches Ok(v) ==> accepted_token(jws@, *reg, v.0, v.1),
        r matches Ok(v) ==> header_wf(v.0) && payload_wf(v.1) && v.0.alg@ == "EdDSA"@,
        forall|h: JwsHeader, d: DatPayload, sb: Seq<u8>|
            #[trigger] token_shaped(jws@, h, d, sb) && h.alg@ == "EdDSA"@ && reg.find(h.kid@)
                is Some && ed_ok(reg.find(h.kid@)->Some_0, signing_input(d, h), sb) ==> (
            r matches Ok(v) && header_eq(v.0, h) && payload_eq(v.1, d)),
        forall|h: JwsHeader, d: DatPayload, sb: Seq<u8>|
            #[trigger] token_shaped(jws@, h, d, sb) && h.alg@ == "EdDSA"@ && reg.find(h.kid@)
                is None ==> r == Err::<(JwsHeader, DatPayload), EnvelopeError>(
                EnvelopeError::UnknownKeyId,
            ),
        forall|h: JwsHeader, d: DatPayload, sb: Seq<u8>|
            #[trigger] token_shaped(jws@, h, d, sb) && h.alg@ == "EdDSA"@ && reg.find(h.kid@)
                is Some && !ed_ok(reg.find(h.kid@)->Some_0, signing_input(d, h), sb) ==> r
                == Err::<(JwsHeader, DatPayload), EnvelopeError>(EnvelopeError::SignatureInvalid),
        forall|h: JwsHeader, d: DatPayload, sb: Seq<u8>|
            #[trigger] token_shaped(jws@, h, d, sb) && h.alg@ != "EdDSA"@ ==> r == Err::<
                (JwsHeader, DatPayload),
                EnvelopeError,
            >(EnvelopeError::UnsupportedAlgorithm),
        (forall|i: int|
            0 <= i < vstd::utf8::encode_utf8(jws@).len() ==> #[trigger] vstd::utf8::encode_utf8(
                jws@,
            )[i] != 0x2e) ==> r == Err::<(JwsHeader, DatPayload), EnvelopeError>(
            EnvelopeError::MalformedEnvelope,
        ),
{
    let tb = jws.as_bytes();
    let n = tb.len();
    proof {
        vstd::utf8::encode_utf8_decode_utf8(jws@);
    }
    let d1 = match find_byte(tb, 0, 0x2e) {
        Some(x) => x,
        None => {
            proof {
                assert forall|h: JwsHeader, d: DatPayload, sb: Seq<u8>|
                    !(#[trigger] token_shaped(jws@, h, d, sb)) by {
                    if token_shaped(jws@, h, d, sb) {
                        lemma_token_shaped_bytes(jws@, tb@, h, d, sb);
                        assert(tb@[b64_of(header_json(h)).len() as int] == 0x2e);
                    }
                }
            }
            return Err(EnvelopeError::MalformedEnvelope);
        },
    };
    proof {
        assert(vstd::utf8::encode_utf8(jws@)[d1 as int] == 0x2e);
    }
    let d2 = match find_byte(tb, d1 + 1, 0x2e) {
        Some(x) => x,
        None => {
            proof {
                assert forall|h: JwsHeader, d: DatPayload, sb: Seq<u8>|
                    !(#[trigger] token_shaped(jws@, h, d, sb)) by {
                    if token_shaped(jws@, h, d, sb) {
                        lemma_token_shaped_bytes(jws@, tb@, h, d, sb);
                        lemma_first_dot(tb@, h, d, sb, d1 as int);
                        let pe = d1 + 1 + b64_of(payload_json(d)).len();
                        assert(tb@[pe as int] == 0x2e);
                    }
                }
            }
            return Err(EnvelopeError::MalformedEnvelope);
        },
    };
    match find_byte(tb, d2 + 1, 0x2e) {
        Some(q) => {
            proof {
                assert forall|h: JwsHeader, d: DatPayload, sb: Seq<u8>|
                    !(#[trigger] token_shaped(jws@, h, d, sb)) by {
                    if token_shaped(jws@, h, d, sb) {
                        lemma_token_shaped_bytes(jws@, tb@, h, d, sb);
                        lemma_first_dot(tb@, h, d, sb, d1 as int);
                        lemma_dots_pin(tb@, h, d, sb, d1 as int, d2 as int);
                        assert(tb@[q as int] != 0x2e);
                    }
                }
            }
            return Err(EnvelopeError::MalformedEnvelope);
        },
        None => {},
    };
    let ghost pinned = |h: JwsHeader, d: DatPayload, sb: Seq<u8>| {
        &&& (d1 as int) == b64_of(header_json(h)).len()
        &&& (d2 as int) == d1 + 1 + b64_of(payload_json(d)).len()
        &&& tb@.subrange(0, d1 as int) == b64_of(header_json(h))
        &&& tb@.subrange(d1 + 1, d2 as int) == b64_of(payload_json(d))
        &&& tb@.subrange(d2 + 1, tb@.len() as int) == b64_of(sb)
        &&& tb@.subrange(0, d2 as int) == signing_input(d, h)
        &&& header_wf(h)
        &&& payload_wf(d)
    };
    proof {
        assert forall|h: JwsHeader, d: DatPayload, sb: Seq<u8>|
            #[trigger] token_shaped(jws@, h, d, sb) implies pinned(h, d, sb) by {
            lemma_token_shaped_bytes(jws@, tb@, h, d, sb);
            lemma_first_dot(tb@, h, d, sb, d1 as int);
            lemma_dots_pin(tb@, h, d, sb, d1 as int, d2 as int);
        }
    }
    let hseg = sub_vec(tb, 0, d1);
    let pseg = sub_vec(tb, d1 + 1, d2);
    let sseg = sub_vec(tb, d2 + 1, n);
    let hb = match b64d(hseg.as_slice()) {
        Some(v) => v,
        None => {
            return Err(EnvelopeError::MalformedEnvelope);
        },
    };
    let hdr = match header_from_json(hb.as_slice()) {
        Some(h) => h,
        None => {
            return Err(EnvelopeError::MalformedEnvelope);
        },
    };
    if !str_eq(hdr.alg.as_str(), "EdDSA") {
        return Err(EnvelopeError::UnsupportedAlgorithm);
    }
    let pb = match b64d(pseg.as_slice()) {
        Some(v) => v,
        None => {
            return Err(EnvelopeError::MalformedEnvelope);
        },
    };
    let vk = match reg.lookup(hdr.kid.as_str()) {
        Some(v) => v,
        None => {
            return Err(EnvelopeError::UnknownKeyId);
        },
    };
    let sgv = match b64d(sseg.as_slice()) {
        Some(v) => v,
        None => {
            return Err(EnvelopeError::MalformedEnvelope);
        },
    };
    let si = sub_vec(tb, 0, d2);
    let sig_good = ed_check(&vk, si.as_slice(), &sgv);
    proof {
        assert forall|h: JwsHeader, d: DatPayload, sb: Seq<u8>|
            #[trigger] token_shaped(jws@, h, d, sb) && h.alg@ == "EdDSA"@ implies hdr.kid@
            == h.kid@ && sgv@ == sb && si@ == signing_input(d, h) && (reg.find(h.kid@) is Some
            && ed_ok(reg.find(h.kid@)->Some_0, signing_input(d, h), sb) ==> sig_good) by {
            assert(pinned(h, d, sb));
            assert(hseg@ == b64_of(header_json(h)));
            assert(hb@ == header_json(h));
            assert(header_eq(hdr, h));
            assert(sseg@ == b64_of(sb));
            assert(sgv@ == sb);
            assert(si@ == signing_input(d, h));
            if reg.find(h.kid@) is Some && ed_ok(
                reg.find(h.kid@)->Some_0,
                signing_input(d, h),
                sb,
            ) {
                assert(vk@ == reg.find(h.kid@)->Some_0);
            }
        }
    }
    if !sig_good {
        return Err(EnvelopeError::SignatureInvalid);
    }
    let dat = match payload_from_json(pb.as_slice()) {
        Some(d) => d,
        None => {
            return Err(EnvelopeError::MalformedEnvelope);
        },
    };
    proof {
        assert forall|h: JwsHeader, d: DatPayload, sb: Seq<u8>|
            #[trigger] token_shaped(jws@, h, d, sb) && h.alg@ == "EdDSA"@ implies header_eq(
            hdr,
            h,
        ) && payload_eq(dat, d) by {
            assert(pinned(h, d, sb));
            assert(hseg@ == b64_of(header_json(h)));
            assert(hb@ == header_json(h));
            assert(header_eq(hdr, h));
            assert(pseg@ == b64_of(payload_json(d)));
            assert(pb@ == payload_json(d));
            assert(payload_eq(dat, d));
        }
        assert(tb@.subrange(0, d2 as int) =~= tb@.subrange(0, d1 as int) + seq![0x2eu8]
            + tb@.subrange(d1 + 1, d2 as int));
        assert(si@ == b64_of(header_json(hdr)) + seq![0x2eu8] + b64_of(payload_json(dat)));
        assert(tb@ =~= hseg@ + seq![0x2eu8] + pseg@ + seq![0x2eu8] + sseg@);
        lemma_segments_ascii(tb@, hseg@, pseg@, sseg@);
        assert(jws@ == ascii_chars(tb@));
        assert(tb@ =~= b64_of(header_json(hdr)) + seq![0x2eu8] + b64_of(payload_json(dat))
            + seq![0x2eu8] + b64_of(sgv@));
        assert(jws@ == ascii_chars(
            b64_of(header_json(hdr)) + seq![0x2eu8] + b64_of(payload_json(dat)) + seq![0x2eu8]
                + b64_of(sgv@),
        ));
        reveal(token_shaped);
        assert(token_shaped(jws@, hdr, dat, sgv@));
        assert(reg.find(hdr.kid@) == Some(vk@));
        assert(ed_ok(
            reg.find(hdr.kid@)->Some_0,
            signing_input(dat, hdr),
            sgv@,
        ));
        assert(exists|sb2: Seq<u8>|
            #[trigger] token_shaped(jws@, hdr, dat, sb2) && ed_ok(
                reg.find(hdr.kid@)->Some_0,
                signing_input(dat, hdr),
                sb2,
            ));
        reveal(accepted_token);
        assert(accepted_token(jws@, *reg, hdr, dat));
    }
    Ok((hdr, dat))
}

/// Relies on ed25519_dalek::SigningKey::from_bytes and verifying_key: the
/// verification key is derived from the signing-key bytes alone.
#[verifier::external_body]
fn derive_vk(sk: &Vec<u8>) -> (r: Vec<u8>)
    requires
        sk@.len() == 32,
    ensures
        r@ == ed_vk(sk@),
{
    let mut kb = [0u8; 32];
    kb.copy_from_slice(sk.as_slice());
    ed25519_dalek::SigningKey::from_bytes(&kb).verifying_key().to_bytes().to_vec()
}

/// Builds a token for `payload` under `kid` and verifies it against
/// `reg`: with the signing key's verification key registered under `kid`,
/// the token always comes back as the payload it was built from.
pub fn sign_then_verify(payload: &DatPayload, kid: &String, sk: &Vec<u8>, reg: &KeyRegistry) -> (r:
    Result<(JwsHeader, DatPayload), EnvelopeError>)
    requires
        payload_wf(*payload),
        json_safe(kid@),
        sk@.len() == 32,
        reg.find(kid@) == Some(ed_vk(sk@)),
    ensures
        r matches Ok(v) && payload_eq(v.1, *payload) && v.0.kid@ == kid@ && v.0.alg@
            == "EdDSA"@,
{
    let tok = jws_sign(payload, kid, sk);
    proof {
        let h = choose|h: JwsHeader|
            #[trigger] built_token(tok@, *payload, h, sk@) && h.alg@ == "EdDSA"@ && h.kid@
                == kid@ && header_wf(h);
        lemma_built_token_shaped(tok@, *payload, h, sk@);
        assert(reg.find(h.kid@) == Some(ed_vk(sk@)));
        assert(ed_ok(
            reg.find(h.kid@)->Some_0,
            signing_input(*payload, h),
            ed_sig(sk@, signing_input(*payload, h)),
        ));
    }
    jws_verify(tok.as_str(), reg)
}

/// Builds and verifies a token after checking, against the registry
/// itself, that `kid` names the signing key's own verification key:
/// where it does not, or the key has the wrong size, nothing is built.
pub fn sign_then_verify_checked(
    payload: &DatPayload,
    kid: &String,
    sk: &Vec<u8>,
    reg: &KeyRegistry,
) -> (r: Option<(JwsHeader, DatPayload)>)
    requires
        payload_wf(*payload),
        json_safe(kid@),
    ensures
        r matches Some(v) ==> payload_eq(v.1, *payload) && v.0.kid@ == kid@ && v.0.alg@
            == "EdDSA"@,
{
    if sk.len() != 32 {
        return None;
    }
    let vk = derive_vk(sk);
    let found = match reg.lookup(kid.as_str()) {
        Some(v) => v,
        None => {
            return None;
        },
    };
    if !crate::asciitext::bytes_eq(&found, &vk) {
        return None;
    }
    match sign_then_verify(payload, kid, sk, reg) {
        Ok(v) => Some(v),
        Err(_) => None,
    }
}

} // verus!
