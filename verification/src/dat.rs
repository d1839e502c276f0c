use vstd::prelude::*;

verus! {

use crate::asciitext::{ascii_bytes, ascii_seq};
use crate::codec::{
    arr_json,
    dec_u64,
    enc_u64,
    eat_lit,
    lemma_split_two,
    parse_qstr_at,
    parse_str_arr_at,
    parse_u64_at,
    parses_arr_at,
    parses_dec_at,
    parses_qstr_at,
    push_lit,
    push_qstr,
    push_str_arr,
    qstr,
    strs_json_safe,
    views_of,
    is_digit,
};
use crate::json_safe;

/// The acknowledgment policy a token carries: a deadline in seconds and an
/// ordered list of fallback channels.
#[derive(Debug, Clone)]
pub struct Policy {
    pub ack_by_secs: u64,
    pub fallbacks: Vec<String>,
}

/// The content of a delivery acknowledgment token.
#[derive(Debug, Clone)]
pub struct DatPayload {
    pub v: u8,
    pub salt_b64: String,
    pub addr_hash_b64: String,
    pub msg_digest_b64: String,
    pub digest_alg: String,
    pub exp: String,
    pub nonce_b64: String,
    pub policy: Policy,
}

/// The header of a compact signed token: signature algorithm and key id.
#[derive(Debug, Clone)]
pub struct JwsHeader {
    pub alg: String,
    pub kid: String,
}

/// Well-formed token texts: every field, the fallback channel names
/// included, holds only characters the canonical escape-free JSON
/// encoding can carry.
pub open spec fn policy_wf(p: Policy) -> bool {
    strs_json_safe(views_of(p.fallbacks@))
}

pub open spec fn payload_wf(d: DatPayload) -> bool {
    &&& json_safe(d.salt_b64@)
    &&& json_safe(d.addr_hash_b64@)
    &&& json_safe(d.msg_digest_b64@)
    &&& json_safe(d.digest_alg@)
    &&& json_safe(d.exp@)
    &&& json_safe(d.nonce_b64@)
    &&& policy_wf(d.policy)
}

pub open spec fn header_wf(h: JwsHeader) -> bool {
    json_safe(h.alg@) && json_safe(h.kid@)
}

/// Two policies with the same deadline and the same fallback texts.
pub open spec fn policy_eq(a: Policy, b: Policy) -> bool {
    a.ack_by_secs == b.ack_by_secs && views_of(a.fallbacks@) == views_of(b.fallbacks@)
}

/// Two payloads equal in every field.
pub open spec fn payload_eq(a: DatPayload, b: DatPayload) -> bool {
    &&& a.v == b.v
    &&& a.salt_b64@ == b.salt_b64@
    &&& a.addr_hash_b64@ == b.addr_hash_b64@
    &&& a.msg_digest_b64@ == b.msg_digest_b64@
    &&& a.digest_alg@ == b.digest_alg@
    &&& a.exp@ == b.exp@
    &&& a.nonce_b64@ == b.nonce_b64@
    &&& policy_eq(a.policy, b.policy)
}

pub open spec fn header_eq(a: JwsHeader, b: JwsHeader) -> bool {
    a.alg@ == b.alg@ && a.kid@ == b.kid@
}

/// The canonical JSON of a policy: the fields in declaration order, no
/// spaces, no escapes.
pub open spec fn policy_json(p: Policy) -> Seq<u8> {
    ascii_bytes("{\"ack_by_secs\":"@) + (dec_u64(p.ack_by_secs as nat) + (ascii_bytes(
        ",\"fallbacks\":"@,
    ) + (arr_json(views_of(p.fallbacks@)) + seq![0x7du8])))
}

/// The canonical JSON of a payload.
pub open spec fn payload_json(d: DatPayload) -> Seq<u8> {
    ascii_bytes("{\"v\":"@) + (dec_u64(d.v as nat) + (ascii_bytes(",\"salt_b64\":"@) + (qstr(
        d.salt_b64@,
    ) + (ascii_bytes(",\"addr_hash_b64\":"@) + (qstr(d.addr_hash_b64@) + (ascii_bytes(
        ",\"msg_digest_b64\":"@,
    ) + (qstr(d.msg_digest_b64@) + (ascii_bytes(",\"digest_alg\":"@) + (qstr(d.digest_alg@)
        + (ascii_bytes(",\"exp\":"@) + (qstr(d.exp@) + (ascii_bytes(",\"nonce_b64\":"@) + (qstr(
        d.nonce_b64@,
    ) + (ascii_bytes(",\"policy\":"@) + (policy_json(d.policy) + seq![0x7du8])))))))))))))))
}

/// The canonical JSON of a header.
pub open spec fn header_json(h: JwsHeader) -> Seq<u8> {
    ascii_bytes("{\"alg\":"@) + (qstr(h.alg@) + (ascii_bytes(",\"kid\":"@) + (qstr(h.kid@)
        + seq![0x7du8])))
}

pub open spec fn parses_policy_at(b: Seq<u8>, i: int, p: Policy, j: int) -> bool {
    &&& policy_wf(p)
    &&& 0 <= i <= j <= b.len()
    &&& b.subrange(i, j) == policy_json(p)
}

pub open spec fn parses_payload_at(b: Seq<u8>, i: int, d: DatPayload, j: int) -> bool {
    &&& payload_wf(d)
    &&& 0 <= i <= j <= b.len()
    &&& b.subrange(i, j) == payload_json(d)
}

pub open spec fn parses_header_at(b: Seq<u8>, i: int, h: JwsHeader, j: int) -> bool {
    &&& header_wf(h)
    &&& 0 <= i <= j <= b.len()
    &&& b.subrange(i, j) == header_json(h)
}

/// Where each component of a policy's JSON stands, given that the whole
/// stands at `i`.
pub open spec fn policy_decomp(b: Seq<u8>, i: int, p: Policy, j: int) -> bool {
    let l1 = ascii_bytes("{\"ack_by_secs\":"@);
    let nd = dec_u64(p.ack_by_secs as nat);
    let l2 = ascii_bytes(",\"fallbacks\":"@);
    let aj = arr_json(views_of(p.fallbacks@));
    let p1 = i + l1.len();
    let p2 = p1 + nd.len();
    let p3 = p2 + l2.len();
    let p4 = p3 + aj.len();
    &&& j == p4 + 1
    &&& j <= b.len()
    &&& b.subrange(i, p1) == l1
    &&& parses_dec_at(b, p1, p.ack_by_secs as nat, p2)
    &&& b.subrange(p2, p3) == l2
    &&& parses_arr_at(b, p3, views_of(p.fallbacks@), p4)
    &&& b[p4] == 0x7d
}

pub proof fn lemma_policy_decomp(b: Seq<u8>, i: int, p: Policy, j: int)
    requires
        parses_policy_at(b, i, p, j),
    ensures
        policy_decomp(b, i, p, j),
{
    reveal_strlit("{\"ack_by_secs\":");
    reveal_strlit(",\"fallbacks\":");
    let l1 = ascii_bytes("{\"ack_by_secs\":"@);
    let nd = dec_u64(p.ack_by_secs as nat);
    let l2 = ascii_bytes(",\"fallbacks\":"@);
    let aj = arr_json(views_of(p.fallbacks@));
    let p1 = i + l1.len();
    let p2 = p1 + nd.len();
    let p3 = p2 + l2.len();
    let p4 = p3 + aj.len();
    lemma_split_two(b, i, j, l1, nd + (l2 + (aj + seq![0x7du8])));
    lemma_split_two(b, p1, j, nd, l2 + (aj + seq![0x7du8]));
    lemma_split_two(b, p2, j, l2, aj + seq![0x7du8]);
    lemma_split_two(b, p3, j, aj, seq![0x7du8]);
    assert(b[p4] == b.subrange(p4, j)[0]);
    // the byte after the number is the comma that opens the next key
    assert(b[p2] == b.subrange(p2, p3)[0]);
    assert(l2[0] == (',' as u8));
    assert(!is_digit(b[p2]));
    assert(parses_dec_at(b, p1, p.ack_by_secs as nat, p2));
    assert(parses_arr_at(b, p3, views_of(p.fallbacks@), p4));
}

/// The canonical JSON bytes of a policy.
pub fn policy_to_json(p: &Policy) -> (r: Vec<u8>)
    requires
        policy_wf(*p),
    ensures
        r@ == policy_json(*p),
{
    proof {
        reveal_strlit("{\"ack_by_secs\":");
        reveal_strlit(",\"fallbacks\":");
    }
    let mut out: Vec<u8> = Vec::new();
    push_lit(&mut out, "{\"ack_by_secs\":");
    let mut num = enc_u64(p.ack_by_secs);
    out.append(&mut num);
    push_lit(&mut out, ",\"fallbacks\":");
    push_str_arr(&mut out, &p.fallbacks);
    out.push(0x7d);
    proof {
        assert(out@ =~= policy_json(*p));
    }
    out
}

/// Reads a policy object at position `i`: exactly the canonical form.
pub fn parse_policy_at(b: &[u8], i: usize) -> (r: Option<(Policy, usize)>)
    ensures
        r matches Some(v) ==> parses_policy_at(b@, i as int, v.0, v.1 as int),
        forall|p: Policy, j: int|
            parses_policy_at(b@, i as int, p, j) ==> (r matches Some(v) && policy_eq(v.0, p)
                && v.1 == j),
{
    proof {
        reveal_strlit("{\"ack_by_secs\":");
        reveal_strlit(",\"fallbacks\":");
        assert(ascii_seq("{\"ack_by_secs\":"@));
        assert(ascii_seq(",\"fallbacks\":"@));
        assert forall|p: Policy, j: int|
            parses_policy_at(b@, i as int, p, j) implies policy_decomp(b@, i as int, p, j) by {
            lemma_policy_decomp(b@, i as int, p, j);
        }
    }
    let p1 = match eat_lit(b, i, "{\"ack_by_secs\":") {
        Some(x) => x,
        None => {
            return None;
        },
    };
    let (ack, p2) = match parse_u64_at(b, p1) {
        Some(x) => x,
        None => {
            return None;
        },
    };
    let p3 = match eat_lit(b, p2, ",\"fallbacks\":") {
        Some(x) => x,
        None => {
            return None;
        },
    };
    let (fb, p4) = match parse_str_arr_at(b, p3) {
        Some(x) => x,
        None => {
            return None;
        },
    };
    if !(p4 < b.len() && b[p4] == 0x7d) {
        return None;
    }
    let built = Policy { ack_by_secs: ack, fallbacks: fb };
    proof {
        assert(b@.subrange(i as int, p4 + 1) =~= policy_json(built));
        assert(parses_policy_at(b@, i as int, built, p4 + 1));
        assert forall|p: Policy, j: int|
            parses_policy_at(b@, i as int, p, j) implies policy_eq(built, p) && p4 + 1
            == j by {
            assert(policy_decomp(b@, i as int, p, j));
        }
    }
    Some((built, p4 + 1))
}

/// Where each component of a header's JSON stands, given that the whole
/// stands at `i`.
pub open spec fn header_decomp(b: Seq<u8>, i: int, h: JwsHeader, j: int) -> bool {
    let l1 = ascii_bytes("{\"alg\":"@);
    let l2 = ascii_bytes(",\"kid\":"@);
    let p1 = i + l1.len();
    let p2 = p1 + 2 + h.alg@.len();
    let p3 = p2 + l2.len();
    let p4 = p3 + 2 + h.kid@.len();
    &&& j == p4 + 1
    &&& j <= b.len()
    &&& b.subrange(i, p1) == l1
    &&& parses_qstr_at(b, p1, h.alg@, p2)
    &&& b.subrange(p2, p3) == l2
    &&& parses_qstr_at(b, p3, h.kid@, p4)
    &&& b[p4] == 0x7d
}

pub proof fn lemma_header_decomp(b: Seq<u8>, i: int, h: JwsHeader, j: int)
    requires
        parses_header_at(b, i, h, j),
    ensures
        header_decomp(b, i, h, j),
{
    reveal_strlit("{\"alg\":");
    reveal_strlit(",\"kid\":");
    let l1 = ascii_bytes("{\"alg\":"@);
    let l2 = ascii_bytes(",\"kid\":"@);
    let p1 = i + l1.len();
    let p2 = p1 + 2 + h.alg@.len();
    let p3 = p2 + l2.len();
    let p4 = p3 + 2 + h.kid@.len();
    lemma_split_two(b, i, j, l1, qstr(h.alg@) + (l2 + (qstr(h.kid@) + seq![0x7du8])));
    lemma_split_two(b, p1, j, qstr(h.alg@), l2 + (qstr(h.kid@) + seq![0x7du8]));
    lemma_split_two(b, p2, j, l2, qstr(h.kid@) + seq![0x7du8]);
    lemma_split_two(b, p3, j, qstr(h.kid@), seq![0x7du8]);
    assert(b[p4] == b.subrange(p4, j)[0]);
}

/// The canonical JSON bytes of a header.
pub fn header_to_json(h: &JwsHeader) -> (r: Vec<u8>)
    requires
        header_wf(*h),
    ensures
        r@ == header_json(*h),
{
    proof {
        reveal_strlit("{\"alg\":");
        reveal_strlit(",\"kid\":");
    }
    let mut out: Vec<u8> = Vec::new();
    push_lit(&mut out, "{\"alg\":");
    push_qstr(&mut out, &h.alg);
    push_lit(&mut out, ",\"kid\":");
    push_qstr(&mut out, &h.kid);
    out.push(0x7d);
    proof {
        assert(out@ =~= header_json(*h));
    }
    out
}

/// Reads a header object at position `i`: exactly the canonical form.
pub fn parse_header_at(b: &[u8], i: usize) -> (r: Option<(JwsHeader, usize)>)
    ensures
        r matches Some(v) ==> parses_header_at(b@, i as int, v.0, v.1 as int),
        forall|h: JwsHeader, j: int|
            parses_header_at(b@, i as int, h, j) ==> (r matches Some(v) && header_eq(v.0, h)
                && v.1 == j),
{
    proof {
        reveal_strlit("{\"alg\":");
        reveal_strlit(",\"kid\":");
        assert(ascii_seq("{\"alg\":"@));
        assert(ascii_seq(",\"kid\":"@));
        assert forall|h: JwsHeader, j: int|
            parses_header_at(b@, i as int, h, j) implies header_decomp(b@, i as int, h, j) by {
            lemma_header_decomp(b@, i as int, h, j);
        }
    }
    let p1 = match eat_lit(b, i, "{\"alg\":") {
        Some(x) => x,
        None => {
            return None;
        },
    };
    let (alg, p2) = match parse_qstr_at(b, p1) {
        Some(x) => x,
        None => {
            return None;
        },
    };
    let p3 = match eat_lit(b, p2, ",\"kid\":") {
        Some(x) => x,
        None => {
            return None;
        },
    };
    let (kid, p4) = match parse_qstr_at(b, p3) {
        Some(x) => x,
        None => {
            return None;
        },
    };
    if !(p4 < b.len() && b[p4] == 0x7d) {
        return None;
    }
    let built = JwsHeader { alg, kid };
    proof {
        assert(b@.subrange(i as int, p4 + 1) =~= header_json(built));
        assert(parses_header_at(b@, i as int, built, p4 + 1));
        assert forall|h: JwsHeader, j: int|
            parses_header_at(b@, i as int, h, j) implies header_eq(built, h) && p4 + 1
            == j by {
            assert(header_decomp(b@, i as int, h, j));
        }
    }
    Some((built, p4 + 1))
}

/// Where each component of a payload's JSON stands, given that the whole
/// stands at `i`.
pub open spec fn payload_decomp(b: Seq<u8>, i: int, d: DatPayload, j: int) -> bool {
    let p1 = i + ascii_bytes("{\"v\":"@).len();
    let p2 = p1 + dec_u64(d.v as nat).len();
    let p3 = p2 + ascii_bytes(",\"salt_b64\":"@).len();
    let p4 = p3 + 2 + d.salt_b64@.len();
    let p5 = p4 + ascii_bytes(",\"addr_hash_b64\":"@).len();
    let p6 = p5 + 2 + d.addr_hash_b64@.len();
    let p7 = p6 + ascii_bytes(",\"msg_digest_b64\":"@).len();
    let p8 = p7 + 2 + d.msg_digest_b64@.len();
    let p9 = p8 + ascii_bytes(",\"digest_alg\":"@).len();
    let p10 = p9 + 2 + d.digest_alg@.len();
    let p11 = p10 + ascii_bytes(",\"exp\":"@).len();
    let p12 = p11 + 2 + d.exp@.len();
    let p13 = p12 + ascii_bytes(",\"nonce_b64\":"@).len();
    let p14 = p13 + 2 + d.nonce_b64@.len();
    let p15 = p14 + ascii_bytes(",\"policy\":"@).len();
    let p16 = p15 + policy_json(d.policy).len();
    &&& j == p16 + 1
    &&& j <= b.len()
    &&& b.subrange(i, p1) == ascii_bytes("{\"v\":"@)
    &&& parses_dec_at(b, p1, d.v as nat, p2)
    &&& b.subrange(p2, p3) == ascii_bytes(",\"salt_b64\":"@)
    &&& parses_qstr_at(b, p3, d.salt_b64@, p4)
    &&& b.subrange(p4, p5) == ascii_bytes(",\"addr_hash_b64\":"@)
    &&& parses_qstr_at(b, p5, d.addr_hash_b64@, p6)
    &&& b.subrange(p6, p7) == ascii_bytes(",\"msg_digest_b64\":"@)
    &&& parses_qstr_at(b, p7, d.msg_digest_b64@, p8)
    &&& b.subrange(p8, p9) == ascii_bytes(",\"digest_alg\":"@)
    &&& parses_qstr_at(b, p9, d.digest_alg@, p10)
    &&& b.subrange(p10, p11) == ascii_bytes(",\"exp\":"@)
    &&& parses_qstr_at(b, p11, d.exp@, p12)
    &&& b.subrange(p12, p13) == ascii_bytes(",\"nonce_b64\":"@)
    &&& parses_qstr_at(b, p13, d.nonce_b64@, p14)
    &&& b.subrange(p14, p15) == ascii_bytes(",\"policy\":"@)
    &&& parses_policy_at(b, p15, d.policy, p16)
    &&& b[p16] == 0x7d
}

pub proof fn lemma_payload_decomp(b: Seq<u8>, i: int, d: DatPayload, j: int)
    requires
        parses_payload_at(b, i, d, j),
    ensures
        payload_decomp(b, i, d, j),
{
    reveal_strlit("{\"v\":");
    reveal_strlit(",\"salt_b64\":");
    reveal_strlit(",\"addr_hash_b64\":");
    reveal_strlit(",\"msg_digest_b64\":");
    reveal_strlit(",\"digest_alg\":");
    reveal_strlit(",\"exp\":");
    reveal_strlit(",\"nonce_b64\":");
    reveal_strlit(",\"policy\":");
    let nd = dec_u64(d.v as nat);
    let q1 = qstr(d.salt_b64@);
    let q2 = qstr(d.addr_hash_b64@);
    let q3 = qstr(d.msg_digest_b64@);
    let q4 = qstr(d.digest_alg@);
    let q5 = qstr(d.exp@);
    let q6 = qstr(d.nonce_b64@);
    let pj = policy_json(d.policy);
    let l1 = ascii_bytes("{\"v\":"@);
    let l2 = ascii_bytes(",\"salt_b64\":"@);
    let l3 = ascii_bytes(",\"addr_hash_b64\":"@);
    let l4 = ascii_bytes(",\"msg_digest_b64\":"@);
    let l5 = ascii_bytes(",\"digest_alg\":"@);
    let l6 = ascii_bytes(",\"exp\":"@);
    let l7 = ascii_bytes(",\"nonce_b64\":"@);
    let l8 = ascii_bytes(",\"policy\":"@);
    let p1 = i + l1.len();
    let p2 = p1 + nd.len();
    let p3 = p2 + l2.len();
    let p4 = p3 + q1.len();
    let p5 = p4 + l3.len();
    let p6 = p5 + q2.len();
    let p7 = p6 + l4.len();
    let p8 = p7 + q3.len();
    let p9 = p8 + l5.len();
    let p10 = p9 + q4.len();
    let p11 = p10 + l6.len();
    let p12 = p11 + q5.len();
    let p13 = p12 + l7.len();
    let p14 = p13 + q6.len();
    let p15 = p14 + l8.len();
    let p16 = p15 + pj.len();
    lemma_split_two(b, i, j, l1, nd + (l2 + (q1 + (l3 + (q2 + (l4 + (q3 + (l5 + (q4 + (l6 + (
    q5 + (l7 + (q6 + (l8 + (pj + seq![0x7du8])))))))))))))));
    lemma_split_two(b, p1, j, nd, l2 + (q1 + (l3 + (q2 + (l4 + (q3 + (l5 + (q4 + (l6 + (q5 + (
    l7 + (q6 + (l8 + (pj + seq![0x7du8]))))))))))))));
    lemma_split_two(b, p2, j, l2, q1 + (l3 + (q2 + (l4 + (q3 + (l5 + (q4 + (l6 + (q5 + (l7 + (
    q6 + (l8 + (pj + seq![0x7du8])))))))))))));
    lemma_split_two(b, p3, j, q1, l3 + (q2 + (l4 + (q3 + (l5 + (q4 + (l6 + (q5 + (l7 + (q6 + (
    l8 + (pj + seq![0x7du8]))))))))))));
    lemma_split_two(b, p4, j, l3, q2 + (l4 + (q3 + (l5 + (q4 + (l6 + (q5 + (l7 + (q6 + (l8 + (
    pj + seq![0x7du8])))))))))));
    lemma_split_two(b, p5, j, q2, l4 + (q3 + (l5 + (q4 + (l6 + (q5 + (l7 + (q6 + (l8 + (pj
        + seq![0x7du8]))))))))));
    lemma_split_two(b, p6, j, l4, q3 + (l5 + (q4 + (l6 + (q5 + (l7 + (q6 + (l8 + (pj + seq![
    0x7du8])))))))));
    lemma_split_two(b, p7, j, q3, l5 + (q4 + (l6 + (q5 + (l7 + (q6 + (l8 + (pj + seq![0x7du8
    ]))))))));
    lemma_split_two(b, p8, j, l5, q4 + (l6 + (q5 + (l7 + (q6 + (l8 + (pj + seq![0x7du8])))))));
    lemma_split_two(b, p9, j, q4, l6 + (q5 + (l7 + (q6 + (l8 + (pj + seq![0x7du8]))))));
    lemma_split_two(b, p10, j, l6, q5 + (l7 + (q6 + (l8 + (pj + seq![0x7du8])))));
    lemma_split_two(b, p11, j, q5, l7 + (q6 + (l8 + (pj + seq![0x7du8]))));
    lemma_split_two(b, p12, j, l7, q6 + (l8 + (pj + seq![0x7du8])));
    lemma_split_two(b, p13, j, q6, l8 + (pj + seq![0x7du8]));
    lemma_split_two(b, p14, j, l8, pj + seq![0x7du8]);
    lemma_split_two(b, p15, j, pj, seq![0x7du8]);
    assert(b[p16] == b.subrange(p16, j)[0]);
    // the byte after the version number is the comma that opens the next key
    assert(b[p2] == b.subrange(p2, p3)[0]);
    assert(l2[0] == (',' as u8));
    assert(!is_digit(b[p2]));
    assert(parses_dec_at(b, p1, d.v as nat, p2));
}

/// The canonical JSON bytes of a payload.
pub fn payload_to_json(d: &DatPayload) -> (r: Vec<u8>)
    requires
        payload_wf(*d),
    ensures
        r@ == payload_json(*d),
{
    proof {
        reveal_strlit("{\"v\":");
        reveal_strlit(",\"salt_b64\":");
        reveal_strlit(",\"addr_hash_b64\":");
        reveal_strlit(",\"msg_digest_b64\":");
        reveal_strlit(",\"digest_alg\":");
        reveal_strlit(",\"exp\":");
        reveal_strlit(",\"nonce_b64\":");
        reveal_strlit(",\"policy\":");
    }
    let mut out: Vec<u8> = Vec::new();
    push_lit(&mut out, "{\"v\":");
    let mut num = enc_u64(d.v as u64);
    out.append(&mut num);
    push_lit(&mut out, ",\"salt_b64\":");
    push_qstr(&mut out, &d.salt_b64);
    push_lit(&mut out, ",\"addr_hash_b64\":");
    push_qstr(&mut out, &d.addr_hash_b64);
    push_lit(&mut out, ",\"msg_digest_b64\":");
    push_qstr(&mut out, &d.msg_digest_b64);
    push_lit(&mut out, ",\"digest_alg\":");
    push_qstr(&mut out, &d.digest_alg);
    push_lit(&mut out, ",\"exp\":");
    push_qstr(&mut out, &d.exp);
    push_lit(&mut out, ",\"nonce_b64\":");
    push_qstr(&mut out, &d.nonce_b64);
    push_lit(&mut out, ",\"policy\":");
    let mut pol = policy_to_json(&d.policy);
    out.append(&mut pol);
    out.push(0x7d);
    proof {
        assert(out@ =~= payload_json(*d));
    }
    out
}

/// Reads a payload object at position `i`: exactly the canonical form.
#[verifier::rlimit(100)]
pub fn parse_payload_at(b: &[u8], i: usize) -> (r: Option<(DatPayload, usize)>)
    ensures
        r matches Some(v) ==> parses_payload_at(b@, i as int, v.0, v.1 as int),
        forall|d: DatPayload, j: int|
            parses_payload_at(b@, i as int, d, j) ==> (r matches Some(v) && payload_eq(v.0, d)
                && v.1 == j),
{
    proof {
        reveal_strlit("{\"v\":");
        reveal_strlit(",\"salt_b64\":");
        reveal_strlit(",\"addr_hash_b64\":");
        reveal_strlit(",\"msg_digest_b64\":");
        reveal_strlit(",\"digest_alg\":");
        reveal_strlit(",\"exp\":");
        reveal_strlit(",\"nonce_b64\":");
        reveal_strlit(",\"policy\":");
        assert(ascii_seq("{\"v\":"@));
        assert(ascii_seq(",\"salt_b64\":"@));
        assert(ascii_seq(",\"addr_hash_b64\":"@));
        assert(ascii_seq(",\"msg_digest_b64\":"@));
        assert(ascii_seq(",\"digest_alg\":"@));
        assert(ascii_seq(",\"exp\":"@));
        assert(ascii_seq(",\"nonce_b64\":"@));
        assert(ascii_seq(",\"policy\":"@));
        assert forall|d: DatPayload, j: int|
            parses_payload_at(b@, i as int, d, j) implies payload_decomp(
            b@,
            i as int,
            d,
            j,
        ) by {
            lemma_payload_decomp(b@, i as int, d, j);
        }
    }
    let p1 = match eat_lit(b, i, "{\"v\":") {
        Some(x) => x,
        None => {
            return None;
        },
    };
    let (vnum, p2) = match parse_u64_at(b, p1) {
        Some(x) => x,
        None => {
            return None;
        },
    };
    if vnum > 255 {
        return None;
    }
    let p3 = match eat_lit(b, p2, ",\"salt_b64\":") {
        Some(x) => x,
        None => {
            return None;
        },
    };
    let (salt_b64, p4) = match parse_qstr_at(b, p3) {
        Some(x) => x,
        None => {
            return None;
        },
    };
    let p5 = match eat_lit(b, p4, ",\"addr_hash_b64\":") {
        Some(x) => x,
        None => {
            return None;
        },
    };
    let (addr_hash_b64, p6) = match parse_qstr_at(b, p5) {
        Some(x) => x,
        None => {
            return None;
        },
    };
    let p7 = match eat_lit(b, p6, ",\"msg_digest_b64\":") {
        Some(x) => x,
        None => {
            return None;
        },
    };
    let (msg_digest_b64, p8) = match parse_qstr_at(b, p7) {
        Some(x) => x,
        None => {
            return None;
        },
    };
    let p9 = match eat_lit(b, p8, ",\"digest_alg\":") {
        Some(x) => x,
        None => {
            return None;
        },
    };
    let (digest_alg, p10) = match parse_qstr_at(b, p9) {
        Some(x) => x,
        None => {
            return None;
        },
    };
    let p11 = match eat_lit(b, p10, ",\"exp\":") {
        Some(x) => x,
        None => {
            return None;
        },
    };
    let (exp, p12) = match parse_qstr_at(b, p11) {
        Some(x) => x,
        None => {
            return None;
        },
    };
    let p13 = match eat_lit(b, p12, ",\"nonce_b64\":") {
        Some(x) => x,
        None => {
            return None;
        },
    };
    let (nonce_b64, p14) = match parse_qstr_at(b, p13) {
        Some(x) => x,
        None => {
            return None;
        },
    };
    let p15 = match eat_lit(b, p14, ",\"policy\":") {
        Some(x) => x,
        None => {
            return None;
        },
    };
    let (policy, p16) = match parse_policy_at(b, p15) {
        Some(x) => x,
        None => {
            return None;
        },
    };
    if !(p16 < b.len() && b[p16] == 0x7d) {
        return None;
    }
    let built = DatPayload {
        v: vnum as u8,
        salt_b64,
        addr_hash_b64,
        msg_digest_b64,
        digest_alg,
        exp,
        nonce_b64,
        policy,
    };
    proof {
        assert(dec_u64(built.v as nat) == dec_u64(vnum as nat));
        assert(b@.subrange(i as int, p16 + 1) =~= payload_json(built));
        assert(parses_payload_at(b@, i as int, built, p16 + 1));
        assert forall|d: DatPayload, j: int|
            parses_payload_at(b@, i as int, d, j) implies payload_eq(built, d) && p16 + 1
            == j by {
            assert(payload_decomp(b@, i as int, d, j));
        }
    }
    Some((built, p16 + 1))
}

/// Reads a payload from a whole byte string: the canonical form and
/// nothing else.
pub fn payload_from_json(b: &[u8]) -> (r: Option<DatPayload>)
    ensures
        r matches Some(d) ==> payload_wf(d) && b@ == payload_json(d),
        forall|d: DatPayload|
            payload_wf(d) && b@ == payload_json(d) ==> (r matches Some(v) && payload_eq(v, d)),
{
    proof {
        assert(b@.subrange(0, b@.len() as int) =~= b@);
    }
    match parse_payload_at(b, 0) {
        Some((d, j)) => {
            if j == b.len() {
                proof {
                    assert(b@.subrange(0, j as int) =~= b@);
                    assert forall|d2: DatPayload|
                        payload_wf(d2) && b@ == payload_json(d2) implies parses_payload_at(
                        b@,
                        0,
                        d2,
                        b@.len() as int,
                    ) by {
                        assert(b@.subrange(0, b@.len() as int) =~= b@);
                    }
                }
                Some(d)
            } else {
                proof {
                    assert forall|d2: DatPayload|
                        !(payload_wf(d2) && b@ == payload_json(d2)) by {
                        if payload_wf(d2) && b@ == payload_json(d2) {
                            assert(parses_payload_at(b@, 0, d2, b@.len() as int));
                        }
                    }
                }
                None
            }
        },
        None => {
            proof {
                assert forall|d2: DatPayload| !(payload_wf(d2) && b@ == payload_json(d2)) by {
                    if payload_wf(d2) && b@ == payload_json(d2) {
                        assert(parses_payload_at(b@, 0, d2, b@.len() as int));
                    }
                }
            }
            None
        },
    }
}

/// Reads a header from a whole byte string: the canonical form and
/// nothing else.
pub fn header_from_json(b: &[u8]) -> (r: Option<JwsHeader>)
    ensures
        r matches Some(h) ==> header_wf(h) && b@ == header_json(h),
        forall|h: JwsHeader|
            header_wf(h) && b@ == header_json(h) ==> (r matches Some(v) && header_eq(v, h)),
{
    proof {
        assert(b@.subrange(0, b@.len() as int) =~= b@);
    }
    match parse_header_at(b, 0) {
        Some((h, j)) => {
            if j == b.len() {
                proof {
                    assert(b@.subrange(0, j as int) =~= b@);
                    assert forall|h2: JwsHeader|
                        header_wf(h2) && b@ == header_json(h2) implies parses_header_at(
                        b@,
                        0,
                        h2,
                        b@.len() as int,
                    ) by {
                        assert(b@.subrange(0, b@.len() as int) =~= b@);
                    }
                }
                Some(h)
            } else {
                proof {
                    assert forall|h2: JwsHeader|
                        !(header_wf(h2) && b@ == header_json(h2)) by {
                        if header_wf(h2) && b@ == header_json(h2) {
                            assert(parses_header_at(b@, 0, h2, b@.len() as int));
                        }
                    }
                }
                None
            }
        },
        None => {
            proof {
                assert forall|h2: JwsHeader| !(header_wf(h2) && b@ == header_json(h2)) by {
                    if header_wf(h2) && b@ == header_json(h2) {
                        assert(parses_header_at(b@, 0, h2, b@.len() as int));
                    }
                }
            }
            None
        },
    }
}

} // verus!
