use vstd::prelude::*;

verus! {

use crate::asciitext::{bytes_to_string, sub_vec};
use crate::codec::{dec_u64, enc_u64, parse_u64_at, parses_dec_at, lemma_parses_dec_unique};
use crate::dat::{DatPayload, payload_eq, payload_from_json, payload_json, payload_to_json, payload_wf};

/// A persisted acknowledgment record.
#[derive(Debug, Clone)]
pub struct Receipt {
    pub ack_id: String,
    pub kid: String,
    pub dat: DatPayload,
    pub received_ts: String,
    pub recv_domain: String,
    pub recv_domain_sig: Option<String>,
    pub msg_id: Option<String>,
    pub dkim_pass: bool,
    pub stored_at: String,
}

/// A length bound under which a chunk's length notation can be read back.
pub open spec fn chunk_len_ok(b: Seq<u8>) -> bool {
    b.len() <= u64::MAX
}

pub open spec fn receipt_wf(r: Receipt) -> bool {
    &&& payload_wf(r.dat)
    &&& chunk_len_ok(vstd::utf8::encode_utf8(r.ack_id@))
    &&& chunk_len_ok(vstd::utf8::encode_utf8(r.kid@))
    &&& chunk_len_ok(payload_json(r.dat))
    &&& chunk_len_ok(vstd::utf8::encode_utf8(r.received_ts@))
    &&& chunk_len_ok(vstd::utf8::encode_utf8(r.recv_domain@))
    &&& chunk_len_ok(opt_enc(r.recv_domain_sig))
    &&& chunk_len_ok(opt_enc(r.msg_id))
    &&& chunk_len_ok(vstd::utf8::encode_utf8(r.stored_at@))
}

/// Two receipts equal in every field.
pub open spec fn receipt_eq(a: Receipt, b: Receipt) -> bool {
    &&& a.ack_id@ == b.ack_id@
    &&& a.kid@ == b.kid@
    &&& payload_eq(a.dat, b.dat)
    &&& a.received_ts@ == b.received_ts@
    &&& a.recv_domain@ == b.recv_domain@
    &&& opt_view(a.recv_domain_sig) == opt_view(b.recv_domain_sig)
    &&& opt_view(a.msg_id) == opt_view(b.msg_id)
    &&& a.dkim_pass == b.dkim_pass
    &&& a.stored_at@ == b.stored_at@
}

pub open spec fn opt_view(o: Option<String>) -> Option<Seq<char>> {
    match o {
        None => None,
        Some(s) => Some(s@),
    }
}

/// A length-prefixed chunk: decimal byte count, a colon, the bytes.
pub open spec fn chunk(b: Seq<u8>) -> Seq<u8> {
    dec_u64(b.len()) + seq![0x3au8] + b
}

/// An optional text inside a chunk: a tag byte, then the text's bytes.
pub open spec fn opt_enc(o: Option<String>) -> Seq<u8> {
    match o {
        None => seq![0x4eu8],
        Some(s) => seq![0x53u8] + vstd::utf8::encode_utf8(s@),
    }
}

pub open spec fn bool_enc(b: bool) -> Seq<u8> {
    if b {
        seq![0x54u8]
    } else {
        seq![0x46u8]
    }
}

/// Nine chunks in a row.
pub open spec fn enc9(
    x1: Seq<u8>,
    x2: Seq<u8>,
    x3: Seq<u8>,
    x4: Seq<u8>,
    x5: Seq<u8>,
    x6: Seq<u8>,
    x7: Seq<u8>,
    x8: Seq<u8>,
    x9: Seq<u8>,
) -> Seq<u8> {
    chunk(x1) + (chunk(x2) + (chunk(x3) + (chunk(x4) + (chunk(x5) + (chunk(x6) + (chunk(x7) + (
    chunk(x8) + chunk(x9))))))))
}

/// The stored form of a receipt: nine chunks, one per field, the payload
/// as its canonical JSON.
pub open spec fn receipt_enc(r: Receipt) -> Seq<u8> {
    enc9(
        vstd::utf8::encode_utf8(r.ack_id@),
        vstd::utf8::encode_utf8(r.kid@),
        payload_json(r.dat),
        vstd::utf8::encode_utf8(r.received_ts@),
        vstd::utf8::encode_utf8(r.recv_domain@),
        opt_enc(r.recv_domain_sig),
        opt_enc(r.msg_id),
        bool_enc(r.dkim_pass),
        vstd::utf8::encode_utf8(r.stored_at@),
    )
}

/// True where `rec` is what the bytes of `row` hold.
pub open spec fn decodes_to(row: Seq<u8>, rec: Receipt) -> bool {
    receipt_wf(rec) && row == receipt_enc(rec)
}

/// Appends the chunk notation of `b` to `out`.
pub fn push_chunk(out: &mut Vec<u8>, b: &[u8])
    ensures
        final(out)@ == old(out)@ + chunk(b@),
        b@.len() <= u64::MAX,
{
    let mut l = enc_u64(b.len() as u64);
    out.append(&mut l);
    out.push(0x3a);
    out.extend_from_slice(b);
    proof {
        assert(out@ =~= old(out)@ + chunk(b@));
    }
}

/// A chunk stands at position `i` of `b` and ends at `j`.
pub open spec fn parses_chunk_at(b: Seq<u8>, i: int, x: Seq<u8>, j: int) -> bool {
    &&& x.len() <= u64::MAX
    &&& 0 <= i
    &&& j == i + dec_u64(x.len()).len() + 1 + x.len()
    &&& j <= b.len()
    &&& b.subrange(i, j) == chunk(x)
}

/// Reads a chunk at position `i`: its byte count, a colon, its bytes.
pub fn parse_chunk_at(b: &[u8], i: usize) -> (r: Option<(Vec<u8>, usize)>)
    ensures
        r matches Some(v) ==> parses_chunk_at(b@, i as int, v.0@, v.1 as int),
        forall|x: Seq<u8>, j: int|
            parses_chunk_at(b@, i as int, x, j) ==> (r matches Some(v) && v.0@ == x && v.1
                == j),
{
    proof {
        assert forall|x: Seq<u8>, j: int|
            parses_chunk_at(b@, i as int, x, j) implies parses_dec_at(
            b@,
            i as int,
            x.len(),
            i + dec_u64(x.len()).len(),
        ) && b@.subrange(i + dec_u64(x.len()).len() + 1, j) == x && b@[i + dec_u64(
            x.len(),
        ).len()] == 0x3a by {
            let dl = dec_u64(x.len()).len() as int;
            assert(chunk(x) =~= dec_u64(x.len()) + (seq![0x3au8] + x));
            crate::codec::lemma_split_two(b@, i as int, j, dec_u64(x.len()), seq![0x3au8] + x);
            crate::codec::lemma_split_two(b@, i + dl, j, seq![0x3au8], x);
            assert(b@[i + dl] == b@.subrange(i + dl, i + dl + 1)[0]);
            assert(b@.subrange(i as int, i + dl) == dec_u64(x.len()));
            assert(b@[i + dl] == 0x3a);
            assert(!crate::codec::is_digit(0x3a));
        }
    }
    let (len, p1) = match parse_u64_at(b, i) {
        Some(v) => v,
        None => {
            return None;
        },
    };
    if !(p1 < b.len() && b[p1] == 0x3a) {
        return None;
    }
    let start = p1 + 1;
    let avail = b.len() - start;
    if len > avail as u64 {
        proof {
            assert forall|x: Seq<u8>, j: int| !parses_chunk_at(b@, i as int, x, j) by {
                if parses_chunk_at(b@, i as int, x, j) {
                    lemma_parses_dec_unique(
                        b@,
                        i as int,
                        len as nat,
                        p1 as int,
                        x.len(),
                        i + dec_u64(x.len()).len(),
                    );
                }
            }
        }
        return None;
    }
    let lenu = len as usize;
    let data = sub_vec(b, start, start + lenu);
    proof {
        assert forall|x: Seq<u8>, j: int|
            parses_chunk_at(b@, i as int, x, j) implies x == data@ && j == start + lenu by {
            lemma_parses_dec_unique(
                b@,
                i as int,
                len as nat,
                p1 as int,
                x.len(),
                i + dec_u64(x.len()).len(),
            );
        }
        assert(b@.subrange(i as int, (start + lenu) as int) =~= chunk(data@));
    }
    Some((data, start + lenu))
}

/// The stored bytes of a receipt.
#[verifier::rlimit(100)]
#[verifier::spinoff_prover]
pub fn receipt_to_bytes(r: &Receipt) -> (out: Vec<u8>)
    requires
        payload_wf(r.dat),
    ensures
        out@ == receipt_enc(*r),
        receipt_wf(*r),
{
    let mut out: Vec<u8> = Vec::new();
    push_chunk(&mut out, r.ack_id.as_str().as_bytes());
    push_chunk(&mut out, r.kid.as_str().as_bytes());
    let pj = payload_to_json(&r.dat);
    push_chunk(&mut out, pj.as_slice());
    push_chunk(&mut out, r.received_ts.as_str().as_bytes());
    push_chunk(&mut out, r.recv_domain.as_str().as_bytes());
    let sigb = opt_bytes(&r.recv_domain_sig);
    push_chunk(&mut out, sigb.as_slice());
    let midb = opt_bytes(&r.msg_id);
    push_chunk(&mut out, midb.as_slice());
    let bb = bool_bytes(r.dkim_pass);
    push_chunk(&mut out, bb.as_slice());
    push_chunk(&mut out, r.stored_at.as_str().as_bytes());
    proof {
        lemma_chain9(
            chunk(vstd::utf8::encode_utf8(r.ack_id@)),
            chunk(vstd::utf8::encode_utf8(r.kid@)),
            chunk(payload_json(r.dat)),
            chunk(vstd::utf8::encode_utf8(r.received_ts@)),
            chunk(vstd::utf8::encode_utf8(r.recv_domain@)),
            chunk(opt_enc(r.recv_domain_sig)),
            chunk(opt_enc(r.msg_id)),
            chunk(bool_enc(r.dkim_pass)),
            chunk(vstd::utf8::encode_utf8(r.stored_at@)),
        );
        assert(Seq::<u8>::empty() + chunk(vstd::utf8::encode_utf8(r.ack_id@)) =~= chunk(
            vstd::utf8::encode_utf8(r.ack_id@),
        ));
        assert(out@ == receipt_enc(*r));
        assert(receipt_wf(*r));
    }
    out
}

/// Nine concatenated pieces read the same left- or right-associated.
proof fn lemma_chain9(
    a1: Seq<u8>,
    a2: Seq<u8>,
    a3: Seq<u8>,
    a4: Seq<u8>,
    a5: Seq<u8>,
    a6: Seq<u8>,
    a7: Seq<u8>,
    a8: Seq<u8>,
    a9: Seq<u8>,
)
    ensures
        a1 + a2 + a3 + a4 + a5 + a6 + a7 + a8 + a9 == a1 + (a2 + (a3 + (a4 + (a5 + (a6 + (a7
            + (a8 + a9))))))),
{
    vstd::seq_lib::lemma_concat_associative(a1 + a2 + a3 + a4 + a5 + a6 + a7, a8, a9);
    vstd::seq_lib::lemma_concat_associative(a1 + a2 + a3 + a4 + a5 + a6, a7, a8 + a9);
    vstd::seq_lib::lemma_concat_associative(a1 + a2 + a3 + a4 + a5, a6, a7 + (a8 + a9));
    vstd::seq_lib::lemma_concat_associative(a1 + a2 + a3 + a4, a5, a6 + (a7 + (a8 + a9)));
    vstd::seq_lib::lemma_concat_associative(a1 + a2 + a3, a4, a5 + (a6 + (a7 + (a8 + a9))));
    vstd::seq_lib::lemma_concat_associative(a1 + a2, a3, a4 + (a5 + (a6 + (a7 + (a8 + a9)))));
    vstd::seq_lib::lemma_concat_associative(a1, a2, a3 + (a4 + (a5 + (a6 + (a7 + (a8 + a9))))));
}

/// The chunk content of an optional text: a tag byte, then the text.
fn opt_bytes(o: &Option<String>) -> (r: Vec<u8>)
    ensures
        r@ == opt_enc(*o),
{
    let mut out: Vec<u8> = Vec::new();
    match o {
        None => {
            out.push(0x4e);
        },
        Some(s) => {
            out.push(0x53);
            out.extend_from_slice(s.as_str().as_bytes());
        },
    }
    proof {
        assert(out@ =~= opt_enc(*o));
    }
    out
}

fn bool_bytes(b: bool) -> (r: Vec<u8>)
    ensures
        r@ == bool_enc(b),
{
    let mut out: Vec<u8> = Vec::new();
    if b {
        out.push(0x54);
    } else {
        out.push(0x46);
    }
    proof {
        assert(out@ =~= bool_enc(b));
    }
    out
}

/// Reads an optional text back from a chunk's content.
fn opt_from_bytes(v: &Vec<u8>) -> (r: Option<Option<String>>)
    ensures
        r matches Some(o) ==> v@ == opt_enc(o),
        forall|o: Option<String>|
            v@ == opt_enc(o) ==> (r matches Some(o2) && opt_view(o2) == opt_view(o)),
{
    proof {
        assert forall|o: Option<String>| v@ == opt_enc(o) implies v@.len() >= 1 && (o is None
            ==> v@[0] == 0x4e) && (o is Some ==> v@[0] == 0x53 && v@.subrange(1, v@.len() as int)
            == vstd::utf8::encode_utf8(o->0@)) by {
            if o is Some {
                assert(v@[0] == (seq![0x53u8] + vstd::utf8::encode_utf8(o->0@))[0]);
                assert(v@.subrange(1, v@.len() as int) =~= vstd::utf8::encode_utf8(o->0@));
            }
        }
    }
    if v.len() == 0 {
        return None;
    }
    if v[0] == 0x4e {
        if v.len() != 1 {
            return None;
        }
        proof {
            assert(v@ =~= opt_enc(None::<String>));
        }
        return Some(None);
    }
    if v[0] != 0x53 {
        return None;
    }
    let rest = sub_vec(v.as_slice(), 1, v.len());
    let s = match bytes_to_string(rest) {
        Some(s) => s,
        None => {
            proof {
                assert forall|o: Option<String>| v@ != opt_enc(o) by {
                    if v@ == opt_enc(o) {
                        if o is Some {
                            vstd::utf8::encode_utf8_valid_utf8(o->0@);
                        }
                    }
                }
            }
            return None;
        },
    };
    proof {
        assert(v@ =~= opt_enc(Some(s)));
        assert forall|o: Option<String>| v@ == opt_enc(o) implies opt_view(Some(s))
            == opt_view(o) by {
            if o is Some {
                vstd::utf8::encode_utf8_decode_utf8(o->0@);
                vstd::utf8::encode_utf8_decode_utf8(s@);
            }
        }
    }
    Some(Some(s))
}

/// Reads a text chunk back.
fn string_from_bytes(v: Vec<u8>) -> (r: Option<String>)
    ensures
        r matches Some(s) ==> v@ == vstd::utf8::encode_utf8(s@),
        forall|t: Seq<char>|
            v@ == vstd::utf8::encode_utf8(t) ==> (r matches Some(s) && s@ == t),
{
    proof {
        assert forall|t: Seq<char>|
            v@ == vstd::utf8::encode_utf8(t) implies vstd::utf8::valid_utf8(v@) by {
            vstd::utf8::encode_utf8_valid_utf8(t);
        }
    }
    let ghost vv = v@;
    let r = bytes_to_string(v);
    proof {
        if r is Some {
            assert forall|t: Seq<char>| vv == vstd::utf8::encode_utf8(t) implies r->0@ == t by {
                vstd::utf8::encode_utf8_decode_utf8(t);
                vstd::utf8::encode_utf8_decode_utf8(r->0@);
            }
        }
    }
    r
}

/// Where each of nine chunks stands.
pub open spec fn enc9_decomp(
    b: Seq<u8>,
    x1: Seq<u8>,
    x2: Seq<u8>,
    x3: Seq<u8>,
    x4: Seq<u8>,
    x5: Seq<u8>,
    x6: Seq<u8>,
    x7: Seq<u8>,
    x8: Seq<u8>,
    x9: Seq<u8>,
) -> bool {
    let p1 = chunk(x1).len() as int;
    let p2 = p1 + chunk(x2).len();
    let p3 = p2 + chunk(x3).len();
    let p4 = p3 + chunk(x4).len();
    let p5 = p4 + chunk(x5).len();
    let p6 = p5 + chunk(x6).len();
    let p7 = p6 + chunk(x7).len();
    let p8 = p7 + chunk(x8).len();
    let p9 = p8 + chunk(x9).len();
    &&& b.len() == p9
    &&& parses_chunk_at(b, 0, x1, p1)
    &&& parses_chunk_at(b, p1, x2, p2)
    &&& parses_chunk_at(b, p2, x3, p3)
    &&& parses_chunk_at(b, p3, x4, p4)
    &&& parses_chunk_at(b, p4, x5, p5)
    &&& parses_chunk_at(b, p5, x6, p6)
    &&& parses_chunk_at(b, p6, x7, p7)
    &&& parses_chunk_at(b, p7, x8, p8)
    &&& parses_chunk_at(b, p8, x9, p9)
}

pub open spec fn lens_ok9(
    x1: Seq<u8>,
    x2: Seq<u8>,
    x3: Seq<u8>,
    x4: Seq<u8>,
    x5: Seq<u8>,
    x6: Seq<u8>,
    x7: Seq<u8>,
    x8: Seq<u8>,
    x9: Seq<u8>,
) -> bool {
    &&& x1.len() <= u64::MAX
    &&& x2.len() <= u64::MAX
    &&& x3.len() <= u64::MAX
    &&& x4.len() <= u64::MAX
    &&& x5.len() <= u64::MAX
    &&& x6.len() <= u64::MAX
    &&& x7.len() <= u64::MAX
    &&& x8.len() <= u64::MAX
    &&& x9.len() <= u64::MAX
}

#[verifier::rlimit(100)]
pub proof fn lemma_enc9_decomp(
    b: Seq<u8>,
    x1: Seq<u8>,
    x2: Seq<u8>,
    x3: Seq<u8>,
    x4: Seq<u8>,
    x5: Seq<u8>,
    x6: Seq<u8>,
    x7: Seq<u8>,
    x8: Seq<u8>,
    x9: Seq<u8>,
)
    requires
        b == enc9(x1, x2, x3, x4, x5, x6, x7, x8, x9),
        lens_ok9(x1, x2, x3, x4, x5, x6, x7, x8, x9),
    ensures
        enc9_decomp(b, x1, x2, x3, x4, x5, x6, x7, x8, x9),
{
    let p1 = chunk(x1).len() as int;
    let p2 = p1 + chunk(x2).len();
    let p3 = p2 + chunk(x3).len();
    let p4 = p3 + chunk(x4).len();
    let p5 = p4 + chunk(x5).len();
    let p6 = p5 + chunk(x6).len();
    let p7 = p6 + chunk(x7).len();
    let p8 = p7 + chunk(x8).len();
    let j = b.len() as int;
    assert(b.subrange(0, j) =~= b);
    crate::codec::lemma_split_two(b, 0, j, chunk(x1), chunk(x2) + (chunk(x3) + (chunk(x4) + (
    chunk(x5) + (chunk(x6) + (chunk(x7) + (chunk(x8) + chunk(x9))))))));
    crate::codec::lemma_split_two(b, p1, j, chunk(x2), chunk(x3) + (chunk(x4) + (chunk(x5) + (
    chunk(x6) + (chunk(x7) + (chunk(x8) + chunk(x9)))))));
    crate::codec::lemma_split_two(b, p2, j, chunk(x3), chunk(x4) + (chunk(x5) + (chunk(x6) + (
    chunk(x7) + (chunk(x8) + chunk(x9))))));
    crate::codec::lemma_split_two(b, p3, j, chunk(x4), chunk(x5) + (chunk(x6) + (chunk(x7) + (
    chunk(x8) + chunk(x9)))));
    crate::codec::lemma_split_two(b, p4, j, chunk(x5), chunk(x6) + (chunk(x7) + (chunk(x8)
        + chunk(x9))));
    crate::codec::lemma_split_two(b, p5, j, chunk(x6), chunk(x7) + (chunk(x8) + chunk(x9)));
    crate::codec::lemma_split_two(b, p6, j, chunk(x7), chunk(x8) + chunk(x9));
    crate::codec::lemma_split_two(b, p7, j, chunk(x8), chunk(x9));
}

/// Reads nine chunks that together fill `row`.
#[verifier::rlimit(100)]
#[verifier::spinoff_prover]
fn parse_nine_chunks(row: &[u8]) -> (r: Option<
    (Vec<u8>, Vec<u8>, Vec<u8>, Vec<u8>, Vec<u8>, Vec<u8>, Vec<u8>, Vec<u8>, Vec<u8>),
>)
    ensures
        r matches Some(c) ==> row@ == enc9(c.0@, c.1@, c.2@, c.3@, c.4@, c.5@, c.6@, c.7@, c.8@)
            && lens_ok9(c.0@, c.1@, c.2@, c.3@, c.4@, c.5@, c.6@, c.7@, c.8@),
        forall|x1: Seq<u8>, x2: Seq<u8>, x3: Seq<u8>, x4: Seq<u8>, x5: Seq<u8>, x6: Seq<u8>, x7: Seq<u8>, x8: Seq<u8>, x9: Seq<u8>|
            row@ == #[trigger] enc9(x1, x2, x3, x4, x5, x6, x7, x8, x9) && lens_ok9(
                x1,
                x2,
                x3,
                x4,
                x5,
                x6,
                x7,
                x8,
                x9,
            ) ==> (r matches Some(c) && c.0@ == x1 && c.1@ == x2 && c.2@ == x3 && c.3@ == x4
                && c.4@ == x5 && c.5@ == x6 && c.6@ == x7 && c.7@ == x8 && c.8@ == x9),
{
    proof {
        assert forall|x1: Seq<u8>, x2: Seq<u8>, x3: Seq<u8>, x4: Seq<u8>, x5: Seq<u8>, x6: Seq<u8>, x7: Seq<u8>, x8: Seq<u8>, x9: Seq<u8>|
            row@ == #[trigger] enc9(x1, x2, x3, x4, x5, x6, x7, x8, x9) && lens_ok9(
                x1,
                x2,
                x3,
                x4,
                x5,
                x6,
                x7,
                x8,
                x9,
            ) implies enc9_decomp(row@, x1, x2, x3, x4, x5, x6, x7, x8, x9) by {
            lemma_enc9_decomp(row@, x1, x2, x3, x4, x5, x6, x7, x8, x9);
        }
    }
    let (c1, p1) = match parse_chunk_at(row, 0) {
        Some(v) => v,
        None => {
            return None;
        },
    };
    let (c2, p2) = match parse_chunk_at(row, p1) {
        Some(v) => v,
        None => {
            return None;
        },
    };
    let (c3, p3) = match parse_chunk_at(row, p2) {
        Some(v) => v,
        None => {
            return None;
        },
    };
    let (c4, p4) = match parse_chunk_at(row, p3) {
        Some(v) => v,
        None => {
            return None;
        },
    };
    let (c5, p5) = match parse_chunk_at(row, p4) {
        Some(v) => v,
        None => {
            return None;
        },
    };
    let (c6, p6) = match parse_chunk_at(row, p5) {
        Some(v) => v,
        None => {
            return None;
        },
    };
    let (c7, p7) = match parse_chunk_at(row, p6) {
        Some(v) => v,
        None => {
            return None;
        },
    };
    let (c8, p8) = match parse_chunk_at(row, p7) {
        Some(v) => v,
        None => {
            return None;
        },
    };
    let (c9, p9) = match parse_chunk_at(row, p8) {
        Some(v) => v,
        None => {
            return None;
        },
    };
    if p9 != row.len() {
        return None;
    }
    proof {
        assert(row@.subrange(0, row@.len() as int) =~= row@);
        assert(row@.subrange(0, p2 as int) =~= row@.subrange(0, p1 as int) + row@.subrange(
            p1 as int,
            p2 as int,
        ));
        assert(row@.subrange(0, p3 as int) =~= row@.subrange(0, p2 as int) + row@.subrange(
            p2 as int,
            p3 as int,
        ));
        assert(row@.subrange(0, p4 as int) =~= row@.subrange(0, p3 as int) + row@.subrange(
            p3 as int,
            p4 as int,
        ));
        assert(row@.subrange(0, p5 as int) =~= row@.subrange(0, p4 as int) + row@.subrange(
            p4 as int,
            p5 as int,
        ));
        assert(row@.subrange(0, p6 as int) =~= row@.subrange(0, p5 as int) + row@.subrange(
            p5 as int,
            p6 as int,
        ));
        assert(row@.subrange(0, p7 as int) =~= row@.subrange(0, p6 as int) + row@.subrange(
            p6 as int,
            p7 as int,
        ));
        assert(row@.subrange(0, p8 as int) =~= row@.subrange(0, p7 as int) + row@.subrange(
            p7 as int,
            p8 as int,
        ));
        assert(row@.subrange(0, p9 as int) =~= row@.subrange(0, p8 as int) + row@.subrange(
            p8 as int,
            p9 as int,
        ));
        lemma_chain9(
            chunk(c1@),
            chunk(c2@),
            chunk(c3@),
            chunk(c4@),
            chunk(c5@),
            chunk(c6@),
            chunk(c7@),
            chunk(c8@),
            chunk(c9@),
        );
        assert(row@ == enc9(c1@, c2@, c3@, c4@, c5@, c6@, c7@, c8@, c9@));
    }
    Some((c1, c2, c3, c4, c5, c6, c7, c8, c9))
}

/// Reads a receipt back from its stored bytes: exactly the nine chunks.
#[verifier::rlimit(100)]
#[verifier::spinoff_prover]
pub fn parse_receipt(row: &[u8]) -> (r: Option<Receipt>)
    ensures
        r matches Some(rec) ==> decodes_to(row@, rec),
        forall|rec: Receipt|
            decodes_to(row@, rec) ==> (r matches Some(v) && receipt_eq(v, rec)),
{
    let (c1, c2, c3, c4, c5, c6, c7, c8, c9) = match parse_nine_chunks(row) {
        Some(c) => c,
        None => {
            return None;
        },
    };
    let ack_id = match string_from_bytes(c1) {
        Some(s) => s,
        None => {
            return None;
        },
    };
    let kid = match string_from_bytes(c2) {
        Some(s) => s,
        None => {
            return None;
        },
    };
    let dat = match payload_from_json(c3.as_slice()) {
        Some(d) => d,
        None => {
            return None;
        },
    };
    let received_ts = match string_from_bytes(c4) {
        Some(s) => s,
        None => {
            return None;
        },
    };
    let recv_domain = match string_from_bytes(c5) {
        Some(s) => s,
        None => {
            return None;
        },
    };
    let recv_domain_sig = match opt_from_bytes(&c6) {
        Some(o) => o,
        None => {
            return None;
        },
    };
    let msg_id = match opt_from_bytes(&c7) {
        Some(o) => o,
        None => {
            return None;
        },
    };
    let dkim_pass = if c8.len() == 1 && c8[0] == 0x54 {
        true
    } else if c8.len() == 1 && c8[0] == 0x46 {
        false
    } else {
        proof {
            assert forall|rec: Receipt| !decodes_to(row@, rec) by {
                if decodes_to(row@, rec) {
                    assert(c8@ == bool_enc(rec.dkim_pass));
                }
            }
        }
        return None;
    };
    let stored_at = match string_from_bytes(c9) {
        Some(s) => s,
        None => {
            return None;
        },
    };
    let built = Receipt {
        ack_id,
        kid,
        dat,
        received_ts,
        recv_domain,
        recv_domain_sig,
        msg_id,
        dkim_pass,
        stored_at,
    };
    proof {
        assert(row@ == receipt_enc(built));
        assert(decodes_to(row@, built));
        assert forall|rec: Receipt| decodes_to(row@, rec) implies receipt_eq(built, rec) by {
            assert(c8@ == bool_enc(rec.dkim_pass));
            if rec.dkim_pass != built.dkim_pass {
                assert(bool_enc(rec.dkim_pass)[0] != bool_enc(built.dkim_pass)[0]);
            }
        }
    }
    Some(built)
}

/// What a stored row holds, where it holds a receipt at all.
pub open spec fn row_receipt(row: Seq<u8>) -> Option<Receipt> {
    if exists|rec: Receipt| decodes_to(row, rec) {
        Some(choose|rec: Receipt| decodes_to(row, rec))
    } else {
        None
    }
}

pub open spec fn rows_view(rs: Seq<Vec<u8>>) -> Seq<Seq<u8>> {
    rs.map_values(|v: Vec<u8>| v@)
}

/// The receipts a sequence of rows holds, in row order, rows that hold
/// none silently skipped.
pub open spec fn decode_all(rows: Seq<Seq<u8>>) -> Seq<Receipt>
    decreases rows.len(),
{
    if rows.len() == 0 {
        Seq::<Receipt>::empty()
    } else {
        decode_all(rows.drop_last()) + (match row_receipt(rows.last()) {
            Some(rec) => seq![rec],
            None => Seq::<Receipt>::empty(),
        })
    }
}

/// Decodes every row that holds a receipt, in row order.
pub fn decode_rows(rows: &Vec<Vec<u8>>) -> (r: Vec<Receipt>)
    ensures
        r@.len() == decode_all(rows_view(rows@)).len(),
        forall|i: int|
            0 <= i < r@.len() ==> receipt_eq(#[trigger] r@[i], decode_all(rows_view(rows@))[i])
                && receipt_wf(r@[i]),
{
    let mut out: Vec<Receipt> = Vec::new();
    let mut k: usize = 0;
    let n = rows.len();
    while k < n
        invariant
            0 <= k <= n,
            n == rows@.len(),
            out@.len() == decode_all(rows_view(rows@).take(k as int)).len(),
            forall|i: int|
                0 <= i < out@.len() ==> receipt_eq(
                    #[trigger] out@[i],
                    decode_all(rows_view(rows@).take(k as int))[i],
                ) && receipt_wf(out@[i]),
        decreases n - k,
    {
        let ghost pre = rows_view(rows@).take(k as int);
        let ghost cur = rows_view(rows@)[k as int];
        proof {
            assert(rows_view(rows@).take(k + 1).drop_last() =~= pre);
            assert(rows_view(rows@).take(k + 1).last() == cur);
        }
        match parse_receipt(rows[k].as_slice()) {
            Some(rec) => {
                proof {
                    assert(decodes_to(cur, rec));
                    let chosen = choose|r2: Receipt| decodes_to(cur, r2);
                    assert(decodes_to(cur, chosen));
                    assert(row_receipt(cur) == Some(chosen));
                    assert(receipt_eq(rec, chosen));
                }
                out.push(rec);
            },
            None => {
                proof {
                    if exists|r2: Receipt| decodes_to(cur, r2) {
                        let w = choose|r2: Receipt| decodes_to(cur, r2);
                        assert(decodes_to(cur, w));
                        assert(false);
                    }
                    assert(row_receipt(cur) is None);
                }
            },
        }
        k = k + 1;
    }
    proof {
        assert(rows_view(rows@).take(n as int) =~= rows_view(rows@));
    }
    out
}

#[verifier::external_type_specification]
#[verifier::external_body]
pub struct ExSledDb(sled::Db);

#[verifier::external_type_specification]
#[verifier::external_body]
pub struct ExSledError(sled::Error);

/// A write or flush that did not reach the disk.
#[derive(Debug, Clone, Copy, PartialEq, Eq, Structural)]
pub struct StorageError;

/// Relies on sled::open: opens or creates the store at `path`.
#[verifier::external_body]
fn db_open(path: &str) -> (r: Option<sled::Db>)
{
    sled::open(path).ok()
}

/// Relies on sled::Config::temporary and open: a store that is removed
/// when the handle is dropped.
#[verifier::external_body]
fn db_open_temporary() -> (r: Option<sled::Db>)
{
    sled::Config::new().temporary(true).open().ok()
}

/// Relies on sled::Tree::insert: stores the value under the key.
#[verifier::external_body]
fn db_insert(db: &sled::Db, key: &Vec<u8>, val: &Vec<u8>) -> (r: Result<(), sled::Error>)
{
    db.insert(key.as_slice(), val.as_slice()).map(|_| ())
}

/// Relies on sled::Tree::flush: makes earlier writes durable before it
/// returns.
#[verifier::external_body]
fn db_flush(db: &sled::Db) -> (r: Result<(), sled::Error>)
{
    db.flush().map(|_| ())
}

/// Relies on sled::Tree::iter: walks all entries in key order; entries
/// that cannot be read are skipped; returns the stored values.
#[verifier::external_body]
fn db_scan(db: &sled::Db) -> (r: Vec<Vec<u8>>)
{
    db.iter().filter_map(|kv| kv.ok()).map(|(_k, v)| v.to_vec()).collect()
}

/// The durable, append-only receipt store: each accepted acknowledgment
/// is written under its own identifier and flushed before the call
/// returns.
pub struct Ledger {
    db: sled::Db,
}

impl Ledger {
    /// Opens or creates the store at `path`.
    pub fn open(path: &str) -> (r: Option<Ledger>) {
        match db_open(path) {
            Some(db) => Some(Ledger { db }),
            None => None,
        }
    }

    /// A store that vanishes with the process.
    pub fn open_temporary() -> (r: Option<Ledger>) {
        match db_open_temporary() {
            Some(db) => Some(Ledger { db }),
            None => None,
        }
    }

    /// Persists a receipt under its identifier and flushes before
    /// returning: a receipt either is durably stored or the caller gets
    /// an error, never a partial commit.
    pub fn append(&self, rec: &Receipt) -> (r: Result<(), StorageError>)
        requires
            payload_wf(rec.dat),
    {
        let row = receipt_to_bytes(rec);
        let key = vstd::slice::slice_to_vec(rec.ack_id.as_str().as_bytes());
        match db_insert(&self.db, &key, &row) {
            Ok(()) => {},
            Err(_) => {
                return Err(StorageError);
            },
        }
        match db_flush(&self.db) {
            Ok(()) => Ok(()),
            Err(_) => Err(StorageError),
        }
    }

    /// Every receipt the store holds, in storage order; rows that do not
    /// decode are skipped.
    pub fn list_all(&self) -> (r: Vec<Receipt>)
        ensures
            forall|i: int| 0 <= i < r@.len() ==> receipt_wf(#[trigger] r@[i]),
    {
        let rows = db_scan(&self.db);
        decode_rows(&rows)
    }

    /// The receipts that pass the filters, newest first, cut to `limit`:
    /// whatever the store returned, every entry passed the filters, is a
    /// well-formed decoded receipt, the order is newest first, and no
    /// more than `limit` entries come back.
    pub fn search(&self, kid: &Option<String>, since: Option<i128>, limit: Option<usize>) -> (r:
        Vec<Receipt>)
        ensures
            crate::query::sorted_desc(r@),
            limit matches Some(l) ==> r@.len() <= l,
            forall|i: int|
                0 <= i < r@.len() ==> crate::query::keep(
                    #[trigger] r@[i],
                    match kid {
                        None => None,
                        Some(k) => Some(k@),
                    },
                    since,
                ) && receipt_wf(r@[i]),
    {
        let rows = db_scan(&self.db);
        let recs = decode_rows(&rows);
        let ghost rv = recs@;
        let ghost kidf: Option<Seq<char>> = match kid {
            None => None,
            Some(k) => Some(k@),
        };
        let ghost liml: Option<int> = match limit {
            None => None,
            Some(l) => Some(l as int),
        };
        let out = crate::query::search_records(recs, kid, since, limit);
        proof {
            crate::query::lemma_search_shape(rv, kidf, since, liml);
            assert forall|i: int| 0 <= i < out@.len() implies receipt_wf(#[trigger] out@[i]) by {
                assert(rv.contains(out@[i]));
                let j = choose|j: int| 0 <= j < rv.len() && rv[j] == out@[i];
                assert(receipt_wf(rv[j]));
            }
        }
        out
    }

    /// How many rows the store holds.
    pub fn count(&self) -> (r: usize) {
        db_scan(&self.db).len()
    }
}

} // verus!
