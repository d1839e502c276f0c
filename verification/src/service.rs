use vstd::prelude::*;

verus! {

use crate::dat::{DatPayload, JwsHeader, header_eq, payload_eq};
use crate::envelope::{
    EnvelopeError,
    accepted_token,
    ed_ok,
    jws_verify,
    signing_input,
    token_shaped,
};
use crate::hashes::new_ack_id;
use crate::ledger::{Ledger, Receipt};
use crate::registry::KeyRegistry;
use crate::timefmt::{parse_iso, ts_of};

/// An incoming acknowledgment: the token, the proof artifact, and the
/// receiver's report.
#[derive(Debug, Clone)]
pub struct AckRequest {
    pub dat_jws: String,
    pub proof: String,
    pub received_ts: String,
    pub recv_domain: String,
    pub recv_domain_sig: Option<String>,
    pub msg_id: Option<String>,
    pub dkim_pass: Option<bool>,
}

/// Why an acknowledgment was rejected.
#[derive(Debug, Clone, Copy, PartialEq, Eq, Structural)]
pub enum AckError {
    EmptyProof,
    EnvelopeInvalid(EnvelopeError),
    MalformedExpiry,
    Expired,
    Storage,
}

/// What an accepted acknowledgment returns.
#[derive(Debug, Clone)]
pub struct AckResponse {
    pub ack_id: String,
    pub status: String,
}

/// What the read-only verification endpoint returns.
#[derive(Debug, Clone)]
pub struct VerifyOutcome {
    pub kid: String,
    pub dat: DatPayload,
    pub digest_match: Option<bool>,
}

/// True of text whose bytes are all blank: spaces, tabs, carriage
/// returns, line feeds, or nothing at all.
pub open spec fn blank_text(s: Seq<char>) -> bool {
    forall|i: int|
        0 <= i < vstd::utf8::encode_utf8(s).len() ==> is_blank_byte(
            #[trigger] vstd::utf8::encode_utf8(s)[i],
        )
}

pub open spec fn is_blank_byte(b: u8) -> bool {
    b == 0x20 || b == 0x09 || b == 0x0d || b == 0x0a
}

/// Whether the text holds nothing but blanks.
pub fn is_blank(s: &str) -> (r: bool)
    ensures
        r == blank_text(s@),
{
    let b = s.as_bytes();
    let n = b.len();
    let mut i: usize = 0;
    while i < n
        invariant
            0 <= i <= n,
            n == b@.len(),
            b@ == vstd::utf8::encode_utf8(s@),
            forall|m: int| 0 <= m < i ==> is_blank_byte(#[trigger] b@[m]),
        decreases n - i,
    {
        let x = b[i];
        if !(x == 0x20 || x == 0x09 || x == 0x0d || x == 0x0a) {
            return false;
        }
        i = i + 1;
    }
    true
}

/// The single accept-or-reject transition of the verification service.
/// In order: a blank proof artifact is rejected before anything else; the
/// envelope is verified against the registry; the payload's deadline is
/// parsed and an expired token is rejected even though its signature
/// holds; then the receipt is built with a fresh server-side identifier
/// and durably appended. `now_ns` and `now_iso` are the caller's reading
/// of the clock, as nanoseconds and as RFC 3339 text.
#[verifier::loop_isolation(false)]
pub fn acknowledge(
    reg: &KeyRegistry,
    ledger: &Ledger,
    req: &AckRequest,
    now_ns: i128,
    now_iso: String,
) -> (r: Result<AckResponse, AckError>)
    ensures
        blank_text(req.proof@) <==> r == Err::<AckResponse, AckError>(AckError::EmptyProof),
        forall|h: JwsHeader, d: DatPayload|
            !blank_text(req.proof@) && #[trigger] accepted_token(req.dat_jws@, *reg, h, d)
                ==> match ts_of(d.exp@) {
                None => r == Err::<AckResponse, AckError>(AckError::MalformedExpiry),
                Some(e) => (now_ns > e ==> r == Err::<AckResponse, AckError>(AckError::Expired))
                    && (now_ns <= e ==> (r matches Ok(v) && v.status@ == "DELIVERED"@
                    && v.ack_id@.len() == 36) || r == Err::<AckResponse, AckError>(
                    AckError::Storage,
                )),
            },
        r matches Ok(v) ==> v.status@ == "DELIVERED"@ && v.ack_id@.len() == 36
            && !blank_text(req.proof@) && (exists|h: JwsHeader, d: DatPayload|
            #[trigger] accepted_token(req.dat_jws@, *reg, h, d) && ts_of(d.exp@) is Some
                && now_ns <= ts_of(d.exp@)->Some_0),
        r matches Err(e) && e is EnvelopeInvalid ==> !blank_text(req.proof@) && (forall|
            h: JwsHeader,
            d: DatPayload,
        | !(#[trigger] accepted_token(req.dat_jws@, *reg, h, d))),
        r == Err::<AckResponse, AckError>(AckError::MalformedExpiry) ==> !blank_text(req.proof@)
            && (exists|h: JwsHeader, d: DatPayload|
            #[trigger] accepted_token(req.dat_jws@, *reg, h, d) && ts_of(d.exp@) is None),
        r == Err::<AckResponse, AckError>(AckError::Expired) ==> !blank_text(req.proof@) && (
        exists|h: JwsHeader, d: DatPayload|
            #[trigger] accepted_token(req.dat_jws@, *reg, h, d) && ts_of(d.exp@) is Some
                && now_ns > ts_of(d.exp@)->Some_0),
        r == Err::<AckResponse, AckError>(AckError::Storage) ==> !blank_text(req.proof@) && (
        exists|h: JwsHeader, d: DatPayload|
            #[trigger] accepted_token(req.dat_jws@, *reg, h, d) && ts_of(d.exp@) is Some
                && now_ns <= ts_of(d.exp@)->Some_0),
{
    if is_blank(req.proof.as_str()) {
        return Err(AckError::EmptyProof);
    }
    let vres = jws_verify(req.dat_jws.as_str(), reg);
    proof {
        assert forall|h: JwsHeader, d: DatPayload|
            #[trigger] accepted_token(req.dat_jws@, *reg, h, d) implies (vres matches Ok(v)
            && header_eq(v.0, h) && payload_eq(v.1, d)) by {
            reveal(accepted_token);
            let sb = choose|sb: Seq<u8>|
                #[trigger] token_shaped(req.dat_jws@, h, d, sb) && ed_ok(
                    reg.find(h.kid@)->Some_0,
                    signing_input(d, h),
                    sb,
                );
            assert(token_shaped(req.dat_jws@, h, d, sb));
        }
    }
    let (hdr, dat) = match vres {
        Ok(v) => v,
        Err(e) => {
            return Err(AckError::EnvelopeInvalid(e));
        },
    };
    let ghost gh = hdr;
    let ghost gd = dat;
    let exp_ns = match parse_iso(dat.exp.as_str()) {
        Some(t) => t,
        None => {
            proof {
                assert(accepted_token(req.dat_jws@, *reg, gh, gd) && ts_of(gd.exp@) is None);
            }
            return Err(AckError::MalformedExpiry);
        },
    };
    if now_ns > exp_ns {
        proof {
            assert(accepted_token(req.dat_jws@, *reg, gh, gd) && ts_of(gd.exp@) is Some
                && now_ns > ts_of(gd.exp@)->Some_0);
        }
        return Err(AckError::Expired);
    }
    let ack_id = new_ack_id();
    let rec = build_receipt(req, ack_id, hdr.kid, dat, now_iso);
    let ack_id_out = rec.ack_id.clone();
    proof {
        assert(accepted_token(req.dat_jws@, *reg, gh, gd) && ts_of(gd.exp@) is Some && now_ns
            <= ts_of(gd.exp@)->Some_0);
    }
    match ledger.append(&rec) {
        Ok(()) => {},
        Err(_) => {
            return Err(AckError::Storage);
        },
    }
    proof {
        reveal_strlit("DELIVERED");
    }
    Ok(AckResponse { ack_id: ack_id_out, status: String::from_str("DELIVERED") })
}

/// The receipt for an accepted acknowledgment: the server-drawn
/// identifier, the verified header's key id and payload, the caller's
/// report with `dkim_pass` defaulted to true where unspecified, and the
/// server clock's text as `stored_at`.
pub fn build_receipt(
    req: &AckRequest,
    ack_id: String,
    kid: String,
    dat: DatPayload,
    now_iso: String,
) -> (rec: Receipt)
    ensures
        rec.ack_id == ack_id,
        rec.kid == kid,
        rec.dat == dat,
        rec.received_ts == req.received_ts,
        rec.recv_domain == req.recv_domain,
        rec.recv_domain_sig == req.recv_domain_sig,
        rec.msg_id == req.msg_id,
        rec.dkim_pass == (match req.dkim_pass {
            Some(b) => b,
            None => true,
        }),
        rec.stored_at == now_iso,
{
    Receipt {
        ack_id,
        kid,
        dat,
        received_ts: req.received_ts.clone(),
        recv_domain: req.recv_domain.clone(),
        recv_domain_sig: clone_opt(&req.recv_domain_sig),
        msg_id: clone_opt(&req.msg_id),
        dkim_pass: match req.dkim_pass {
            Some(b) => b,
            None => true,
        },
        stored_at: now_iso,
    }
}

/// A copy of an optional text.
fn clone_opt(o: &Option<String>) -> (r: Option<String>)
    ensures
        r == *o,
{
    match o {
        None => None,
        Some(s) => Some(s.clone()),
    }
}

/// True where some accepted header carries this key id over this payload.
pub open spec fn outcome_accepted(
    jws: Seq<char>,
    reg: KeyRegistry,
    dat: DatPayload,
    kid: Seq<char>,
) -> bool {
    exists|h: JwsHeader| #[trigger] accepted_token(jws, reg, h, dat) && h.kid@ == kid
}

/// The read-only verification flow: checks the envelope against the
/// registry and, where the caller supplied a digest to compare, says
/// whether it matches the payload's message digest. Every accepted token
/// comes back with its own key id and payload. No expiration check and
/// no persistence here.
pub fn verify_token(reg: &KeyRegistry, dat_jws: &str, msg_digest_b64: &Option<String>) -> (r:
    Result<VerifyOutcome, EnvelopeError>)
    ensures
        r matches Ok(v) ==> outcome_accepted(dat_jws@, *reg, v.dat, v.kid@),
        r matches Ok(v) ==> v.digest_match == (match msg_digest_b64 {
            None => None::<bool>,
            Some(dref) => Some(dref@ == v.dat.msg_digest_b64@),
        }),
        forall|h: JwsHeader, d: DatPayload|
            #[trigger] accepted_token(dat_jws@, *reg, h, d) ==> (r matches Ok(v) && payload_eq(
                v.dat,
                d,
            ) && v.kid@ == h.kid@),
        r is Err ==> (forall|h: JwsHeader, d: DatPayload|
            !(#[trigger] accepted_token(dat_jws@, *reg, h, d))),
{
    let vres = jws_verify(dat_jws, reg);
    proof {
        assert forall|h: JwsHeader, d: DatPayload|
            #[trigger] accepted_token(dat_jws@, *reg, h, d) implies (vres matches Ok(v)
            && header_eq(v.0, h) && payload_eq(v.1, d)) by {
            reveal(accepted_token);
            let sb = choose|sb: Seq<u8>|
                #[trigger] token_shaped(dat_jws@, h, d, sb) && ed_ok(
                    reg.find(h.kid@)->Some_0,
                    signing_input(d, h),
                    sb,
                );
            assert(token_shaped(dat_jws@, h, d, sb));
        }
    }
    let (hdr, dat) = match vres {
        Ok(v) => v,
        Err(e) => {
            return Err(e);
        },
    };
    let ghost gh = hdr;
    let ghost gd = dat;
    let digest_match = match msg_digest_b64 {
        None => None,
        Some(d) => Some(crate::asciitext::str_eq(d.as_str(), dat.msg_digest_b64.as_str())),
    };
    proof {
        assert(accepted_token(dat_jws@, *reg, gh, gd));
        assert(outcome_accepted(dat_jws@, *reg, gd, gh.kid@));
    }
    Ok(VerifyOutcome { kid: hdr.kid, dat, digest_match })
}

} // verus!
