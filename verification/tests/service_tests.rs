use zkack::dat::{DatPayload, Policy};
use zkack::digest::{find_dkim_bh, select_digest};
use zkack::envelope::{generate_keypair, jws_sign, jws_verify, EnvelopeError};
use zkack::ledger::Ledger;
use zkack::registry::KeyRegistry;
use zkack::service::{acknowledge, verify_token, AckError, AckRequest};

fn payload_with_exp(exp: &str) -> DatPayload {
    DatPayload {
        v: 1,
        salt_b64: "c2FsdA".to_string(),
        addr_hash_b64: "YWRkcg".to_string(),
        msg_digest_b64: "ZGln".to_string(),
        digest_alg: "blake3".to_string(),
        exp: exp.to_string(),
        nonce_b64: "bm9uY2U".to_string(),
        policy: Policy { ack_by_secs: 900, fallbacks: vec!["portal".to_string()] },
    }
}

fn setup() -> (KeyRegistry, Vec<u8>, Ledger) {
    let (sk, vk) = generate_keypair();
    let mut reg = KeyRegistry::new();
    reg.add("k1".to_string(), vk);
    let ledger = Ledger::open_temporary().expect("store");
    (reg, sk, ledger)
}

fn request(token: &str, proof: &str) -> AckRequest {
    AckRequest {
        dat_jws: token.to_string(),
        proof: proof.to_string(),
        received_ts: "2026-01-01T00:00:00Z".to_string(),
        recv_domain: "local.test".to_string(),
        recv_domain_sig: None,
        msg_id: None,
        dkim_pass: None,
    }
}

const NOW_NS: i128 = 1_767_225_600_000_000_000;  // early 2026

#[test]
fn acknowledge_accepts_valid_request() {
    let (reg, sk, ledger) = setup();
    let token = jws_sign(&payload_with_exp("2099-01-01T00:00:00Z"), &"k1".to_string(), &sk);
    let req = request(&token, "mock-proof-ok");
    let out = acknowledge(&reg, &ledger, &req, NOW_NS, "2026-01-01T00:00:01Z".to_string())
        .expect("accepted");
    assert_eq!(out.status, "DELIVERED");
    assert_eq!(out.ack_id.len(), 36);
    let all = ledger.list_all();
    assert_eq!(all.len(), 1);
    assert_eq!(all[0].kid, "k1");
    assert_eq!(all[0].dkim_pass, true);
    assert_eq!(all[0].stored_at, "2026-01-01T00:00:01Z");
}

#[test]
fn empty_proof_is_rejected_before_any_crypto() {
    let (reg, _sk, ledger) = setup();
    // the token is rubbish on purpose: the proof gate must come first
    let req = request("not-even-a-token", "");
    let r = acknowledge(&reg, &ledger, &req, NOW_NS, "2026-01-01T00:00:01Z".to_string());
    assert_eq!(r.unwrap_err(), AckError::EmptyProof);
    let blank = request("not-even-a-token", " \t\r\n ");
    let r2 = acknowledge(&reg, &ledger, &blank, NOW_NS, "2026-01-01T00:00:01Z".to_string());
    assert_eq!(r2.unwrap_err(), AckError::EmptyProof);
    assert_eq!(ledger.count(), 0);
}

#[test]
fn expired_token_is_rejected_though_signature_verifies() {
    let (reg, sk, ledger) = setup();
    let token = jws_sign(&payload_with_exp("2020-01-01T00:00:00Z"), &"k1".to_string(), &sk);
    // the signature alone is fine
    assert!(jws_verify(token.as_str(), &reg).is_ok());
    assert!(verify_token(&reg, token.as_str(), &None).is_ok());
    // the acknowledge flow still refuses it
    let req = request(&token, "mock-proof-ok");
    let r = acknowledge(&reg, &ledger, &req, NOW_NS, "2026-01-01T00:00:01Z".to_string());
    assert_eq!(r.unwrap_err(), AckError::Expired);
    assert_eq!(ledger.count(), 0);
}

#[test]
fn unreadable_expiry_is_rejected() {
    let (reg, sk, ledger) = setup();
    let token = jws_sign(&payload_with_exp("whenever"), &"k1".to_string(), &sk);
    let req = request(&token, "mock-proof-ok");
    let r = acknowledge(&reg, &ledger, &req, NOW_NS, "2026-01-01T00:00:01Z".to_string());
    assert_eq!(r.unwrap_err(), AckError::MalformedExpiry);
}

#[test]
fn bad_envelope_is_rejected_with_reason() {
    let (reg, sk, ledger) = setup();
    let token = jws_sign(&payload_with_exp("2099-01-01T00:00:00Z"), &"absent".to_string(), &sk);
    let req = request(&token, "mock-proof-ok");
    let r = acknowledge(&reg, &ledger, &req, NOW_NS, "2026-01-01T00:00:01Z".to_string());
    assert_eq!(
        r.unwrap_err(),
        AckError::EnvelopeInvalid(EnvelopeError::UnknownKeyId)
    );
}

#[test]
fn garbage_token_with_proof_is_envelope_invalid() {
    let (reg, _sk, ledger) = setup();
    let req = request("definitely-not-a-token", "mock-proof-ok");
    let r = acknowledge(&reg, &ledger, &req, NOW_NS, "2026-01-01T00:00:01Z".to_string());
    assert_eq!(
        r.unwrap_err(),
        AckError::EnvelopeInvalid(EnvelopeError::MalformedEnvelope)
    );
    assert_eq!(ledger.count(), 0);
}

#[test]
fn verify_token_reports_digest_match() {
    let (reg, sk, _ledger) = setup();
    let token = jws_sign(&payload_with_exp("2099-01-01T00:00:00Z"), &"k1".to_string(), &sk);
    let hit = verify_token(&reg, token.as_str(), &Some("ZGln".to_string())).unwrap();
    assert_eq!(hit.digest_match, Some(true));
    assert_eq!(hit.kid, "k1");
    let miss = verify_token(&reg, token.as_str(), &Some("b3RoZXI".to_string())).unwrap();
    assert_eq!(miss.digest_match, Some(false));
    let silent = verify_token(&reg, token.as_str(), &None).unwrap();
    assert_eq!(silent.digest_match, None);
}

#[test]
fn selector_prefers_supplied_body_hash() {
    let eml = b"From: a@example.org\r\nDKIM-Signature: v=1; a=rsa-sha256;\r\n\tbh=AbC+dE/fG==;\r\n\tb=xyz\r\nSubject: hi\r\n\r\nbody\r\n";
    let (alg, digest) = select_digest(eml);
    assert_eq!(alg, "dkim-bh");
    assert_eq!(digest, "AbC-dE_fG");
}

#[test]
fn selector_falls_back_to_content_hash() {
    let eml = b"From: a@example.org\r\nSubject: hi\r\n\r\nbody\r\n";
    let (alg, digest) = select_digest(eml);
    assert_eq!(alg, "blake3");
    assert_eq!(digest, zkack::hashes::blake3_b64(eml));
}

#[test]
fn folded_header_collection_stops_at_first_plain_line() {
    // the body hash sits on a continuation line; a later header must not
    // bleed into the collected value
    let eml = b"DKIM-Signature: v=1;\n  a=ed25519;\n  bh=QUJD;\nX-Other: bh=WRONG\n\nbody";
    let bh = find_dkim_bh(eml).expect("found");
    assert_eq!(bh, b"QUJD".to_vec());
}

#[test]
fn missing_headers_mean_no_body_hash() {
    assert!(find_dkim_bh(b"no blank line means no header block").is_none());
    assert!(find_dkim_bh(b"Subject: x\r\n\r\nbody").is_none());
    // an empty bh value is no body hash
    assert!(find_dkim_bh(b"DKIM-Signature: bh=;\r\n\r\nbody").is_none());
}

#[test]
fn bh_value_ends_at_semicolon() {
    let eml = b"DKIM-Signature: bh=SGVsbG8=; b=sig\r\n\r\nbody";
    let bh = find_dkim_bh(eml).expect("found");
    assert_eq!(bh, b"SGVsbG8".to_vec());
}
