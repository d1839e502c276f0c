use base64::Engine;
use zkack::dat::{DatPayload, JwsHeader, Policy};
use zkack::proofsys::{MockProof, ProofSystem};
use zkack::registry::KeyRegistry;
use zkack::envelope::{jws_sign, jws_verify, generate_keypair, sign_then_verify, EnvelopeError};

fn sample_payload() -> DatPayload {
    DatPayload {
        v: 1,
        salt_b64: "c2FsdHNhbHRzYWx0".to_string(),
        addr_hash_b64: "YWRkcmhhc2g".to_string(),
        msg_digest_b64: "ZGlnZXN0".to_string(),
        digest_alg: "blake3".to_string(),
        exp: "2099-01-01T00:00:00Z".to_string(),
        nonce_b64: "bm9uY2Vub25jZQ".to_string(),
        policy: Policy { ack_by_secs: 900, fallbacks: vec!["portal".to_string(), "sms".to_string()] },
    }
}

fn payload_fields_equal(a: &DatPayload, b: &DatPayload) -> bool {
    a.v == b.v && a.salt_b64 == b.salt_b64 && a.addr_hash_b64 == b.addr_hash_b64
        && a.msg_digest_b64 == b.msg_digest_b64 && a.digest_alg == b.digest_alg && a.exp == b.exp
        && a.nonce_b64 == b.nonce_b64 && a.policy.ack_by_secs == b.policy.ack_by_secs
        && a.policy.fallbacks == b.policy.fallbacks
}

#[test]
fn round_trip_returns_equal_payload() {
    let (sk, vk) = generate_keypair();
    let mut reg = KeyRegistry::new();
    reg.add("k1".to_string(), vk);
    let payload = sample_payload();
    let token = jws_sign(&payload, &"k1".to_string(), &sk);
    let (hdr, got) = jws_verify(token.as_str(), &reg).expect("verification");
    assert_eq!(hdr.alg, "EdDSA");
    assert_eq!(hdr.kid, "k1");
    assert!(payload_fields_equal(&payload, &got));
}

#[test]
fn sign_then_verify_round_trips() {
    let (sk, vk) = generate_keypair();
    let mut reg = KeyRegistry::new();
    reg.add("kid-a".to_string(), vk);
    let payload = sample_payload();
    let out = sign_then_verify(&payload, &"kid-a".to_string(), &sk, &reg).expect("round trip");
    assert!(payload_fields_equal(&payload, &out.1));
    assert_eq!(out.0.kid, "kid-a");
}

#[test]
fn tampered_signature_segment_fails() {
    let (sk, vk) = generate_keypair();
    let mut reg = KeyRegistry::new();
    reg.add("k1".to_string(), vk);
    let token = jws_sign(&sample_payload(), &"k1".to_string(), &sk);
    let sig_start = token.rfind('.').unwrap() + 1;
    let bytes = token.as_bytes();
    for i in sig_start..token.len() {
        let mut flipped: Vec<u8> = bytes.to_vec();
        flipped[i] = if flipped[i] == b'A' { b'B' } else { b'A' };
        let t = String::from_utf8(flipped).unwrap();
        if t == token {
            continue;
        }
        let r = jws_verify(t.as_str(), &reg);
        assert!(matches!(
            r,
            Err(EnvelopeError::SignatureInvalid) | Err(EnvelopeError::MalformedEnvelope)
        ));
    }
}

#[test]
fn tampered_payload_segment_fails() {
    let (sk, vk) = generate_keypair();
    let mut reg = KeyRegistry::new();
    reg.add("k1".to_string(), vk);
    let token = jws_sign(&sample_payload(), &"k1".to_string(), &sk);
    let first_dot = token.find('.').unwrap();
    let second_dot = token[first_dot + 1..].find('.').unwrap() + first_dot + 1;
    let bytes = token.as_bytes();
    for i in (first_dot + 1)..second_dot {
        let mut flipped: Vec<u8> = bytes.to_vec();
        flipped[i] = if flipped[i] == b'A' { b'B' } else { b'A' };
        let t = String::from_utf8(flipped).unwrap();
        if t == token {
            continue;
        }
        let r = jws_verify(t.as_str(), &reg);
        assert!(r.is_err());
    }
}

#[test]
fn unknown_key_id_is_distinct_from_bad_signature() {
    let (sk, vk) = generate_keypair();
    let mut reg = KeyRegistry::new();
    reg.add("known".to_string(), vk);
    let token = jws_sign(&sample_payload(), &"absent".to_string(), &sk);
    let r = jws_verify(token.as_str(), &reg);
    assert_eq!(r.unwrap_err(), EnvelopeError::UnknownKeyId);
}

#[test]
fn wrong_key_gives_signature_invalid() {
    let (sk, _vk) = generate_keypair();
    let (_sk2, vk2) = generate_keypair();
    let mut reg = KeyRegistry::new();
    reg.add("k1".to_string(), vk2);
    let token = jws_sign(&sample_payload(), &"k1".to_string(), &sk);
    let r = jws_verify(token.as_str(), &reg);
    assert_eq!(r.unwrap_err(), EnvelopeError::SignatureInvalid);
}

#[test]
fn unsupported_algorithm_is_rejected() {
    let (sk, vk) = generate_keypair();
    let mut reg = KeyRegistry::new();
    reg.add("k1".to_string(), vk);
    let token = jws_sign(&sample_payload(), &"k1".to_string(), &sk);
    let parts: Vec<&str> = token.split('.').collect();
    let header = base64::engine::general_purpose::URL_SAFE_NO_PAD
        .encode(b"{\"alg\":\"none\",\"kid\":\"k1\"}");
    let forged = format!("{}.{}.{}", header, parts[1], parts[2]);
    let r = jws_verify(forged.as_str(), &reg);
    assert_eq!(r.unwrap_err(), EnvelopeError::UnsupportedAlgorithm);
}

#[test]
fn malformed_envelope_is_rejected() {
    let reg = KeyRegistry::new();
    assert_eq!(
        jws_verify("no dots at all", &reg).unwrap_err(),
        EnvelopeError::MalformedEnvelope
    );
    assert_eq!(
        jws_verify("a.b", &reg).unwrap_err(),
        EnvelopeError::MalformedEnvelope
    );
    assert_eq!(
        jws_verify("a.b.c.d", &reg).unwrap_err(),
        EnvelopeError::MalformedEnvelope
    );
    assert_eq!(
        jws_verify("!!!.???.###", &reg).unwrap_err(),
        EnvelopeError::MalformedEnvelope
    );
}

#[test]
fn payload_json_is_canonical() {
    let payload = sample_payload();
    let bytes = zkack::dat::payload_to_json(&payload);
    let text = String::from_utf8(bytes).unwrap();
    let mut expected = String::new();
    expected.push_str("{\"v\":1,\"salt_b64\":\"c2FsdHNhbHRzYWx0\",\"addr_hash_b64\":\"YWRkcmhhc2g\",");
    expected.push_str("\"msg_digest_b64\":\"ZGlnZXN0\",\"digest_alg\":\"blake3\",");
    expected.push_str("\"exp\":\"2099-01-01T00:00:00Z\",\"nonce_b64\":\"bm9uY2Vub25jZQ\",");
    expected.push_str("\"policy\":{\"ack_by_secs\":900,\"fallbacks\":[\"portal\",\"sms\"]}}");
    assert_eq!(text, expected);
}

#[test]
fn header_json_matches_reference_serializer() {
    let hdr = JwsHeader { alg: "EdDSA".to_string(), kid: "k-9".to_string() };
    let ours = String::from_utf8(zkack::dat::header_to_json(&hdr)).unwrap();
    assert_eq!(ours, "{\"alg\":\"EdDSA\",\"kid\":\"k-9\"}");
}

#[test]
fn registry_rejects_bad_keys_and_finds_good_ones() {
    let vk = [7u8; 32];
    let good = zkack::registry::PubKeyEntry {
        kid: "good".to_string(),
        vk_b64: base64::engine::general_purpose::URL_SAFE_NO_PAD.encode(vk),
    };
    let reg = zkack::registry::KeyRegistry::from_entries(&vec![good.clone()]).expect("loads");
    assert_eq!(reg.lookup("good").unwrap(), vk.to_vec());
    assert!(reg.lookup("other").is_none());

    let short = zkack::registry::PubKeyEntry {
        kid: "short".to_string(),
        vk_b64: base64::engine::general_purpose::URL_SAFE_NO_PAD.encode([1u8; 5]),
    };
    assert!(zkack::registry::KeyRegistry::from_entries(&vec![good.clone(), short]).is_none());

    let junk = zkack::registry::PubKeyEntry {
        kid: "junk".to_string(),
        vk_b64: "not base64 !!!".to_string(),
    };
    assert!(zkack::registry::KeyRegistry::from_entries(&vec![junk]).is_none());
}

#[test]
fn hashes_match_reference_crates() {
    let data = b"the raw message";
    let expected =
        base64::engine::general_purpose::URL_SAFE_NO_PAD.encode(blake3::hash(data).as_bytes());
    assert_eq!(zkack::hashes::blake3_b64(data), expected);
    assert_eq!(zkack::hashes::blake3_b64(data).len(), 43);

    let salt = [9u8; 32];
    let mut ctx = blake3::Hasher::new();
    ctx.update(&salt);
    ctx.update(b"alice@example.org");
    let expected2 =
        base64::engine::general_purpose::URL_SAFE_NO_PAD.encode(ctx.finalize().as_bytes());
    assert_eq!(zkack::hashes::addr_hash_b64(&salt, "alice@example.org"), expected2);
}

#[test]
fn mock_proof_accepts_only_its_own_artifact() {
    let artifact = MockProof::prove("a", "m", "n");
    assert_eq!(artifact, b"mock-proof-ok".to_vec());
    assert!(MockProof::verify("a", "m", "n", &artifact));
    assert!(!MockProof::verify("a", "m", "n", b"something else"));
    assert!(!MockProof::verify("a", "m", "n", b""));
}
