use zkack::dat::{DatPayload, Policy};
use zkack::ledger::{Ledger, Receipt};
use zkack::timefmt::parse_iso;

fn payload() -> DatPayload {
    DatPayload {
        v: 1,
        salt_b64: "c2FsdA".to_string(),
        addr_hash_b64: "YWRkcg".to_string(),
        msg_digest_b64: "ZGln".to_string(),
        digest_alg: "blake3".to_string(),
        exp: "2099-01-01T00:00:00Z".to_string(),
        nonce_b64: "bm9uY2U".to_string(),
        policy: Policy { ack_by_secs: 900, fallbacks: vec![] },
    }
}

fn receipt(ack_id: &str, kid: &str, stored_at: &str) -> Receipt {
    Receipt {
        ack_id: ack_id.to_string(),
        kid: kid.to_string(),
        dat: payload(),
        received_ts: "2026-01-01T00:00:00Z".to_string(),
        recv_domain: "local.test".to_string(),
        recv_domain_sig: None,
        msg_id: Some("<mid@local>".to_string()),
        dkim_pass: true,
        stored_at: stored_at.to_string(),
    }
}

#[test]
fn receipt_codec_round_trips() {
    let rec = receipt("id-1", "k1", "2026-02-03T04:05:06Z");
    let bytes = zkack::ledger::receipt_to_bytes(&rec);
    let back = zkack::ledger::parse_receipt(&bytes).expect("decodes");
    assert_eq!(back.ack_id, rec.ack_id);
    assert_eq!(back.kid, rec.kid);
    assert_eq!(back.received_ts, rec.received_ts);
    assert_eq!(back.recv_domain, rec.recv_domain);
    assert_eq!(back.recv_domain_sig, rec.recv_domain_sig);
    assert_eq!(back.msg_id, rec.msg_id);
    assert_eq!(back.dkim_pass, rec.dkim_pass);
    assert_eq!(back.stored_at, rec.stored_at);
    assert_eq!(back.dat.exp, rec.dat.exp);
    assert_eq!(back.dat.policy.ack_by_secs, rec.dat.policy.ack_by_secs);
}

#[test]
fn garbage_rows_are_skipped() {
    assert!(zkack::ledger::parse_receipt(b"not a receipt").is_none());
    assert!(zkack::ledger::parse_receipt(b"").is_none());
}

#[test]
fn ledger_orders_since_results_newest_first() {
    let ledger = Ledger::open_temporary().expect("store");
    let t1 = "2026-01-01T00:00:00Z";
    let t2 = "2026-01-02T00:00:00Z";
    let t3 = "2026-01-03T00:00:00Z";
    ledger.append(&receipt("a", "k1", t1)).unwrap();
    ledger.append(&receipt("b", "k1", t2)).unwrap();
    ledger.append(&receipt("c", "k1", t3)).unwrap();
    let since = parse_iso(t2);
    assert!(since.is_some());
    let got = ledger.search(&None, since, None);
    let ids: Vec<String> = got.iter().map(|r| r.ack_id.clone()).collect();
    assert_eq!(ids, vec!["c".to_string(), "b".to_string()]);
}

#[test]
fn ledger_limit_one_returns_newest() {
    let ledger = Ledger::open_temporary().expect("store");
    let times = [
        "2026-01-01T00:00:00Z",
        "2026-01-05T00:00:00Z",
        "2026-01-03T00:00:00Z",
        "2026-01-02T00:00:00Z",
        "2026-01-04T00:00:00Z",
    ];
    for (i, t) in times.iter().enumerate() {
        ledger.append(&receipt(&format!("r{}", i), "k1", t)).unwrap();
    }
    let got = ledger.search(&None, None, Some(1));
    assert_eq!(got.len(), 1);
    assert_eq!(got[0].ack_id, "r1");
    assert_eq!(got[0].stored_at, "2026-01-05T00:00:00Z");
}

#[test]
fn ledger_filters_by_kid() {
    let ledger = Ledger::open_temporary().expect("store");
    ledger.append(&receipt("a", "k1", "2026-01-01T00:00:00Z")).unwrap();
    ledger.append(&receipt("b", "k2", "2026-01-02T00:00:00Z")).unwrap();
    ledger.append(&receipt("c", "k1", "2026-01-03T00:00:00Z")).unwrap();
    let got = ledger.search(&Some("k1".to_string()), None, None);
    let ids: Vec<String> = got.iter().map(|r| r.ack_id.clone()).collect();
    assert_eq!(ids, vec!["c".to_string(), "a".to_string()]);
}

#[test]
fn list_all_returns_every_stored_receipt() {
    let ledger = Ledger::open_temporary().expect("store");
    ledger.append(&receipt("a", "k1", "2026-01-01T00:00:00Z")).unwrap();
    ledger.append(&receipt("b", "k2", "2026-01-02T00:00:00Z")).unwrap();
    let all = ledger.list_all();
    assert_eq!(all.len(), 2);
    assert_eq!(ledger.count(), 2);
}

#[test]
fn unparseable_stored_at_is_dropped_only_under_since() {
    let ledger = Ledger::open_temporary().expect("store");
    ledger.append(&receipt("good", "k1", "2026-01-02T00:00:00Z")).unwrap();
    ledger.append(&receipt("odd", "k1", "not a timestamp")).unwrap();
    let unfiltered = ledger.search(&None, None, None);
    assert_eq!(unfiltered.len(), 2);
    // with a bound, the entry without a readable instant is excluded
    let since = parse_iso("2026-01-01T00:00:00Z");
    let bounded = ledger.search(&None, since, None);
    let ids: Vec<String> = bounded.iter().map(|r| r.ack_id.clone()).collect();
    assert_eq!(ids, vec!["good".to_string()]);
}

#[test]
fn parse_iso_reads_rfc3339() {
    assert_eq!(parse_iso("1970-01-01T00:00:00Z"), Some(0));
    assert_eq!(parse_iso("1970-01-01T00:00:01Z"), Some(1_000_000_000));
    assert!(parse_iso("not a time").is_none());
    assert!(parse_iso("2026-01-02T00:00:00Z").unwrap() > parse_iso("2026-01-01T23:59:59Z").unwrap());
}
