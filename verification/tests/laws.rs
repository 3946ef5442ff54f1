//! The library's laws and error cases on concrete values.

use banto_kernel::commands::{cmd_gate_check, parse_body};
use banto_kernel::json::{canonical_string, Json};
use banto_kernel::config::Workspace;
use banto_kernel::hash::Sha256Stream;
use banto_kernel::ledger::{EvidenceFile, EvidenceProbe};
use banto_kernel::render::{env_value, log_line};
use banto_kernel::time::now_rfc3339;
use banto_kernel::{hash_bytes, Draft, Envelope, Evidence, KernelError, Ledger, SCHEMA};

fn body(text: &str) -> Json {
    parse_body(text).unwrap()
}

fn draft(actor: &str, event_type: &str, b: &str, ts: Option<&str>) -> Draft {
    Draft {
        ts: ts.map(Into::into),
        actor: actor.into(),
        event_type: event_type.into(),
        body: body(b),
        evidence: vec![],
        op: None,
    }
}

fn append(ledger: &Ledger, raw: &mut String, d: Draft) -> Result<Envelope, KernelError> {
    let a = ledger.try_append(raw, d).expect("seq room")?;
    if let Some(t) = a.text {
        raw.push_str(&t);
    }
    Ok(a.envelope)
}

#[test]
fn sha256_of_a_known_vector() {
    assert_eq!(hash_bytes(b"abc"), "ba7816bf8f01cfea414140de5dae2223b00361a396177a9cb410ff61f20015ad");
    assert_eq!(hash_bytes(b""), "e3b0c44298fc1c149afbf4c8996fb92427ae41e4649b934ca495991b7852b855");
}

#[test]
fn appended_lines_read_back_and_extend_the_chain() {
    let ledger = Ledger::open("l.jsonl", true).unwrap();
    let mut raw = String::new();
    let a = append(&ledger, &mut raw, draft("x", "note.capture", r#"{"n": 1}"#, Some("2026-07-01T09:00:00+09:00"))).unwrap();
    assert_eq!(raw, format!("{}\n", a.to_line().unwrap()));
    let b = append(&ledger, &mut raw, draft("x", "note.capture", r#"{"n": 2}"#, Some("2026-07-01T09:00:01+09:00"))).unwrap();
    assert_eq!(b.seq, a.seq + 1);
    assert_eq!(b.prev.as_deref(), Some(a.id.as_str()));
    assert_eq!(b.ts, "2026-07-01T09:00:01+09:00");
    assert_eq!(b.id, b.compute_id().unwrap());
    b.validate().unwrap();
    assert_eq!(ledger.events(&raw).unwrap(), vec![a, b]);
    let report = ledger.verify(&raw, None, true).unwrap();
    assert!(report.ok(), "{:?}", report.issues);
    assert_eq!(report.events, ledger.events(&raw).unwrap().len());
}

#[test]
fn the_id_ignores_the_recorded_id() {
    let mut env = Envelope {
        schema: SCHEMA.into(),
        seq: 0,
        prev: None,
        ts: now_rfc3339(),
        actor: "a".into(),
        event_type: "note.capture".into(),
        body: body("{}"),
        evidence: vec![],
        op: None,
        id: "whatever".into(),
    };
    let first = env.compute_id().unwrap();
    env.id = first.clone();
    assert_eq!(env.compute_id().unwrap(), first);
    // the current time is valid RFC 3339, so the sealed envelope validates
    env.validate().unwrap();
}

#[test]
fn a_claim_without_evidence_never_resolves() {
    let ledger = Ledger::open("l.jsonl", true).unwrap();
    let mut raw = String::new();
    let c = append(&ledger, &mut raw, draft("a", "claim.declare", r#"{"title": "t"}"#, None)).unwrap();
    let events = ledger.events(&raw).unwrap();
    let check = cmd_gate_check(&events, &c.id, &Vec::<EvidenceProbe>::new()).unwrap();
    assert_eq!(check.code, 1);
    assert!(check.text.contains("✗ 解決しない証拠が 1 件"), "{}", check.text);
}

#[test]
fn each_kernel_error_has_its_text() {
    let e = Ledger::open("missing.jsonl", false).unwrap_err();
    assert_eq!(e.message(), "not found: ledger not found: missing.jsonl");
    let ledger = Ledger::open("l.jsonl", true).unwrap();
    let e = ledger.find("", "abc").unwrap_err();
    assert_eq!(e.message(), "not found: event abc");
    let e = Envelope::from_line("[1]", 7).unwrap_err();
    assert_eq!(e.message(), "parse error at line 7: event must be a JSON object");
    assert!(matches!(Envelope::from_line("{", 3), Err(KernelError::Parse { line: 3, .. })));
    let mut raw = String::new();
    let bad = draft("a", "Bad.Type", "{}", None);
    let e = append(&ledger, &mut raw, bad).unwrap_err();
    assert_eq!(e.message(), "validation error: invalid type: Bad.Type");
    let mut late = draft("a", "note.capture", "{}", Some("yesterday"));
    late.op = Some("k".into());
    let e = append(&ledger, &mut raw, late).unwrap_err();
    assert!(e.message().starts_with("validation error: ts is not RFC 3339: "), "{}", e.message());
    let mut d = draft("a", "note.capture", r#"{"v": 1}"#, None);
    d.op = Some("k".into());
    append(&ledger, &mut raw, d).unwrap();
    let mut d = draft("a", "note.capture", r#"{"v": 2}"#, None);
    d.op = Some("k".into());
    let e = append(&ledger, &mut raw, d).unwrap_err();
    assert_eq!(e.message(), "operation key conflict: k");
    assert_eq!(KernelError::Locked.message(), "ledger is locked by another process");
    assert_eq!(KernelError::Io("disk".into()).message(), "io error: disk");
    assert_eq!(KernelError::Canonical("x".into()).message(), "canonicalization error: x");
    assert_eq!(KernelError::Corrupt("y".into()).message(), "ledger corrupt: y");
}

#[test]
fn canonical_text_sorts_keys_and_escapes() {
    let v = body("{\"b\": [1, true, null], \"a\": \"q\\\"\\n\\u0001é\"}");
    assert_eq!(canonical_string(&v).unwrap(), "{\"a\":\"q\\\"\\n\\u0001é\",\"b\":[1,true,null]}");
}

#[test]
fn log_lines_cut_long_bodies() {
    let long = "x".repeat(100);
    let mut env = Envelope {
        schema: SCHEMA.into(),
        seq: 4,
        prev: None,
        ts: "2026-07-01T09:00:00+09:00".into(),
        actor: "a".into(),
        event_type: "note.capture".into(),
        body: body(&format!("{{\"text\": \"{long}\"}}")),
        evidence: vec![],
        op: None,
        id: String::new(),
    };
    env.id = env.compute_id().unwrap();
    let line = log_line(&env);
    let compact: String = format!("{{\"text\":\"{long}\"}}").chars().take(80).collect();
    assert_eq!(line, format!("[4] 2026-07-01T09:00:00+09:00 a note.capture {compact}…"));
}

#[test]
fn an_event_as_json_is_its_line_read_back() {
    let ledger = Ledger::open("l.jsonl", true).unwrap();
    let mut raw = String::new();
    let e = append(&ledger, &mut raw, draft("x", "note.capture", r#"{"text": "hi", "a": [1, 2]}"#, Some("2026-07-01T09:00:00+09:00"))).unwrap();
    let v = env_value(&e).unwrap();
    assert_eq!(canonical_string(&v).unwrap(), e.to_line().unwrap());
    match v {
        Json::Object(entries) => {
            let keys: Vec<&str> = entries.iter().map(|(k, _)| k.as_str()).collect();
            assert_eq!(keys, vec!["actor", "body", "evidence", "id", "prev", "schema", "seq", "ts", "type"]);
        }
        other => panic!("not an object: {other:?}"),
    }
}

#[test]
fn deep_verify_only_adds_hash_and_read_issues() {
    let ledger = Ledger::open("l.jsonl", true).unwrap();
    let mut raw = String::new();
    let mut d = draft("x", "claim.declare", r#"{"title": "t"}"#, Some("2026-07-01T09:00:00+09:00"));
    d.evidence = vec![
        Evidence { sha256: hash_bytes(b"a"), uri: Some("a.txt".into()), media_type: None, bytes: None },
        Evidence { sha256: hash_bytes(b"b"), uri: Some("b.txt".into()), media_type: None, bytes: None },
        Evidence { sha256: hash_bytes(b"c"), uri: Some("c.txt".into()), media_type: None, bytes: None },
    ];
    append(&ledger, &mut raw, d).unwrap();
    let probes = vec![
        EvidenceProbe { uri: "a.txt".into(), file: EvidenceFile::Hashed(hash_bytes(b"not a")) },
        EvidenceProbe { uri: "b.txt".into(), file: EvidenceFile::Unreadable("denied".into()) },
        EvidenceProbe { uri: "c.txt".into(), file: EvidenceFile::Missing },
    ];
    let deep = ledger.verify(&raw, Some(&probes), true).unwrap();
    let shallow = ledger.verify(&raw, Some(&probes), false).unwrap();
    let deep_classes: Vec<&str> = deep.issues.iter().map(|i| i.class.as_str()).collect();
    assert_eq!(deep_classes, vec!["evidence-hash", "evidence-read", "evidence-missing"]);
    let kept: Vec<&str> = deep_classes.into_iter().filter(|c| *c != "evidence-hash" && *c != "evidence-read").collect();
    let shallow_classes: Vec<&str> = shallow.issues.iter().map(|i| i.class.as_str()).collect();
    assert_eq!(shallow_classes, kept);
    assert_eq!(shallow.events, deep.events);
}

#[test]
fn the_stamp_of_an_undated_draft_reads_back_as_rfc3339() {
    let ledger = Ledger::open("l.jsonl", true).unwrap();
    let mut raw = String::new();
    let e = append(&ledger, &mut raw, draft("x", "note.capture", r#"{"n": 1}"#, None)).unwrap();
    assert!(chrono::DateTime::parse_from_rfc3339(&e.ts).is_ok(), "{}", e.ts);
    let cfg = Workspace::from_toml("/ws".into(), None, "u".into(), "").unwrap().brief_config();
    assert!(chrono::DateTime::parse_from_rfc3339(&cfg.now).is_ok(), "{}", cfg.now);
}

#[test]
fn a_repeated_op_treats_the_two_zeros_as_one() {
    let ledger = Ledger::open("l.jsonl", true).unwrap();
    let mut raw = String::new();
    let mut first = draft("x", "note.capture", r#"{"v": 0.0}"#, Some("2026-07-01T09:00:00+09:00"));
    first.op = Some("k".into());
    let a = append(&ledger, &mut raw, first).unwrap();
    let mut again = draft("x", "note.capture", r#"{"v": -0.0}"#, Some("2026-07-01T09:00:05+09:00"));
    again.op = Some("k".into());
    let b = append(&ledger, &mut raw, again).unwrap();
    assert_eq!(a, b);
    assert_eq!(ledger.events(&raw).unwrap().len(), 1);
    let mut other = draft("x", "note.capture", r#"{"v": 1.0}"#, None);
    other.op = Some("k".into());
    assert!(matches!(append(&ledger, &mut raw, other), Err(KernelError::OpConflict(_))));
    assert!(banto_kernel::event::json_equal(&body(r#"{"a": [0.0]}"#), &body(r#"{"a": [-0.0]}"#)));
    assert!(!banto_kernel::event::json_equal(&body(r#"{"a": 0}"#), &body(r#"{"a": 0.0}"#)));
}

#[test]
fn a_stream_fed_in_chunks_hashes_like_the_whole() {
    let mut s = Sha256Stream::new();
    s.update("台帳".as_bytes());
    s.update(b"");
    s.update(b" and more");
    assert_eq!(s.finish(), hash_bytes("台帳 and more".as_bytes()));
    assert_eq!(Sha256Stream::new().finish(), hash_bytes(b""));
    let mut t = Sha256Stream::new();
    t.update(b"abc");
    assert_eq!(t.finish(), "ba7816bf8f01cfea414140de5dae2223b00361a396177a9cb410ff61f20015ad");
}
