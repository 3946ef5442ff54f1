//! Adversarial edges of the ledger, through the public API only, on
//! in-memory ledger text. Verdicts go by the class names of the issues.

use banto_kernel::commands::parse_body;
use banto_kernel::json::Json;
use banto_kernel::ledger::{EvidenceFile, EvidenceProbe};
use banto_kernel::time::now_rfc3339;
use banto_kernel::{hash_bytes, Draft, Envelope, Evidence, KernelError, Ledger, VerifyReport, SCHEMA};

/// A ledger file held in memory.
struct Mem {
    raw: String,
    ledger: Ledger,
}

impl Mem {
    fn new() -> Mem {
        Mem { raw: String::new(), ledger: Ledger::open("ledger.jsonl", true).unwrap() }
    }

    fn append(&mut self, d: Draft) -> Result<Envelope, KernelError> {
        append_to(&self.ledger, &mut self.raw, d)
    }

    fn verify(&self) -> VerifyReport {
        self.ledger.verify(&self.raw, None, false).unwrap()
    }

    fn lines(&self) -> Vec<String> {
        self.raw.lines().map(str::to_owned).collect()
    }

    fn write_lines(&mut self, lines: &[String]) {
        let mut out = lines.join("\n");
        out.push('\n');
        self.raw = out;
    }
}

fn append_to(ledger: &Ledger, raw: &mut String, d: Draft) -> Result<Envelope, KernelError> {
    let a = ledger.try_append(raw, d).expect("seq room")?;
    if let Some(t) = a.text {
        raw.push_str(&t);
    }
    Ok(a.envelope)
}

fn body(text: &str) -> Json {
    parse_body(text).unwrap()
}

fn draft(actor: &str, event_type: &str, b: Json) -> Draft {
    Draft { ts: None, actor: actor.into(), event_type: event_type.into(), body: b, evidence: vec![], op: None }
}

fn classes(report: &VerifyReport) -> Vec<&str> {
    report.issues.iter().map(|i| i.class.as_str()).collect()
}

fn object(entries: Vec<(&str, Json)>) -> Json {
    Json::object(entries.into_iter().map(|(k, v)| (k.to_string(), v)).collect())
}

#[test]
fn unicode_emoji_japanese_roundtrip_and_verify() {
    let mut m = Mem::new();
    let text = r#"{
        "text": "番頭は黙って死なせない 🏮📜",
        "かぎ": "キーも日本語",
        "mixed": "ASCII と 日本語 と émoji 🎌😀",
        "combining": "か\u3099き\u3099"
    }"#;
    let actor = "主人:花子 🐢";
    let appended = m.append(draft(actor, "note.capture", body(text))).unwrap();
    let events = m.ledger.events(&m.raw).unwrap();
    assert_eq!(events.len(), 1);
    assert_eq!(events[0], appended);
    assert_eq!(events[0].body, body(text));
    assert_eq!(events[0].actor, actor);
    if let Json::Object(entries) = &events[0].body {
        let combining = entries.iter().find(|(k, _)| k == "combining").unwrap();
        assert_eq!(combining.1, Json::Str("か\u{3099}き\u{3099}".into()));
    }
    let report = m.verify();
    assert!(report.ok(), "{:?}", report.issues);
    assert_eq!(report.events, 1);
}

fn nested_body() -> Json {
    let mut b = body(r#"{"z": 0, "a": [1, {"b": [true, null, {"深い": "谷"}]}]}"#);
    for _ in 0..20 {
        b = object(vec![("outer", Json::Array(vec![b, body(r#"{"倉": "庫"}"#)])), ("先", Json::Str("後".into()))]);
    }
    b
}

#[test]
fn deeply_nested_body_roundtrip_is_canonical_and_stable() {
    let mut m = Mem::new();
    m.append(draft("tester", "note.capture", nested_body())).unwrap();
    let line = m.lines()[0].clone();
    let events = m.ledger.events(&m.raw).unwrap();
    assert_eq!(events[0].body, nested_body());
    assert_eq!(events[0].to_line().unwrap(), line);
    let report = m.verify();
    assert!(report.ok(), "{:?}", report.issues);
}

#[test]
fn float_body_survives_roundtrip_and_verify() {
    let mut m = Mem::new();
    let text = r#"{"x": 1.0, "y": 0.5, "big": 1e300, "neg": -2.25}"#;
    m.append(draft("tester", "note.capture", body(text))).unwrap();
    let events = m.ledger.events(&m.raw).unwrap();
    assert_eq!(events[0].body, body(text));
    let line = m.lines()[0].clone();
    assert!(line.contains("\"x\":1.0"), "{line}");
    assert_eq!(events[0].to_line().unwrap(), line);
    let report = m.verify();
    assert!(report.ok(), "{:?}", report.issues);
}

#[test]
fn key_order_attack_is_flagged_non_canonical() {
    let mut m = Mem::new();
    m.append(draft("tester", "note.capture", body(r#"{"text": "one"}"#))).unwrap();
    m.append(draft("tester", "note.capture", body(r#"{"text": "two"}"#))).unwrap();
    let mut lines = m.lines();
    let last = lines.pop().unwrap();
    let prefix = "{\"actor\":\"tester\",";
    assert!(last.starts_with(prefix), "{last}");
    let rest = &last[prefix.len()..last.len() - 1];
    lines.push(format!("{{{rest},\"actor\":\"tester\"}}"));
    m.write_lines(&lines);
    let report = m.verify();
    assert_eq!(classes(&report), ["non-canonical"], "{:?}", report.issues);
    assert_eq!(report.events, 2);
}

#[test]
fn deletion_attack_is_flagged() {
    let mut m = Mem::new();
    for i in 0..3u64 {
        m.append(draft("tester", "note.capture", object(vec![("n", Json::from_u64(i))]))).unwrap();
    }
    let mut lines = m.lines();
    lines.remove(1);
    m.write_lines(&lines);
    let report = m.verify();
    assert!(!report.ok());
    let cs = classes(&report);
    assert!(cs.contains(&"seq"), "{cs:?}");
    assert!(cs.contains(&"chain"), "{cs:?}");
}

#[test]
fn duplication_attack_is_flagged() {
    let mut m = Mem::new();
    m.append(draft("tester", "note.capture", body(r#"{"n": 0}"#))).unwrap();
    m.append(draft("tester", "note.capture", body(r#"{"n": 1}"#))).unwrap();
    let mut lines = m.lines();
    lines.push(lines.last().unwrap().clone());
    m.write_lines(&lines);
    let report = m.verify();
    assert!(!report.ok());
    let cs = classes(&report);
    assert!(cs.contains(&"seq"), "{cs:?}");
    assert!(cs.contains(&"chain"), "{cs:?}");
}

#[test]
fn truncation_attack_is_flagged_as_parse() {
    let mut m = Mem::new();
    m.append(draft("tester", "note.capture", body(r#"{"text": "kept"}"#))).unwrap();
    m.append(draft("tester", "note.capture", body(r#"{"text": "cut"}"#))).unwrap();
    let lines = m.lines();
    let last = &lines[1];
    m.raw = format!("{}\n{}", lines[0], &last[..last.len() / 2]);
    let report = m.verify();
    assert!(classes(&report).contains(&"parse"), "{:?}", report.issues);
    assert_eq!(report.events, 1);
}

#[test]
fn two_ledger_handles_on_same_path_chain_correctly() {
    let mut raw = String::new();
    let a = Ledger::open("ledger.jsonl", true).unwrap();
    let b = Ledger::open("ledger.jsonl", true).unwrap();
    let e1 = append_to(&a, &mut raw, draft("actor:a", "note.capture", body(r#"{"via": "a"}"#))).unwrap();
    let e2 = append_to(&b, &mut raw, draft("actor:b", "note.capture", body(r#"{"via": "b"}"#))).unwrap();
    let e3 = append_to(&a, &mut raw, draft("actor:a", "note.capture", body(r#"{"via": "a2"}"#))).unwrap();
    assert_eq!(e2.seq, 1);
    assert_eq!(e2.prev, Some(e1.id.clone()));
    assert_eq!(e3.seq, 2);
    assert_eq!(e3.prev, Some(e2.id.clone()));
    let report = b.verify(&raw, None, false).unwrap();
    assert!(report.ok(), "{:?}", report.issues);
    assert_eq!(report.events, 3);
}

#[test]
fn wrong_evidence_hash_is_flagged_by_deep_verify() {
    let mut m = Mem::new();
    let mut d = draft("tester", "claim.declare", body(r#"{"title": "done"}"#));
    d.evidence = vec![Evidence {
        sha256: hash_bytes("台帳に記録された別の中身".as_bytes()),
        uri: Some("成果物.txt".into()),
        media_type: Some("text/plain".into()),
        bytes: None,
    }];
    m.append(d).unwrap();
    let there = vec![EvidenceProbe { uri: "成果物.txt".into(), file: EvidenceFile::Present }];
    let shallow = m.ledger.verify(&m.raw, Some(&there), false).unwrap();
    assert!(shallow.ok(), "{:?}", shallow.issues);
    let hashed = vec![EvidenceProbe {
        uri: "成果物.txt".into(),
        file: EvidenceFile::Hashed(hash_bytes("実際の中身".as_bytes())),
    }];
    let deep = m.ledger.verify(&m.raw, Some(&hashed), true).unwrap();
    assert_eq!(classes(&deep), ["evidence-hash"], "{:?}", deep.issues);
}

#[test]
fn empty_ledger_is_valid_with_zero_events() {
    let m = Mem::new();
    assert!(m.ledger.events(&m.raw).unwrap().is_empty());
    let report = m.verify();
    assert!(report.ok(), "{:?}", report.issues);
    assert_eq!(report.events, 0);
}

#[test]
fn kernel_append_chains_after_manual_but_valid_external_append() {
    let mut m = Mem::new();
    let first = m.append(draft("tester", "note.capture", body(r#"{"n": 0}"#))).unwrap();
    let mut env = Envelope {
        schema: SCHEMA.into(),
        seq: first.seq + 1,
        prev: Some(first.id.clone()),
        ts: now_rfc3339(),
        actor: "external:script".into(),
        event_type: "note.capture".into(),
        body: body(r#"{"n": 1, "手書き": true}"#),
        evidence: vec![],
        op: None,
        id: String::new(),
    };
    env.id = env.compute_id().unwrap();
    env.validate().unwrap();
    m.raw.push_str(&env.to_line().unwrap());
    m.raw.push('\n');
    let third = m.append(draft("tester", "note.capture", body(r#"{"n": 2}"#))).unwrap();
    assert_eq!(third.seq, 2);
    assert_eq!(third.prev, Some(env.id.clone()));
    let report = m.verify();
    assert!(report.ok(), "{:?}", report.issues);
    assert_eq!(report.events, 3);
}

#[test]
fn unreadable_deep_body_is_refused_before_writing() {
    let mut m = Mem::new();
    let mut b = Json::Number("0".into());
    for _ in 0..200 {
        b = Json::Array(vec![b]);
    }
    let err = m.append(draft("tester", "note.capture", b));
    assert!(err.is_err(), "deep body must be refused");
    assert_eq!(m.ledger.events(&m.raw).unwrap().len(), 0);
    m.append(draft("tester", "note.capture", body(r#"{"text": "still alive"}"#))).unwrap();
    let report = m.verify();
    assert!(report.ok(), "{:?}", report.issues);
}

#[test]
fn crlf_converted_ledger_is_flagged() {
    let mut m = Mem::new();
    m.append(draft("tester", "note.capture", body(r#"{"text": "lf"}"#))).unwrap();
    m.raw = m.raw.replace('\n', "\r\n");
    let report = m.verify();
    assert!(classes(&report).contains(&"non-canonical"), "{:?}", report.issues);
}

#[test]
fn evidence_uri_cannot_escape_evidence_root() {
    let mut m = Mem::new();
    let secret: &[u8] = b"outside the evidence root";
    let mut d = draft("tester", "claim.declare", body(r#"{"title": "sneaky"}"#));
    d.evidence = vec![Evidence {
        sha256: hash_bytes(secret),
        uri: Some("../secret.txt".into()),
        media_type: None,
        bytes: Some(secret.len() as u64),
    }];
    m.append(d).unwrap();
    // what a careless prober would find through `..`
    let found = vec![EvidenceProbe { uri: "../secret.txt".into(), file: EvidenceFile::Hashed(hash_bytes(secret)) }];
    assert!(m.ledger.evidence_uris(&m.raw).is_empty());
    let report = m.ledger.verify(&m.raw, Some(&found), true).unwrap();
    assert!(classes(&report).contains(&"evidence-invalid"), "{:?}", report.issues);
    assert!(!classes(&report).contains(&"evidence-hash"));
}

#[test]
fn missing_evidence_file_is_flagged() {
    let mut m = Mem::new();
    let mut d = draft("tester", "claim.declare", body(r#"{"title": "no file"}"#));
    d.evidence = vec![Evidence { sha256: hash_bytes(b"whatever"), uri: Some("gone.txt".into()), media_type: None, bytes: None }];
    m.append(d).unwrap();
    assert_eq!(m.ledger.evidence_uris(&m.raw), vec!["gone.txt".to_string()]);
    let found = vec![EvidenceProbe { uri: "gone.txt".into(), file: EvidenceFile::Missing }];
    let report = m.ledger.verify(&m.raw, Some(&found), false).unwrap();
    assert!(classes(&report).contains(&"evidence-missing"), "{:?}", report.issues);
}

#[test]
fn duplicate_op_in_ledger_is_flagged() {
    let mut m = Mem::new();
    let mut d = draft("tester", "loop.touch", body(r#"{"slug": "x"}"#));
    d.op = Some("touch-1".into());
    let first = m.append(d).unwrap();
    let mut env = Envelope {
        schema: SCHEMA.into(),
        seq: 1,
        prev: Some(first.id.clone()),
        ts: now_rfc3339(),
        actor: "external:script".into(),
        event_type: "loop.touch".into(),
        body: body(r#"{"slug": "y"}"#),
        evidence: vec![],
        op: Some("touch-1".into()),
        id: String::new(),
    };
    env.id = env.compute_id().unwrap();
    let mut lines = m.lines();
    lines.push(env.to_line().unwrap());
    m.write_lines(&lines);
    let report = m.verify();
    assert!(classes(&report).contains(&"op-duplicate"), "{:?}", report.issues);
    let dup = report.issues.iter().find(|i| i.class == "op-duplicate").unwrap();
    assert_eq!(dup.message, "op touch-1 already used at seq 0");
    assert_eq!(dup.line, 2);
}

#[test]
fn interior_empty_line_is_flagged_but_trailing_newline_is_not() {
    let mut m = Mem::new();
    m.append(draft("tester", "note.capture", body(r#"{"n": 1}"#))).unwrap();
    m.append(draft("tester", "note.capture", body(r#"{"n": 2}"#))).unwrap();
    let report = m.verify();
    assert!(report.ok(), "{:?}", report.issues);
    let lines = m.lines();
    m.raw = format!("{}\n\n{}\n", lines[0], lines[1]);
    let report = m.verify();
    assert!(classes(&report).contains(&"empty-line"), "{:?}", report.issues);
}
