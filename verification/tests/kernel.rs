//! The envelope, the folds and the ledger, exercised on in-memory ledger
//! text: the file is a `String`, and an append adds the text it returns.

use banto_kernel::commands::parse_body;
use banto_kernel::event::is_valid_type;
use banto_kernel::fold::{brief, fold_loops, health};
use banto_kernel::json::Json;
use banto_kernel::ledger::{EvidenceFile, EvidenceProbe};
use banto_kernel::{
    hash_bytes, BriefConfig, Draft, Envelope, Evidence, KernelError, Ledger, LoopState, LoopStatus, SCHEMA,
};

fn body(text: &str) -> Json {
    parse_body(text).unwrap()
}

fn sample() -> Envelope {
    let mut env = Envelope {
        schema: SCHEMA.into(),
        seq: 0,
        prev: None,
        ts: "2026-07-17T09:00:00+09:00".into(),
        actor: "alice".into(),
        event_type: "note.capture".into(),
        body: body(r#"{"text": "最初のメモ"}"#),
        evidence: vec![],
        op: None,
        id: String::new(),
    };
    env.id = env.compute_id().unwrap();
    env
}

#[test]
fn id_matches_independent_hash_of_manual_canonical_form() {
    let env = sample();
    let manual = [
        "{\"actor\":\"alice\",\"body\":{\"text\":\"最初のメモ\"},",
        "\"evidence\":[],\"prev\":null,\"schema\":\"banto/1\",\"seq\":0,",
        "\"ts\":\"2026-07-17T09:00:00+09:00\",\"type\":\"note.capture\"}",
    ]
    .concat();
    assert_eq!(env.id, hash_bytes(manual.as_bytes()));
    env.validate().unwrap();
}

#[test]
fn line_roundtrip_is_canonical_and_stable() {
    let env = sample();
    let line = env.to_line().unwrap();
    let parsed = Envelope::from_line(&line, 1).unwrap();
    assert_eq!(parsed, env);
    assert_eq!(parsed.to_line().unwrap(), line);
}

#[test]
fn unknown_envelope_field_is_rejected() {
    let env = sample();
    let line = env.to_line().unwrap();
    let hacked = line.replacen("{", "{\"confidence_gate\":true,", 1);
    assert!(Envelope::from_line(&hacked, 1).is_err());
}

#[test]
fn type_charset_is_enforced() {
    assert!(is_valid_type("video.log"));
    assert!(is_valid_type("loop.open"));
    assert!(is_valid_type("a.b_c-d.e2"));
    assert!(!is_valid_type("Video.log"));
    assert!(!is_valid_type("video..log"));
    assert!(!is_valid_type(".video"));
    assert!(!is_valid_type(""));
    assert!(!is_valid_type("video log"));
}

#[test]
fn tampered_body_fails_validation() {
    let mut env = sample();
    env.body = body(r#"{"text": "改竄されたメモ"}"#);
    assert!(env.validate().is_err());
}

// ---- folds ----

fn ev(seq: u64, ts: &str, event_type: &str, b: &str) -> Envelope {
    let mut env = Envelope {
        schema: SCHEMA.into(),
        seq,
        prev: if seq == 0 { None } else { Some("0".repeat(64)) },
        ts: ts.into(),
        actor: "test".into(),
        event_type: event_type.into(),
        body: body(b),
        evidence: vec![],
        op: None,
        id: String::new(),
    };
    env.id = env.compute_id().unwrap();
    env
}

fn config(now_ts: &str) -> BriefConfig {
    BriefConfig { now: now_ts.into(), stall_days: 4, habit_stall_days: 2, wip_limit: 2 }
}

fn find<'a>(loops: &'a [LoopState], slug: &str) -> &'a LoopState {
    loops.iter().find(|l| l.slug == slug).unwrap()
}

#[test]
fn loop_lifecycle_folds_correctly() {
    let events = vec![
        ev(0, "2026-07-01T09:00:00+09:00", "loop.open", r#"{"slug": "paper", "title": "論文投稿", "next": "著者名を入れる"}"#),
        ev(1, "2026-07-02T09:00:00+09:00", "loop.touch", r#"{"slug": "paper", "note": "少し進めた"}"#),
        ev(2, "2026-07-03T09:00:00+09:00", "video.log", r#"{"filename": "a.mp4", "loop": "paper"}"#),
        ev(3, "2026-07-04T09:00:00+09:00", "loop.close", r#"{"slug": "paper", "outcome": "提出した"}"#),
    ];
    let loops = fold_loops(&events);
    let paper = find(&loops, "paper");
    assert_eq!(paper.status, LoopStatus::Closed);
    assert_eq!(paper.touch_count, 2);
    assert_eq!(paper.last_activity_ts, "2026-07-04T09:00:00+09:00");
    assert_eq!(paper.next_action.as_deref(), Some("著者名を入れる"));
}

#[test]
fn brief_flags_stalls_and_sorts_most_idle_first() {
    let events = vec![
        ev(0, "2026-07-01T09:00:00+09:00", "loop.open", r#"{"slug": "old", "title": "古い"}"#),
        ev(1, "2026-07-16T09:00:00+09:00", "loop.open", r#"{"slug": "fresh", "title": "新しい"}"#),
        ev(2, "2026-07-15T09:00:00+09:00", "loop.open", r#"{"slug": "video", "title": "ビデオ", "kind": "habit"}"#),
    ];
    let b = brief(&events, &config("2026-07-17T09:00:00+09:00"));
    assert_eq!(b.active[0].state.slug, "old");
    assert!(b.active[0].stalled);
    assert!(!b.active.iter().find(|l| l.state.slug == "fresh").unwrap().stalled);
    assert!(b.active.iter().find(|l| l.state.slug == "video").unwrap().stalled);
    assert!(!b.wip_exceeded);
}

#[test]
fn health_rings_bells() {
    let events = vec![
        ev(0, "2026-07-01T09:00:00+09:00", "loop.open", r#"{"slug": "a", "title": "A"}"#),
        ev(1, "2026-07-01T09:10:00+09:00", "loop.open", r#"{"slug": "b", "title": "B"}"#),
        ev(2, "2026-07-01T09:20:00+09:00", "loop.open", r#"{"slug": "c", "title": "C"}"#),
        ev(3, "2026-07-10T09:00:00+09:00", "video.log", r#"{"filename": "v.mp4"}"#),
    ];
    let h = health(&events, &config("2026-07-17T09:00:00+09:00"));
    assert_eq!(h.active, 3);
    assert!(h.bells.iter().any(|b| b.contains("朝の統括が 7 日")));
    assert!(h.bells.iter().any(|b| b.contains("稼働中プロジェクトが 3 本")));
}

// ---- the ledger, in memory ----

/// A ledger file held in memory.
struct Mem {
    raw: String,
    ledger: Ledger,
}

impl Mem {
    fn new() -> Mem {
        Mem { raw: String::new(), ledger: Ledger::open("ledger.jsonl", true).unwrap() }
    }

    fn append(&mut self, d: Draft) -> Result<Envelope, KernelError> {
        let a = self.ledger.try_append(&self.raw, d).expect("seq room")?;
        if let Some(t) = a.text {
            self.raw.push_str(&t);
        }
        Ok(a.envelope)
    }
}

fn draft(event_type: &str, b: &str) -> Draft {
    Draft { ts: None, actor: "test".into(), event_type: event_type.into(), body: body(b), evidence: vec![], op: None }
}

#[test]
fn append_builds_a_valid_chain() {
    let mut m = Mem::new();
    let a = m.append(draft("note.capture", r#"{"text": "a"}"#)).unwrap();
    let b = m.append(draft("note.capture", r#"{"text": "b"}"#)).unwrap();
    assert_eq!(a.seq, 0);
    assert_eq!(a.prev, None);
    assert_eq!(b.seq, 1);
    assert_eq!(b.prev, Some(a.id.clone()));
    let report = m.ledger.verify(&m.raw, None, false).unwrap();
    assert!(report.ok(), "{:?}", report.issues);
    assert_eq!(report.events, 2);
}

#[test]
fn tampering_is_detected() {
    let mut m = Mem::new();
    m.append(draft("note.capture", r#"{"text": "honest"}"#)).unwrap();
    m.append(draft("note.capture", r#"{"text": "second"}"#)).unwrap();
    let tampered = m.raw.replace("honest", "hacked!");
    assert_ne!(m.raw, tampered);
    let report = m.ledger.verify(&tampered, None, false).unwrap();
    assert!(!report.ok());
    assert!(report.issues.iter().any(|i| i.class == "validation"));
}

#[test]
fn non_canonical_line_is_detected() {
    let mut m = Mem::new();
    m.append(draft("note.capture", r#"{"text": "x"}"#)).unwrap();
    let padded = m.raw.trim_end().replace("\":", "\": ") + "\n";
    let report = m.ledger.verify(&padded, None, false).unwrap();
    assert!(report.issues.iter().any(|i| i.class == "non-canonical"));
}

#[test]
fn op_is_idempotent_and_conflicts_on_content_change() {
    let mut m = Mem::new();
    let with_op = |b: &str| {
        let mut d = draft("loop.touch", b);
        d.op = Some("touch-x-1".into());
        d
    };
    let first = m.append(with_op(r#"{"slug": "x"}"#)).unwrap();
    let second = m.append(with_op(r#"{"slug": "x"}"#)).unwrap();
    assert_eq!(first.id, second.id);
    assert_eq!(m.ledger.events(&m.raw).unwrap().len(), 1);
    assert!(matches!(m.append(with_op(r#"{"slug": "y"}"#)), Err(KernelError::OpConflict(_))));
}

#[test]
fn append_recovers_from_missing_trailing_newline() {
    let mut m = Mem::new();
    m.append(draft("note.capture", r#"{"text": "first"}"#)).unwrap();
    m.raw = m.raw.trim_end_matches('\n').to_string();
    let second = m.append(draft("note.capture", r#"{"text": "second"}"#)).unwrap();
    assert_eq!(second.seq, 1);
    let report = m.ledger.verify(&m.raw, None, false).unwrap();
    assert!(report.ok(), "{:?}", report.issues);
    assert_eq!(report.events, 2);
}

#[test]
fn deep_verify_checks_evidence_hashes() {
    let mut m = Mem::new();
    let content: &[u8] = b"the primary evidence";
    let sha256 = hash_bytes(content);
    let mut d = draft("claim.declare", r#"{"title": "done"}"#);
    d.evidence = vec![Evidence {
        sha256: sha256.clone(),
        uri: Some("evidence.txt".into()),
        media_type: None,
        bytes: Some(content.len() as u64),
    }];
    m.append(d).unwrap();
    let found = vec![EvidenceProbe { uri: "evidence.txt".into(), file: EvidenceFile::Hashed(sha256) }];
    let report = m.ledger.verify(&m.raw, Some(&found), true).unwrap();
    assert!(report.ok(), "{:?}", report.issues);
    let replaced = vec![EvidenceProbe {
        uri: "evidence.txt".into(),
        file: EvidenceFile::Hashed(hash_bytes(b"evidence, replaced after the claim")),
    }];
    let report = m.ledger.verify(&m.raw, Some(&replaced), true).unwrap();
    assert!(report.issues.iter().any(|i| i.class == "evidence-hash"));
}
