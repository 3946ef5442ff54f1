//! The commands' decisions and texts, run against an in-memory workspace:
//! the ledger file is a `String`, evidence files are byte strings found by
//! name, and every append adds the text the ledger returns.

use banto_kernel::commands::{
    cmd_append, cmd_gate_check, cmd_gate_declare, gate_declare_check, cmd_gate_reopen, cmd_gate_verify, cmd_journal, cmd_loop_open, cmd_loop_verb,
    cmd_note, cmd_transcript, cmd_video, cmd_video_remote, listed_loops, log_selection, media_type_of, parse_body,
    recorded_line, stored_uri,
};
use banto_kernel::config::Workspace;
use banto_kernel::fold::{brief, health};
use banto_kernel::json::Json;
use banto_kernel::ledger::{EvidenceFile, EvidenceProbe};
use banto_kernel::json::canonical_string;
use banto_kernel::render::{brief_value, brief_text, health_code, health_value, health_text, loop_value, loop_line, verify_text};
use banto_kernel::{hash_bytes, Draft, Envelope, Evidence, Ledger};

struct Ws {
    ws: Workspace,
    raw: String,
    ledger: Ledger,
    files: Vec<(String, Vec<u8>)>,
}

impl Ws {
    /// A workspace made by `init --actor alice`.
    fn init() -> Ws {
        Ws {
            ws: workspace("actor = \"alice\"\n", None),
            raw: String::new(),
            ledger: Ledger::open("/ws/ledger/ledger.jsonl", true).unwrap(),
            files: Vec::new(),
        }
    }

    fn write(&mut self, name: &str, content: &[u8]) {
        self.files.retain(|(n, _)| n != name);
        self.files.push((name.to_string(), content.to_vec()));
    }

    fn remove(&mut self, name: &str) {
        self.files.retain(|(n, _)| n != name);
    }

    fn events(&self) -> Vec<Envelope> {
        self.ledger.events(&self.raw).unwrap()
    }

    /// Appends a draft and gives back the line printed, as the command does.
    fn append(&mut self, draft: Result<Draft, String>) -> Result<String, String> {
        let draft = draft?;
        let a = self
            .ledger
            .try_append(&self.raw, draft)
            .expect("seq room")
            .map_err(|e| format!("追記に失敗: {}", e.message()))?;
        if let Some(t) = a.text {
            self.raw.push_str(&t);
        }
        Ok(recorded_line(&a.envelope))
    }

    /// Evidence for a file of the workspace, by its relative name.
    fn evidence(&self, name: &str) -> Result<Evidence, String> {
        let (_, bytes) =
            self.files.iter().find(|(n, _)| n == name).ok_or(format!("証拠ファイルが見つからない: {name}"))?;
        Ok(Evidence {
            sha256: hash_bytes(bytes),
            uri: Some(name.to_string()),
            media_type: media_type_of(name),
            bytes: Some(bytes.len() as u64),
        })
    }

    /// What a deep look under the root finds at `uri`.
    fn probe(&self, uri: &str) -> EvidenceProbe {
        let file = match self.files.iter().find(|(n, _)| n == uri) {
            Some((_, bytes)) => EvidenceFile::Hashed(hash_bytes(bytes)),
            None => EvidenceFile::Missing,
        };
        EvidenceProbe { uri: uri.to_string(), file }
    }

    fn verify(&self, evidence: bool, deep: bool) -> (String, i32) {
        let probes: Option<Vec<EvidenceProbe>> = if evidence || deep {
            Some(self.ledger.evidence_uris(&self.raw).iter().map(|u| self.probe(u)).collect())
        } else {
            None
        };
        verify_text(&self.ledger.verify(&self.raw, probes.as_ref(), deep).unwrap())
    }

    fn gate_check(&self, claim_id: &str) -> (String, i32) {
        let events = self.events();
        let claim = banto_kernel::commands::find_claim(&events, claim_id).unwrap();
        let probes: Vec<EvidenceProbe> =
            claim.evidence.iter().filter_map(|e| e.uri.as_deref()).map(|u| self.probe(u)).collect();
        let c = cmd_gate_check(&events, claim_id, &probes).unwrap();
        (c.text, c.code)
    }

    fn loop_open(&mut self, slug: &str, title: &str, kind: Option<&str>, next: Option<&str>, reopen: bool) -> Result<String, String> {
        let events = self.events();
        let d = cmd_loop_open(&self.ws, &events, slug.into(), title.into(), kind.map(Into::into), next.map(Into::into), reopen);
        self.append(d)
    }

    fn loop_verb(&mut self, verb: &str, slug: &str, key: &str, extra: Option<&str>) -> Result<String, String> {
        let events = self.events();
        let d = cmd_loop_verb(&self.ws, &events, verb, slug.into(), key, extra.map(Into::into));
        self.append(d)
    }

    fn loop_list(&self, all: bool) -> String {
        listed_loops(&self.events(), all).iter().map(|l| loop_line(l) + "\n").collect()
    }

    fn video(&mut self, name: &str, note: Option<&str>) -> Result<String, String> {
        let ev = self.evidence(name);
        let d = cmd_video(&self.ws, name, ev, note.map(Into::into), None);
        self.append(d)
    }

    fn note(&mut self, text: &str) -> Result<String, String> {
        let d = cmd_note(&self.ws, text.into(), vec![]);
        self.append(Ok(d))
    }

    fn append_cmd(&mut self, event_type: &str, body: &str, files: &[&str], op: Option<&str>) -> Result<String, String> {
        let body = parse_body(body)?;
        let evidence = files.iter().map(|f| self.evidence(f)).collect::<Result<Vec<_>, String>>()?;
        let d = cmd_append(&self.ws, event_type, body, evidence, op.map(Into::into));
        self.append(Ok(d))
    }

    /// A claim declared with evidence, as `gate declare` writes it.
    fn declare(&mut self, title: &str, files: &[&str]) -> String {
        let evidence = files.iter().map(|f| self.evidence(f).unwrap()).collect();
        let body = Json::object(vec![("title".to_string(), Json::Str(title.into()))]);
        let d = cmd_append(&self.ws, "claim.declare", body, evidence, None);
        id_of(&self.append(Ok(d)).unwrap())
    }
}

fn workspace(toml: &str, actor: Option<&str>) -> Workspace {
    Workspace::from_toml("/ws".into(), actor.map(Into::into), "unknown".into(), toml).unwrap()
}

/// The id printed in `✓ 記録 ... id=<hex64>`.
fn id_of(line: &str) -> String {
    let i = line.find("id=").expect("id= in output");
    line[i + 3..i + 67].to_string()
}

fn body_str(e: &Envelope, key: &str) -> Option<String> {
    e.body.get_str(key)
}

#[test]
fn loop_lifecycle_open_next_touch_list_close_reopen() {
    let mut w = Ws::init();
    let out = w.loop_open("paper", "論文投稿", None, Some("著者名を入れる"), false).unwrap();
    assert!(out.contains("✓ 記録 seq=0 type=loop.open"), "{out}");
    let err = w.loop_open("paper", "重複", None, None, false).unwrap_err();
    assert!(err.contains("稼働中"), "{err}");
    assert!(w.loop_verb("next", "paper", "action", Some("図1を差し替える")).unwrap().contains("type=loop.next"));
    assert!(w.loop_verb("touch", "paper", "note", Some("少し進めた")).unwrap().contains("type=loop.touch"));
    let err = w.loop_verb("touch", "ghost", "note", None).unwrap_err();
    assert!(err.contains("存在しない"), "{err}");
    let list = w.loop_list(false);
    assert!(list.contains("paper") && list.contains("論文投稿"), "{list}");
    assert!(w.loop_verb("close", "paper", "outcome", Some("提出した")).unwrap().contains("type=loop.close"));
    let err = w.loop_open("paper", "論文投稿", None, None, false).unwrap_err();
    assert!(err.contains("--reopen"), "{err}");
    w.loop_open("paper", "論文投稿", None, None, true).unwrap();
    w.loop_verb("park", "paper", "reason", None).unwrap();
    assert!(!w.loop_list(false).contains("paper"));
    assert!(w.loop_list(true).contains("[parked]"));
}

#[test]
fn loop_list_json_is_machine_readable() {
    let mut w = Ws::init();
    w.loop_open("paper", "論文投稿", Some("project"), Some("著者名"), false).unwrap();
    let loops = listed_loops(&w.events(), false);
    assert_eq!(loops.len(), 1);
    assert_eq!(loops[0].slug, "paper");
    assert_eq!(loops[0].title, "論文投稿");
    assert_eq!(loops[0].kind, "project");
    assert_eq!(loops[0].status.label(), "active");
    assert_eq!(loops[0].next_action.as_deref(), Some("著者名"));
}

#[test]
fn video_logs_file_as_evidence_with_relative_uri() {
    let mut w = Ws::init();
    w.write("v.mp4", b"not really a video, but bytes");
    assert!(w.video("v.mp4", Some("朝の統括")).unwrap().contains("type=video.log"));
    let logged = log_selection(&w.events(), &Some("video.log".into()), 20);
    let ev = &logged[0].evidence[0];
    assert_eq!(ev.uri.as_deref(), Some("v.mp4"));
    assert_eq!(ev.media_type.as_deref(), Some("video/mp4"));
    assert_eq!(ev.sha256.len(), 64);
    assert_eq!(body_str(&logged[0], "filename").as_deref(), Some("v.mp4"));
    assert_eq!(body_str(&logged[0], "note").as_deref(), Some("朝の統括"));
}

#[test]
fn transcript_requires_video_log_event() {
    let mut w = Ws::init();
    w.write("v.mp4", b"video bytes");
    let video_id = id_of(&w.video("v.mp4", None).unwrap());
    let found = w.ledger.find(&w.raw, &video_id).ok();
    let d = cmd_transcript(&w.ws, found, &video_id, None, Some("おはようございます".into()));
    assert!(w.append(d).unwrap().contains("type=video.transcript"));
    let note_id = id_of(&w.note("ただのメモ").unwrap());
    let found = w.ledger.find(&w.raw, &note_id).ok();
    let err = cmd_transcript(&w.ws, found, &note_id, None, Some("x".into())).unwrap_err();
    assert!(err.contains("video.log ではない"), "{err}");
    let found = w.ledger.find(&w.raw, &video_id).ok();
    assert!(cmd_transcript(&w.ws, found, &video_id, None, None).is_err());
}

#[test]
fn brief_shows_loop_and_stall_marker() {
    let mut w = Ws::init();
    w.loop_open("paper", "論文投稿", None, Some("著者名を入れる"), false).unwrap();
    let cfg = w.ws.brief_config();
    let b = brief(&w.events(), &cfg);
    let out = brief_text(&b, &cfg);
    assert!(out.contains("paper") && out.contains("論文投稿"), "{out}");
    assert!(out.contains("次の一手: 著者名を入れる"), "{out}");
    assert!(out.contains("保留場: 0 件"), "{out}");
    assert!(!out.contains("⚠"), "{out}");
    assert_eq!(b.active[0].state.slug, "paper");
    assert!(!b.active[0].stalled);
    assert!(!b.wip_exceeded);
    w.ws = workspace("actor = \"alice\"\n\nstall_days = 0\n", None);
    let cfg = w.ws.brief_config();
    let out = brief_text(&brief(&w.events(), &cfg), &cfg);
    assert!(out.contains("⚠"), "{out}");
}

#[test]
fn health_rings_bells_with_exit_code_1() {
    let mut w = Ws::init();
    let h = health(&w.events(), &w.ws.brief_config());
    assert_eq!(health_code(&h), 1);
    assert!(health_text(&h).contains("朝の統括"));
    w.write("v.mp4", b"video bytes");
    w.video("v.mp4", None).unwrap();
    let h = health(&w.events(), &w.ws.brief_config());
    assert_eq!(h.total_events, 1);
    assert_eq!(h.bells.len(), 0);
    for slug in ["a", "b", "c"] {
        w.loop_open(slug, slug, None, None, false).unwrap();
    }
    let h = health(&w.events(), &w.ws.brief_config());
    assert_eq!(health_code(&h), 1);
    assert!(health_text(&h).contains("稼働中プロジェクトが 3 本"));
}

#[test]
fn verify_passes_then_detects_tampering() {
    let mut w = Ws::init();
    w.note("honest note").unwrap();
    w.note("second note").unwrap();
    let (out, code) = w.verify(true, true);
    assert_eq!(code, 0);
    assert!(out.contains("✓ 台帳は健全"), "{out}");
    w.raw = w.raw.replace("honest", "hacked");
    let (out, code) = w.verify(false, false);
    assert_eq!(code, 1);
    assert!(out.contains("✗ 問題"), "{out}");
}

#[test]
fn gate_declare_requires_evidence() {
    let err = gate_declare_check(0, None).unwrap_err();
    assert!(err.contains("証拠") && err.contains("不変量2"), "{err}");
}

#[test]
fn gate_declare_with_evidence_notes_confidence_is_not_judgment() {
    let mut w = Ws::init();
    w.write("result.txt", "p < 0.05".as_bytes());
    let confidence = gate_declare_check(1, Some(Ok(Json::Number("0.9".into())))).unwrap();
    let evidence = vec![w.evidence("result.txt").unwrap()];
    let d = cmd_gate_declare(&w.ws, "実験完了".into(), None, confidence, evidence);
    assert!(w.append(Ok(d)).unwrap().contains("type=claim.declare"));
    let claim = &w.events()[0];
    assert_eq!(claim.body.get("confidence"), Some(&Json::Number("0.9".into())));
    // the verdict ignores it: the claim stays unverified
    let (out, _) = w.gate_check(&claim.id);
    assert!(out.contains("未検証"), "{out}");
}

#[test]
fn gate_verify_rejects_same_actor_and_accepts_independent_actor() {
    let mut w = Ws::init();
    w.write("result.txt", b"the artifact");
    let claim_id = w.declare("成果物完成", &["result.txt"]);
    let events = w.events();
    let err = cmd_gate_verify(&w.ws, &events, &claim_id, "pass".into(), None, Ok(vec![])).unwrap_err();
    assert!(err.contains("同じ actor") && err.contains("不変量3"), "{err}");
    let other = workspace("actor = \"alice\"\n", Some("agent:checker"));
    let d = cmd_gate_verify(&other, &events, &claim_id, "pass".into(), None, Ok(vec![]));
    assert!(w.append(d).unwrap().contains("type=claim.verify"));
    let (out, code) = w.gate_check(&claim_id);
    assert_eq!(code, 0);
    assert!(out.contains("成立(pass)"), "{out}");
}

#[test]
fn gate_check_exit_codes_follow_evidence_resolution() {
    let mut w = Ws::init();
    w.write("result.txt", b"original evidence");
    let claim_id = w.declare("できた", &["result.txt"]);
    let (out, code) = w.gate_check(&claim_id);
    assert_eq!(code, 0);
    assert!(out.contains("✓ 証拠はすべて解決"), "{out}");
    w.write("result.txt", b"evidence replaced after the claim");
    let (out, code) = w.gate_check(&claim_id);
    assert_eq!(code, 1);
    assert!(out.contains("ハッシュ不一致"), "{out}");
    w.remove("result.txt");
    let (out, code) = w.gate_check(&claim_id);
    assert_eq!(code, 1);
    assert!(out.contains("ファイルが見つからない"), "{out}");
}

#[test]
fn append_op_is_idempotent_and_conflicts_on_content_change() {
    let mut w = Ws::init();
    let first = w.append_cmd("note.capture", r#"{"text":"x"}"#, &[], Some("once-1")).unwrap();
    let second = w.append_cmd("note.capture", r#"{"text":"x"}"#, &[], Some("once-1")).unwrap();
    assert_eq!(id_of(&first), id_of(&second));
    assert_eq!(log_selection(&w.events(), &None, 20).len(), 1);
    let err = w.append_cmd("note.capture", r#"{"text":"y"}"#, &[], Some("once-1")).unwrap_err();
    assert!(err.contains("追記に失敗"), "{err}");
}

#[test]
fn append_store_copies_evidence_into_objects() {
    let mut w = Ws::init();
    w.write("data.json", br#"{"k":1}"#);
    let sha = hash_bytes(br#"{"k":1}"#);
    let uri = stored_uri(&w.ws.objects_rel, &sha);
    assert_eq!(uri, format!("ledger/objects/{sha}"));
    w.write(&uri, br#"{"k":1}"#);
    let body = parse_body(r#"{"title":"t"}"#).unwrap();
    let ev = Evidence { sha256: sha.clone(), uri: Some(uri.clone()), media_type: media_type_of("data.json"), bytes: Some(7) };
    let d = cmd_append(&w.ws, "claim.declare", body, vec![ev], None);
    w.append(Ok(d)).unwrap();
    let logged = log_selection(&w.events(), &None, 20);
    let ev = &logged[0].evidence[0];
    assert_eq!(ev.uri.as_deref(), Some(uri.as_str()));
    assert_eq!(ev.media_type.as_deref(), Some("application/json"));
    // evidence outside the workspace keeps its absolute path
    let ext = "/elsewhere/ext.txt";
    w.write(ext, b"outside evidence");
    w.append_cmd("note.capture", "{}", &[ext], None).unwrap();
    let logged = log_selection(&w.events(), &Some("note.capture".into()), 20);
    let uri = logged[0].evidence[0].uri.clone().unwrap();
    assert!(uri.starts_with('/'), "uri should be absolute: {uri}");
    let (out, code) = w.verify(false, true);
    assert_eq!(code, 0, "{out}");
}

#[test]
fn gate_check_excludes_same_actor_verify_from_judgment() {
    let mut w = Ws::init();
    w.write("out.txt", b"artifact");
    let claim_id = w.declare("完了主張", &["out.txt"]);
    let body = format!(r#"{{"claim":"{claim_id}","verdict":"pass"}}"#);
    w.append_cmd("claim.verify", &body, &[], None).unwrap();
    let (out, code) = w.gate_check(&claim_id);
    assert_eq!(code, 0);
    assert!(out.contains("不変量3 により判定から除外"), "{out}");
    assert!(out.contains("未検証"), "{out}");
    assert!(!out.contains("成立(pass)"), "{out}");
}

#[test]
fn gate_check_flags_zero_evidence_claim_with_exit_1() {
    let mut w = Ws::init();
    let claim_id = id_of(&w.append_cmd("claim.declare", r#"{"title":"証拠なし"}"#, &[], None).unwrap());
    let (out, code) = w.gate_check(&claim_id);
    assert_eq!(code, 1);
    assert!(out.contains("不変量2"), "{out}");
}

#[test]
fn append_survives_stripped_trailing_newline() {
    let mut w = Ws::init();
    w.note("first").unwrap();
    w.raw = w.raw.trim_end_matches('\n').to_string();
    w.note("second").unwrap();
    assert_eq!(w.verify(false, false).1, 0);
    assert_eq!(log_selection(&w.events(), &None, 20).len(), 2);
}

#[test]
fn video_sha256_records_remote_original_without_file() {
    let mut w = Ws::init();
    let hash = "a".repeat(64);
    let d = cmd_video_remote(&w.ws, &hash, "asa_2026-07-18.mov", Some(31457280), Some("端末に原本".into()), None);
    assert!(w.append(d).unwrap().contains("video.log"));
    assert_eq!(w.verify(false, true).1, 0);
    assert!(cmd_video_remote(&w.ws, "xyz", "a.mov", None, None, None).is_err());
}

#[test]
fn journal_is_medium_agnostic_and_idempotent() {
    let mut w = Ws::init();
    let text = "今日は倉庫を片付けた。棚は明日組む。";
    let d = cmd_journal(&w.ws, Some(text.into()), None, None, None, None, None);
    let id1 = id_of(&w.append(d).unwrap());
    let d = cmd_journal(&w.ws, Some(text.into()), None, None, None, None, None);
    assert_eq!(id1, id_of(&w.append(d).unwrap()));
    let h = health(&w.events(), &w.ws.brief_config());
    assert_eq!(health_code(&h), 0);
    let d = cmd_journal(&w.ws, Some("別の日の統括".into()), None, Some("b".repeat(64)), Some("asa.m4a".into()), None, None);
    w.append(d).unwrap();
    assert_eq!(w.verify(false, true).1, 0);
}

#[test]
fn video_recording_same_file_twice_is_idempotent() {
    let mut w = Ws::init();
    w.write("v.mp4", b"same video bytes");
    let a = w.video("v.mp4", None).unwrap();
    let b = w.video("v.mp4", None).unwrap();
    assert_eq!(id_of(&a), id_of(&b));
    assert_eq!(log_selection(&w.events(), &None, 20).len(), 1);
}

// ---- further cases of the commands ----

#[test]
fn gate_reopen_needs_a_declared_claim() {
    let mut w = Ws::init();
    let note_id = id_of(&w.note("not a claim").unwrap());
    let err = cmd_gate_reopen(&w.ws, &w.events(), &note_id, "why".into()).unwrap_err();
    assert_eq!(err, format!("{note_id} は claim.declare ではない(type=note.capture)"));
    let err = cmd_gate_reopen(&w.ws, &w.events(), "nope", "why".into()).unwrap_err();
    assert_eq!(err, "イベントが見つからない: nope");
    w.write("r.txt", b"r");
    let claim_id = w.declare("c", &["r.txt"]);
    let d = cmd_gate_reopen(&w.ws, &w.events(), &claim_id, "redo".into());
    assert!(w.append(d).unwrap().contains("type=claim.reopen"));
    let (out, _) = w.gate_check(&claim_id);
    assert!(out.contains("最新判定: 開き直し(reopen)"), "{out}");
    assert!(out.contains("claim.reopen reason=redo by alice("), "{out}");
}

#[test]
fn media_types_follow_the_extension() {
    assert_eq!(media_type_of("a/b/clip.MOV").as_deref(), Some("video/quicktime"));
    assert_eq!(media_type_of("notes.md").as_deref(), Some("text/plain"));
    assert_eq!(media_type_of("photo.JPEG").as_deref(), Some("image/jpeg"));
    assert_eq!(media_type_of(".mp4"), None);
    assert_eq!(media_type_of("archive.tar.gz"), None);
    assert_eq!(media_type_of("noext"), None);
    assert_eq!(media_type_of("dir/.."), None);
}

#[test]
fn journal_refuses_blank_text_and_bad_hash() {
    let w = Ws::init();
    let err = cmd_journal(&w.ws, Some(" \n\t ".into()), None, None, None, None, None).unwrap_err();
    assert_eq!(err, "統括のテキストが空");
    let err = cmd_journal(&w.ws, Some("t".into()), None, Some("zz".into()), Some("a.m4a".into()), None, None).unwrap_err();
    assert_eq!(err, "--sha256 は 64 桁の hex でなければならない");
    let err = cmd_journal(&w.ws, None, None, None, None, None, None).unwrap_err();
    assert_eq!(err, "--text か --file のどちらかを指定する");
    let d = cmd_journal(&w.ws, Some("t".into()), None, Some(format!("  {}  ", "AB".repeat(32))), None, None, None).unwrap();
    assert_eq!(d.evidence[1].sha256, "ab".repeat(32));
    assert_eq!(d.op, Some(format!("journal:{}", hash_bytes(b"t"))));
}

#[test]
fn remote_video_reports_the_length_it_got() {
    let w = Ws::init();
    let err = cmd_video_remote(&w.ws, " abc ", "a.mov", None, None, None).unwrap_err();
    assert_eq!(err, "--sha256 は 64 桁の hex でなければならない(受け取った長さ: 3)。端末では `shasum -a 256 <ファイル>` で計算できる");
}

#[test]
fn settings_fall_back_to_their_defaults() {
    let ws = workspace("", None);
    assert_eq!(ws.actor, "unknown");
    assert_eq!(ws.stall_days, 4);
    assert_eq!(ws.habit_stall_days, 2);
    assert_eq!(ws.wip_limit, 2);
    assert_eq!(ws.ledger_path(), "/ws/ledger/ledger.jsonl");
    assert_eq!(ws.objects_path(), "/ws/ledger/objects");
    let ws = workspace("actor = \"bob\"\nwip_limit = -3\n[paths]\nledger = \"/abs/l.jsonl\"\n", Some("carol"));
    assert_eq!(ws.actor, "carol");
    assert_eq!(ws.wip_limit, 0);
    assert_eq!(ws.ledger_path(), "/abs/l.jsonl");
    assert!(Workspace::from_toml("/ws".into(), None, "u".into(), "actor = ").unwrap_err().starts_with("banto.toml の解析に失敗: "));
}

#[test]
fn views_in_json_keep_their_keys() {
    let mut w = Ws::init();
    w.loop_open("paper", "論文投稿", Some("project"), Some("著者名"), false).unwrap();
    let l = &listed_loops(&w.events(), false)[0];
    let ts = l.opened_ts.clone();
    let expected = format!(
        "{{\"kind\":\"project\",\"last_activity_ts\":\"{ts}\",\"last_note\":null,\"next\":\"著者名\",\"opened_ts\":\"{ts}\",\"slug\":\"paper\",\"status\":\"active\",\"title\":\"論文投稿\",\"touch_count\":{}}}",
        l.touch_count
    );
    assert_eq!(canonical_string(&loop_value(l)).unwrap(), expected);
    let cfg = banto_kernel::BriefConfig { now: "2026-07-17T09:00:00+09:00".into(), stall_days: 4, habit_stall_days: 2, wip_limit: 2 };
    let b = brief(&w.events(), &cfg);
    let text = canonical_string(&brief_value(&b, &cfg)).unwrap();
    assert!(text.starts_with("{\"active\":[{\"days_idle\":"), "{text}");
    assert!(text.contains("\"stalled\":"), "{text}");
    assert!(text.ends_with("\"now\":\"2026-07-17T09:00:00+09:00\",\"parked\":[],\"wip_exceeded\":false,\"wip_limit\":2}"), "{text}");
    let empty = Ws::init();
    let h = health(&empty.events(), &cfg);
    assert_eq!(
        canonical_string(&health_value(&h)).unwrap(),
        "{\"bells\":[\"朝の統括がまだ一度も台帳に入っていない\"],\"days_since_journal\":null,\"events_since_last_close\":0,\"loops\":{\"active\":0,\"closed\":0,\"killed\":0,\"parked\":0},\"total_events\":0}"
    );
}
