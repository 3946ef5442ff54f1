//! Text for people (in Japanese) of the derived views.
use vstd::prelude::*;
use crate::text::{seq_lt, lemma_seq_lt_at, chars_of, string_of, owned, concat, decimal, signed_decimal, u64_decimal, i64_decimal};
use crate::json::{canon, canonical_string, parse_json, parsed_json, Json, JsonValue, entries_view, lemma_object_view, push_sorted};
use crate::event::{Envelope, envelope_line};
use crate::ledger::{VerifyReport, IssueView, issue_views};
use crate::fold::{LoopState, LoopStateView, LoopBrief, LoopBriefView, Brief, BriefConfig, Health, status_label,
    loop_views, brief_views, string_views};

verus! {

/// The next action, or `(未設定)`.
pub open spec fn next_text(n: Option<Seq<char>>) -> Seq<char> {
    match n {
        Some(a) => a,
        None => "(未設定)"@,
    }
}

fn next_of(n: &Option<String>) -> (r: String)
    ensures
        r@ == next_text(crate::text::opt_view(*n)),
{
    match n {
        Some(a) => a.clone(),
        None => owned("(未設定)"),
    }
}

/// One line of `loop list`.
pub open spec fn loop_line_text(l: LoopStateView) -> Seq<char> {
    "["@ + status_label(l.status) + "] "@ + l.slug + " — "@ + l.title + "("@ + l.kind + ")次の一手: "@
        + next_text(l.next_action)
}

/// One line of `loop list`: status, slug, title, kind and next action.
pub fn loop_line(l: &LoopState) -> (r: String)
    ensures
        r@ == loop_line_text(l@),
{
    let m = concat("[", l.status.label());
    let m = concat(m.as_str(), "] ");
    let m = concat(m.as_str(), l.slug.as_str());
    let m = concat(m.as_str(), " — ");
    let m = concat(m.as_str(), l.title.as_str());
    let m = concat(m.as_str(), "(");
    let m = concat(m.as_str(), l.kind.as_str());
    let m = concat(m.as_str(), ")次の一手: ");
    concat(m.as_str(), next_of(&l.next_action).as_str())
}

/// The two lines of an active loop in the brief.
pub open spec fn brief_entry_text(lb: LoopBriefView) -> Seq<char> {
    "  "@ + (if lb.stalled { "⚠"@ } else { "・"@ }) + " "@ + lb.state.slug + " — "@ + lb.state.title + "("@
        + lb.state.kind + "、放置 "@ + signed_decimal(lb.days_idle as int) + " 日)\n"@
        + "      次の一手: "@ + next_text(lb.state.next_action) + "\n"@
}

pub open spec fn brief_entries_text(v: Seq<LoopBriefView>) -> Seq<char>
    decreases v.len(),
{
    if v.len() == 0 {
        Seq::empty()
    } else {
        brief_entries_text(v.drop_last()) + brief_entry_text(v.last())
    }
}

/// The brief as text: active loops, most idle first, the parking lot, and
/// the WIP warning.
pub open spec fn brief_text_of(active: Seq<LoopBriefView>, parked: nat, wip_exceeded: bool, wip_limit: usize) -> Seq<char> {
    (if active.len() == 0 {
        "開いたループはない。\n"@
    } else {
        "稼働中 "@ + decimal(active.len()) + " 本(放置が長い順):\n"@ + brief_entries_text(active)
    })
        + "保留場: "@ + decimal(parked) + " 件\n"@
        + (if wip_exceeded {
            "⚠ WIP 超過: 稼働中プロジェクトが上限 "@ + decimal(wip_limit as nat) + " 本を超えている。どれかを保留か完了へ。\n"@
        } else {
            Seq::empty()
        })
}

fn brief_entry(lb: &LoopBrief) -> (r: String)
    ensures
        r@ == brief_entry_text(lb@),
{
    let marker = if lb.stalled { "⚠" } else { "・" };
    let m = concat("  ", marker);
    let m = concat(m.as_str(), " ");
    let m = concat(m.as_str(), lb.state.slug.as_str());
    let m = concat(m.as_str(), " — ");
    let m = concat(m.as_str(), lb.state.title.as_str());
    let m = concat(m.as_str(), "(");
    let m = concat(m.as_str(), lb.state.kind.as_str());
    let m = concat(m.as_str(), "、放置 ");
    let m = concat(m.as_str(), i64_decimal(lb.days_idle).as_str());
    let m = concat(m.as_str(), " 日)\n");
    let m = concat(m.as_str(), "      次の一手: ");
    let m = concat(m.as_str(), next_of(&lb.state.next_action).as_str());
    let r = concat(m.as_str(), "\n");
    proof {
        assert(r@ =~= brief_entry_text(lb@));
    }
    r
}

/// The morning brief as text.
pub fn brief_text(b: &Brief, cfg: &BriefConfig) -> (r: String)
    ensures
        r@ == brief_text_of(brief_views(b.active@), b.parked@.len(), b.wip_exceeded, cfg.wip_limit),
{
    let ghost av = brief_views(b.active@);
    let mut out = if b.active.len() == 0 {
        owned("開いたループはない。\n")
    } else {
        let m = concat("稼働中 ", u64_decimal(b.active.len() as u64).as_str());
        let mut m = concat(m.as_str(), " 本(放置が長い順):\n");
        let ghost start = m@;
        let mut i: usize = 0;
        proof {
            assert(av.take(0) =~= Seq::<LoopBriefView>::empty());
            assert(m@ =~= start + brief_entries_text(av.take(0)));
        }
        while i < b.active.len()
            invariant
                av == brief_views(b.active@),
                i <= b.active@.len(),
                m@ == start + brief_entries_text(av.take(i as int)),
            decreases b.active@.len() - i,
        {
            proof {
                assert(av.take(i + 1).drop_last() =~= av.take(i as int));
                assert(av.take(i + 1).last() == b.active@[i as int]@);
            }
            let e = brief_entry(&b.active[i]);
            m = concat(m.as_str(), e.as_str());
            proof {
                assert(m@ =~= start + brief_entries_text(av.take(i + 1)));
            }
            i = i + 1;
        }
        proof {
            assert(av.take(i as int) =~= av);
        }
        m
    };
    let m = concat("保留場: ", u64_decimal(b.parked.len() as u64).as_str());
    let m = concat(m.as_str(), " 件\n");
    out = concat(out.as_str(), m.as_str());
    if b.wip_exceeded {
        let w = concat("⚠ WIP 超過: 稼働中プロジェクトが上限 ", u64_decimal(cfg.wip_limit as u64).as_str());
        let w = concat(w.as_str(), " 本を超えている。どれかを保留か完了へ。\n");
        out = concat(out.as_str(), w.as_str());
    }
    proof {
        assert(out@ =~= brief_text_of(av, b.parked@.len(), b.wip_exceeded, cfg.wip_limit));
    }
    out
}

pub open spec fn bell_lines(bells: Seq<Seq<char>>) -> Seq<char>
    decreases bells.len(),
{
    if bells.len() == 0 {
        Seq::empty()
    } else {
        bell_lines(bells.drop_last()) + "  ⚠ "@ + bells.last() + "\n"@
    }
}

/// The health summary as text.
pub open spec fn health_text_of(
    total: usize,
    active: usize,
    parked: usize,
    closed: usize,
    killed: usize,
    gap: Option<i64>,
    since_close: usize,
    bells: Seq<Seq<char>>,
) -> Seq<char> {
    "イベント総数: "@ + decimal(total as nat) + "\n"@
        + "ループ: 稼働中 "@ + decimal(active as nat) + " / 保留 "@ + decimal(parked as nat) + " / 完了 "@
        + decimal(closed as nat) + " / 殺 "@ + decimal(killed as nat) + "\n"@
        + match gap {
            None => "朝の統括: 記録なし\n"@,
            Some(d) => "朝の統括: 最終から "@ + signed_decimal(d as int) + " 日\n"@,
        }
        + "最後の close からのイベント数: "@ + decimal(since_close as nat) + "\n"@
        + (if bells.len() == 0 { "鐘: 鳴っていない\n"@ } else { "鐘:\n"@ + bell_lines(bells) })
}

/// The health summary as text: counts, the gap since the last morning
/// review, and every bell that rings.
pub fn health_text(h: &Health) -> (r: String)
    ensures
        r@ == health_text_of(h.total_events, h.active, h.parked, h.closed, h.killed, h.days_since_journal,
            h.events_since_last_close, string_views(h.bells@)),
{
    let m = concat("イベント総数: ", u64_decimal(h.total_events as u64).as_str());
    let m = concat(m.as_str(), "\n");
    let m = concat(m.as_str(), "ループ: 稼働中 ");
    let m = concat(m.as_str(), u64_decimal(h.active as u64).as_str());
    let m = concat(m.as_str(), " / 保留 ");
    let m = concat(m.as_str(), u64_decimal(h.parked as u64).as_str());
    let m = concat(m.as_str(), " / 完了 ");
    let m = concat(m.as_str(), u64_decimal(h.closed as u64).as_str());
    let m = concat(m.as_str(), " / 殺 ");
    let m = concat(m.as_str(), u64_decimal(h.killed as u64).as_str());
    let m = concat(m.as_str(), "\n");
    let m = match h.days_since_journal {
        None => concat(m.as_str(), "朝の統括: 記録なし\n"),
        Some(d) => {
            let g = concat("朝の統括: 最終から ", i64_decimal(d).as_str());
            let g = concat(g.as_str(), " 日\n");
            concat(m.as_str(), g.as_str())
        },
    };
    let m = concat(m.as_str(), "最後の close からのイベント数: ");
    let m = concat(m.as_str(), u64_decimal(h.events_since_last_close as u64).as_str());
    let mut m = concat(m.as_str(), "\n");
    let ghost bv = string_views(h.bells@);
    if h.bells.len() == 0 {
        m = concat(m.as_str(), "鐘: 鳴っていない\n");
    } else {
        m = concat(m.as_str(), "鐘:\n");
        let ghost start = m@;
        let mut i: usize = 0;
        proof {
            assert(bv.take(0) =~= Seq::<Seq<char>>::empty());
            assert(m@ =~= start + bell_lines(bv.take(0)));
        }
        while i < h.bells.len()
            invariant
                bv == string_views(h.bells@),
                i <= h.bells@.len(),
                m@ == start + bell_lines(bv.take(i as int)),
            decreases h.bells@.len() - i,
        {
            proof {
                assert(bv.take(i + 1).drop_last() =~= bv.take(i as int));
                assert(bv.take(i + 1).last() == h.bells@[i as int]@);
            }
            let l = concat("  ⚠ ", h.bells[i].as_str());
            let l = concat(l.as_str(), "\n");
            m = concat(m.as_str(), l.as_str());
            proof {
                assert(m@ =~= start + bell_lines(bv.take(i + 1)));
            }
            i = i + 1;
        }
        proof {
            assert(bv.take(i as int) =~= bv);
        }
    }
    proof {
        assert(m@ =~= health_text_of(h.total_events, h.active, h.parked, h.closed, h.killed, h.days_since_journal,
            h.events_since_last_close, bv));
    }
    m
}

/// The error text of `log --json` when an event cannot be turned back into
/// a JSON value.
pub open spec fn env_value_error(msg: Seq<char>) -> Seq<char> {
    "イベントの整形に失敗: "@ + msg
}

/// An event as a JSON value for `log --json`: its ledger line, read back by
/// `serde_json`.
pub fn env_value(e: &Envelope) -> (r: Result<Json, String>)
    requires
        e@.body.wf(),
    ensures
        r is Ok <==> parsed_json(envelope_line(e@)) is Ok,
        r matches Ok(v) ==> parsed_json(envelope_line(e@)) == Ok::<JsonValue, Seq<char>>(v@),
        r matches Err(m) ==> m@ == env_value_error(parsed_json(envelope_line(e@))->Err_0),
{
    let line = match e.to_line() {
        Ok(line) => line,
        Err(err) => {
            return Err(concat("イベントの整形に失敗: ", err.message().as_str()));
        },
    };
    match parse_json(line.as_str()) {
        Ok(v) => Ok(v),
        Err(m) => Err(concat("イベントの整形に失敗: ", m.as_str())),
    }
}

/// At most the first 80 characters of the body's compact JSON, with `…`
/// when some were cut.
pub open spec fn compact_body(text: Seq<char>) -> Seq<char> {
    if text.len() > 80 { text.take(80).push('…') } else { text }
}

/// One line of `log`: seq, ts, actor, type and the start of the body.
pub open spec fn log_line_text(seq: u64, ts: Seq<char>, actor: Seq<char>, event_type: Seq<char>, body: Seq<char>) -> Seq<char> {
    "["@ + decimal(seq as nat) + "] "@ + ts + " "@ + actor + " "@ + event_type + " "@ + compact_body(body)
}

/// One line of `log` for an event.
pub fn log_line(e: &Envelope) -> (r: String)
    requires
        e@.body.wf(),
    ensures
        r@ == log_line_text(e.seq, e.ts@, e.actor@, e.event_type@, canon(e.body@)),
{
    let body = match canonical_string(&e.body) {
        Ok(s) => s,
        Err(_) => owned("{}"),
    };
    let cs = chars_of(body.as_str());
    let mut compact: Vec<char> = Vec::new();
    let mut i: usize = 0;
    while i < cs.len() && i < 80
        invariant
            i <= cs@.len(),
            i <= 80,
            compact@ == cs@.take(i as int),
        decreases cs@.len() - i,
    {
        compact.push(cs[i]);
        proof {
            assert(compact@ =~= cs@.take(i + 1));
        }
        i = i + 1;
    }
    if cs.len() > 80 {
        compact.push('…');
    }
    proof {
        if cs@.len() <= 80 {
            assert(cs@.take(cs@.len() as int) =~= cs@);
        }
        assert(compact@ =~= compact_body(body@));
    }
    let m = concat("[", u64_decimal(e.seq).as_str());
    let m = concat(m.as_str(), "] ");
    let m = concat(m.as_str(), e.ts.as_str());
    let m = concat(m.as_str(), " ");
    let m = concat(m.as_str(), e.actor.as_str());
    let m = concat(m.as_str(), " ");
    let m = concat(m.as_str(), e.event_type.as_str());
    let m = concat(m.as_str(), " ");
    concat(m.as_str(), string_of(compact.as_slice()).as_str())
}


pub open spec fn issue_lines(v: Seq<IssueView>) -> Seq<char>
    decreases v.len(),
{
    if v.len() == 0 {
        Seq::empty()
    } else {
        let i = v.last();
        issue_lines(v.drop_last()) + "  行 "@ + decimal(i.line as nat) + " ["@ + i.class + "] "@ + i.message + "\n"@
    }
}

/// What `verify` prints: a clean bill with the count of events, or every
/// issue by line; and its exit code.
pub open spec fn verify_text_of(events: usize, issues: Seq<IssueView>) -> (Seq<char>, i32) {
    if issues.len() == 0 {
        ("✓ 台帳は健全("@ + decimal(events as nat) + " イベント)\n"@, 0)
    } else {
        ("✗ 問題 "@ + decimal(issues.len()) + " 件("@ + decimal(events as nat) + " イベント):\n"@ + issue_lines(issues), 1)
    }
}

/// The text `verify` prints for a report, and its exit code.
pub fn verify_text(report: &VerifyReport) -> (r: (String, i32))
    ensures
        r.0@ == verify_text_of(report.events, issue_views(report.issues@)).0,
        r.1 == verify_text_of(report.events, issue_views(report.issues@)).1,
{
    let n = u64_decimal(report.events as u64);
    if report.issues.len() == 0 {
        let m = concat("✓ 台帳は健全(", n.as_str());
        return (concat(m.as_str(), " イベント)\n"), 0);
    }
    let m = concat("✗ 問題 ", u64_decimal(report.issues.len() as u64).as_str());
    let m = concat(m.as_str(), " 件(");
    let m = concat(m.as_str(), n.as_str());
    let mut m = concat(m.as_str(), " イベント):\n");
    let ghost start = m@;
    let ghost iv = issue_views(report.issues@);
    let mut i: usize = 0;
    proof {
        assert(iv.take(0) =~= Seq::<IssueView>::empty());
        assert(m@ =~= start + issue_lines(iv.take(0)));
    }
    while i < report.issues.len()
        invariant
            iv == issue_views(report.issues@),
            i <= report.issues@.len(),
            m@ == start + issue_lines(iv.take(i as int)),
        decreases report.issues@.len() - i,
    {
        proof {
            assert(iv.take(i + 1).drop_last() =~= iv.take(i as int));
            assert(iv.take(i + 1).last() == report.issues@[i as int]@);
        }
        let issue = &report.issues[i];
        let l = concat("  行 ", u64_decimal(issue.line as u64).as_str());
        let l = concat(l.as_str(), " [");
        let l = concat(l.as_str(), issue.class.as_str());
        let l = concat(l.as_str(), "] ");
        let l = concat(l.as_str(), issue.message.as_str());
        let l = concat(l.as_str(), "\n");
        m = concat(m.as_str(), l.as_str());
        proof {
            assert(m@ =~= start + issue_lines(iv.take(i + 1)));
        }
        i = i + 1;
    }
    proof {
        assert(iv.take(i as int) =~= iv);
    }
    (m, 1)
}

/// The exit code of `health`: 1 while some bell rings.
pub fn health_code(h: &Health) -> (r: i32)
    ensures
        r == if h.bells@.len() == 0 { 0i32 } else { 1i32 },
{
    if h.bells.len() == 0 { 0 } else { 1 }
}


// ---- the JSON of the views ----

pub open spec fn str_or_null(s: Option<Seq<char>>) -> JsonValue {
    match s {
        Some(x) => JsonValue::Str(x),
        None => JsonValue::Null,
    }
}

fn str_or_null_of(s: &Option<String>) -> (j: Json)
    ensures
        j@ == str_or_null(crate::text::opt_view(*s)),
{
    match s {
        Some(x) => Json::string(x.as_str()),
        None => Json::Null,
    }
}

/// The field names of the JSON views, each before the next one it can be
/// followed by, in key order.
proof fn lemma_view_field_order()
    ensures
        seq_lt("days_idle"@, "kind"@),
        seq_lt("kind"@, "last_activity_ts"@),
        seq_lt("last_activity_ts"@, "last_note"@),
        seq_lt("last_note"@, "next"@),
        seq_lt("next"@, "opened_ts"@),
        seq_lt("opened_ts"@, "slug"@),
        seq_lt("slug"@, "stalled"@),
        seq_lt("slug"@, "status"@),
        seq_lt("stalled"@, "status"@),
        seq_lt("status"@, "title"@),
        seq_lt("title"@, "touch_count"@),
        seq_lt("active"@, "now"@),
        seq_lt("now"@, "parked"@),
        seq_lt("parked"@, "wip_exceeded"@),
        seq_lt("wip_exceeded"@, "wip_limit"@),
        seq_lt("bells"@, "days_since_journal"@),
        seq_lt("days_since_journal"@, "events_since_last_close"@),
        seq_lt("events_since_last_close"@, "loops"@),
        seq_lt("loops"@, "total_events"@),
        seq_lt("active"@, "closed"@),
        seq_lt("closed"@, "killed"@),
        seq_lt("killed"@, "parked"@),
{
    reveal_strlit("active");
    reveal_strlit("bells");
    reveal_strlit("closed");
    reveal_strlit("days_idle");
    reveal_strlit("days_since_journal");
    reveal_strlit("events_since_last_close");
    reveal_strlit("killed");
    reveal_strlit("kind");
    reveal_strlit("last_activity_ts");
    reveal_strlit("last_note");
    reveal_strlit("loops");
    reveal_strlit("next");
    reveal_strlit("now");
    reveal_strlit("opened_ts");
    reveal_strlit("parked");
    reveal_strlit("slug");
    reveal_strlit("stalled");
    reveal_strlit("status");
    reveal_strlit("title");
    reveal_strlit("total_events");
    reveal_strlit("touch_count");
    reveal_strlit("wip_exceeded");
    reveal_strlit("wip_limit");
    assert("days_idle"@.take(0) =~= "kind"@.take(0));
    lemma_seq_lt_at("days_idle"@, "kind"@, 0);
    assert("kind"@.take(0) =~= "last_activity_ts"@.take(0));
    lemma_seq_lt_at("kind"@, "last_activity_ts"@, 0);
    assert("last_activity_ts"@.take(5) =~= "last_note"@.take(5));
    lemma_seq_lt_at("last_activity_ts"@, "last_note"@, 5);
    assert("last_note"@.take(0) =~= "next"@.take(0));
    lemma_seq_lt_at("last_note"@, "next"@, 0);
    assert("next"@.take(0) =~= "opened_ts"@.take(0));
    lemma_seq_lt_at("next"@, "opened_ts"@, 0);
    assert("opened_ts"@.take(0) =~= "slug"@.take(0));
    lemma_seq_lt_at("opened_ts"@, "slug"@, 0);
    assert("slug"@.take(1) =~= "stalled"@.take(1));
    lemma_seq_lt_at("slug"@, "stalled"@, 1);
    assert("slug"@.take(1) =~= "status"@.take(1));
    lemma_seq_lt_at("slug"@, "status"@, 1);
    assert("stalled"@.take(3) =~= "status"@.take(3));
    lemma_seq_lt_at("stalled"@, "status"@, 3);
    assert("status"@.take(0) =~= "title"@.take(0));
    lemma_seq_lt_at("status"@, "title"@, 0);
    assert("title"@.take(1) =~= "touch_count"@.take(1));
    lemma_seq_lt_at("title"@, "touch_count"@, 1);
    assert("active"@.take(0) =~= "now"@.take(0));
    lemma_seq_lt_at("active"@, "now"@, 0);
    assert("now"@.take(0) =~= "parked"@.take(0));
    lemma_seq_lt_at("now"@, "parked"@, 0);
    assert("parked"@.take(0) =~= "wip_exceeded"@.take(0));
    lemma_seq_lt_at("parked"@, "wip_exceeded"@, 0);
    assert("wip_exceeded"@.take(4) =~= "wip_limit"@.take(4));
    lemma_seq_lt_at("wip_exceeded"@, "wip_limit"@, 4);
    assert("bells"@.take(0) =~= "days_since_journal"@.take(0));
    lemma_seq_lt_at("bells"@, "days_since_journal"@, 0);
    assert("days_since_journal"@.take(0) =~= "events_since_last_close"@.take(0));
    lemma_seq_lt_at("days_since_journal"@, "events_since_last_close"@, 0);
    assert("events_since_last_close"@.take(0) =~= "loops"@.take(0));
    lemma_seq_lt_at("events_since_last_close"@, "loops"@, 0);
    assert("loops"@.take(0) =~= "total_events"@.take(0));
    lemma_seq_lt_at("loops"@, "total_events"@, 0);
    assert("active"@.take(0) =~= "closed"@.take(0));
    lemma_seq_lt_at("active"@, "closed"@, 0);
    assert("closed"@.take(0) =~= "killed"@.take(0));
    lemma_seq_lt_at("closed"@, "killed"@, 0);
    assert("killed"@.take(0) =~= "parked"@.take(0));
    lemma_seq_lt_at("killed"@, "parked"@, 0);
}

/// The fields of a loop in JSON, in key order; with a brief line's
/// `days_idle` and `stalled` when given.
pub open spec fn loop_fields(l: LoopStateView, idle: Option<(i64, bool)>) -> Seq<(Seq<char>, JsonValue)> {
    (match idle {
        Some((d, _)) => seq![("days_idle"@, JsonValue::Number(signed_decimal(d as int)))],
        None => Seq::empty(),
    })
    + seq![
        ("kind"@, JsonValue::Str(l.kind)),
        ("last_activity_ts"@, JsonValue::Str(l.last_activity_ts)),
        ("last_note"@, str_or_null(l.last_note)),
        ("next"@, str_or_null(l.next_action)),
        ("opened_ts"@, JsonValue::Str(l.opened_ts)),
        ("slug"@, JsonValue::Str(l.slug)),
    ]
    + (match idle {
        Some((_, st)) => seq![("stalled"@, JsonValue::Bool(st))],
        None => Seq::empty(),
    })
    + seq![
        ("status"@, JsonValue::Str(status_label(l.status))),
        ("title"@, JsonValue::Str(l.title)),
        ("touch_count"@, JsonValue::Number(decimal(l.touch_count))),
    ]
}

fn loop_fields_of(l: &LoopState, idle: Option<(i64, bool)>) -> (j: Json)
    ensures
        j@ == JsonValue::Object(loop_fields(l@, idle)),
        j@.wf(),
{
    proof {
        lemma_view_field_order();
    }
    let mut v: Vec<(String, Json)> = Vec::new();
    assert(entries_view(v@) =~= Seq::<(Seq<char>, JsonValue)>::empty());
    if let Some((d, _)) = idle {
        push_sorted(&mut v, "days_idle", Json::Number(i64_decimal(d)));
    }
    let ghost a = entries_view(v@);
    push_sorted(&mut v, "kind", Json::string(l.kind.as_str()));
    push_sorted(&mut v, "last_activity_ts", Json::string(l.last_activity_ts.as_str()));
    push_sorted(&mut v, "last_note", str_or_null_of(&l.last_note));
    push_sorted(&mut v, "next", str_or_null_of(&l.next_action));
    push_sorted(&mut v, "opened_ts", Json::string(l.opened_ts.as_str()));
    push_sorted(&mut v, "slug", Json::string(l.slug.as_str()));
    let ghost b = entries_view(v@);
    if let Some((_, st)) = idle {
        push_sorted(&mut v, "stalled", Json::Bool(st));
    }
    let ghost c = entries_view(v@);
    push_sorted(&mut v, "status", Json::string(l.status.label()));
    push_sorted(&mut v, "title", Json::string(l.title.as_str()));
    push_sorted(&mut v, "touch_count", Json::from_u64(l.touch_count));
    proof {
        lemma_object_view(v);
        let lv = l@;
        assert(a =~= (match idle {
            Some((d, _)) => seq![("days_idle"@, JsonValue::Number(signed_decimal(d as int)))],
            None => Seq::<(Seq<char>, JsonValue)>::empty(),
        }));
        assert(b =~= a + seq![
            ("kind"@, JsonValue::Str(lv.kind)),
            ("last_activity_ts"@, JsonValue::Str(lv.last_activity_ts)),
            ("last_note"@, str_or_null(lv.last_note)),
            ("next"@, str_or_null(lv.next_action)),
            ("opened_ts"@, JsonValue::Str(lv.opened_ts)),
            ("slug"@, JsonValue::Str(lv.slug)),
        ]);
        assert(c =~= b + (match idle {
            Some((_, st)) => seq![("stalled"@, JsonValue::Bool(st))],
            None => Seq::<(Seq<char>, JsonValue)>::empty(),
        }));
        assert(entries_view(v@) =~= loop_fields(lv, idle));
    }
    Json::Object(v)
}

/// A loop as the AI office layer reads it (`loop list --json`).
pub fn loop_value(l: &LoopState) -> (j: Json)
    ensures
        j@ == JsonValue::Object(loop_fields(l@, None)),
        j@.wf(),
{
    loop_fields_of(l, None)
}

/// The morning brief in JSON: the present instant, the WIP limit and
/// whether it is exceeded, the active loops with their idle days, and the
/// parked loops.
pub open spec fn brief_value_of(
    active: Seq<LoopBriefView>,
    parked: Seq<LoopStateView>,
    wip_exceeded: bool,
    now: Seq<char>,
    wip_limit: usize,
) -> JsonValue {
    JsonValue::Object(seq![
        ("active"@, JsonValue::Array(Seq::new(active.len(), |i: int|
            JsonValue::Object(loop_fields(active[i].state, Some((active[i].days_idle, active[i].stalled))))))),
        ("now"@, JsonValue::Str(now)),
        ("parked"@, JsonValue::Array(Seq::new(parked.len(), |i: int| JsonValue::Object(loop_fields(parked[i], None))))),
        ("wip_exceeded"@, JsonValue::Bool(wip_exceeded)),
        ("wip_limit"@, JsonValue::Number(decimal(wip_limit as nat))),
    ])
}

/// The morning brief as the AI office layer reads it (`brief --json`).
pub fn brief_value(b: &Brief, cfg: &BriefConfig) -> (j: Json)
    ensures
        j@ == brief_value_of(brief_views(b.active@), loop_views(b.parked@), b.wip_exceeded, cfg.now@, cfg.wip_limit),
        j@.wf(),
{
    let mut active: Vec<Json> = Vec::new();
    let mut i: usize = 0;
    while i < b.active.len()
        invariant
            i <= b.active@.len(),
            active@.len() == i,
            forall|k: int| 0 <= k < i ==> (#[trigger] active@[k])@ == JsonValue::Object(loop_fields(b.active@[k].state@,
                Some((b.active@[k].days_idle, b.active@[k].stalled)))),
            forall|k: int| 0 <= k < i ==> (#[trigger] active@[k])@.wf(),
        decreases b.active@.len() - i,
    {
        let lb = &b.active[i];
        active.push(loop_fields_of(&lb.state, Some((lb.days_idle, lb.stalled))));
        i = i + 1;
    }
    let mut parked: Vec<Json> = Vec::new();
    let mut k: usize = 0;
    while k < b.parked.len()
        invariant
            k <= b.parked@.len(),
            parked@.len() == k,
            forall|m: int| 0 <= m < k ==> (#[trigger] parked@[m])@ == JsonValue::Object(loop_fields(b.parked@[m]@, None)),
            forall|m: int| 0 <= m < k ==> (#[trigger] parked@[m])@.wf(),
        decreases b.parked@.len() - k,
    {
        parked.push(loop_fields_of(&b.parked[k], None));
        k = k + 1;
    }
    let a = Json::Array(active);
    let p = Json::Array(parked);
    proof {
        let av = brief_views(b.active@);
        assert(a@->Array_0 =~= Seq::new(av.len(), |i: int|
            JsonValue::Object(loop_fields(av[i].state, Some((av[i].days_idle, av[i].stalled))))));
        let pv = loop_views(b.parked@);
        assert(p@->Array_0 =~= Seq::new(pv.len(), |i: int| JsonValue::Object(loop_fields(pv[i], None))));
    }
    proof {
        lemma_view_field_order();
    }
    let mut v: Vec<(String, Json)> = Vec::new();
    assert(entries_view(v@) =~= Seq::<(Seq<char>, JsonValue)>::empty());
    push_sorted(&mut v, "active", a);
    push_sorted(&mut v, "now", Json::string(cfg.now.as_str()));
    push_sorted(&mut v, "parked", p);
    push_sorted(&mut v, "wip_exceeded", Json::Bool(b.wip_exceeded));
    push_sorted(&mut v, "wip_limit", Json::from_u64(cfg.wip_limit as u64));
    proof {
        lemma_object_view(v);
        assert(entries_view(v@) =~= brief_value_of(brief_views(b.active@), loop_views(b.parked@), b.wip_exceeded, cfg.now@,
            cfg.wip_limit)->Object_0);
    }
    Json::Object(v)
}

/// The health summary in JSON.
pub open spec fn health_value_of(
    total: usize,
    active: usize,
    parked: usize,
    closed: usize,
    killed: usize,
    gap: Option<i64>,
    since_close: usize,
    bells: Seq<Seq<char>>,
) -> JsonValue {
    JsonValue::Object(seq![
        ("bells"@, JsonValue::Array(Seq::new(bells.len(), |i: int| JsonValue::Str(bells[i])))),
        ("days_since_journal"@, match gap {
            Some(d) => JsonValue::Number(signed_decimal(d as int)),
            None => JsonValue::Null,
        }),
        ("events_since_last_close"@, JsonValue::Number(decimal(since_close as nat))),
        ("loops"@, JsonValue::Object(seq![
            ("active"@, JsonValue::Number(decimal(active as nat))),
            ("closed"@, JsonValue::Number(decimal(closed as nat))),
            ("killed"@, JsonValue::Number(decimal(killed as nat))),
            ("parked"@, JsonValue::Number(decimal(parked as nat))),
        ])),
        ("total_events"@, JsonValue::Number(decimal(total as nat))),
    ])
}

/// The health summary as the AI office layer reads it (`health --json`).
pub fn health_value(h: &Health) -> (j: Json)
    ensures
        j@ == health_value_of(h.total_events, h.active, h.parked, h.closed, h.killed, h.days_since_journal,
            h.events_since_last_close, string_views(h.bells@)),
        j@.wf(),
{
    proof {
        lemma_view_field_order();
    }
    let mut bells: Vec<Json> = Vec::new();
    let mut i: usize = 0;
    while i < h.bells.len()
        invariant
            i <= h.bells@.len(),
            bells@.len() == i,
            forall|k: int| 0 <= k < i ==> (#[trigger] bells@[k])@ == JsonValue::Str(h.bells@[k]@),
            forall|k: int| 0 <= k < i ==> (#[trigger] bells@[k])@.wf(),
        decreases h.bells@.len() - i,
    {
        bells.push(Json::string(h.bells[i].as_str()));
        i = i + 1;
    }
    let bv = Json::Array(bells);
    proof {
        let sv = string_views(h.bells@);
        assert(bv@->Array_0 =~= Seq::new(sv.len(), |i: int| JsonValue::Str(sv[i])));
    }
    let gap = match h.days_since_journal {
        Some(d) => Json::Number(i64_decimal(d)),
        None => Json::Null,
    };
    let mut loops: Vec<(String, Json)> = Vec::new();
    assert(entries_view(loops@) =~= Seq::<(Seq<char>, JsonValue)>::empty());
    push_sorted(&mut loops, "active", Json::from_u64(h.active as u64));
    push_sorted(&mut loops, "closed", Json::from_u64(h.closed as u64));
    push_sorted(&mut loops, "killed", Json::from_u64(h.killed as u64));
    push_sorted(&mut loops, "parked", Json::from_u64(h.parked as u64));
    proof {
        lemma_object_view(loops);
        assert(entries_view(loops@) =~= seq![
            ("active"@, JsonValue::Number(decimal(h.active as nat))),
            ("closed"@, JsonValue::Number(decimal(h.closed as nat))),
            ("killed"@, JsonValue::Number(decimal(h.killed as nat))),
            ("parked"@, JsonValue::Number(decimal(h.parked as nat))),
        ]);
    }
    let lj = Json::Object(loops);
    let mut v: Vec<(String, Json)> = Vec::new();
    assert(entries_view(v@) =~= Seq::<(Seq<char>, JsonValue)>::empty());
    push_sorted(&mut v, "bells", bv);
    push_sorted(&mut v, "days_since_journal", gap);
    push_sorted(&mut v, "events_since_last_close", Json::from_u64(h.events_since_last_close as u64));
    push_sorted(&mut v, "loops", lj);
    push_sorted(&mut v, "total_events", Json::from_u64(h.total_events as u64));
    proof {
        lemma_object_view(v);
        assert(entries_view(v@) =~= health_value_of(h.total_events, h.active, h.parked, h.closed, h.killed,
            h.days_since_journal, h.events_since_last_close, string_views(h.bells@))->Object_0);
    }
    Json::Object(v)
}

} // verus!
