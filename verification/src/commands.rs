//! What each command decides: the draft it appends, or why it refuses.
//! Reading files, hashing them and writing the ledger are left to the
//! caller, which hands over what it found.
use vstd::prelude::*;
use crate::text::{chars_of, string_of, owned, str_eq, concat, opt_view, opt_clone, utf8_len, byte_len, decimal, u64_decimal};
use crate::hash::{hash_bytes, hash_hex};
use crate::event::{hex64, is_hex64};
use crate::json::{Json, JsonValue, entries_view, last_value, parse_json, parsed_json};
use crate::event::{all_bodies_wf, Envelope, EnvelopeView, Evidence, EvidenceView, evidence_views, opt_entry, opt_str_json};
use crate::fold::{fold_loops, find_index, fold_spec, map_lookup, envelope_views, status_label, LoopStatus, LoopState,
    LoopStateView, loops_of, loop_views, with_status};
use crate::ledger::{Draft, DraftView, find_id, pieces, EvidenceProbe, EvidenceFile, EvidenceFileView, ProbeView,
    probe_views, find_probe, probe_index};
use crate::config::{Workspace, WorkspaceView};

verus! {

// ---- paths and media types ----

/// The last piece that names something, skipping empty pieces and `.`.
pub open spec fn last_name(ps: Seq<Seq<char>>) -> Option<Seq<char>>
    decreases ps.len(),
{
    if ps.len() == 0 {
        None
    } else if ps.last().len() > 0 && ps.last() != "."@ {
        Some(ps.last())
    } else {
        last_name(ps.drop_last())
    }
}

/// The final component of a Unix path, as `Path::file_name` gives it:
/// none for a path that ends in `..` or names no component.
pub open spec fn file_name(path: Seq<char>) -> Option<Seq<char>> {
    match last_name(pieces(path, '/')) {
        Some(n) => if n == ".."@ { None } else { Some(n) },
        None => None,
    }
}

/// The index of the last `.` in `s`.
pub open spec fn last_dot(s: Seq<char>) -> Option<int>
    decreases s.len(),
{
    if s.len() == 0 {
        None
    } else if s.last() == '.' {
        Some(s.len() - 1)
    } else {
        last_dot(s.drop_last())
    }
}

/// The extension of a file name, as `Path::extension` gives it: what
/// follows the last `.`, unless that `.` is the first character.
pub open spec fn extension(name: Seq<char>) -> Option<Seq<char>> {
    match last_dot(name) {
        Some(i) => if i == 0 { None } else { Some(name.skip(i + 1)) },
        None => None,
    }
}

pub open spec fn lower_char(c: char) -> char {
    if 'A' <= c && c <= 'Z' { ((c as u32) + 32) as char } else { c }
}

/// ASCII letters lowered, everything else kept.
pub open spec fn ascii_lower(s: Seq<char>) -> Seq<char> {
    s.map_values(|c: char| lower_char(c))
}

/// The media type of a lowercase extension.
pub open spec fn media_type_for(ext: Seq<char>) -> Option<Seq<char>> {
    if ext == "mp4"@ {
        Some("video/mp4"@)
    } else if ext == "mov"@ {
        Some("video/quicktime"@)
    } else if ext == "m4a"@ {
        Some("audio/mp4"@)
    } else if ext == "mp3"@ {
        Some("audio/mpeg"@)
    } else if ext == "wav"@ {
        Some("audio/wav"@)
    } else if ext == "txt"@ || ext == "md"@ {
        Some("text/plain"@)
    } else if ext == "json"@ {
        Some("application/json"@)
    } else if ext == "jsonl"@ {
        Some("application/jsonl"@)
    } else if ext == "pdf"@ {
        Some("application/pdf"@)
    } else if ext == "png"@ {
        Some("image/png"@)
    } else if ext == "jpg"@ || ext == "jpeg"@ {
        Some("image/jpeg"@)
    } else {
        None
    }
}

/// The media type guessed from a path's extension; none when unknown.
pub open spec fn media_type_spec(path: Seq<char>) -> Option<Seq<char>> {
    match file_name(path) {
        Some(n) => match extension(n) {
            Some(e) => media_type_for(ascii_lower(e)),
            None => None,
        },
        None => None,
    }
}

/// `file_name(path)`, computed.
pub fn path_file_name(path: &str) -> (r: Option<String>)
    ensures
        opt_view(r) == file_name(path@),
{
    let ps = crate::ledger::split_pieces(path, '/');
    let ghost pv = pieces(path@, '/');
    let mut i: usize = ps.len();
    proof {
        assert(pv.take(pv.len() as int) =~= pv);
    }
    while i > 0
        invariant
            crate::ledger::string_views(ps@) == pv,
            pv == pieces(path@, '/'),
            i <= ps@.len(),
            last_name(pv) == last_name(pv.take(i as int)),
        decreases i,
    {
        proof {
            assert(pv.take(i as int).drop_last() =~= pv.take(i - 1));
            assert(pv.take(i as int).last() == ps@[i - 1]@);
        }
        let p = ps[i - 1].as_str();
        if !p.is_empty() && !str_eq(p, ".") {
            if str_eq(p, "..") {
                return None;
            }
            return Some(owned(p));
        }
        i = i - 1;
    }
    proof {
        assert(pv.take(0) =~= Seq::<Seq<char>>::empty());
    }
    None
}

/// `extension(name)`, computed.
fn name_extension(name: &str) -> (r: Option<String>)
    ensures
        opt_view(r) == extension(name@),
{
    let cs = chars_of(name);
    let mut i: usize = cs.len();
    proof {
        assert(cs@.take(cs@.len() as int) =~= cs@);
    }
    while i > 0
        invariant
            cs@ == name@,
            i <= cs@.len(),
            last_dot(name@) == last_dot(cs@.take(i as int)),
        decreases i,
    {
        proof {
            assert(cs@.take(i as int).drop_last() =~= cs@.take(i - 1));
        }
        if cs[i - 1] == '.' {
            if i - 1 == 0 {
                return None;
            }
            let mut ext: Vec<char> = Vec::new();
            let mut k: usize = i;
            while k < cs.len()
                invariant
                    i <= k <= cs@.len(),
                    ext@ == cs@.subrange(i as int, k as int),
                decreases cs@.len() - k,
            {
                ext.push(cs[k]);
                proof {
                    assert(ext@ =~= cs@.subrange(i as int, k + 1));
                }
                k = k + 1;
            }
            proof {
                assert(ext@ =~= name@.skip(i as int));
            }
            return Some(string_of(ext.as_slice()));
        }
        i = i - 1;
    }
    proof {
        assert(cs@.take(0) =~= Seq::<char>::empty());
    }
    None
}

/// `ascii_lower(s)`, computed.
pub fn to_ascii_lower(s: &str) -> (r: String)
    ensures
        r@ == ascii_lower(s@),
{
    let cs = chars_of(s);
    let mut out: Vec<char> = Vec::new();
    let mut i: usize = 0;
    while i < cs.len()
        invariant
            cs@ == s@,
            i <= cs@.len(),
            out@ == ascii_lower(s@).take(i as int),
        decreases cs@.len() - i,
    {
        let c = cs[i];
        let l = if 'A' <= c && c <= 'Z' { ((c as u8) + 32) as char } else { c };
        proof {
            assert(ascii_lower(s@)[i as int] == lower_char(c));
        }
        out.push(l);
        proof {
            assert(out@ =~= ascii_lower(s@).take(i + 1));
        }
        i = i + 1;
    }
    proof {
        assert(ascii_lower(s@).take(i as int) =~= ascii_lower(s@));
    }
    string_of(out.as_slice())
}

fn media_type_of_ext(ext: &str) -> (r: Option<String>)
    ensures
        opt_view(r) == media_type_for(ext@),
{
    let t = if str_eq(ext, "mp4") {
        "video/mp4"
    } else if str_eq(ext, "mov") {
        "video/quicktime"
    } else if str_eq(ext, "m4a") {
        "audio/mp4"
    } else if str_eq(ext, "mp3") {
        "audio/mpeg"
    } else if str_eq(ext, "wav") {
        "audio/wav"
    } else if str_eq(ext, "txt") || str_eq(ext, "md") {
        "text/plain"
    } else if str_eq(ext, "json") {
        "application/json"
    } else if str_eq(ext, "jsonl") {
        "application/jsonl"
    } else if str_eq(ext, "pdf") {
        "application/pdf"
    } else if str_eq(ext, "png") {
        "image/png"
    } else if str_eq(ext, "jpg") || str_eq(ext, "jpeg") {
        "image/jpeg"
    } else {
        return None;
    };
    Some(owned(t))
}

/// The media type guessed from the extension of `path`; none when the
/// extension is unknown.
pub fn media_type_of(path: &str) -> (r: Option<String>)
    ensures
        opt_view(r) == media_type_spec(path@),
{
    let name = path_file_name(path)?;
    let ext = name_extension(name.as_str())?;
    let lower = to_ascii_lower(ext.as_str());
    media_type_of_ext(lower.as_str())
}

// ---- bodies and drafts ----

/// `b` is the object holding `entries`, the last value given for a key
/// winning.
pub open spec fn body_is(b: JsonValue, entries: Seq<(Seq<char>, JsonValue)>) -> bool {
    b is Object && b.wf() && forall|k: Seq<char>| #[trigger] b.get(k) == last_value(entries, k)
}

pub open spec fn str_field(key: Seq<char>, v: Seq<char>) -> Seq<(Seq<char>, JsonValue)> {
    seq![(key, JsonValue::Str(v))]
}

pub open spec fn opt_field(key: Seq<char>, v: Option<Seq<char>>) -> Seq<(Seq<char>, JsonValue)> {
    opt_entry(key, opt_str_json(v))
}

/// A draft without a timestamp (the ledger stamps it) by `actor`.
pub open spec fn draft_is(
    d: DraftView,
    actor: Seq<char>,
    event_type: Seq<char>,
    entries: Seq<(Seq<char>, JsonValue)>,
    evidence: Seq<EvidenceView>,
    op: Option<Seq<char>>,
) -> bool {
    d.ts is None && d.actor == actor && d.event_type == event_type && body_is(d.body, entries)
        && d.evidence == evidence && d.op == op
}

/// Every value among the entries is well formed.
pub open spec fn all_wf(v: Seq<(String, Json)>) -> bool {
    forall|i: int| 0 <= i < v.len() ==> (#[trigger] v[i]).1@.wf()
}

fn put(v: &mut Vec<(String, Json)>, key: &str, value: &str)
    ensures
        entries_view(final(v)@) == entries_view(old(v)@) + str_field(key@, value@),
        all_wf(old(v)@) ==> all_wf(final(v)@),
{
    let ghost before = entries_view(v@);
    v.push((owned(key), Json::string(value)));
    proof {
        assert(entries_view(v@) =~= before + str_field(key@, value@));
    }
}

fn put_opt(v: &mut Vec<(String, Json)>, key: &str, value: &Option<String>)
    ensures
        entries_view(final(v)@) == entries_view(old(v)@) + opt_field(key@, opt_view(*value)),
        all_wf(old(v)@) ==> all_wf(final(v)@),
{
    match value {
        Some(s) => put(v, key, s.as_str()),
        None => {
            proof {
                assert(entries_view(v@) =~= entries_view(v@) + opt_field(key@, opt_view(*value)));
            }
        },
    }
}

/// The object of the fields `entries` (each value a string or an array of
/// strings).
fn body_of(entries: Vec<(String, Json)>) -> (j: Json)
    requires
        all_wf(entries@),
    ensures
        body_is(j@, entries_view(entries@)),
{
    Json::object(entries)
}

fn draft(actor: &str, event_type: &str, body: Json, evidence: Vec<Evidence>, op: Option<String>) -> (d: Draft)
    ensures
        d@.ts is None,
        d@.actor == actor@,
        d@.event_type == event_type@,
        d@.body == body@,
        d@.evidence == evidence_views(evidence@),
        d@.op == opt_view(op),
{
    Draft { ts: None, actor: owned(actor), event_type: owned(event_type), body, evidence, op }
}

// ---- the loop and gate commands ----

pub open spec fn loop_state_of(events: Seq<Envelope>, slug: Seq<char>) -> Option<crate::fold::LoopStateView> {
    map_lookup(fold_spec(envelope_views(events)), slug)
}

/// `loop open`: a slug already active is refused, and so is one in any
/// other state unless `reopen`.
pub fn cmd_loop_open(
    ws: &Workspace,
    events: &[Envelope],
    slug: String,
    title: String,
    kind: Option<String>,
    next: Option<String>,
    reopen: bool,
) -> (r: Result<Draft, String>)
    ensures
        match loop_state_of(events@, slug@) {
            Some(st) if st.status == LoopStatus::Active => r matches Err(m) && m@ == "ループ '"@ + slug@ + "' は既に稼働中"@,
            Some(st) if !reopen => r matches Err(m)
                && m@ == "ループ '"@ + slug@ + "' は "@ + status_label(st.status) + " 状態。開き直すには --reopen を付ける"@,
            _ => r matches Ok(d) && draft_is(d@, ws@.actor, "loop.open"@,
                str_field("slug"@, slug@) + str_field("title"@, title@) + opt_field("kind"@, opt_view(kind))
                    + opt_field("next"@, opt_view(next)),
                Seq::empty(), None),
        },
{
    let loops = fold_loops(events);
    if let Some(k) = find_index(&loops, slug.as_str()) {
        let st = loops[k].status;
        match st {
            LoopStatus::Active => {
                let m = concat("ループ '", slug.as_str());
                return Err(concat(m.as_str(), "' は既に稼働中"));
            },
            _ => {
                if !reopen {
                    let m = concat("ループ '", slug.as_str());
                    let m = concat(m.as_str(), "' は ");
                    let m = concat(m.as_str(), st.label());
                    return Err(concat(m.as_str(), " 状態。開き直すには --reopen を付ける"));
                }
            },
        }
    }
    let mut v: Vec<(String, Json)> = Vec::new();
    let ghost e0 = entries_view(v@);
    assert(all_wf(v@));
    put(&mut v, "slug", slug.as_str());
    put(&mut v, "title", title.as_str());
    put_opt(&mut v, "kind", &kind);
    put_opt(&mut v, "next", &next);
    proof {
        assert(e0 =~= Seq::<(Seq<char>, JsonValue)>::empty());
        assert(entries_view(v@) =~= str_field("slug"@, slug@) + str_field("title"@, title@)
            + opt_field("kind"@, opt_view(kind)) + opt_field("next"@, opt_view(next)));
    }
    let body = body_of(v);
    let d = draft(ws.actor.as_str(), "loop.open", body, Vec::new(), None);
    proof {
        assert(d@.evidence =~= Seq::<EvidenceView>::empty());
    }
    Ok(d)
}

/// `loop next|touch|close|park|kill`: the slug must name a loop.
pub fn cmd_loop_verb(
    ws: &Workspace,
    events: &[Envelope],
    verb: &str,
    slug: String,
    extra_key: &str,
    extra: Option<String>,
) -> (r: Result<Draft, String>)
    ensures
        match loop_state_of(events@, slug@) {
            None => r matches Err(m) && m@ == "ループ '"@ + slug@ + "' は存在しない(`banto loop open` で開く)"@,
            Some(_) => r matches Ok(d) && draft_is(d@, ws@.actor, "loop."@ + verb@,
                str_field("slug"@, slug@) + opt_field(extra_key@, opt_view(extra)), Seq::empty(), None),
        },
{
    let loops = fold_loops(events);
    if find_index(&loops, slug.as_str()).is_none() {
        let m = concat("ループ '", slug.as_str());
        return Err(concat(m.as_str(), "' は存在しない(`banto loop open` で開く)"));
    }
    let mut v: Vec<(String, Json)> = Vec::new();
    let ghost e0 = entries_view(v@);
    assert(all_wf(v@));
    put(&mut v, "slug", slug.as_str());
    put_opt(&mut v, extra_key, &extra);
    proof {
        assert(e0 =~= Seq::<(Seq<char>, JsonValue)>::empty());
        assert(entries_view(v@) =~= str_field("slug"@, slug@) + opt_field(extra_key@, opt_view(extra)));
    }
    let body = body_of(v);
    let event_type = concat("loop.", verb);
    let d = draft(ws.actor.as_str(), event_type.as_str(), body, Vec::new(), None);
    proof {
        assert(d@.evidence =~= Seq::<EvidenceView>::empty());
    }
    Ok(d)
}

/// The declaration a claim id names.
pub open spec fn claim_lookup(events: Seq<EnvelopeView>, claim_id: Seq<char>) -> Result<EnvelopeView, Seq<char>> {
    match find_id(events, claim_id) {
        None => Err("イベントが見つからない: "@ + claim_id),
        Some(c) => if c.event_type != "claim.declare"@ {
            Err(claim_id + " は claim.declare ではない(type="@ + c.event_type + ")"@)
        } else {
            Ok(c)
        },
    }
}

/// The `claim.declare` event whose id is `claim_id`.
pub fn find_claim(events: &[Envelope], claim_id: &str) -> (r: Result<Envelope, String>)
    ensures
        match claim_lookup(envelope_views(events@), claim_id@) {
            Ok(c) => r matches Ok(e) && e@ == c,
            Err(m) => r matches Err(e) && e@ == m,
        },
{
    let ghost evs = envelope_views(events@);
    let mut i: usize = 0;
    proof {
        assert(evs.take(0) =~= Seq::<EnvelopeView>::empty());
    }
    while i < events.len()
        invariant
            evs == envelope_views(events@),
            i <= events@.len(),
            find_id(evs.take(i as int), claim_id@) is None,
        decreases events@.len() - i,
    {
        proof {
            assert(evs.take(i + 1).drop_last() =~= evs.take(i as int));
            assert(evs.take(i + 1).last() == events@[i as int]@);
        }
        if str_eq(events[i].id.as_str(), claim_id) {
            proof {
                crate::ledger::lemma_find_id_prefix(evs, claim_id@, i + 1);
            }
            let c = &events[i];
            if !str_eq(c.event_type.as_str(), "claim.declare") {
                let m = concat(claim_id, " は claim.declare ではない(type=");
                let m = concat(m.as_str(), c.event_type.as_str());
                return Err(concat(m.as_str(), ")"));
            }
            return Ok(c.copy());
        }
        i = i + 1;
    }
    proof {
        assert(evs.take(i as int) =~= evs);
    }
    Err(concat("イベントが見つからない: ", claim_id))
}

/// `gate verify`: an independent actor's verdict on a claim; the actor
/// who declared it cannot verify it. `evidence` is what reading the
/// evidence files gave.
pub fn cmd_gate_verify(
    ws: &Workspace,
    events: &[Envelope],
    claim_id: &str,
    verdict: String,
    reason: Option<String>,
    evidence: Result<Vec<Evidence>, String>,
) -> (r: Result<Draft, String>)
    ensures
        match claim_lookup(envelope_views(events@), claim_id@) {
            Err(m) => r matches Err(e) && e@ == m,
            Ok(c) => if c.actor == ws@.actor {
                r matches Err(e) && e@ == "宣言と同じ actor '"@ + ws@.actor
                    + "' は検証できない(契約 不変量3)。--actor で独立した書き手を指定する"@
            } else {
                match evidence {
                    Err(m) => r matches Err(e) && e@ == m@,
                    Ok(evs) => r matches Ok(d) && draft_is(d@, ws@.actor, "claim.verify"@,
                        str_field("claim"@, claim_id@) + str_field("verdict"@, verdict@) + opt_field("reason"@, opt_view(reason)),
                        evidence_views(evs@), None),
                }
            },
        },
{
    let claim = find_claim(events, claim_id)?;
    if str_eq(claim.actor.as_str(), ws.actor.as_str()) {
        let m = concat("宣言と同じ actor '", ws.actor.as_str());
        return Err(concat(m.as_str(), "' は検証できない(契約 不変量3)。--actor で独立した書き手を指定する"));
    }
    let evidence = evidence?;
    let mut v: Vec<(String, Json)> = Vec::new();
    let ghost e0 = entries_view(v@);
    assert(all_wf(v@));
    put(&mut v, "claim", claim_id);
    put(&mut v, "verdict", verdict.as_str());
    put_opt(&mut v, "reason", &reason);
    proof {
        assert(e0 =~= Seq::<(Seq<char>, JsonValue)>::empty());
        assert(entries_view(v@) =~= str_field("claim"@, claim_id@) + str_field("verdict"@, verdict@)
            + opt_field("reason"@, opt_view(reason)));
    }
    let body = body_of(v);
    Ok(draft(ws.actor.as_str(), "claim.verify", body, evidence, None))
}

/// `gate reopen`: takes back what a claim had established.
pub fn cmd_gate_reopen(ws: &Workspace, events: &[Envelope], claim_id: &str, reason: String) -> (r: Result<Draft, String>)
    ensures
        match claim_lookup(envelope_views(events@), claim_id@) {
            Err(m) => r matches Err(e) && e@ == m,
            Ok(_) => r matches Ok(d) && draft_is(d@, ws@.actor, "claim.reopen"@,
                str_field("claim"@, claim_id@) + str_field("reason"@, reason@), Seq::empty(), None),
        },
{
    let _claim = find_claim(events, claim_id)?;
    let mut v: Vec<(String, Json)> = Vec::new();
    let ghost e0 = entries_view(v@);
    assert(all_wf(v@));
    put(&mut v, "claim", claim_id);
    put(&mut v, "reason", reason.as_str());
    proof {
        assert(e0 =~= Seq::<(Seq<char>, JsonValue)>::empty());
        assert(entries_view(v@) =~= str_field("claim"@, claim_id@) + str_field("reason"@, reason@));
    }
    let body = body_of(v);
    let d = draft(ws.actor.as_str(), "claim.reopen", body, Vec::new(), None);
    proof {
        assert(d@.evidence =~= Seq::<EvidenceView>::empty());
    }
    Ok(d)
}

// ---- capture ----

/// `video FILE`: the file's name and the evidence read from it (`evidence`
/// is what hashing the file gave), recorded once per content.
pub fn cmd_video(
    ws: &Workspace,
    file: &str,
    evidence: Result<Evidence, String>,
    note: Option<String>,
    loop_slug: Option<String>,
) -> (r: Result<Draft, String>)
    ensures
        match file_name(file@) {
            None => r matches Err(m) && m@ == "ファイル名を取得できない: "@ + file@,
            Some(name) => match evidence {
                Err(m) => r matches Err(e) && e@ == m@,
                Ok(ev) => r matches Ok(d) && draft_is(d@, ws@.actor, "video.log"@,
                    str_field("filename"@, name) + opt_field("note"@, opt_view(note)) + opt_field("loop"@, opt_view(loop_slug)),
                    seq![ev@], Some("video:"@ + ev.sha256@)),
            },
        },
{
    let filename = match path_file_name(file) {
        Some(n) => n,
        None => {
            return Err(concat("ファイル名を取得できない: ", file));
        },
    };
    let ev = evidence?;
    let op = concat("video:", ev.sha256.as_str());
    let mut v: Vec<(String, Json)> = Vec::new();
    let ghost e0 = entries_view(v@);
    assert(all_wf(v@));
    put(&mut v, "filename", filename.as_str());
    put_opt(&mut v, "note", &note);
    put_opt(&mut v, "loop", &loop_slug);
    proof {
        assert(e0 =~= Seq::<(Seq<char>, JsonValue)>::empty());
        assert(entries_view(v@) =~= str_field("filename"@, filename@) + opt_field("note"@, opt_view(note))
            + opt_field("loop"@, opt_view(loop_slug)));
    }
    let body = body_of(v);
    let ghost evv = ev@;
    let mut evidence: Vec<Evidence> = Vec::new();
    evidence.push(ev);
    let d = draft(ws.actor.as_str(), "video.log", body, evidence, Some(op));
    proof {
        assert(d@.evidence =~= seq![evv]);
    }
    Ok(d)
}

/// `note TEXT`: a captured note, with its tags when there are any.
pub fn cmd_note(ws: &Workspace, text: String, tags: Vec<String>) -> (d: Draft)
    ensures
        draft_is(d@, ws@.actor, "note.capture"@,
            str_field("text"@, text@) + (if tags@.len() == 0 {
                Seq::empty()
            } else {
                seq![("tags"@, JsonValue::Array(Seq::new(tags@.len(), |i: int| JsonValue::Str(tags@[i]@))))]
            }),
            Seq::empty(), None),
{
    let mut v: Vec<(String, Json)> = Vec::new();
    let ghost e0 = entries_view(v@);
    assert(all_wf(v@));
    put(&mut v, "text", text.as_str());
    let ghost e1 = entries_view(v@);
    if tags.len() > 0 {
        let mut items: Vec<Json> = Vec::new();
        let mut i: usize = 0;
        while i < tags.len()
            invariant
                i <= tags@.len(),
                items@.len() == i,
                forall|k: int| 0 <= k < i ==> (#[trigger] items@[k])@ == JsonValue::Str(tags@[k]@),
            decreases tags@.len() - i,
        {
            items.push(Json::string(tags[i].as_str()));
            i = i + 1;
        }
        let arr = Json::Array(items);
        proof {
            assert(arr@->Array_0 =~= Seq::new(tags@.len(), |i: int| JsonValue::Str(tags@[i]@)));
        }
        proof {
            let items_v = arr@->Array_0;
            assert forall|k: int| 0 <= k < items_v.len() implies (#[trigger] items_v[k]).wf() by {
                assert(items_v[k] == JsonValue::Str(tags@[k]@));
            }
            assert(arr@.wf());
        }
        let ghost before = entries_view(v@);
        let ghost av = arr@;
        let ghost vb = v@;
        v.push((owned("tags"), arr));
        proof {
            assert(entries_view(v@) =~= before.push(("tags"@, av)));
            assert forall|i: int| 0 <= i < v@.len() implies (#[trigger] v@[i]).1@.wf() by {
                if i < vb.len() {
                    assert(v@[i] == vb[i]);
                }
            }
        }
    }
    proof {
        assert(e0 =~= Seq::<(Seq<char>, JsonValue)>::empty());
        assert(entries_view(v@) =~= str_field("text"@, text@) + (if tags@.len() == 0 {
            Seq::empty()
        } else {
            seq![("tags"@, JsonValue::Array(Seq::new(tags@.len(), |i: int| JsonValue::Str(tags@[i]@))))]
        }));
    }
    let body = body_of(v);
    let d = draft(ws.actor.as_str(), "note.capture", body, Vec::new(), None);
    proof {
        assert(d@.evidence =~= Seq::<EvidenceView>::empty());
    }
    d
}

/// The body given to `append --body`: JSON, and an object.
pub fn parse_body(body_str: &str) -> (r: Result<Json, String>)
    ensures
        match parsed_json(body_str@) {
            Err(m) => r matches Err(e) && e@ == "--body の JSON が不正: "@ + m,
            Ok(v) => if v is Object {
                r matches Ok(j) && j@ == v
            } else {
                r matches Err(e) && e@ == "--body は JSON オブジェクトでなければならない"@
            },
        },
{
    let body = match parse_json(body_str) {
        Ok(b) => b,
        Err(m) => {
            return Err(concat("--body の JSON が不正: ", m.as_str()));
        },
    };
    match body {
        Json::Object(_) => Ok(body),
        _ => Err(owned("--body は JSON オブジェクトでなければならない")),
    }
}

/// `append TYPE`: any event, as given.
pub fn cmd_append(ws: &Workspace, event_type: &str, body: Json, evidence: Vec<Evidence>, op: Option<String>) -> (d: Draft)
    ensures
        d@.ts is None,
        d@.actor == ws@.actor,
        d@.event_type == event_type@,
        d@.body == body@,
        d@.evidence == evidence_views(evidence@),
        d@.op == opt_view(op),
{
    draft(ws.actor.as_str(), event_type, body, evidence, op)
}


// ---- text helpers ----

/// `char::is_whitespace`: the Unicode `White_Space` characters.
pub open spec fn is_white(c: char) -> bool {
    c == ' ' || ('\t' <= c && c <= '\r') || c == '\u{85}' || c == '\u{a0}' || c == '\u{1680}'
        || ('\u{2000}' <= c && c <= '\u{200a}') || c == '\u{2028}' || c == '\u{2029}' || c == '\u{202f}'
        || c == '\u{205f}' || c == '\u{3000}'
}

pub open spec fn trim_start(s: Seq<char>) -> Seq<char>
    decreases s.len(),
{
    if s.len() > 0 && is_white(s[0]) { trim_start(s.drop_first()) } else { s }
}

pub open spec fn trim_end(s: Seq<char>) -> Seq<char>
    decreases s.len(),
{
    if s.len() > 0 && is_white(s.last()) { trim_end(s.drop_last()) } else { s }
}

/// `str::trim`: without the white space at either end.
pub open spec fn trim(s: Seq<char>) -> Seq<char> {
    trim_end(trim_start(s))
}

fn white(c: char) -> (r: bool)
    ensures
        r == is_white(c),
{
    c == ' ' || ('\t' <= c && c <= '\r') || c == '\u{85}' || c == '\u{a0}' || c == '\u{1680}'
        || ('\u{2000}' <= c && c <= '\u{200a}') || c == '\u{2028}' || c == '\u{2029}' || c == '\u{202f}'
        || c == '\u{205f}' || c == '\u{3000}'
}

/// `trim(s)`, computed.
pub fn trimmed(s: &str) -> (r: String)
    ensures
        r@ == trim(s@),
{
    let cs = chars_of(s);
    let n = cs.len();
    let mut i: usize = 0;
    proof {
        assert(s@.skip(0) =~= s@);
    }
    while i < n && white(cs[i])
        invariant
            cs@ == s@,
            n == cs@.len(),
            i <= n,
            trim_start(s@) == trim_start(s@.skip(i as int)),
        decreases n - i,
    {
        proof {
            assert(s@.skip(i as int).drop_first() =~= s@.skip(i + 1));
        }
        i = i + 1;
    }
    let ghost t = s@.skip(i as int);
    proof {
        assert(trim_start(s@) == t);
        assert(t.take(t.len() as int) =~= t);
    }
    let mut j: usize = n;
    while j > i && white(cs[j - 1])
        invariant
            cs@ == s@,
            n == cs@.len(),
            i <= j <= n,
            t == s@.skip(i as int),
            trim_end(t) == trim_end(t.take(j - i)),
        decreases j,
    {
        proof {
            assert(t.take(j - i).drop_last() =~= t.take(j - i - 1));
            assert(t.take(j - i).last() == cs@[j - 1]);
        }
        j = j - 1;
    }
    proof {
        assert(trim_end(t) == t.take(j - i));
    }
    let mut out: Vec<char> = Vec::new();
    let mut k: usize = i;
    while k < j
        invariant
            cs@ == s@,
            i <= k <= j <= cs@.len(),
            out@ == cs@.subrange(i as int, k as int),
        decreases j - k,
    {
        out.push(cs[k]);
        proof {
            assert(out@ =~= cs@.subrange(i as int, k + 1));
        }
        k = k + 1;
    }
    proof {
        assert(out@ =~= t.take(j - i));
    }
    string_of(out.as_slice())
}

/// A string is empty after trimming exactly when `str::trim` leaves
/// nothing of it.
fn trims_to_empty(s: &str) -> (r: bool)
    ensures
        r == (trim(s@).len() == 0),
{
    let t = trimmed(s);
    t.as_str().is_empty()
}

/// `trim`, then ASCII letters lowered: how a hash typed by hand is read.
pub open spec fn normal_hex(s: Seq<char>) -> Seq<char> {
    ascii_lower(trim(s))
}

/// Evidence for a text held inline: its hash, no uri, `text/plain`, and its
/// length in bytes.
pub open spec fn text_evidence(t: Seq<char>) -> EvidenceView {
    EvidenceView {
        sha256: hash_hex(vstd::utf8::encode_utf8(t)),
        uri: None,
        media_type: Some("text/plain"@),
        bytes: Some(utf8_len(t) as u64),
    }
}

fn evidence_of_text(t: &str) -> (e: Evidence)
    ensures
        e@ == text_evidence(t@),
{
    let n = byte_len(t);
    Evidence {
        sha256: hash_bytes(t.as_bytes()),
        uri: None,
        media_type: Some(owned("text/plain")),
        bytes: Some(n as u64),
    }
}

pub open spec fn opt_result_view(o: Option<Result<String, String>>) -> Option<Result<Seq<char>, Seq<char>>> {
    match o {
        Some(Ok(s)) => Some(Ok(s@)),
        Some(Err(m)) => Some(Err(m@)),
        None => None,
    }
}

/// The text of a journal entry: given inline, or read from a file.
pub open spec fn journal_text(text: Option<Seq<char>>, file_text: Option<Result<Seq<char>, Seq<char>>>) -> Result<Seq<char>, Seq<char>> {
    match (text, file_text) {
        (Some(t), None) => Ok(t),
        (None, Some(Ok(c))) => Ok(c),
        (None, Some(Err(m))) => Err(m),
        _ => Err("--text か --file のどちらかを指定する"@),
    }
}

/// The evidence of a journal entry: the text's own, then the original
/// recording's when its hash is given.
pub open spec fn journal_evidence(
    t: Seq<char>,
    sha256: Option<Seq<char>>,
    filename: Option<Seq<char>>,
    bytes: Option<u64>,
) -> Result<Seq<EvidenceView>, Seq<char>> {
    match sha256 {
        None => Ok(seq![text_evidence(t)]),
        Some(o) => if !hex64(normal_hex(o)) {
            Err("--sha256 は 64 桁の hex でなければならない"@)
        } else {
            Ok(seq![text_evidence(t), EvidenceView {
                sha256: normal_hex(o),
                uri: None,
                media_type: media_type_spec(match filename { Some(n) => n, None => "original"@ }),
                bytes,
            }])
        },
    }
}

/// `journal`: the morning review, whatever the medium; the text is the
/// entry, its hash the idempotency key. `file_text` is what reading the
/// `--file` gave.
pub fn cmd_journal(
    ws: &Workspace,
    text: Option<String>,
    file_text: Option<Result<String, String>>,
    sha256: Option<String>,
    filename: Option<String>,
    bytes: Option<u64>,
    loop_slug: Option<String>,
) -> (r: Result<Draft, String>)
    ensures
        match journal_text(opt_view(text), opt_result_view(file_text)) {
            Err(m) => r matches Err(e) && e@ == m,
            Ok(t) => if trim(t).len() == 0 {
                r matches Err(e) && e@ == "統括のテキストが空"@
            } else {
                match journal_evidence(t, opt_view(sha256), opt_view(filename), bytes) {
                    Err(m) => r matches Err(e) && e@ == m,
                    Ok(evs) => r matches Ok(d) && draft_is(d@, ws@.actor, "journal.entry"@,
                        str_field("text"@, t) + opt_field("filename"@, opt_view(filename)) + opt_field("loop"@, opt_view(loop_slug)),
                        evs, Some("journal:"@ + hash_hex(vstd::utf8::encode_utf8(t)))),
                }
            },
        },
{
    let t = match (text, file_text) {
        (Some(t), None) => t,
        (None, Some(Ok(c))) => c,
        (None, Some(Err(m))) => {
            return Err(m);
        },
        _ => {
            return Err(owned("--text か --file のどちらかを指定する"));
        },
    };
    if trims_to_empty(t.as_str()) {
        return Err(owned("統括のテキストが空"));
    }
    let main = evidence_of_text(t.as_str());
    let op = concat("journal:", main.sha256.as_str());
    let ghost mv = main@;
    let mut evidence: Vec<Evidence> = Vec::new();
    evidence.push(main);
    if let Some(orig) = &sha256 {
        let o = to_ascii_lower(trimmed(orig.as_str()).as_str());
        if !is_hex64(o.as_str()) {
            return Err(owned("--sha256 は 64 桁の hex でなければならない"));
        }
        let name = match &filename {
            Some(n) => n.clone(),
            None => owned("original"),
        };
        let mt = media_type_of(name.as_str());
        evidence.push(Evidence { sha256: o, uri: None, media_type: mt, bytes });
    }
    let mut v: Vec<(String, Json)> = Vec::new();
    let ghost e0 = entries_view(v@);
    assert(all_wf(v@));
    put(&mut v, "text", t.as_str());
    put_opt(&mut v, "filename", &filename);
    put_opt(&mut v, "loop", &loop_slug);
    proof {
        assert(e0 =~= Seq::<(Seq<char>, JsonValue)>::empty());
        assert(entries_view(v@) =~= str_field("text"@, t@) + opt_field("filename"@, opt_view(filename))
            + opt_field("loop"@, opt_view(loop_slug)));
    }
    let body = body_of(v);
    let d = draft(ws.actor.as_str(), "journal.entry", body, evidence, Some(op));
    proof {
        let want = journal_evidence(t@, opt_view(sha256), opt_view(filename), bytes);
        assert(d@.evidence =~= want->Ok_0);
    }
    Ok(d)
}

/// `video --sha256`: a video kept on the device that shot it, recorded by
/// the hash computed there (evidence without a uri).
pub fn cmd_video_remote(
    ws: &Workspace,
    sha256: &str,
    filename: &str,
    bytes: Option<u64>,
    note: Option<String>,
    loop_slug: Option<String>,
) -> (r: Result<Draft, String>)
    ensures
        if !hex64(normal_hex(sha256@)) {
            r matches Err(e) && e@ == "--sha256 は 64 桁の hex でなければならない(受け取った長さ: "@
                + decimal(utf8_len(normal_hex(sha256@))) + ")。端末では `shasum -a 256 <ファイル>` で計算できる"@
        } else {
            r matches Ok(d) && draft_is(d@, ws@.actor, "video.log"@,
                str_field("filename"@, filename@) + opt_field("note"@, opt_view(note)) + opt_field("loop"@, opt_view(loop_slug)),
                seq![EvidenceView { sha256: normal_hex(sha256@), uri: None, media_type: media_type_spec(filename@), bytes }],
                Some("video:"@ + normal_hex(sha256@)))
        },
{
    let s = to_ascii_lower(trimmed(sha256).as_str());
    if !is_hex64(s.as_str()) {
        let n = byte_len(s.as_str());
        let m = concat("--sha256 は 64 桁の hex でなければならない(受け取った長さ: ", u64_decimal(n as u64).as_str());
        return Err(concat(m.as_str(), ")。端末では `shasum -a 256 <ファイル>` で計算できる"));
    }
    let op = concat("video:", s.as_str());
    let mt = media_type_of(filename);
    let ev = Evidence { sha256: s, uri: None, media_type: mt, bytes };
    let ghost evv = ev@;
    let mut v: Vec<(String, Json)> = Vec::new();
    let ghost e0 = entries_view(v@);
    assert(all_wf(v@));
    put(&mut v, "filename", filename);
    put_opt(&mut v, "note", &note);
    put_opt(&mut v, "loop", &loop_slug);
    proof {
        assert(e0 =~= Seq::<(Seq<char>, JsonValue)>::empty());
        assert(entries_view(v@) =~= str_field("filename"@, filename@) + opt_field("note"@, opt_view(note))
            + opt_field("loop"@, opt_view(loop_slug)));
    }
    let body = body_of(v);
    let mut evidence: Vec<Evidence> = Vec::new();
    evidence.push(ev);
    let d = draft(ws.actor.as_str(), "video.log", body, evidence, Some(op));
    proof {
        assert(d@.evidence =~= seq![evv]);
    }
    Ok(d)
}

pub open spec fn opt_file_view(o: Option<Result<(String, Evidence), String>>) -> Option<Result<(Seq<char>, EvidenceView), Seq<char>>> {
    match o {
        Some(Ok((c, e))) => Some(Ok((c@, e@))),
        Some(Err(m)) => Some(Err(m@)),
        None => None,
    }
}

/// `transcript EVENT_ID`: the text of a recorded video. `video` is the
/// event the id names, if the ledger holds it; `file` what reading the
/// `--file` gave (its text and evidence).
pub fn cmd_transcript(
    ws: &Workspace,
    video: Option<Envelope>,
    event_id: &str,
    file: Option<Result<(String, Evidence), String>>,
    text: Option<String>,
) -> (r: Result<Draft, String>)
    ensures
        match video {
            None => r matches Err(e) && e@ == "イベントが見つからない: "@ + event_id@,
            Some(v) => if v@.event_type != "video.log"@ {
                r matches Err(e) && e@ == event_id@ + " は video.log ではない(type="@ + v@.event_type + ")"@
            } else {
                match (opt_file_view(file), opt_view(text)) {
                    (Some(Ok((c, ev))), None) => r matches Ok(d) && draft_is(d@, ws@.actor, "video.transcript"@,
                        str_field("video"@, event_id@) + str_field("text"@, c), seq![ev], None),
                    (Some(Err(m)), None) => r matches Err(e) && e@ == m,
                    (None, Some(t)) => r matches Ok(d) && draft_is(d@, ws@.actor, "video.transcript"@,
                        str_field("video"@, event_id@) + str_field("text"@, t), seq![text_evidence(t)], None),
                    _ => r matches Err(e) && e@ == "--file か --text のどちらか一方を指定する"@,
                }
            },
        },
{
    let v = match video {
        Some(v) => v,
        None => {
            return Err(concat("イベントが見つからない: ", event_id));
        },
    };
    if !str_eq(v.event_type.as_str(), "video.log") {
        let m = concat(event_id, " は video.log ではない(type=");
        let m = concat(m.as_str(), v.event_type.as_str());
        return Err(concat(m.as_str(), ")"));
    }
    let (content, ev) = match (file, text) {
        (Some(Ok((c, e))), None) => (c, e),
        (Some(Err(m)), None) => {
            return Err(m);
        },
        (None, Some(t)) => {
            let e = evidence_of_text(t.as_str());
            (t, e)
        },
        _ => {
            return Err(owned("--file か --text のどちらか一方を指定する"));
        },
    };
    let mut vv: Vec<(String, Json)> = Vec::new();
    let ghost e0 = entries_view(vv@);
    assert(all_wf(vv@));
    put(&mut vv, "video", event_id);
    put(&mut vv, "text", content.as_str());
    proof {
        assert(e0 =~= Seq::<(Seq<char>, JsonValue)>::empty());
        assert(entries_view(vv@) =~= str_field("video"@, event_id@) + str_field("text"@, content@));
    }
    let body = body_of(vv);
    let ghost evv = ev@;
    let mut evidence: Vec<Evidence> = Vec::new();
    evidence.push(ev);
    let d = draft(ws.actor.as_str(), "video.transcript", body, evidence, None);
    proof {
        assert(d@.evidence =~= seq![evv]);
    }
    Ok(d)
}

/// The line printed after a successful append.
pub fn recorded_line(env: &Envelope) -> (r: String)
    ensures
        r@ == "✓ 記録 seq="@ + decimal(env.seq as nat) + " type="@ + env.event_type@ + " id="@ + env.id@,
{
    let m = concat("✓ 記録 seq=", u64_decimal(env.seq).as_str());
    let m = concat(m.as_str(), " type=");
    let m = concat(m.as_str(), env.event_type.as_str());
    let m = concat(m.as_str(), " id=");
    concat(m.as_str(), env.id.as_str())
}


// ---- gate check ----

/// The title of a claim, or `(無題)`.
pub open spec fn claim_title(c: EnvelopeView) -> Seq<char> {
    match c.body.get_str("title"@) {
        Some(t) => t,
        None => "(無題)"@,
    }
}

/// The event speaks of the claim `claim_id` (`body.claim`).
pub open spec fn about_claim(e: EnvelopeView, claim_id: Seq<char>) -> bool {
    e.body.get_str("claim"@) == Some(claim_id)
}

/// A judgment of the claim: any `claim.reopen` of it, and any
/// `claim.verify` of it by an actor other than the one who declared it.
pub open spec fn is_judgment(e: EnvelopeView, claim_id: Seq<char>, declarer: Seq<char>) -> bool {
    about_claim(e, claim_id) && (e.event_type == "claim.reopen"@
        || (e.event_type == "claim.verify"@ && e.actor != declarer))
}

/// A `claim.verify` of the claim by the actor who declared it.
pub open spec fn is_self_verify(e: EnvelopeView, claim_id: Seq<char>, declarer: Seq<char>) -> bool {
    about_claim(e, claim_id) && e.event_type == "claim.verify"@ && e.actor == declarer
}

/// The judgments of the claim, in ledger order.
pub open spec fn judgments(evs: Seq<EnvelopeView>, claim_id: Seq<char>, declarer: Seq<char>) -> Seq<EnvelopeView>
    decreases evs.len(),
{
    if evs.len() == 0 {
        Seq::empty()
    } else {
        let prior = judgments(evs.drop_last(), claim_id, declarer);
        if is_judgment(evs.last(), claim_id, declarer) { prior.push(evs.last()) } else { prior }
    }
}

/// How many `claim.verify` of the claim its own declarer wrote.
pub open spec fn self_verifies(evs: Seq<EnvelopeView>, claim_id: Seq<char>, declarer: Seq<char>) -> nat
    decreases evs.len(),
{
    if evs.len() == 0 {
        0
    } else {
        self_verifies(evs.drop_last(), claim_id, declarer)
            + if is_self_verify(evs.last(), claim_id, declarer) { 1nat } else { 0nat }
    }
}

/// The report line of one evidence entry of the claim, and whether it
/// stays unresolved.
pub open spec fn evidence_report(ev: EvidenceView, probes: Seq<ProbeView>) -> (Seq<char>, bool) {
    match ev.uri {
        None => ("  ✗ (uri なし)sha256="@ + ev.sha256, true),
        Some(uri) => match find_probe(probes, uri) {
            Some(EvidenceFileView::Hashed(h)) => if h == ev.sha256 {
                ("  ✓ "@ + uri, false)
            } else {
                ("  ✗ "@ + uri + ": ハッシュ不一致"@, true)
            },
            Some(EvidenceFileView::Unreadable(m)) => ("  ✗ "@ + uri + ": 読めない("@ + m + ")"@, true),
            _ => ("  ✗ "@ + uri + ": ファイルが見つからない"@, true),
        },
    }
}

pub open spec fn evidence_lines(evs: Seq<EvidenceView>, probes: Seq<ProbeView>) -> Seq<char>
    decreases evs.len(),
{
    if evs.len() == 0 {
        Seq::empty()
    } else {
        evidence_lines(evs.drop_last(), probes) + evidence_report(evs.last(), probes).0 + "\n"@
    }
}

pub open spec fn unresolved_entries(evs: Seq<EvidenceView>, probes: Seq<ProbeView>) -> nat
    decreases evs.len(),
{
    if evs.len() == 0 {
        0
    } else {
        unresolved_entries(evs.drop_last(), probes) + if evidence_report(evs.last(), probes).1 { 1nat } else { 0nat }
    }
}

/// Unresolved evidence of a claim: every unresolved entry, and one more
/// when it has none at all.
pub open spec fn unresolved(c: EnvelopeView, probes: Seq<ProbeView>) -> nat {
    (if c.evidence.len() == 0 { 1nat } else { 0nat }) + unresolved_entries(c.evidence, probes)
}

pub open spec fn judgment_detail(j: EnvelopeView) -> Seq<char> {
    if j.event_type == "claim.verify"@ {
        "verdict="@ + match j.body.get_str("verdict"@) { Some(v) => v, None => "?"@ }
    } else {
        "reason="@ + match j.body.get_str("reason"@) { Some(v) => v, None => "?"@ }
    }
}

pub open spec fn judgment_lines(js: Seq<EnvelopeView>) -> Seq<char>
    decreases js.len(),
{
    if js.len() == 0 {
        Seq::empty()
    } else {
        let j = js.last();
        judgment_lines(js.drop_last()) + "  "@ + j.event_type + " "@ + judgment_detail(j) + " by "@ + j.actor
            + "("@ + j.ts + ")"@ + "\n"@
    }
}

/// What the latest judgment says.
pub open spec fn latest_verdict(j: EnvelopeView) -> Seq<char> {
    if j.event_type == "claim.verify"@ {
        if j.body.get_str("verdict"@) == Some("pass"@) { "成立(pass)"@ } else { "不成立(fail)"@ }
    } else {
        "開き直し(reopen)"@
    }
}

/// The opening lines of the report: the claim, its declaration and how
/// much evidence it carries.
pub open spec fn report_head(c: EnvelopeView) -> Seq<char> {
    "主張: "@ + claim_title(c) + "\n"@
        + "宣言: actor="@ + c.actor + " ts="@ + c.ts + " id="@ + c.id + "\n"@
        + "証拠 "@ + decimal(c.evidence.len()) + " 件:\n"@
        + (if c.evidence.len() == 0 { "  ✗ 証拠が 0 件(契約 不変量2: 主張は一次証拠へ結ぶ)\n"@ } else { Seq::empty() })
}

pub open spec fn self_note(n: nat) -> Seq<char> {
    if n > 0 {
        "⚠ 宣言と同じ actor による claim.verify が "@ + decimal(n) + " 件 — 契約 不変量3 により判定から除外\n"@
    } else {
        Seq::empty()
    }
}

pub open spec fn judgment_text(js: Seq<EnvelopeView>) -> Seq<char> {
    if js.len() == 0 {
        "判定: 未検証(宣言のみ。独立した actor の `banto gate verify` を待つ)\n"@
    } else {
        judgment_lines(js) + "最新判定: "@ + latest_verdict(js.last()) + "\n"@
    }
}

pub open spec fn tail_line(u: nat) -> Seq<char> {
    if u > 0 { "✗ 解決しない証拠が "@ + decimal(u) + " 件\n"@ } else { "✓ 証拠はすべて解決\n"@ }
}

/// The report of `gate check` on the claim `c`.
pub open spec fn gate_report(c: EnvelopeView, evs: Seq<EnvelopeView>, claim_id: Seq<char>, probes: Seq<ProbeView>) -> Seq<char> {
    report_head(c) + evidence_lines(c.evidence, probes) + self_note(self_verifies(evs, claim_id, c.actor))
        + judgment_text(judgments(evs, claim_id, c.actor)) + tail_line(unresolved(c, probes))
}

/// The outcome of `gate check`: the report, and the exit code (1 while
/// some evidence stays unresolved).
#[derive(Debug)]
pub struct GateCheck {
    pub text: String,
    pub code: i32,
}

fn evidence_report_of(ev: &Evidence, probes: &Vec<EvidenceProbe>) -> (r: (String, bool))
    ensures
        r.0@ == evidence_report(ev@, probe_views(probes@)).0,
        r.1 == evidence_report(ev@, probe_views(probes@)).1,
{
    match &ev.uri {
        None => (concat("  ✗ (uri なし)sha256=", ev.sha256.as_str()), true),
        Some(uri) => {
            let missing = concat("  ✗ ", uri.as_str());
            let missing = concat(missing.as_str(), ": ファイルが見つからない");
            match probe_index(probes, uri.as_str()) {
                None => (missing, true),
                Some(k) => match &probes[k].file {
                    EvidenceFile::Hashed(h) => {
                        if str_eq(h.as_str(), ev.sha256.as_str()) {
                            (concat("  ✓ ", uri.as_str()), false)
                        } else {
                            let m = concat("  ✗ ", uri.as_str());
                            (concat(m.as_str(), ": ハッシュ不一致"), true)
                        }
                    },
                    EvidenceFile::Unreadable(e) => {
                        let m = concat("  ✗ ", uri.as_str());
                        let m = concat(m.as_str(), ": 読めない(");
                        let m = concat(m.as_str(), e.as_str());
                        (concat(m.as_str(), ")"), true)
                    },
                    _ => (missing, true),
                },
            }
        },
    }
}

fn verdict_of(j: &Envelope) -> (r: String)
    ensures
        r@ == latest_verdict(j@),
{
    if str_eq(j.event_type.as_str(), "claim.verify") {
        let pass = match j.body.get_str("verdict") {
            Some(v) => str_eq(v.as_str(), "pass"),
            None => false,
        };
        if pass { owned("成立(pass)") } else { owned("不成立(fail)") }
    } else {
        owned("開き直し(reopen)")
    }
}

fn judgment_line(j: &Envelope) -> (r: String)
    ensures
        r@ == "  "@ + j@.event_type + " "@ + judgment_detail(j@) + " by "@ + j@.actor + "("@ + j@.ts + ")"@ + "\n"@,
{
    let detail = if str_eq(j.event_type.as_str(), "claim.verify") {
        match j.body.get_str("verdict") {
            Some(v) => concat("verdict=", v.as_str()),
            None => owned("verdict=?"),
        }
    } else {
        match j.body.get_str("reason") {
            Some(v) => concat("reason=", v.as_str()),
            None => owned("reason=?"),
        }
    };
    proof {
        reveal_strlit("verdict=?");
        reveal_strlit("verdict=");
        reveal_strlit("?");
        reveal_strlit("reason=?");
        reveal_strlit("reason=");
        assert(detail@ == judgment_detail(j@));
    }
    let m = concat("  ", j.event_type.as_str());
    let m = concat(m.as_str(), " ");
    let m = concat(m.as_str(), detail.as_str());
    let m = concat(m.as_str(), " by ");
    let m = concat(m.as_str(), j.actor.as_str());
    let m = concat(m.as_str(), "(");
    let m = concat(m.as_str(), j.ts.as_str());
    let m = concat(m.as_str(), ")");
    concat(m.as_str(), "\n")
}

/// The report lines of the claim's evidence, and how many stay unresolved.
fn evidence_section(evidence: &Vec<Evidence>, probes: &Vec<EvidenceProbe>) -> (r: (String, usize))
    ensures
        r.0@ == evidence_lines(evidence_views(evidence@), probe_views(probes@)),
        r.1 as nat == unresolved_entries(evidence_views(evidence@), probe_views(probes@)),
        r.1 <= evidence@.len(),
{
    let ghost cev = evidence_views(evidence@);
    let ghost pv = probe_views(probes@);
    let mut out = String::new();
    let mut count: usize = 0;
    let mut i: usize = 0;
    proof {
        assert(cev.take(0) =~= Seq::<EvidenceView>::empty());
        assert(out@ =~= evidence_lines(cev.take(0), pv));
    }
    while i < evidence.len()
        invariant
            cev == evidence_views(evidence@),
            pv == probe_views(probes@),
            i <= evidence@.len(),
            out@ == evidence_lines(cev.take(i as int), pv),
            count as nat == unresolved_entries(cev.take(i as int), pv),
            count <= i,
        decreases evidence@.len() - i,
    {
        proof {
            assert(cev.take(i + 1).drop_last() =~= cev.take(i as int));
            assert(cev.take(i + 1).last() == evidence@[i as int]@);
        }
        let (line, bad) = evidence_report_of(&evidence[i], probes);
        let o = concat(out.as_str(), line.as_str());
        out = concat(o.as_str(), "\n");
        if bad {
            count = count + 1;
        }
        proof {
            assert(out@ =~= evidence_lines(cev.take(i + 1), pv));
        }
        i = i + 1;
    }
    proof {
        assert(cev.take(i as int) =~= cev);
    }
    (out, count)
}

/// The positions of the claim's judgments, and how many verifications its
/// declarer wrote.
fn scan_judgments(events: &[Envelope], claim_id: &str, declarer: &str) -> (r: (Vec<usize>, usize))
    ensures
        r.0@.len() == judgments(envelope_views(events@), claim_id@, declarer@).len(),
        forall|m: int| 0 <= m < r.0@.len() ==> (#[trigger] r.0@[m]) < events@.len()
            && events@[r.0@[m] as int]@ == judgments(envelope_views(events@), claim_id@, declarer@)[m],
        r.1 as nat == self_verifies(envelope_views(events@), claim_id@, declarer@),
{
    let ghost evs = envelope_views(events@);
    let mut js: Vec<usize> = Vec::new();
    let mut selfs: usize = 0;
    let mut k: usize = 0;
    proof {
        assert(evs.take(0) =~= Seq::<EnvelopeView>::empty());
    }
    while k < events.len()
        invariant
            evs == envelope_views(events@),
            k <= events@.len(),
            js@.len() == judgments(evs.take(k as int), claim_id@, declarer@).len(),
            forall|m: int| 0 <= m < js@.len() ==> (#[trigger] js@[m]) < events@.len()
                && events@[js@[m] as int]@ == judgments(evs.take(k as int), claim_id@, declarer@)[m],
            selfs as nat == self_verifies(evs.take(k as int), claim_id@, declarer@),
            selfs <= k,
        decreases events@.len() - k,
    {
        proof {
            assert(evs.take(k + 1).drop_last() =~= evs.take(k as int));
            assert(evs.take(k + 1).last() == events@[k as int]@);
            reveal_strlit("claim.reopen");
            reveal_strlit("claim.verify");
            assert("claim.reopen"@[6] != "claim.verify"@[6]);
        }
        let e = &events[k];
        let about = match e.body.get_str("claim") {
            Some(x) => str_eq(x.as_str(), claim_id),
            None => false,
        };
        if about {
            if str_eq(e.event_type.as_str(), "claim.reopen") {
                js.push(k);
            } else if str_eq(e.event_type.as_str(), "claim.verify") {
                if str_eq(e.actor.as_str(), declarer) {
                    selfs = selfs + 1;
                } else {
                    js.push(k);
                }
            }
        }
        k = k + 1;
    }
    proof {
        assert(evs.take(k as int) =~= evs);
    }
    (js, selfs)
}

fn head_of(claim: &Envelope) -> (r: String)
    ensures
        r@ == report_head(claim@),
{
    let ghost c = claim@;
    let title = match claim.body.get_str("title") {
        Some(t) => t,
        None => owned("(無題)"),
    };
    let out = concat("主張: ", title.as_str());
    let out = concat(out.as_str(), "\n");
    let out = concat(out.as_str(), "宣言: actor=");
    let out = concat(out.as_str(), claim.actor.as_str());
    let out = concat(out.as_str(), " ts=");
    let out = concat(out.as_str(), claim.ts.as_str());
    let out = concat(out.as_str(), " id=");
    let out = concat(out.as_str(), claim.id.as_str());
    let out = concat(out.as_str(), "\n");
    let out = concat(out.as_str(), "証拠 ");
    let out = concat(out.as_str(), u64_decimal(claim.evidence.len() as u64).as_str());
    let mut out = concat(out.as_str(), " 件:\n");
    if claim.evidence.len() == 0 {
        out = concat(out.as_str(), "  ✗ 証拠が 0 件(契約 不変量2: 主張は一次証拠へ結ぶ)\n");
    }
    proof {
        assert(out@ =~= report_head(c));
    }
    out
}

fn judgment_part(events: &[Envelope], claim_id: &str, declarer: &str) -> (r: (String, usize))
    ensures
        r.0@ == judgment_text(judgments(envelope_views(events@), claim_id@, declarer@)),
        r.1 as nat == self_verifies(envelope_views(events@), claim_id@, declarer@),
{
    let (js, selfs) = scan_judgments(events, claim_id, declarer);
    let ghost jv = judgments(envelope_views(events@), claim_id@, declarer@);
    if js.len() == 0 {
        return (owned("判定: 未検証(宣言のみ。独立した actor の `banto gate verify` を待つ)\n"), selfs);
    }
    let mut out = String::new();
    let mut m: usize = 0;
    proof {
        assert(jv.take(0) =~= Seq::<EnvelopeView>::empty());
        assert(out@ =~= judgment_lines(jv.take(0)));
    }
    while m < js.len()
        invariant
            jv == judgments(envelope_views(events@), claim_id@, declarer@),
            js@.len() == jv.len(),
            forall|q: int| 0 <= q < js@.len() ==> (#[trigger] js@[q]) < events@.len() && events@[js@[q] as int]@ == jv[q],
            m <= js@.len(),
            out@ == judgment_lines(jv.take(m as int)),
        decreases js@.len() - m,
    {
        proof {
            assert(jv.take(m + 1).drop_last() =~= jv.take(m as int));
            assert(jv.take(m + 1).last() == jv[m as int]);
        }
        let line = judgment_line(&events[js[m]]);
        out = concat(out.as_str(), line.as_str());
        proof {
            assert(out@ =~= judgment_lines(jv.take(m + 1)));
        }
        m = m + 1;
    }
    proof {
        assert(jv.take(m as int) =~= jv);
    }
    let last = js[js.len() - 1];
    let verdict = verdict_of(&events[last]);
    let o = concat(out.as_str(), "最新判定: ");
    let o = concat(o.as_str(), verdict.as_str());
    (concat(o.as_str(), "\n"), selfs)
}

/// `gate check CLAIM_ID`: the claim's evidence checked against what was
/// found on disk (`probes`), its judgments, and whether every piece of
/// evidence resolves. A `claim.verify` written by the declarer is reported
/// and left out of the judgments.
pub fn cmd_gate_check(events: &[Envelope], claim_id: &str, probes: &Vec<EvidenceProbe>) -> (r: Result<GateCheck, String>)
    ensures
        match claim_lookup(envelope_views(events@), claim_id@) {
            Err(m) => r matches Err(e) && e@ == m,
            Ok(c) => r matches Ok(g) && g.text@ == gate_report(c, envelope_views(events@), claim_id@, probe_views(probes@))
                && g.code == (if unresolved(c, probe_views(probes@)) > 0 { 1i32 } else { 0i32 }),
        },
{
    let claim = find_claim(events, claim_id)?;
    let head = head_of(&claim);
    let (lines, bad) = evidence_section(&claim.evidence, probes);
    let count: usize = if claim.evidence.len() == 0 { 1 } else { bad };
    let (judged, selfs) = judgment_part(events, claim_id, claim.actor.as_str());
    let note = if selfs > 0 {
        let m = concat("⚠ 宣言と同じ actor による claim.verify が ", u64_decimal(selfs as u64).as_str());
        concat(m.as_str(), " 件 — 契約 不変量3 により判定から除外\n")
    } else {
        String::new()
    };
    let (tail, code) = if count > 0 {
        let m = concat("✗ 解決しない証拠が ", u64_decimal(count as u64).as_str());
        (concat(m.as_str(), " 件\n"), 1i32)
    } else {
        (owned("✓ 証拠はすべて解決\n"), 0i32)
    };
    let out = concat(head.as_str(), lines.as_str());
    let out = concat(out.as_str(), note.as_str());
    let out = concat(out.as_str(), judged.as_str());
    let out = concat(out.as_str(), tail.as_str());
    proof {
        let c = claim@;
        let pv = probe_views(probes@);
        assert(count as nat == unresolved(c, pv));
        assert(note@ == self_note(selfs as nat));
        assert(tail@ == tail_line(count as nat));
    }
    Ok(GateCheck { text: out, code })
}

} // verus!

verus! {

/// A claim's own declarer never judges it: every judgment speaks of the
/// claim and is a reopening or a verification by another actor, so the
/// latest verdict is a pass only when another actor's verification says
/// `pass`.
pub proof fn law_declarer_cannot_judge(evs: Seq<EnvelopeView>, claim_id: Seq<char>, declarer: Seq<char>)
    ensures
        forall|i: int| 0 <= i < judgments(evs, claim_id, declarer).len() ==> {
            let j = #[trigger] judgments(evs, claim_id, declarer)[i];
            about_claim(j, claim_id) && (j.event_type == "claim.reopen"@
                || (j.event_type == "claim.verify"@ && j.actor != declarer))
        },
        judgments(evs, claim_id, declarer).len() > 0
            && latest_verdict(judgments(evs, claim_id, declarer).last()) == "成立(pass)"@ ==> {
            let j = judgments(evs, claim_id, declarer).last();
            j.event_type == "claim.verify"@ && j.actor != declarer && j.body.get_str("verdict"@) == Some("pass"@)
        },
    decreases evs.len(),
{
    reveal_strlit("成立(pass)");
    reveal_strlit("不成立(fail)");
    reveal_strlit("開き直し(reopen)");
    reveal_strlit("claim.reopen");
    reveal_strlit("claim.verify");
    assert("claim.reopen"@[6] != "claim.verify"@[6]);
    assert("成立(pass)"@.len() != "不成立(fail)"@.len());
    assert("成立(pass)"@[0] != "開き直し(reopen)"@[0]);
    if evs.len() > 0 {
        law_declarer_cannot_judge(evs.drop_last(), claim_id, declarer);
        let prior = judgments(evs.drop_last(), claim_id, declarer);
        let js = judgments(evs, claim_id, declarer);
        if is_judgment(evs.last(), claim_id, declarer) {
            assert(js == prior.push(evs.last()));
            assert forall|i: int| 0 <= i < js.len() implies {
                let j = #[trigger] js[i];
                about_claim(j, claim_id) && (j.event_type == "claim.reopen"@
                    || (j.event_type == "claim.verify"@ && j.actor != declarer))
            } by {
                if i < prior.len() {
                    assert(js[i] == prior[i]);
                }
            }
        }
    }
}


/// Events that judge nothing of the claim leave its judgments as they were.
proof fn lemma_judgments_unjudged_tail(a: Seq<EnvelopeView>, b: Seq<EnvelopeView>, claim_id: Seq<char>, declarer: Seq<char>)
    requires
        forall|k: int| 0 <= k < b.len() ==> !is_judgment(#[trigger] b[k], claim_id, declarer),
    ensures
        judgments(a + b, claim_id, declarer) == judgments(a, claim_id, declarer),
    decreases b.len(),
{
    if b.len() == 0 {
        assert(a + b =~= a);
    } else {
        let p = b.drop_last();
        assert forall|k: int| 0 <= k < p.len() implies !is_judgment(#[trigger] p[k], claim_id, declarer) by {
            assert(p[k] == b[k]);
        }
        lemma_judgments_unjudged_tail(a, p, claim_id, declarer);
        assert((a + b).drop_last() =~= a + p);
        assert((a + b).last() == b[b.len() - 1]);
    }
}

/// `gate check` reports as the latest verdict that of the claim's most
/// recent judgment in ledger order, whatever judgments came before it:
/// when the last event that reopens the claim, or verifies it as an actor
/// other than its declarer, is `j`, the report's judgment section ends with
/// `最新判定: 成立(pass)` if `j` verifies with verdict `pass`,
/// `最新判定: 不成立(fail)` if it verifies with any other verdict, and
/// `最新判定: 開き直し(reopen)` if it reopens the claim; the report's last
/// line, on the evidence, follows.
pub proof fn law_gate_reports_latest_judgment(
    c: EnvelopeView,
    before: Seq<EnvelopeView>,
    j: EnvelopeView,
    after: Seq<EnvelopeView>,
    claim_id: Seq<char>,
    probes: Seq<ProbeView>,
)
    requires
        j.body.get_str("claim"@) == Some(claim_id),
        j.event_type == "claim.reopen"@ || (j.event_type == "claim.verify"@ && j.actor != c.actor),
        forall|k: int| 0 <= k < after.len() ==> !({
            let x = #[trigger] after[k];
            x.body.get_str("claim"@) == Some(claim_id)
                && (x.event_type == "claim.reopen"@ || (x.event_type == "claim.verify"@ && x.actor != c.actor))
        }),
    ensures
        exists|pre: Seq<char>| gate_report(c, before.push(j) + after, claim_id, probes)
            == pre + "最新判定: "@ + (if j.event_type == "claim.verify"@ {
                if j.body.get_str("verdict"@) == Some("pass"@) { "成立(pass)"@ } else { "不成立(fail)"@ }
            } else {
                "開き直し(reopen)"@
            }) + "\n"@ + tail_line(unresolved(c, probes)),
{
    let evs = before.push(j) + after;
    assert forall|k: int| 0 <= k < after.len() implies !is_judgment(#[trigger] after[k], claim_id, c.actor) by {}
    lemma_judgments_unjudged_tail(before.push(j), after, claim_id, c.actor);
    assert(before.push(j).drop_last() =~= before);
    let js = judgments(evs, claim_id, c.actor);
    assert(js == judgments(before, claim_id, c.actor).push(j));
    assert(js.last() == j);
    let pre = report_head(c) + evidence_lines(c.evidence, probes) + self_note(self_verifies(evs, claim_id, c.actor))
        + judgment_lines(js);
    let v = if j.event_type == "claim.verify"@ {
        if j.body.get_str("verdict"@) == Some("pass"@) { "成立(pass)"@ } else { "不成立(fail)"@ }
    } else {
        "開き直し(reopen)"@
    };
    assert(latest_verdict(j) == v);
    assert(gate_report(c, evs, claim_id, probes) =~= pre + "最新判定: "@ + v + "\n"@ + tail_line(unresolved(c, probes)));
}

/// A claim that nothing judges yet — no event reopens it or verifies it as
/// an actor other than its declarer — is reported as unverified, right
/// before the report's last line, on the evidence.
pub proof fn law_gate_reports_unjudged_claim(c: EnvelopeView, evs: Seq<EnvelopeView>, claim_id: Seq<char>, probes: Seq<ProbeView>)
    requires
        forall|k: int| 0 <= k < evs.len() ==> !({
            let x = #[trigger] evs[k];
            x.body.get_str("claim"@) == Some(claim_id)
                && (x.event_type == "claim.reopen"@ || (x.event_type == "claim.verify"@ && x.actor != c.actor))
        }),
    ensures
        exists|pre: Seq<char>| gate_report(c, evs, claim_id, probes)
            == pre + "判定: 未検証(宣言のみ。独立した actor の `banto gate verify` を待つ)\n"@ + tail_line(unresolved(c, probes)),
{
    assert forall|k: int| 0 <= k < evs.len() implies !is_judgment(#[trigger] evs[k], claim_id, c.actor) by {}
    lemma_judgments_unjudged_tail(Seq::empty(), evs, claim_id, c.actor);
    assert(Seq::<EnvelopeView>::empty() + evs =~= evs);
    assert(judgments(Seq::empty(), claim_id, c.actor) =~= Seq::<EnvelopeView>::empty());
    let pre = report_head(c) + evidence_lines(c.evidence, probes) + self_note(self_verifies(evs, claim_id, c.actor));
    assert(gate_report(c, evs, claim_id, probes) =~= pre
        + "判定: 未検証(宣言のみ。独立した actor の `banto gate verify` を待つ)\n"@ + tail_line(unresolved(c, probes)));
}

/// An evidence entry resolves when it names a file and that file was found
/// with the entry's hash.
pub open spec fn entry_resolves(ev: EvidenceView, probes: Seq<ProbeView>) -> bool {
    ev.uri matches Some(u) && find_probe(probes, u) == Some(EvidenceFileView::Hashed(ev.sha256))
}

proof fn lemma_unresolved_entries_zero(evs: Seq<EvidenceView>, probes: Seq<ProbeView>)
    ensures
        unresolved_entries(evs, probes) == 0 <==> forall|i: int| 0 <= i < evs.len() ==> entry_resolves(#[trigger] evs[i], probes),
    decreases evs.len(),
{
    if evs.len() > 0 {
        let p = evs.drop_last();
        lemma_unresolved_entries_zero(p, probes);
        if forall|i: int| 0 <= i < evs.len() ==> entry_resolves(#[trigger] evs[i], probes) {
            assert forall|i: int| 0 <= i < p.len() implies entry_resolves(#[trigger] p[i], probes) by {
                assert(p[i] == evs[i]);
            }
            assert(entry_resolves(evs[evs.len() - 1], probes));
        }
        if unresolved_entries(evs, probes) == 0 {
            assert forall|i: int| 0 <= i < evs.len() implies entry_resolves(#[trigger] evs[i], probes) by {
                if i < p.len() {
                    assert(p[i] == evs[i]);
                }
            }
        }
    }
}

/// `gate check` exits 0 exactly when the claim carries evidence and every
/// entry names a file found with the entry's hash; any entry without a
/// uri, with a file missing or unreadable, or with a hash that differs
/// makes it exit 1.
pub proof fn law_gate_passes_only_on_resolved_evidence(c: EnvelopeView, probes: Seq<ProbeView>)
    ensures
        unresolved(c, probes) == 0 <==> (c.evidence.len() > 0
            && forall|i: int| 0 <= i < c.evidence.len() ==> entry_resolves(#[trigger] c.evidence[i], probes)),
{
    lemma_unresolved_entries_zero(c.evidence, probes);
}

// ---- listings ----

/// `loop list`: every loop with `all`, else the active ones, by slug.
pub fn listed_loops(events: &[Envelope], all: bool) -> (r: Vec<LoopState>)
    ensures
        loop_views(r@) == if all {
            loops_of(envelope_views(events@))
        } else {
            with_status(loops_of(envelope_views(events@)), LoopStatus::Active)
        },
{
    let loops = fold_loops(events);
    if all {
        return loops;
    }
    let ghost lv = loop_views(loops@);
    let mut out: Vec<LoopState> = Vec::new();
    let mut i: usize = 0;
    proof {
        assert(lv.take(0) =~= Seq::<LoopStateView>::empty());
        assert(loop_views(out@) =~= Seq::<LoopStateView>::empty());
    }
    while i < loops.len()
        invariant
            lv == loop_views(loops@),
            i <= loops@.len(),
            loop_views(out@) == with_status(lv.take(i as int), LoopStatus::Active),
        decreases loops@.len() - i,
    {
        proof {
            assert(lv.take(i + 1).drop_last() =~= lv.take(i as int));
            assert(lv.take(i + 1).last() == loops@[i as int]@);
        }
        if loops[i].status == LoopStatus::Active {
            let ghost before = loop_views(out@);
            let c = loops[i].copy();
            let ghost cv = c@;
            out.push(c);
            proof {
                assert(loop_views(out@) =~= before.push(cv));
            }
        }
        i = i + 1;
    }
    proof {
        assert(lv.take(i as int) =~= lv);
    }
    out
}

/// `t` begins with `p`.
pub open spec fn starts_with(t: Seq<char>, p: Seq<char>) -> bool {
    p.len() <= t.len() && t.take(p.len() as int) == p
}

fn has_prefix(t: &str, p: &str) -> (r: bool)
    ensures
        r == starts_with(t@, p@),
{
    let tc = chars_of(t);
    let pc = chars_of(p);
    if pc.len() > tc.len() {
        return false;
    }
    let mut i: usize = 0;
    while i < pc.len()
        invariant
            tc@ == t@,
            pc@ == p@,
            pc@.len() <= tc@.len(),
            i <= pc@.len(),
            forall|k: int| 0 <= k < i ==> tc@[k] == pc@[k],
        decreases pc@.len() - i,
    {
        if tc[i] != pc[i] {
            proof {
                assert(t@.take(p@.len() as int)[i as int] != p@[i as int]);
            }
            return false;
        }
        i = i + 1;
    }
    proof {
        assert(t@.take(p@.len() as int) =~= p@);
    }
    true
}

/// The events whose type starts with `prefix` (all of them without one),
/// in ledger order.
pub open spec fn typed(evs: Seq<EnvelopeView>, prefix: Option<Seq<char>>) -> Seq<EnvelopeView>
    decreases evs.len(),
{
    if evs.len() == 0 {
        Seq::empty()
    } else {
        let prior = typed(evs.drop_last(), prefix);
        let keep = match prefix {
            Some(p) => starts_with(evs.last().event_type, p),
            None => true,
        };
        if keep { prior.push(evs.last()) } else { prior }
    }
}

/// `log`: the last `limit` events of the selected type, oldest first.
pub fn log_selection(events: &[Envelope], prefix: &Option<String>, limit: usize) -> (r: Vec<Envelope>)
    ensures
        ({
            let sel = typed(envelope_views(events@), opt_view(*prefix));
            envelope_views(r@) == if sel.len() > limit { sel.skip(sel.len() - limit) } else { sel }
        }),
        all_bodies_wf(events@) ==> all_bodies_wf(r@),
{
    let ghost evs = envelope_views(events@);
    let ghost pv = opt_view(*prefix);
    let mut sel: Vec<Envelope> = Vec::new();
    let mut i: usize = 0;
    proof {
        assert(evs.take(0) =~= Seq::<EnvelopeView>::empty());
        assert(envelope_views(sel@) =~= Seq::<EnvelopeView>::empty());
    }
    while i < events.len()
        invariant
            evs == envelope_views(events@),
            pv == opt_view(*prefix),
            i <= events@.len(),
            envelope_views(sel@) == typed(evs.take(i as int), pv),
            all_bodies_wf(events@) ==> all_bodies_wf(sel@),
        decreases events@.len() - i,
    {
        proof {
            assert(evs.take(i + 1).drop_last() =~= evs.take(i as int));
            assert(evs.take(i + 1).last() == events@[i as int]@);
        }
        let keep = match prefix {
            Some(p) => has_prefix(events[i].event_type.as_str(), p.as_str()),
            None => true,
        };
        if keep {
            let ghost before = envelope_views(sel@);
            let c = events[i].copy();
            let ghost cv = c@;
            sel.push(c);
            proof {
                assert(envelope_views(sel@) =~= before.push(cv));
            }
        }
        i = i + 1;
    }
    proof {
        assert(evs.take(i as int) =~= evs);
    }
    let ghost all = envelope_views(sel@);
    let n = sel.len();
    if n <= limit {
        return sel;
    }
    let start = n - limit;
    let mut out: Vec<Envelope> = Vec::new();
    let mut k: usize = start;
    proof {
        assert(envelope_views(out@) =~= all.subrange(start as int, start as int));
    }
    while k < n
        invariant
            all == envelope_views(sel@),
            n == sel@.len(),
            start <= k <= n,
            envelope_views(out@) == all.subrange(start as int, k as int),
            all_bodies_wf(sel@) ==> all_bodies_wf(out@),
        decreases n - k,
    {
        let ghost before = envelope_views(out@);
        let c = sel[k].copy();
        let ghost cv = c@;
        out.push(c);
        proof {
            assert(cv == all[k as int]);
            assert(envelope_views(out@) =~= before.push(cv));
            assert(envelope_views(out@) =~= all.subrange(start as int, k + 1));
        }
        k = k + 1;
    }
    proof {
        assert(all.subrange(start as int, n as int) =~= all.skip(n - limit));
    }
    out
}

/// `s` without the `/` at its end, however many.
pub open spec fn trim_slashes(s: Seq<char>) -> Seq<char>
    decreases s.len(),
{
    if s.len() > 0 && s.last() == '/' { trim_slashes(s.drop_last()) } else { s }
}

/// The uri of an artifact kept in the evidence store: the store's path
/// relative to the root, then the artifact's hash.
pub fn stored_uri(objects_rel: &str, sha256: &str) -> (r: String)
    ensures
        r@ == trim_slashes(objects_rel@) + "/"@ + sha256@,
{
    let mut cs = chars_of(objects_rel);
    proof {
        assert(trim_slashes(objects_rel@) == trim_slashes(cs@));
    }
    while cs.len() > 0 && cs[cs.len() - 1] == '/'
        invariant
            trim_slashes(objects_rel@) == trim_slashes(cs@),
        decreases cs@.len(),
    {
        let ghost before = cs@;
        cs.pop();
        proof {
            assert(cs@ =~= before.drop_last());
        }
    }
    let base = string_of(cs.as_slice());
    let r = concat(base.as_str(), "/");
    concat(r.as_str(), sha256)
}


/// A claim without evidence never resolves: `gate check` on it exits 1.
pub proof fn law_claim_without_evidence_fails_check(c: EnvelopeView, probes: Seq<ProbeView>)
    requires
        c.evidence.len() == 0,
    ensures
        unresolved(c, probes) > 0,
{
}


// ---- declaring a claim ----

/// What `gate declare` refuses before reading any file: a claim without
/// evidence files, and a confidence that is not a finite number (`Err`
/// carries the caller's message for that).
pub fn gate_declare_check(files: usize, confidence: Option<Result<Json, String>>) -> (r: Result<Option<Json>, String>)
    ensures
        files == 0 ==> (r matches Err(e) && e@
            == "claim.declare には証拠(--evidence FILE)が最低1件必要(契約 不変量2)。要約・伝聞・自己評価は証拠にならない"@),
        files > 0 ==> match confidence {
            None => r matches Ok(c) && c is None,
            Some(Err(m)) => r matches Err(e) && e@ == m@,
            Some(Ok(j)) => r matches Ok(c) && c matches Some(x) && x@ == j@,
        },
{
    if files == 0 {
        return Err(owned("claim.declare には証拠(--evidence FILE)が最低1件必要(契約 不変量2)。要約・伝聞・自己評価は証拠にならない"));
    }
    match confidence {
        None => Ok(None),
        Some(Err(m)) => Err(m),
        Some(Ok(j)) => Ok(Some(j)),
    }
}

/// `gate declare TITLE`: a claim of completion, bound to its evidence; the
/// confidence is recorded and plays no part in any verdict.
pub fn cmd_gate_declare(
    ws: &Workspace,
    title: String,
    loop_slug: Option<String>,
    confidence: Option<Json>,
    evidence: Vec<Evidence>,
) -> (d: Draft)
    requires
        confidence matches Some(c) ==> c@.wf(),
    ensures
        draft_is(d@, ws@.actor, "claim.declare"@,
            str_field("title"@, title@) + opt_field("loop"@, opt_view(loop_slug)) + match confidence {
                Some(c) => seq![("confidence"@, c@)],
                None => Seq::empty(),
            },
            evidence_views(evidence@), None),
{
    let mut v: Vec<(String, Json)> = Vec::new();
    let ghost e0 = entries_view(v@);
    assert(all_wf(v@));
    put(&mut v, "title", title.as_str());
    put_opt(&mut v, "loop", &loop_slug);
    let ghost e2 = entries_view(v@);
    let ghost cv = match &confidence { Some(c) => Some(c@), None => None };
    if let Some(c) = confidence {
        let ghost before = v@;
        v.push((owned("confidence"), c));
        proof {
            assert(entries_view(v@) =~= e2.push(("confidence"@, cv->Some_0)));
            assert forall|i: int| 0 <= i < v@.len() implies (#[trigger] v@[i]).1@.wf() by {
                if i < before.len() {
                    assert(v@[i] == before[i]);
                }
            }
        }
    }
    proof {
        assert(e0 =~= Seq::<(Seq<char>, JsonValue)>::empty());
        assert(entries_view(v@) =~= str_field("title"@, title@) + opt_field("loop"@, opt_view(loop_slug)) + match cv {
            Some(c) => seq![("confidence"@, c)],
            None => Seq::<(Seq<char>, JsonValue)>::empty(),
        });
    }
    let body = body_of(v);
    draft(ws.actor.as_str(), "claim.declare", body, evidence, None)
}

} // verus!
