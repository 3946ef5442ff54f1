//! The ledger file: JSONL, append-only, one canonical envelope per line.
//!
//! The file itself is read and written by the caller; this module decides
//! what its text means and what text an append adds to it.
use vstd::prelude::*;
use crate::text::{chars_of, string_of, owned, str_eq, concat, opt_view, decimal, u64_decimal};
use crate::json::{Json, JsonValue, canon, canon_items, canon_entries, canon_entry, escaped, escape_char, json_quote, hex_digit};
use crate::event::{all_bodies_wf, Envelope, EnvelopeView, Evidence, EvidenceView, evidence_views, parse_line,
    envelope_check, envelope_line, envelope_id, schema_text, SCHEMA, evidence_equal, json_equal, json_same,
    opt_str_equal, envelope_json, evidence_json, envelope_from_json, opt_entry, opt_str_json};
use crate::time::{now_rfc3339, rfc3339_error};
use crate::fold::envelope_views;
use crate::{KernelError, KernelErrorView};

verus! {

/// The pieces of `s` between occurrences of `sep`: one more than there are
/// separators, empty pieces included.
pub open spec fn pieces(s: Seq<char>, sep: char) -> Seq<Seq<char>>
    decreases s.len(),
{
    if s.len() == 0 {
        seq![Seq::<char>::empty()]
    } else {
        let prior = pieces(s.drop_last(), sep);
        if s.last() == sep {
            prior.push(Seq::<char>::empty())
        } else {
            prior.update(prior.len() - 1, prior.last().push(s.last()))
        }
    }
}

pub proof fn lemma_pieces_nonempty(s: Seq<char>, sep: char)
    ensures
        pieces(s, sep).len() >= 1,
    decreases s.len(),
{
    if s.len() > 0 {
        lemma_pieces_nonempty(s.drop_last(), sep);
    }
}

/// A line without the carriage return that ends it, if any.
pub open spec fn strip_cr(l: Seq<char>) -> Seq<char> {
    if l.len() > 0 && l.last() == '\r' {
        l.drop_last()
    } else {
        l
    }
}

/// The lines of the file as `str::lines` gives them: split at `\n`, a `\r`
/// before a `\n` dropped, no empty line after a final `\n`.
pub open spec fn file_lines(raw: Seq<char>) -> Seq<Seq<char>> {
    let ps = pieces(raw, '\n');
    let ended = ps.drop_last().map_values(|l: Seq<char>| strip_cr(l));
    if ps.last().len() == 0 {
        ended
    } else {
        ended.push(ps.last())
    }
}

/// Reading every non-empty line, numbered from 1; the first failure wins.
pub open spec fn parse_lines(lines: Seq<Seq<char>>) -> Result<Seq<EnvelopeView>, KernelErrorView>
    decreases lines.len(),
{
    if lines.len() == 0 {
        Ok(Seq::empty())
    } else {
        match parse_lines(lines.drop_last()) {
            Err(e) => Err(e),
            Ok(prior) => if lines.last().len() == 0 {
                Ok(prior)
            } else {
                match parse_line(lines.last(), lines.len() as usize) {
                    Err(e) => Err(e),
                    Ok(env) => Ok(prior.push(env)),
                }
            },
        }
    }
}

/// The events of a ledger whose file holds `raw`.
pub open spec fn events_of(raw: Seq<char>) -> Result<Seq<EnvelopeView>, KernelErrorView> {
    parse_lines(file_lines(raw))
}

pub open spec fn string_views(v: Seq<String>) -> Seq<Seq<char>> {
    Seq::new(v.len(), |i: int| v[i]@)
}

/// `pieces(s, sep)`, computed.
pub(crate) fn split_pieces(s: &str, sep: char) -> (r: Vec<String>)
    ensures
        string_views(r@) == pieces(s@, sep),
{
    let cs = chars_of(s);
    let mut done: Vec<String> = Vec::new();
    let mut cur: Vec<char> = Vec::new();
    let mut i: usize = 0;
    while i < cs.len()
        invariant
            cs@ == s@,
            i <= cs@.len(),
            string_views(done@).push(cur@) == pieces(cs@.take(i as int), sep),
        decreases cs@.len() - i,
    {
        let ghost before = pieces(cs@.take(i as int), sep);
        proof {
            assert(cs@.take(i + 1).drop_last() =~= cs@.take(i as int));
            assert(cs@.take(i + 1).last() == cs@[i as int]);
        }
        let c = cs[i];
        if c == sep {
            let piece = string_of(cur.as_slice());
            done.push(piece);
            cur = Vec::new();
            proof {
                assert(string_views(done@).push(cur@) =~= before.push(Seq::<char>::empty()));
            }
        } else {
            cur.push(c);
            proof {
                assert(string_views(done@).push(cur@) =~= before.update(before.len() - 1, before.last().push(c)));
            }
        }
        i = i + 1;
    }
    let last = string_of(cur.as_slice());
    done.push(last);
    proof {
        assert(cs@.take(i as int) =~= s@);
        assert(string_views(done@) =~= pieces(s@, sep));
    }
    done
}

/// A line without a final carriage return.
fn without_cr(l: &str) -> (r: String)
    ensures
        r@ == strip_cr(l@),
{
    let mut cs = chars_of(l);
    let n = cs.len();
    if n > 0 && cs[n - 1] == '\r' {
        cs.pop();
        let r = string_of(cs.as_slice());
        proof {
            assert(cs@ =~= l@.drop_last());
        }
        r
    } else {
        owned(l)
    }
}

/// `file_lines(raw)`, computed.
fn lines_of(raw: &str) -> (r: Vec<String>)
    ensures
        string_views(r@) == file_lines(raw@),
{
    let ps = split_pieces(raw, '\n');
    proof {
        lemma_pieces_nonempty(raw@, '\n');
    }
    let n = ps.len();
    let ghost pv = pieces(raw@, '\n');
    let mut out: Vec<String> = Vec::new();
    let mut i: usize = 0;
    while i + 1 < n
        invariant
            string_views(ps@) == pv,
            n == ps@.len(),
            n >= 1,
            i + 1 <= n,
            string_views(out@) == pv.drop_last().map_values(|l: Seq<char>| strip_cr(l)).take(i as int),
        decreases n - i,
    {
        let l = without_cr(ps[i].as_str());
        let ghost before = string_views(out@);
        out.push(l);
        proof {
            assert(string_views(out@) =~= before.push(l@));
            assert(pv[i as int] == ps@[i as int]@);
            assert(pv.drop_last().map_values(|l: Seq<char>| strip_cr(l))[i as int] == strip_cr(pv[i as int]));
            assert(string_views(out@) =~= pv.drop_last().map_values(|l: Seq<char>| strip_cr(l)).take(i + 1));
        }
        i = i + 1;
    }
    proof {
        assert(pv.drop_last().map_values(|l: Seq<char>| strip_cr(l)).take(i as int)
            =~= pv.drop_last().map_values(|l: Seq<char>| strip_cr(l)));
        assert(pv.last() == ps@[n - 1]@);
    }
    if !ps[n - 1].as_str().is_empty() {
        let last = owned(ps[n - 1].as_str());
        out.push(last);
        proof {
            assert(string_views(out@) =~= file_lines(raw@));
        }
    } else {
        proof {
            assert(string_views(out@) =~= file_lines(raw@));
        }
    }
    out
}

proof fn lemma_parse_lines_err(lines: Seq<Seq<char>>, i: int)
    requires
        0 <= i <= lines.len(),
        parse_lines(lines.take(i)) is Err,
    ensures
        parse_lines(lines) == parse_lines(lines.take(i)),
    decreases lines.len() - i,
{
    if i < lines.len() {
        assert(lines.take(i + 1).drop_last() =~= lines.take(i));
        lemma_parse_lines_err(lines, i + 1);
    } else {
        assert(lines.take(i) =~= lines);
    }
}

/// `events_of(raw)`, computed.
fn parse_events(raw: &str) -> (r: Result<Vec<Envelope>, KernelError>)
    ensures
        match r {
            Ok(evs) => events_of(raw@) == Ok::<Seq<EnvelopeView>, KernelErrorView>(envelope_views(evs@)),
            Err(e) => events_of(raw@) == Err::<Seq<EnvelopeView>, KernelErrorView>(e@),
        },
        r matches Ok(evs) ==> all_bodies_wf(evs@),
{
    let lines = lines_of(raw);
    let ghost lv = file_lines(raw@);
    let mut events: Vec<Envelope> = Vec::new();
    let mut i: usize = 0;
    proof {
        assert(lv.take(0) =~= Seq::<Seq<char>>::empty());
        assert(envelope_views(events@) =~= Seq::<EnvelopeView>::empty());
    }
    while i < lines.len()
        invariant
            string_views(lines@) == lv,
            lv == file_lines(raw@),
            i <= lines@.len(),
            parse_lines(lv.take(i as int)) == Ok::<Seq<EnvelopeView>, KernelErrorView>(envelope_views(events@)),
            all_bodies_wf(events@),
        decreases lines@.len() - i,
    {
        proof {
            assert(lv.take(i + 1).drop_last() =~= lv.take(i as int));
            assert(lv.take(i + 1).last() == lines@[i as int]@);
        }
        let line = lines[i].as_str();
        if !line.is_empty() {
            match Envelope::from_line(line, i + 1) {
                Ok(env) => {
                    let ghost before = envelope_views(events@);
                    let ghost ev = env@;
                    events.push(env);
                    proof {
                        assert(envelope_views(events@) =~= before.push(ev));
                    }
                },
                Err(e) => {
                    proof {
                        assert(parse_lines(lv.take(i + 1)) == Err::<Seq<EnvelopeView>, KernelErrorView>(e@));
                        lemma_parse_lines_err(lv, i + 1);
                    }
                    return Err(e);
                },
            }
        }
        i = i + 1;
    }
    proof {
        assert(lv.take(i as int) =~= lv);
    }
    Ok(events)
}


/// A draft of one append; the ledger decides `seq`, `prev` and `id`.
#[derive(Debug)]
pub struct Draft {
    pub ts: Option<String>,
    pub actor: String,
    pub event_type: String,
    pub body: Json,
    pub evidence: Vec<Evidence>,
    pub op: Option<String>,
}

pub struct DraftView {
    pub ts: Option<Seq<char>>,
    pub actor: Seq<char>,
    pub event_type: Seq<char>,
    pub body: JsonValue,
    pub evidence: Seq<EvidenceView>,
    pub op: Option<Seq<char>>,
}

impl View for Draft {
    type V = DraftView;

    open spec fn view(&self) -> DraftView {
        DraftView {
            ts: opt_view(self.ts),
            actor: self.actor@,
            event_type: self.event_type@,
            body: self.body@,
            evidence: evidence_views(self.evidence@),
            op: opt_view(self.op),
        }
    }
}

/// A ledger file, named by its path.
#[derive(Debug)]
pub struct Ledger {
    path: String,
}

impl View for Ledger {
    type V = Seq<char>;

    closed spec fn view(&self) -> Seq<char> {
        self.path@
    }
}

/// What an append did: the envelope now in the ledger, and the text to add
/// at the end of the file (`None` when an equal envelope with the same `op`
/// was already there).
#[derive(Debug)]
pub struct Appended {
    pub envelope: Envelope,
    pub text: Option<String>,
}

pub struct AppendedView {
    pub envelope: EnvelopeView,
    pub text: Option<Seq<char>>,
}

impl View for Appended {
    type V = AppendedView;

    open spec fn view(&self) -> AppendedView {
        AppendedView { envelope: self.envelope@, text: opt_view(self.text) }
    }
}

pub open spec fn appended_view(r: Result<Appended, KernelError>) -> Result<AppendedView, KernelErrorView> {
    match r {
        Ok(a) => Ok(a@),
        Err(e) => Err(e@),
    }
}

/// The first event whose `op` is `op`.
pub open spec fn find_op(evs: Seq<EnvelopeView>, op: Seq<char>) -> Option<EnvelopeView>
    decreases evs.len(),
{
    if evs.len() == 0 {
        None
    } else {
        match find_op(evs.drop_last(), op) {
            Some(e) => Some(e),
            None => if evs.last().op == Some(op) { Some(evs.last()) } else { None },
        }
    }
}

/// The first event whose `id` is `id`.
pub open spec fn find_id(evs: Seq<EnvelopeView>, id: Seq<char>) -> Option<EnvelopeView>
    decreases evs.len(),
{
    if evs.len() == 0 {
        None
    } else {
        match find_id(evs.drop_last(), id) {
            Some(e) => Some(e),
            None => if evs.last().id == id { Some(evs.last()) } else { None },
        }
    }
}

/// The envelope an append of `d` at time `ts` adds after `existing`: it
/// continues the chain and carries its own id.
pub open spec fn next_envelope(existing: Seq<EnvelopeView>, d: DraftView, ts: Seq<char>) -> EnvelopeView {
    let unsealed = EnvelopeView {
        schema: schema_text(),
        seq: if existing.len() == 0 { 0 } else { (existing.last().seq + 1) as u64 },
        prev: if existing.len() == 0 { None } else { Some(existing.last().id) },
        ts,
        actor: d.actor,
        event_type: d.event_type,
        body: d.body,
        evidence: d.evidence,
        op: d.op,
        id: Seq::empty(),
    };
    EnvelopeView { id: envelope_id(unsealed), ..unsealed }
}

/// The text an append adds: the line and its newline, after a newline
/// of its own when the file does not end with one.
pub open spec fn appended_text(raw: Seq<char>, line: Seq<char>) -> Seq<char> {
    if raw.len() > 0 && raw.last() != '\n' {
        seq!['\n'] + line + seq!['\n']
    } else {
        line + seq!['\n']
    }
}

/// An event with `d`'s `op` that is already in the ledger.
pub open spec fn prior_with_op(existing: Seq<EnvelopeView>, d: DraftView) -> Option<EnvelopeView> {
    match d.op {
        Some(op) => find_op(existing, op),
        None => None,
    }
}

/// The content compared for idempotency: actor, type, body (as JSON values
/// compare, so the two zeros are one) and evidence.
pub open spec fn same_draft_content(e: EnvelopeView, d: DraftView) -> bool {
    e.actor == d.actor && e.event_type == d.event_type && json_same(e.body, d.body) && e.evidence == d.evidence
}

/// The outcome of appending `d` at time `ts` to a ledger whose file holds
/// `raw`.
pub open spec fn append_outcome(raw: Seq<char>, d: DraftView, ts: Seq<char>) -> Result<AppendedView, KernelErrorView> {
    match events_of(raw) {
        Err(e) => Err(e),
        Ok(existing) => match prior_with_op(existing, d) {
            Some(prior) => if same_draft_content(prior, d) {
                Ok(AppendedView { envelope: prior, text: None })
            } else {
                Err(KernelErrorView::OpConflict(d.op->Some_0))
            },
            None => if existing.len() > 0 && envelope_check(existing.last()) is Err {
                Err(envelope_check(existing.last())->Err_0)
            } else {
                let env = next_envelope(existing, d, ts);
                if envelope_check(env) is Err {
                    Err(envelope_check(env)->Err_0)
                } else {
                    match parse_line(envelope_line(env), (existing.len() + 1) as usize) {
                        Err(e) => Err(KernelErrorView::Validation(
                            "refusing to append a line that cannot be read back: "@ + e.message(),
                        )),
                        Ok(_) => Ok(AppendedView { envelope: env, text: Some(appended_text(raw, envelope_line(env))) }),
                    }
                }
            },
        },
    }
}

/// An append of `d` would have to number an event past `u64::MAX`.
pub open spec fn seq_exhausted(raw: Seq<char>, d: DraftView) -> bool {
    match events_of(raw) {
        Err(_) => false,
        Ok(existing) => prior_with_op(existing, d) is None && existing.len() > 0
            && envelope_check(existing.last()) is Ok && existing.last().seq == u64::MAX,
    }
}

/// The ledger holds fewer events than `usize` can count past.
pub open spec fn countable(raw: Seq<char>) -> bool {
    match events_of(raw) {
        Err(_) => true,
        Ok(existing) => existing.len() < usize::MAX,
    }
}

proof fn lemma_find_op_prefix(evs: Seq<EnvelopeView>, op: Seq<char>, i: int)
    requires
        0 <= i <= evs.len(),
        find_op(evs.take(i), op) is Some,
    ensures
        find_op(evs, op) == find_op(evs.take(i), op),
    decreases evs.len() - i,
{
    if i < evs.len() {
        assert(evs.take(i + 1).drop_last() =~= evs.take(i));
        lemma_find_op_prefix(evs, op, i + 1);
    } else {
        assert(evs.take(i) =~= evs);
    }
}

pub(crate) proof fn lemma_find_id_prefix(evs: Seq<EnvelopeView>, id: Seq<char>, i: int)
    requires
        0 <= i <= evs.len(),
        find_id(evs.take(i), id) is Some,
    ensures
        find_id(evs, id) == find_id(evs.take(i), id),
    decreases evs.len() - i,
{
    if i < evs.len() {
        assert(evs.take(i + 1).drop_last() =~= evs.take(i));
        lemma_find_id_prefix(evs, id, i + 1);
    } else {
        assert(evs.take(i) =~= evs);
    }
}

/// The index of the first event whose `op` is `op`.
fn find_op_index(events: &Vec<Envelope>, op: &str) -> (r: Option<usize>)
    ensures
        match r {
            Some(i) => i < events@.len() && find_op(envelope_views(events@), op@) == Some(events@[i as int]@),
            None => find_op(envelope_views(events@), op@) is None,
        },
{
    let ghost evs = envelope_views(events@);
    let mut i: usize = 0;
    proof {
        assert(evs.take(0) =~= Seq::<EnvelopeView>::empty());
    }
    while i < events.len()
        invariant
            evs == envelope_views(events@),
            i <= events@.len(),
            find_op(evs.take(i as int), op@) is None,
        decreases events@.len() - i,
    {
        proof {
            assert(evs.take(i + 1).drop_last() =~= evs.take(i as int));
            assert(evs.take(i + 1).last() == events@[i as int]@);
        }
        let hit = match &events[i].op {
            Some(o) => str_eq(o.as_str(), op),
            None => false,
        };
        if hit {
            proof {
                lemma_find_op_prefix(evs, op@, i + 1);
            }
            return Some(i);
        }
        i = i + 1;
    }
    proof {
        assert(evs.take(i as int) =~= evs);
    }
    None
}

/// The text to add: the line and its newline, after a newline of its own
/// when `raw` does not end with one.
fn text_after(raw: &str, line: &str) -> (r: String)
    ensures
        r@ == appended_text(raw@, line@),
{
    let cs = chars_of(raw);
    let n = cs.len();
    if n > 0 && cs[n - 1] != '\n' {
        let t = concat("\n", line);
        let t = concat(t.as_str(), "\n");
        proof {
            reveal_strlit("\n");
        }
        t
    } else {
        let t = concat(line, "\n");
        proof {
            reveal_strlit("\n");
        }
        t
    }
}

impl Ledger {
    /// Opens the ledger at `path`; `is_file` tells whether a file is there.
    pub fn open(path: &str, is_file: bool) -> (r: Result<Ledger, KernelError>)
        ensures
            is_file ==> (r matches Ok(l) && l@ == path@),
            !is_file ==> (r matches Err(e) && e@ == KernelErrorView::NotFound("ledger not found: "@ + path@)),
    {
        if !is_file {
            return Err(KernelError::NotFound(concat("ledger not found: ", path)));
        }
        Ok(Ledger { path: owned(path) })
    }

    /// The path of the ledger file.
    pub fn path(&self) -> (r: &str)
        ensures
            r@ == self@,
    {
        self.path.as_str()
    }

    /// Every event of the ledger, whose file holds `raw`, structure checked
    /// line by line (the chain is checked by `verify`).
    pub fn events(&self, raw: &str) -> (r: Result<Vec<Envelope>, KernelError>)
        ensures
            match r {
                Ok(evs) => events_of(raw@) == Ok::<Seq<EnvelopeView>, KernelErrorView>(envelope_views(evs@)),
                Err(e) => events_of(raw@) == Err::<Seq<EnvelopeView>, KernelErrorView>(e@),
            },
            r matches Ok(evs) ==> all_bodies_wf(evs@),
    {
        parse_events(raw)
    }

    /// The first event whose id is `id`.
    pub fn find(&self, raw: &str, id: &str) -> (r: Result<Envelope, KernelError>)
        ensures
            match events_of(raw@) {
                Err(e) => r matches Err(x) && x@ == e,
                Ok(evs) => match find_id(evs, id@) {
                    Some(env) => r matches Ok(x) && x@ == env,
                    None => r matches Err(x) && x@ == KernelErrorView::NotFound("event "@ + id@),
                },
            },
            r matches Ok(env) ==> env@.body.wf(),
    {
        let events = parse_events(raw)?;
        let ghost evs = envelope_views(events@);
        let mut i: usize = 0;
        proof {
            assert(evs.take(0) =~= Seq::<EnvelopeView>::empty());
        }
        while i < events.len()
            invariant
                evs == envelope_views(events@),
                all_bodies_wf(events@),
                events_of(raw@) == Ok::<Seq<EnvelopeView>, KernelErrorView>(evs),
                i <= events@.len(),
                find_id(evs.take(i as int), id@) is None,
            decreases events@.len() - i,
        {
            proof {
                assert(evs.take(i + 1).drop_last() =~= evs.take(i as int));
                assert(evs.take(i + 1).last() == events@[i as int]@);
            }
            if str_eq(events[i].id.as_str(), id) {
                proof {
                    lemma_find_id_prefix(evs, id@, i + 1);
                }
                return Ok(events[i].copy());
            }
            i = i + 1;
        }
        proof {
            assert(evs.take(i as int) =~= evs);
        }
        Err(KernelError::NotFound(concat("event ", id)))
    }

    /// Appends `draft` stamped `ts`, following schema banto/1: an `op`
    /// already in the ledger with the same content gives back that event,
    /// with other content it is a conflict; otherwise the new envelope
    /// continues the chain after the last event, which must itself be valid.
    fn append_at(&self, raw: &str, draft: Draft, ts: String) -> (r: Result<Appended, KernelError>)
        requires
            draft@.body.wf(),
            !seq_exhausted(raw@, draft@),
            countable(raw@),
        ensures
            appended_view(r) == append_outcome(raw@, draft@, ts@),
    {
        let existing = parse_events(raw)?;
        let ghost ex = envelope_views(existing@);
        let ghost d = draft@;
        if let Some(op) = &draft.op {
            if let Some(k) = find_op_index(&existing, op.as_str()) {
                let prior = &existing[k];
                let same = str_eq(prior.actor.as_str(), draft.actor.as_str())
                    && str_eq(prior.event_type.as_str(), draft.event_type.as_str())
                    && json_equal(&prior.body, &draft.body)
                    && evidence_equal(&prior.evidence, &draft.evidence);
                if same {
                    return Ok(Appended { envelope: prior.copy(), text: None });
                }
                return Err(KernelError::OpConflict(op.clone()));
            }
        }
        let n = existing.len();
        let (seq, prev) = if n == 0 {
            (0u64, None)
        } else {
            let last = &existing[n - 1];
            proof {
                assert(ex.last() == existing@[n - 1]@);
            }
            last.validate()?;
            (last.seq + 1, Some(last.id.clone()))
        };
        let mut env = Envelope {
            schema: owned(SCHEMA),
            seq,
            prev,
            ts,
            actor: draft.actor,
            event_type: draft.event_type,
            body: draft.body,
            evidence: draft.evidence,
            op: draft.op,
            id: String::new(),
        };
        let id = match env.compute_id() {
            Ok(id) => id,
            Err(e) => {
                return Err(e);
            },
        };
        env.id = id;
        proof {
            assert(env@ == next_envelope(ex, d, ts@));
        }
        env.validate()?;
        let line = match env.to_line() {
            Ok(line) => line,
            Err(e) => {
                return Err(e);
            },
        };
        match Envelope::from_line(line.as_str(), n + 1) {
            Err(e) => {
                let msg = e.message();
                return Err(KernelError::Validation(concat(
                    "refusing to append a line that cannot be read back: ",
                    msg.as_str(),
                )));
            },
            Ok(_) => {},
        }
        let text = text_after(raw, line.as_str());
        Ok(Appended { envelope: env, text: Some(text) })
    }

    /// Appends `draft` to the ledger whose file holds `raw`, stamped with
    /// the draft's `ts` or, without one, the current local time (text that
    /// `parse_from_rfc3339` reads back); the caller
    /// writes the returned text at the end of the file.
    pub fn append(&self, raw: &str, draft: Draft) -> (r: Result<Appended, KernelError>)
        requires
            draft@.body.wf(),
            !seq_exhausted(raw@, draft@),
            countable(raw@),
        ensures
            match draft@.ts {
                Some(ts) => appended_view(r) == append_outcome(raw@, draft@, ts),
                None => exists|ts: Seq<char>|
                    rfc3339_error(ts) is None && appended_view(r) == #[trigger] append_outcome(raw@, draft@, ts),
            },
    {
        let ts = match &draft.ts {
            Some(t) => t.clone(),
            None => now_rfc3339(),
        };
        self.append_at(raw, draft, ts)
    }

    /// `append`, where the ledger leaves room for one more event: `None`
    /// when the next `seq` would pass `u64::MAX` or the events could not
    /// be counted.
    pub fn try_append(&self, raw: &str, draft: Draft) -> (r: Option<Result<Appended, KernelError>>)
        requires
            draft@.body.wf(),
        ensures
            r is None <==> (seq_exhausted(raw@, draft@) || !countable(raw@)),
            r matches Some(res) ==> match draft@.ts {
                Some(ts) => appended_view(res) == append_outcome(raw@, draft@, ts),
                None => exists|ts: Seq<char>|
                    rfc3339_error(ts) is None && appended_view(res) == #[trigger] append_outcome(raw@, draft@, ts),
            },
    {
        if let Ok(existing) = parse_events(raw) {
            let ghost ex = envelope_views(existing@);
            let n = existing.len();
            if n == usize::MAX {
                return None;
            }
            let prior = match &draft.op {
                Some(op) => find_op_index(&existing, op.as_str()),
                None => None,
            };
            if prior.is_none() && n > 0 {
                proof {
                    assert(ex.last() == existing@[n - 1]@);
                }
                let last = &existing[n - 1];
                if last.seq == u64::MAX && last.validate().is_ok() {
                    return None;
                }
            }
        }
        Some(self.append(raw, draft))
    }
}


/// A problem found by `verify`, with the line it is on (from 1) and its
/// class.
#[derive(Debug, Clone)]
pub struct VerifyIssue {
    pub line: usize,
    pub class: String,
    pub message: String,
}

pub struct IssueView {
    pub line: usize,
    pub class: Seq<char>,
    pub message: Seq<char>,
}

impl View for VerifyIssue {
    type V = IssueView;

    open spec fn view(&self) -> IssueView {
        IssueView { line: self.line, class: self.class@, message: self.message@ }
    }
}

pub open spec fn issue(line: usize, class: Seq<char>, message: Seq<char>) -> IssueView {
    IssueView { line, class, message }
}

pub open spec fn issue_views(v: Seq<VerifyIssue>) -> Seq<IssueView> {
    Seq::new(v.len(), |i: int| v[i]@)
}

impl VerifyIssue {
    fn new(line: usize, class: &str, message: &str) -> (r: VerifyIssue)
        ensures
            r@ == issue(line, class@, message@),
    {
        VerifyIssue { line, class: owned(class), message: owned(message) }
    }
}

/// Everything `verify` found: how many events it read, and every issue.
#[derive(Debug)]
pub struct VerifyReport {
    pub events: usize,
    pub issues: Vec<VerifyIssue>,
}

impl VerifyReport {
    /// No issue was found.
    pub fn ok(&self) -> (r: bool)
        ensures
            r == (self.issues@.len() == 0),
    {
        self.issues.len() == 0
    }
}

/// What the caller found at an evidence uri, under the evidence root.
#[derive(Debug)]
pub enum EvidenceFile {
    /// No file is there.
    Missing,
    /// A file is there; it was not read.
    Present,
    /// A file is there, and this is the lowercase hex SHA-256 of its bytes.
    Hashed(String),
    /// A file is there, and reading it failed with this message.
    Unreadable(String),
}

pub enum EvidenceFileView {
    Missing,
    Present,
    Hashed(Seq<char>),
    Unreadable(Seq<char>),
}

impl View for EvidenceFile {
    type V = EvidenceFileView;

    open spec fn view(&self) -> EvidenceFileView {
        match self {
            EvidenceFile::Missing => EvidenceFileView::Missing,
            EvidenceFile::Present => EvidenceFileView::Present,
            EvidenceFile::Hashed(h) => EvidenceFileView::Hashed(h@),
            EvidenceFile::Unreadable(m) => EvidenceFileView::Unreadable(m@),
        }
    }
}

/// The file found for one evidence uri.
#[derive(Debug)]
pub struct EvidenceProbe {
    pub uri: String,
    pub file: EvidenceFile,
}

pub struct ProbeView {
    pub uri: Seq<char>,
    pub file: EvidenceFileView,
}

impl View for EvidenceProbe {
    type V = ProbeView;

    open spec fn view(&self) -> ProbeView {
        ProbeView { uri: self.uri@, file: self.file@ }
    }
}

pub open spec fn probe_views(v: Seq<EvidenceProbe>) -> Seq<ProbeView> {
    Seq::new(v.len(), |i: int| v[i]@)
}

/// A relative uri with a `..` component: it would reach outside the
/// evidence root. Absolute uris are taken as honest references outside it.
pub open spec fn uri_escapes(uri: Seq<char>) -> bool {
    !(uri.len() > 0 && uri[0] == '/') && pieces(uri, '/').contains(".."@)
}

/// What the first probe for `uri` found.
pub open spec fn find_probe(probes: Seq<ProbeView>, uri: Seq<char>) -> Option<EvidenceFileView>
    decreases probes.len(),
{
    if probes.len() == 0 {
        None
    } else {
        match find_probe(probes.drop_last(), uri) {
            Some(f) => Some(f),
            None => if probes.last().uri == uri { Some(probes.last().file) } else { None },
        }
    }
}

/// The issues of one evidence entry on line `line_no`.
pub open spec fn entry_issues(line_no: usize, e: EvidenceView, probes: Seq<ProbeView>, deep: bool) -> Seq<IssueView> {
    match e.uri {
        None => Seq::empty(),
        Some(uri) => if uri_escapes(uri) {
            seq![issue(line_no, "evidence-invalid"@, "evidence uri escapes evidence root: "@ + uri)]
        } else {
            match find_probe(probes, uri) {
                Some(EvidenceFileView::Present) => Seq::empty(),
                Some(EvidenceFileView::Hashed(h)) => if deep && h != e.sha256 {
                    seq![issue(line_no, "evidence-hash"@, "evidence hash mismatch: "@ + uri)]
                } else {
                    Seq::empty()
                },
                Some(EvidenceFileView::Unreadable(m)) => if deep {
                    seq![issue(line_no, "evidence-read"@, uri + ": "@ + m)]
                } else {
                    Seq::empty()
                },
                _ => seq![issue(line_no, "evidence-missing"@, "evidence file not found: "@ + uri)],
            }
        },
    }
}

/// The issues of every evidence entry on line `line_no`, in order.
pub open spec fn evidence_issues(line_no: usize, es: Seq<EvidenceView>, probes: Seq<ProbeView>, deep: bool) -> Seq<IssueView>
    decreases es.len(),
{
    if es.len() == 0 {
        Seq::empty()
    } else {
        evidence_issues(line_no, es.drop_last(), probes, deep) + entry_issues(line_no, es.last(), probes, deep)
    }
}

/// What `verify` knows after some lines: events read, the id the next
/// `prev` must name, the `seq` it expects, the `op`s seen (with their
/// `seq`), and the issues so far.
pub struct Tally {
    pub count: nat,
    pub prev: Option<Seq<char>>,
    pub expected: u64,
    pub ops: Seq<(Seq<char>, u64)>,
    pub issues: Seq<IssueView>,
}

/// The `seq` of the last event seen with `op`.
pub open spec fn last_op_seq(ops: Seq<(Seq<char>, u64)>, op: Seq<char>) -> Option<u64>
    decreases ops.len(),
{
    if ops.len() == 0 {
        None
    } else if ops.last().0 == op {
        Some(ops.last().1)
    } else {
        last_op_seq(ops.drop_last(), op)
    }
}

pub open spec fn when(c: bool, i: IssueView) -> Seq<IssueView> {
    if c { seq![i] } else { Seq::empty() }
}

/// The issues of an envelope read from line `line_no`, in the order they
/// are reported.
pub open spec fn envelope_issues(
    line_no: usize,
    line: Seq<char>,
    env: EnvelopeView,
    t: Tally,
    probes: Option<Seq<ProbeView>>,
    deep: bool,
) -> Seq<IssueView> {
    (match envelope_check(env) {
        Err(e) => seq![issue(line_no, "validation"@, e.message())],
        Ok(_) => Seq::empty(),
    })
    + when(envelope_line(env) != line, issue(line_no, "non-canonical"@, "line is not the canonical serialization of its content"@))
    + when(env.seq != t.expected, issue(line_no, "seq"@,
        "expected seq "@ + decimal(t.expected as nat) + ", got "@ + decimal(env.seq as nat)))
    + when(env.prev != t.prev, issue(line_no, "chain"@, "prev does not match previous id"@))
    + (match env.op {
        Some(op) => match last_op_seq(t.ops, op) {
            Some(first) => seq![issue(line_no, "op-duplicate"@, "op "@ + op + " already used at seq "@ + decimal(first as nat))],
            None => Seq::empty(),
        },
        None => Seq::empty(),
    })
    + (match probes {
        Some(ps) => evidence_issues(line_no, env.evidence, ps, deep),
        None => Seq::empty(),
    })
}

/// One more line, numbered `line_no`, read by `verify`.
pub open spec fn verify_step(t: Tally, line_no: usize, raw_line: Seq<char>, probes: Option<Seq<ProbeView>>, deep: bool) -> Tally {
    let line = strip_cr(raw_line);
    let head = when(line != raw_line, issue(line_no, "non-canonical"@,
        "line ends with CR: ledger must be LF-only (check git autocrlf)"@));
    if line.len() == 0 {
        Tally { issues: t.issues + head + seq![issue(line_no, "empty-line"@, "empty line in ledger"@)], ..t }
    } else {
        match parse_line(line, line_no) {
            Err(e) => Tally { issues: t.issues + head + seq![issue(line_no, "parse"@, e.message())], ..t },
            Ok(env) => Tally {
                count: t.count + 1,
                prev: Some(env.id),
                expected: if env.seq == u64::MAX { u64::MAX } else { (env.seq + 1) as u64 },
                ops: match env.op {
                    Some(op) => t.ops.push((op, env.seq)),
                    None => t.ops,
                },
                issues: t.issues + head + envelope_issues(line_no, line, env, t, probes, deep),
            },
        }
    }
}

/// The lines `verify` reads: split at `\n` alone, no empty line after a
/// final `\n`.
pub open spec fn verify_lines(raw: Seq<char>) -> Seq<Seq<char>> {
    let ps = pieces(raw, '\n');
    if ps.last().len() == 0 { ps.drop_last() } else { ps }
}

/// `verify` after reading `lines`, numbered from 1.
pub open spec fn verify_tally(lines: Seq<Seq<char>>, probes: Option<Seq<ProbeView>>, deep: bool) -> Tally
    decreases lines.len(),
{
    if lines.len() == 0 {
        Tally { count: 0, prev: None, expected: 0, ops: Seq::empty(), issues: Seq::empty() }
    } else {
        verify_step(verify_tally(lines.drop_last(), probes, deep), lines.len() as usize, lines.last(), probes, deep)
    }
}


pub open spec fn probes_view(p: Option<&Vec<EvidenceProbe>>) -> Option<Seq<ProbeView>> {
    match p {
        Some(v) => Some(probe_views(v@)),
        None => None,
    }
}

pub open spec fn ops_view(v: Seq<(String, u64)>) -> Seq<(Seq<char>, u64)> {
    Seq::new(v.len(), |i: int| (v[i].0@, v[i].1))
}

/// The state of `verify` between lines.
struct Tracker {
    count: usize,
    prev: Option<String>,
    expected: u64,
    ops: Vec<(String, u64)>,
    issues: Vec<VerifyIssue>,
}

impl View for Tracker {
    type V = Tally;

    closed spec fn view(&self) -> Tally {
        Tally {
            count: self.count as nat,
            prev: opt_view(self.prev),
            expected: self.expected,
            ops: ops_view(self.ops@),
            issues: issue_views(self.issues@),
        }
    }
}

fn push_issue(issues: &mut Vec<VerifyIssue>, line: usize, class: &str, message: &str)
    ensures
        issue_views(final(issues)@) == issue_views(old(issues)@).push(issue(line, class@, message@)),
{
    let ghost before = issue_views(issues@);
    issues.push(VerifyIssue::new(line, class, message));
    proof {
        assert(issue_views(issues@) =~= before.push(issue(line, class@, message@)));
    }
}

/// `uri_escapes(uri)`, computed.
fn escapes_root(uri: &str) -> (r: bool)
    ensures
        r == uri_escapes(uri@),
{
    let cs = chars_of(uri);
    if cs.len() > 0 && cs[0] == '/' {
        return false;
    }
    let parts = split_pieces(uri, '/');
    let ghost pv = pieces(uri@, '/');
    let mut i: usize = 0;
    while i < parts.len()
        invariant
            string_views(parts@) == pv,
            pv == pieces(uri@, '/'),
            !(uri@.len() > 0 && uri@[0] == '/'),
            i <= parts@.len(),
            forall|k: int| 0 <= k < i ==> pv[k] != ".."@,
        decreases parts@.len() - i,
    {
        if str_eq(parts[i].as_str(), "..") {
            proof {
                assert(pv[i as int] == ".."@);
            }
            return true;
        }
        proof {
            assert(pv[i as int] == parts@[i as int]@);
        }
        i = i + 1;
    }
    false
}

proof fn lemma_find_probe_prefix(ps: Seq<ProbeView>, uri: Seq<char>, i: int)
    requires
        0 <= i <= ps.len(),
        find_probe(ps.take(i), uri) is Some,
    ensures
        find_probe(ps, uri) == find_probe(ps.take(i), uri),
    decreases ps.len() - i,
{
    if i < ps.len() {
        assert(ps.take(i + 1).drop_last() =~= ps.take(i));
        lemma_find_probe_prefix(ps, uri, i + 1);
    } else {
        assert(ps.take(i) =~= ps);
    }
}

/// The index of the first probe for `uri`.
pub(crate) fn probe_index(probes: &Vec<EvidenceProbe>, uri: &str) -> (r: Option<usize>)
    ensures
        match r {
            Some(k) => k < probes@.len() && find_probe(probe_views(probes@), uri@) == Some(probes@[k as int]@.file),
            None => find_probe(probe_views(probes@), uri@) is None,
        },
{
    let ghost pv = probe_views(probes@);
    let mut i: usize = 0;
    proof {
        assert(pv.take(0) =~= Seq::<ProbeView>::empty());
    }
    while i < probes.len()
        invariant
            pv == probe_views(probes@),
            i <= probes@.len(),
            find_probe(pv.take(i as int), uri@) is None,
        decreases probes@.len() - i,
    {
        proof {
            assert(pv.take(i + 1).drop_last() =~= pv.take(i as int));
            assert(pv.take(i + 1).last() == probes@[i as int]@);
        }
        if str_eq(probes[i].uri.as_str(), uri) {
            proof {
                lemma_find_probe_prefix(pv, uri@, i + 1);
            }
            return Some(i);
        }
        i = i + 1;
    }
    proof {
        assert(pv.take(i as int) =~= pv);
    }
    None
}

/// The issues of one evidence entry, added to `issues`.
fn push_entry_issues(issues: &mut Vec<VerifyIssue>, line_no: usize, e: &Evidence, probes: &Vec<EvidenceProbe>, deep: bool)
    ensures
        issue_views(final(issues)@) == issue_views(old(issues)@) + entry_issues(line_no, e@, probe_views(probes@), deep),
{
    let ghost before = issue_views(issues@);
    let ghost expected = entry_issues(line_no, e@, probe_views(probes@), deep);
    match &e.uri {
        None => {
            proof {
                assert(before + expected =~= before);
            }
        },
        Some(uri) => {
            if escapes_root(uri.as_str()) {
                let m = concat("evidence uri escapes evidence root: ", uri.as_str());
                push_issue(issues, line_no, "evidence-invalid", m.as_str());
                proof {
                    assert(issue_views(issues@) =~= before + expected);
                }
                return;
            }
            let found = probe_index(probes, uri.as_str());
            let missing = match found {
                None => true,
                Some(k) => match &probes[k].file {
                    EvidenceFile::Missing => true,
                    _ => false,
                },
            };
            if missing {
                let m = concat("evidence file not found: ", uri.as_str());
                push_issue(issues, line_no, "evidence-missing", m.as_str());
                proof {
                    assert(issue_views(issues@) =~= before + expected);
                }
                return;
            }
            let k = match found {
                Some(k) => k,
                None => {
                    return;
                },
            };
            match &probes[k].file {
                EvidenceFile::Hashed(h) => {
                    if deep && !str_eq(h.as_str(), e.sha256.as_str()) {
                        let m = concat("evidence hash mismatch: ", uri.as_str());
                        push_issue(issues, line_no, "evidence-hash", m.as_str());
                        proof {
                            assert(issue_views(issues@) =~= before + expected);
                        }
                    } else {
                        proof {
                            assert(before + expected =~= before);
                        }
                    }
                },
                EvidenceFile::Unreadable(msg) => {
                    if deep {
                        let m = concat(uri.as_str(), ": ");
                        let m = concat(m.as_str(), msg.as_str());
                        push_issue(issues, line_no, "evidence-read", m.as_str());
                        proof {
                            assert(issue_views(issues@) =~= before + expected);
                        }
                    } else {
                        proof {
                            assert(before + expected =~= before);
                        }
                    }
                },
                _ => {
                    proof {
                        assert(before + expected =~= before);
                    }
                },
            }
        },
    }
}

/// The issues of every evidence entry, in order, added to `issues`.
fn push_evidence_issues(issues: &mut Vec<VerifyIssue>, line_no: usize, es: &Vec<Evidence>, probes: &Vec<EvidenceProbe>, deep: bool)
    ensures
        issue_views(final(issues)@) == issue_views(old(issues)@)
            + evidence_issues(line_no, evidence_views(es@), probe_views(probes@), deep),
{
    let ghost start = issue_views(issues@);
    let ghost ev = evidence_views(es@);
    let ghost pv = probe_views(probes@);
    let mut i: usize = 0;
    proof {
        assert(ev.take(0) =~= Seq::<EvidenceView>::empty());
        assert(start + evidence_issues(line_no, ev.take(0), pv, deep) =~= start);
    }
    while i < es.len()
        invariant
            ev == evidence_views(es@),
            pv == probe_views(probes@),
            i <= es@.len(),
            issue_views(issues@) == start + evidence_issues(line_no, ev.take(i as int), pv, deep),
        decreases es@.len() - i,
    {
        proof {
            assert(ev.take(i + 1).drop_last() =~= ev.take(i as int));
            assert(ev.take(i + 1).last() == es@[i as int]@);
        }
        let ghost mid = issue_views(issues@);
        push_entry_issues(issues, line_no, &es[i], probes, deep);
        proof {
            assert(issue_views(issues@) =~= start + evidence_issues(line_no, ev.take(i + 1), pv, deep));
        }
        i = i + 1;
    }
    proof {
        assert(ev.take(i as int) =~= ev);
    }
}

/// The `seq` of the last entry with `op`.
fn last_seq_of(ops: &Vec<(String, u64)>, op: &str) -> (r: Option<u64>)
    ensures
        r == last_op_seq(ops_view(ops@), op@),
{
    let ghost ov = ops_view(ops@);
    let mut i: usize = ops.len();
    proof {
        assert(ov.take(ov.len() as int) =~= ov);
    }
    while i > 0
        invariant
            ov == ops_view(ops@),
            i <= ops@.len(),
            last_op_seq(ov, op@) == last_op_seq(ov.take(i as int), op@),
        decreases i,
    {
        proof {
            assert(ov.take(i as int).drop_last() =~= ov.take(i - 1));
            assert(ov.take(i as int).last() == (ops@[i - 1].0@, ops@[i - 1].1));
        }
        if str_eq(ops[i - 1].0.as_str(), op) {
            return Some(ops[i - 1].1);
        }
        i = i - 1;
    }
    proof {
        assert(ov.take(0) =~= Seq::<(Seq<char>, u64)>::empty());
    }
    None
}


/// The issues of an envelope read from line `line_no`, in order.
fn envelope_issue_list(
    line_no: usize,
    line: &str,
    env: &Envelope,
    t: &Tracker,
    probes: Option<&Vec<EvidenceProbe>>,
    deep: bool,
) -> (v: Vec<VerifyIssue>)
    requires
        env@.body.wf(),
    ensures
        issue_views(v@) == envelope_issues(line_no, line@, env@, t@, probes_view(probes), deep),
{
    let ghost e = env@;
    let ghost tv = t@;
    let mut v: Vec<VerifyIssue> = Vec::new();
    match env.validate() {
        Err(err) => {
            let m = err.message();
            push_issue(&mut v, line_no, "validation", m.as_str());
        },
        Ok(()) => {},
    }
    let ghost p1 = issue_views(v@);
    proof {
        assert(p1 =~= (match envelope_check(e) {
            Err(x) => seq![issue(line_no, "validation"@, x.message())],
            Ok(_) => Seq::<IssueView>::empty(),
        }));
    }
    match env.to_line() {
        Ok(canon) => {
            if !str_eq(canon.as_str(), line) {
                push_issue(&mut v, line_no, "non-canonical", "line is not the canonical serialization of its content");
            }
        },
        Err(err) => {
            let m = err.message();
            push_issue(&mut v, line_no, "canonical", m.as_str());
        },
    }
    let ghost p2 = issue_views(v@);
    proof {
        assert(p2 =~= p1 + when(envelope_line(e) != line@, issue(line_no, "non-canonical"@,
            "line is not the canonical serialization of its content"@)));
    }
    if env.seq != t.expected {
        let m = concat("expected seq ", u64_decimal(t.expected).as_str());
        let m = concat(m.as_str(), ", got ");
        let m = concat(m.as_str(), u64_decimal(env.seq).as_str());
        push_issue(&mut v, line_no, "seq", m.as_str());
    }
    let ghost p3 = issue_views(v@);
    proof {
        assert(p3 =~= p2 + when(e.seq != tv.expected, issue(line_no, "seq"@,
            "expected seq "@ + decimal(tv.expected as nat) + ", got "@ + decimal(e.seq as nat))));
    }
    if !opt_str_equal(&env.prev, &t.prev) {
        push_issue(&mut v, line_no, "chain", "prev does not match previous id");
    }
    let ghost p4 = issue_views(v@);
    proof {
        assert(p4 =~= p3 + when(e.prev != tv.prev, issue(line_no, "chain"@, "prev does not match previous id"@)));
    }
    if let Some(op) = &env.op {
        if let Some(first) = last_seq_of(&t.ops, op.as_str()) {
            let m = concat("op ", op.as_str());
            let m = concat(m.as_str(), " already used at seq ");
            let m = concat(m.as_str(), u64_decimal(first).as_str());
            push_issue(&mut v, line_no, "op-duplicate", m.as_str());
        }
    }
    let ghost p5 = issue_views(v@);
    proof {
        assert(p5 =~= p4 + (match e.op {
            Some(op) => match last_op_seq(tv.ops, op) {
                Some(first) => seq![issue(line_no, "op-duplicate"@, "op "@ + op + " already used at seq "@ + decimal(first as nat))],
                None => Seq::<IssueView>::empty(),
            },
            None => Seq::<IssueView>::empty(),
        }));
    }
    if let Some(ps) = probes {
        push_evidence_issues(&mut v, line_no, &env.evidence, ps, deep);
    }
    proof {
        assert(issue_views(v@) =~= p5 + (match probes_view(probes) {
            Some(ps) => evidence_issues(line_no, e.evidence, ps, deep),
            None => Seq::<IssueView>::empty(),
        }));
    }
    v
}

/// One line read by `verify`.
fn verify_line(t: Tracker, line_no: usize, raw_line: &str, probes: Option<&Vec<EvidenceProbe>>, deep: bool) -> (r: Tracker)
    requires
        t@.count < line_no,
    ensures
        r@ == verify_step(t@, line_no, raw_line@, probes_view(probes), deep),
{
    let ghost t0 = t@;
    let mut t = t;
    let line = without_cr(raw_line);
    let had_cr = !str_eq(line.as_str(), raw_line);
    if line.as_str().is_empty() {
        if had_cr {
            push_issue(&mut t.issues, line_no, "non-canonical", "line ends with CR: ledger must be LF-only (check git autocrlf)");
        }
        push_issue(&mut t.issues, line_no, "empty-line", "empty line in ledger");
        proof {
            assert(t@.issues =~= verify_step(t0, line_no, raw_line@, probes_view(probes), deep).issues);
        }
        return t;
    }
    let env = match Envelope::from_line(line.as_str(), line_no) {
        Ok(env) => env,
        Err(err) => {
            if had_cr {
                push_issue(&mut t.issues, line_no, "non-canonical", "line ends with CR: ledger must be LF-only (check git autocrlf)");
            }
            let m = err.message();
            push_issue(&mut t.issues, line_no, "parse", m.as_str());
            proof {
                assert(t@.issues =~= verify_step(t0, line_no, raw_line@, probes_view(probes), deep).issues);
            }
            return t;
        },
    };
    let mut found = envelope_issue_list(line_no, line.as_str(), &env, &t, probes, deep);
    let ghost found_view = issue_views(found@);
    if had_cr {
        push_issue(&mut t.issues, line_no, "non-canonical", "line ends with CR: ledger must be LF-only (check git autocrlf)");
    }
    let ghost mid = issue_views(t.issues@);
    let ghost mid_raw = t.issues@;
    let ghost found_raw = found@;
    t.issues.append(&mut found);
    proof {
        assert(t.issues@ == mid_raw + found_raw);
        assert(issue_views(t.issues@) =~= mid + found_view);
    }
    t.count = t.count + 1;
    t.prev = Some(env.id.clone());
    t.expected = env.seq.saturating_add(1);
    if let Some(op) = &env.op {
        let ghost before = ops_view(t.ops@);
        t.ops.push((op.clone(), env.seq));
        proof {
            assert(ops_view(t.ops@) =~= before.push((op@, env.seq)));
        }
    }
    proof {
        let want = verify_step(t0, line_no, raw_line@, probes_view(probes), deep);
        assert(t@.issues =~= want.issues);
        assert(t@.ops =~= want.ops);
    }
    t
}

impl Ledger {
    /// Checks the whole ledger, whose file holds `raw`, and reports every
    /// issue, not only the first. With `evidence`, each evidence uri is
    /// also checked against what was found under the evidence root; with
    /// `deep`, against the hash of that file.
    pub fn verify(&self, raw: &str, evidence: Option<&Vec<EvidenceProbe>>, deep: bool) -> (r: Result<VerifyReport, KernelError>)
        ensures
            r matches Ok(rep) && rep.events as nat == verify_tally(verify_lines(raw@), probes_view(evidence), deep).count
                && issue_views(rep.issues@) == verify_tally(verify_lines(raw@), probes_view(evidence), deep).issues,
    {
        let ps = split_pieces(raw, '\n');
        proof {
            lemma_pieces_nonempty(raw@, '\n');
        }
        let len = ps.len();
        let n = if ps[len - 1].as_str().is_empty() { len - 1 } else { len };
        let ghost lines = verify_lines(raw@);
        proof {
            assert(lines =~= string_views(ps@).take(n as int));
        }
        let mut t = Tracker { count: 0, prev: None, expected: 0, ops: Vec::new(), issues: Vec::new() };
        proof {
            assert(lines.take(0) =~= Seq::<Seq<char>>::empty());
            assert(t@.ops =~= Seq::<(Seq<char>, u64)>::empty());
            assert(t@.issues =~= Seq::<IssueView>::empty());
        }
        let mut i: usize = 0;
        while i < n
            invariant
                lines == string_views(ps@).take(n as int),
                n <= ps@.len(),
                i <= n,
                t@ == verify_tally(lines.take(i as int), probes_view(evidence), deep),
                t@.count <= i,
            decreases n - i,
        {
            proof {
                assert(lines.take(i + 1).drop_last() =~= lines.take(i as int));
                assert(lines.take(i + 1).last() == ps@[i as int]@);
            }
            t = verify_line(t, i + 1, ps[i].as_str(), evidence, deep);
            i = i + 1;
        }
        proof {
            assert(lines.take(i as int) =~= lines);
        }
        Ok(VerifyReport { events: t.count, issues: t.issues })
    }
}


/// The uris of `es` that stay under the evidence root, in order.
pub open spec fn probe_uris(es: Seq<EvidenceView>) -> Seq<Seq<char>>
    decreases es.len(),
{
    if es.len() == 0 {
        Seq::empty()
    } else {
        probe_uris(es.drop_last()) + match es.last().uri {
            Some(u) => if uri_escapes(u) { Seq::empty() } else { seq![u] },
            None => Seq::empty(),
        }
    }
}

/// The uris `verify` looks up on the line numbered `line_no`.
pub open spec fn line_uris(line_no: usize, raw_line: Seq<char>) -> Seq<Seq<char>> {
    let line = strip_cr(raw_line);
    if line.len() == 0 {
        Seq::empty()
    } else {
        match parse_line(line, line_no) {
            Ok(env) => probe_uris(env.evidence),
            Err(_) => Seq::empty(),
        }
    }
}

/// The uris `verify` looks up on `lines`, numbered from 1, in order.
pub open spec fn wanted_uris(lines: Seq<Seq<char>>) -> Seq<Seq<char>>
    decreases lines.len(),
{
    if lines.len() == 0 {
        Seq::empty()
    } else {
        wanted_uris(lines.drop_last()) + line_uris(lines.len() as usize, lines.last())
    }
}

fn push_probe_uris(out: &mut Vec<String>, es: &Vec<Evidence>)
    ensures
        string_views(final(out)@) == string_views(old(out)@) + probe_uris(evidence_views(es@)),
{
    let ghost start = string_views(out@);
    let ghost ev = evidence_views(es@);
    let mut i: usize = 0;
    proof {
        assert(ev.take(0) =~= Seq::<EvidenceView>::empty());
        assert(start + probe_uris(ev.take(0)) =~= start);
    }
    while i < es.len()
        invariant
            ev == evidence_views(es@),
            i <= es@.len(),
            string_views(out@) == start + probe_uris(ev.take(i as int)),
        decreases es@.len() - i,
    {
        proof {
            assert(ev.take(i + 1).drop_last() =~= ev.take(i as int));
            assert(ev.take(i + 1).last() == es@[i as int]@);
        }
        let ghost before = string_views(out@);
        if let Some(u) = &es[i].uri {
            if !escapes_root(u.as_str()) {
                out.push(u.clone());
                proof {
                    assert(string_views(out@) =~= before.push(u@));
                }
            }
        }
        proof {
            assert(string_views(out@) =~= start + probe_uris(ev.take(i + 1)));
        }
        i = i + 1;
    }
    proof {
        assert(ev.take(i as int) =~= ev);
    }
}

impl Ledger {
    /// Every evidence uri that `verify` looks up in the ledger whose file
    /// holds `raw`, in order: what the caller should probe under the
    /// evidence root.
    pub fn evidence_uris(&self, raw: &str) -> (r: Vec<String>)
        ensures
            string_views(r@) == wanted_uris(verify_lines(raw@)),
    {
        let ps = split_pieces(raw, '\n');
        proof {
            lemma_pieces_nonempty(raw@, '\n');
        }
        let len = ps.len();
        let n = if ps[len - 1].as_str().is_empty() { len - 1 } else { len };
        let ghost lines = verify_lines(raw@);
        proof {
            assert(lines =~= string_views(ps@).take(n as int));
            assert(lines.take(0) =~= Seq::<Seq<char>>::empty());
        }
        let mut out: Vec<String> = Vec::new();
        proof {
            assert(string_views(out@) =~= Seq::<Seq<char>>::empty());
        }
        let mut i: usize = 0;
        while i < n
            invariant
                lines == string_views(ps@).take(n as int),
                n <= ps@.len(),
                i <= n,
                string_views(out@) == wanted_uris(lines.take(i as int)),
            decreases n - i,
        {
            proof {
                assert(lines.take(i + 1).drop_last() =~= lines.take(i as int));
                assert(lines.take(i + 1).last() == ps@[i as int]@);
            }
            let ghost before = string_views(out@);
            let line = without_cr(ps[i].as_str());
            if !line.as_str().is_empty() {
                if let Ok(env) = Envelope::from_line(line.as_str(), i + 1) {
                    push_probe_uris(&mut out, &env.evidence);
                }
            }
            proof {
                assert(string_views(out@) =~= before + line_uris((i + 1) as usize, ps@[i as int]@));
            }
            i = i + 1;
        }
        proof {
            assert(lines.take(i as int) =~= lines);
        }
        out
    }
}

} // verus!

verus! {

// ---- laws ----

/// No number anywhere in the value is written over more than one line.
pub open spec fn numbers_single_line(j: JsonValue) -> bool
    decreases j,
{
    match j {
        JsonValue::Number(n) => !n.contains('\n'),
        JsonValue::Array(items) => forall|i: int| 0 <= i < items.len() ==> numbers_single_line(#[trigger] items[i]),
        JsonValue::Object(es) => forall|i: int| 0 <= i < es.len() ==> numbers_single_line(#[trigger] es[i].1),
        _ => true,
    }
}


proof fn lemma_concat_lacks(a: Seq<char>, b: Seq<char>, c: char)
    requires
        !a.contains(c),
        !b.contains(c),
    ensures
        !(a + b).contains(c),
{
    assert forall|i: int| 0 <= i < (a + b).len() implies (a + b)[i] != c by {
        if i < a.len() {
            assert((a + b)[i] == a[i]);
        } else {
            assert((a + b)[i] == b[i - a.len()]);
        }
    }
}

proof fn lemma_escaped_single_line(s: Seq<char>)
    ensures
        !escaped(s).contains('\n'),
    decreases s.len(),
{
    if s.len() > 0 {
        lemma_escaped_single_line(s.drop_last());
        let c = s.last();
        let e = escape_char(c);
        assert(!e.contains('\n')) by {
            if c == '"' || c == '\\' || c == '\x08' || c == '\t' || c == '\n' || c == '\x0c' || c == '\r' {
            } else if (c as u32) < 0x20 {
                let hi = hex_digit((c as u32) / 16);
                let lo = hex_digit((c as u32) % 16);
                assert(hi != '\n' && lo != '\n');
                assert(e =~= seq!['\\', 'u', '0', '0', hi, lo]);
            } else {
                assert(e =~= seq![c]);
            }
        }
        lemma_concat_lacks(escaped(s.drop_last()), e, '\n');
    }
}

proof fn lemma_quote_single_line(s: Seq<char>)
    ensures
        !json_quote(s).contains('\n'),
{
    lemma_escaped_single_line(s);
    lemma_concat_lacks(seq!['"'], escaped(s), '\n');
    lemma_concat_lacks(seq!['"'] + escaped(s), seq!['"'], '\n');
}

proof fn lemma_decimal_single_line(n: nat)
    ensures
        !decimal(n).contains('\n'),
    decreases n,
{
    if n >= 10 {
        lemma_decimal_single_line(n / 10);
        lemma_concat_lacks(decimal(n / 10), seq![crate::text::digit_char((n % 10) as nat)], '\n');
        assert(decimal(n) =~= decimal(n / 10) + seq![crate::text::digit_char((n % 10) as nat)]);
    }
}

proof fn lemma_canon_single_line(j: JsonValue)
    requires
        numbers_single_line(j),
    ensures
        !canon(j).contains('\n'),
    decreases j, 0nat,
{
    match j {
        JsonValue::Null => {
            reveal_strlit("null");
        },
        JsonValue::Bool(b) => {
            reveal_strlit("true");
            reveal_strlit("false");
        },
        JsonValue::Number(n) => {},
        JsonValue::Str(s) => {
            lemma_quote_single_line(s);
        },
        JsonValue::Array(items) => {
            lemma_items_single_line(items, items.len());
            lemma_concat_lacks(seq!['['], canon_items(items, items.len()), '\n');
            lemma_concat_lacks(seq!['['] + canon_items(items, items.len()), seq![']'], '\n');
        },
        JsonValue::Object(es) => {
            lemma_entries_single_line(es, es.len());
            lemma_concat_lacks(seq!['{'], canon_entries(es, es.len()), '\n');
            lemma_concat_lacks(seq!['{'] + canon_entries(es, es.len()), seq!['}'], '\n');
        },
    }
}

proof fn lemma_items_single_line(items: Seq<JsonValue>, n: nat)
    requires
        forall|i: int| 0 <= i < items.len() ==> numbers_single_line(#[trigger] items[i]),
    ensures
        !canon_items(items, n).contains('\n'),
    decreases items, n,
{
    if n == 0 || n > items.len() {
    } else if n == 1 {
        lemma_canon_single_line(items[0]);
    } else {
        lemma_items_single_line(items, (n - 1) as nat);
        lemma_canon_single_line(items[n - 1]);
        lemma_concat_lacks(canon_items(items, (n - 1) as nat), seq![','], '\n');
        lemma_concat_lacks(canon_items(items, (n - 1) as nat) + seq![','], canon(items[n - 1]), '\n');
    }
}

proof fn lemma_entry_single_line(e: (Seq<char>, JsonValue))
    requires
        numbers_single_line(e.1),
    ensures
        !canon_entry(e).contains('\n'),
    decreases e, 0nat,
{
    lemma_quote_single_line(e.0);
    lemma_canon_single_line(e.1);
    lemma_concat_lacks(json_quote(e.0), seq![':'], '\n');
    lemma_concat_lacks(json_quote(e.0) + seq![':'], canon(e.1), '\n');
}

proof fn lemma_entries_single_line(es: Seq<(Seq<char>, JsonValue)>, n: nat)
    requires
        forall|i: int| 0 <= i < es.len() ==> numbers_single_line(#[trigger] es[i].1),
    ensures
        !canon_entries(es, n).contains('\n'),
    decreases es, n,
{
    if n == 0 || n > es.len() {
    } else if n == 1 {
        lemma_entry_single_line(es[0]);
    } else {
        lemma_entries_single_line(es, (n - 1) as nat);
        lemma_entry_single_line(es[n - 1]);
        lemma_concat_lacks(canon_entries(es, (n - 1) as nat), seq![','], '\n');
        lemma_concat_lacks(canon_entries(es, (n - 1) as nat) + seq![','], canon_entry(es[n - 1]), '\n');
    }
}


proof fn lemma_evidence_json_single_line(ev: EvidenceView)
    ensures
        numbers_single_line(evidence_json(ev)),
{
    if ev.bytes is Some {
        lemma_decimal_single_line(ev.bytes->Some_0 as nat);
    }
    let es = evidence_json(ev)->Object_0;
    assert forall|i: int| 0 <= i < es.len() implies numbers_single_line(#[trigger] es[i].1) by {}
}

proof fn lemma_envelope_json_single_line(e: EnvelopeView, with_id: bool)
    requires
        numbers_single_line(e.body),
    ensures
        numbers_single_line(envelope_json(e, with_id)),
{
    lemma_decimal_single_line(e.seq as nat);
    let items = e.evidence.map_values(|ev: EvidenceView| evidence_json(ev));
    assert forall|i: int| 0 <= i < items.len() implies numbers_single_line(#[trigger] items[i]) by {
        lemma_evidence_json_single_line(e.evidence[i]);
    }
    assert(numbers_single_line(JsonValue::Array(items)));
    let es = envelope_json(e, with_id)->Object_0;
    assert forall|i: int| 0 <= i < es.len() implies numbers_single_line(#[trigger] es[i].1) by {}
}

/// The line of an envelope: one line, ending with `}`.
proof fn lemma_envelope_line_shape(e: EnvelopeView)
    requires
        numbers_single_line(e.body),
    ensures
        !envelope_line(e).contains('\n'),
        envelope_line(e).len() > 0,
        envelope_line(e).last() == '}',
{
    lemma_envelope_json_single_line(e, true);
    lemma_canon_single_line(envelope_json(e, true));
    let es = envelope_json(e, true)->Object_0;
    assert(envelope_line(e) == seq!['{'] + canon_entries(es, es.len()) + seq!['}']);
}

/// Appending a text without separators extends the last piece.
proof fn lemma_pieces_extend(a: Seq<char>, b: Seq<char>, sep: char)
    requires
        !b.contains(sep),
    ensures
        pieces(a + b, sep) == pieces(a, sep).drop_last().push(pieces(a, sep).last() + b),
    decreases b.len(),
{
    lemma_pieces_nonempty(a, sep);
    if b.len() == 0 {
        assert(a + b =~= a);
        assert(pieces(a, sep).drop_last().push(pieces(a, sep).last() + b) =~= pieces(a, sep));
    } else {
        let b0 = b.drop_last();
        assert(!b0.contains(sep)) by {
            assert forall|i: int| 0 <= i < b0.len() implies b0[i] != sep by {
                assert(b0[i] == b[i]);
            }
        }
        lemma_pieces_extend(a, b0, sep);
        assert((a + b).drop_last() =~= a + b0);
        assert((a + b).last() == b.last());
        assert(b.last() != sep) by {
            assert(b[b.len() - 1] == b.last());
        }
        let p = pieces(a, sep);
        assert((p.last() + b0).push(b.last()) =~= p.last() + b);
        assert(pieces(a + b, sep) =~= p.drop_last().push(p.last() + b));
    }
}

/// A line number only names the line in errors: where reading succeeds,
/// the envelope read does not depend on it.
pub proof fn lemma_parse_line_number(l: Seq<char>, n: usize, m: usize)
    requires
        parse_line(l, n) is Ok,
    ensures
        parse_line(l, m) == parse_line(l, n),
{
}

/// The lines of the file once an append's text is added: the lines it had,
/// then the appended line.
proof fn lemma_lines_after_append(raw: Seq<char>, line: Seq<char>)
    requires
        !line.contains('\n'),
        line.len() > 0,
        line.last() != '\r',
        !(raw.len() > 0 && raw.last() == '\r'),
    ensures
        file_lines(raw + appended_text(raw, line)) == file_lines(raw).push(line),
{
    let p = pieces(raw, '\n');
    lemma_pieces_nonempty(raw, '\n');
    if raw.len() > 0 && raw.last() != '\n' {
        // the file lacks a final newline: one goes first
        let q = pieces(raw.push('\n'), '\n');
        assert(raw.push('\n').drop_last() =~= raw);
        assert(q == p.push(Seq::<char>::empty()));
        lemma_pieces_extend(raw.push('\n'), line, '\n');
        let r = pieces(raw.push('\n') + line, '\n');
        assert(r =~= p.push(line));
        let full = (raw.push('\n') + line).push('\n');
        assert(raw + appended_text(raw, line) =~= full);
        assert(full.drop_last() =~= raw.push('\n') + line);
        assert(pieces(full, '\n') == r.push(Seq::<char>::empty()));
        // the old last line was not yet ended
        assert(p.last().len() > 0 && p.last().last() == raw.last()) by {
            let pr = pieces(raw.drop_last(), '\n');
            lemma_pieces_nonempty(raw.drop_last(), '\n');
            assert(p == pr.update(pr.len() - 1, pr.last().push(raw.last())));
        }
        assert(strip_cr(p.last()) == p.last());
        assert(strip_cr(line) == line);
        assert(file_lines(raw + appended_text(raw, line)) =~= file_lines(raw).push(line));
    } else {
        // empty, or ending with a newline: the last piece is empty
        assert(p.last().len() == 0) by {
            if raw.len() > 0 {
                assert(raw.drop_last().push(raw.last()) =~= raw);
            }
        }
        lemma_pieces_extend(raw, line, '\n');
        let r = pieces(raw + line, '\n');
        assert(p.last() + line =~= line);
        assert(r =~= p.drop_last().push(line));
        let full = (raw + line).push('\n');
        assert(raw + appended_text(raw, line) =~= full);
        assert(full.drop_last() =~= raw + line);
        assert(pieces(full, '\n') == r.push(Seq::<char>::empty()));
        assert(strip_cr(line) == line);
        assert(file_lines(raw + appended_text(raw, line)) =~= file_lines(raw).push(line));
    }
}

/// Reading the ledger back after an append gives the events it held, then
/// the event read from the appended line.
pub proof fn law_append_read_back(raw: Seq<char>, d: DraftView, ts: Seq<char>)
    requires
        append_outcome(raw, d, ts) is Ok,
        append_outcome(raw, d, ts)->Ok_0.text is Some,
        numbers_single_line(d.body),
        !(raw.len() > 0 && raw.last() == '\r'),
    ensures
        ({
            let existing = events_of(raw)->Ok_0;
            let a = append_outcome(raw, d, ts)->Ok_0;
            let read = parse_line(envelope_line(a.envelope), (existing.len() + 1) as usize);
            &&& events_of(raw) is Ok
            &&& read is Ok
            &&& events_of(raw + a.text->Some_0) == Ok::<Seq<EnvelopeView>, KernelErrorView>(existing.push(read->Ok_0))
        }),
{
    let existing = events_of(raw)->Ok_0;
    let env = next_envelope(existing, d, ts);
    let line = envelope_line(env);
    lemma_envelope_line_shape(env);
    lemma_lines_after_append(raw, line);
    let lines = file_lines(raw);
    let after = lines.push(line);
    assert(after.drop_last() =~= lines);
    lemma_parse_line_number(line, (existing.len() + 1) as usize, after.len() as usize);
}


/// An append that writes continues the chain: the new envelope follows the
/// last one (seq one more, prev its id), carries the draft's content and
/// the given time, is valid, and seals its own id; the last envelope
/// before it was valid too.
pub proof fn law_append_extends_chain(raw: Seq<char>, d: DraftView, ts: Seq<char>)
    requires
        append_outcome(raw, d, ts) is Ok,
        append_outcome(raw, d, ts)->Ok_0.text is Some,
    ensures
        ({
            let existing = events_of(raw)->Ok_0;
            let a = append_outcome(raw, d, ts)->Ok_0;
            let env = a.envelope;
            &&& events_of(raw) is Ok
            &&& existing.len() == 0 ==> env.seq == 0 && env.prev is None
            &&& existing.len() > 0 ==> env.seq == existing.last().seq + 1 && env.prev == Some(existing.last().id)
                && envelope_check(existing.last()) is Ok
            &&& env.schema == schema_text() && env.ts == ts && env.actor == d.actor && env.event_type == d.event_type
                && env.body == d.body && env.evidence == d.evidence && env.op == d.op
            &&& envelope_check(env) is Ok
            &&& env.id == envelope_id(env)
            &&& a.text == Some(appended_text(raw, envelope_line(env)))
        }),
{
    let existing = events_of(raw)->Ok_0;
    if existing.len() > 0 && existing.last().seq == u64::MAX {
        let s = existing.last().seq;
        assert(s == 0xffff_ffff_ffff_ffffu64 ==> (s + 1) as u64 == 0) by (bit_vector);
    }
}

/// Appending the same draft again, once its line reads back as written,
/// gives back the envelope already there and writes nothing.
pub proof fn law_append_idempotent(raw: Seq<char>, d: DraftView, ts: Seq<char>, later: Seq<char>)
    requires
        d.op is Some,
        append_outcome(raw, d, ts) is Ok,
        append_outcome(raw, d, ts)->Ok_0.text is Some,
        numbers_single_line(d.body),
        !(raw.len() > 0 && raw.last() == '\r'),
        parse_line(envelope_line(append_outcome(raw, d, ts)->Ok_0.envelope), (events_of(raw)->Ok_0.len() + 1) as usize)
            == Ok::<EnvelopeView, KernelErrorView>(append_outcome(raw, d, ts)->Ok_0.envelope),
    ensures
        ({
            let a = append_outcome(raw, d, ts)->Ok_0;
            append_outcome(raw + a.text->Some_0, d, later)
                == Ok::<AppendedView, KernelErrorView>(AppendedView { envelope: a.envelope, text: None })
        }),
{
    let existing = events_of(raw)->Ok_0;
    let a = append_outcome(raw, d, ts)->Ok_0;
    law_append_read_back(raw, d, ts);
    let after = existing.push(a.envelope);
    assert(after.drop_last() =~= existing);
    assert(find_op(after, d.op->Some_0) == Some(a.envelope));
    crate::event::lemma_json_same_refl(d.body);
}

/// Appending other content (JSON values compared as `serde_json` compares
/// them) under an `op` already used, once the first line reads back as
/// written, is refused as a conflict on that `op`.
pub proof fn law_op_conflict(raw: Seq<char>, d: DraftView, ts: Seq<char>, other: DraftView, later: Seq<char>)
    requires
        d.op is Some,
        other.op == d.op,
        !(d.actor == other.actor && d.event_type == other.event_type && json_same(d.body, other.body)
            && d.evidence == other.evidence),
        append_outcome(raw, d, ts) is Ok,
        append_outcome(raw, d, ts)->Ok_0.text is Some,
        numbers_single_line(d.body),
        !(raw.len() > 0 && raw.last() == '\r'),
        parse_line(envelope_line(append_outcome(raw, d, ts)->Ok_0.envelope), (events_of(raw)->Ok_0.len() + 1) as usize)
            == Ok::<EnvelopeView, KernelErrorView>(append_outcome(raw, d, ts)->Ok_0.envelope),
    ensures
        append_outcome(raw + append_outcome(raw, d, ts)->Ok_0.text->Some_0, other, later)
            == Err::<AppendedView, KernelErrorView>(KernelErrorView::OpConflict(d.op->Some_0)),
{
    let existing = events_of(raw)->Ok_0;
    let a = append_outcome(raw, d, ts)->Ok_0;
    law_append_read_back(raw, d, ts);
    let after = existing.push(a.envelope);
    assert(after.drop_last() =~= existing);
    assert(find_op(after, d.op->Some_0) == Some(a.envelope));
}


/// The `op`s of the events that carry one, with their `seq`, in order.
pub open spec fn ops_of(evs: Seq<EnvelopeView>) -> Seq<(Seq<char>, u64)>
    decreases evs.len(),
{
    if evs.len() == 0 {
        Seq::empty()
    } else {
        ops_of(evs.drop_last()) + match evs.last().op {
            Some(o) => seq![(o, evs.last().seq)],
            None => Seq::empty(),
        }
    }
}

proof fn lemma_ops_of_find(evs: Seq<EnvelopeView>, op: Seq<char>)
    ensures
        (last_op_seq(ops_of(evs), op) is None) == (find_op(evs, op) is None),
    decreases evs.len(),
{
    if evs.len() > 0 {
        lemma_ops_of_find(evs.drop_last(), op);
        let prior = ops_of(evs.drop_last());
        match evs.last().op {
            Some(o) => {
                assert(ops_of(evs) == prior.push((o, evs.last().seq)));
                assert(ops_of(evs).drop_last() =~= prior);
            },
            None => {
                assert(ops_of(evs) =~= prior);
            },
        }
    }
}

/// When `verify` finds nothing on `lines`, every line is non-empty and
/// free of a final `\r`, every line reads, and the tally follows the
/// events read: their number, the last id and `seq`, and their `op`s.
#[verifier::spinoff_prover]
#[verifier::rlimit(40)]
proof fn lemma_clean_tally(lines: Seq<Seq<char>>, deep: bool)
    requires
        verify_tally(lines, None, deep).issues.len() == 0,
    ensures
        forall|i: int| 0 <= i < lines.len() ==> (#[trigger] lines[i]).len() > 0 && strip_cr(lines[i]) == lines[i],
        parse_lines(lines) is Ok,
        ({
            let t = verify_tally(lines, None, deep);
            let evs = parse_lines(lines)->Ok_0;
            &&& t.count == evs.len()
            &&& t.prev == (if evs.len() == 0 { None } else { Some(evs.last().id) })
            &&& t.expected == (if evs.len() == 0 { 0u64 } else if evs.last().seq == u64::MAX { u64::MAX } else { (evs.last().seq + 1) as u64 })
            &&& t.ops == ops_of(evs)
        }),
    decreases lines.len(),
{
    if lines.len() > 0 {
        let prior = lines.drop_last();
        let t0 = verify_tally(prior, None, deep);
        let n = lines.len() as usize;
        let last = lines.last();
        assert(verify_tally(lines, None, deep) == verify_step(t0, n, last, None, deep));
        assert(t0.issues.len() == 0);
        lemma_clean_tally(prior, deep);
        assert forall|i: int| 0 <= i < lines.len() implies (#[trigger] lines[i]).len() > 0 && strip_cr(lines[i]) == lines[i] by {
            if i < prior.len() {
                assert(lines[i] == prior[i]);
            }
        }
        let evs0 = parse_lines(prior)->Ok_0;
        let env = parse_line(last, n)->Ok_0;
        assert(parse_lines(lines) == Ok::<Seq<EnvelopeView>, KernelErrorView>(evs0.push(env)));
        let evs = evs0.push(env);
        assert(evs.last() == env);
        match env.op {
            Some(o) => {
                assert(evs.drop_last() =~= evs0);
            },
            None => {
                assert(evs.drop_last() =~= evs0);
                assert(ops_of(evs) =~= ops_of(evs0));
            },
        }
    }
}

/// The pieces of the file once an append's text is added.
proof fn lemma_pieces_after_append(raw: Seq<char>, line: Seq<char>)
    requires
        !line.contains('\n'),
    ensures
        ({
            let p = pieces(raw, '\n');
            pieces(raw + appended_text(raw, line), '\n') == if raw.len() > 0 && raw.last() != '\n' {
                p.push(line).push(Seq::<char>::empty())
            } else {
                p.drop_last().push(line).push(Seq::<char>::empty())
            }
        }),
        pieces(raw, '\n').len() >= 1,
        raw.len() > 0 && raw.last() != '\n' ==> pieces(raw, '\n').last().len() > 0
            && pieces(raw, '\n').last().last() == raw.last(),
        !(raw.len() > 0 && raw.last() != '\n') ==> pieces(raw, '\n').last().len() == 0,
{
    let p = pieces(raw, '\n');
    lemma_pieces_nonempty(raw, '\n');
    if raw.len() > 0 && raw.last() != '\n' {
        let q = pieces(raw.push('\n'), '\n');
        assert(raw.push('\n').drop_last() =~= raw);
        assert(q == p.push(Seq::<char>::empty()));
        lemma_pieces_extend(raw.push('\n'), line, '\n');
        let r = pieces(raw.push('\n') + line, '\n');
        assert(r =~= p.push(line));
        let full = (raw.push('\n') + line).push('\n');
        assert(raw + appended_text(raw, line) =~= full);
        assert(full.drop_last() =~= raw.push('\n') + line);
        assert(pieces(full, '\n') == r.push(Seq::<char>::empty()));
        let pr = pieces(raw.drop_last(), '\n');
        lemma_pieces_nonempty(raw.drop_last(), '\n');
        assert(p == pr.update(pr.len() - 1, pr.last().push(raw.last())));
    } else {
        if raw.len() > 0 {
            assert(raw.drop_last().push(raw.last()) =~= raw);
        }
        lemma_pieces_extend(raw, line, '\n');
        let r = pieces(raw + line, '\n');
        assert(p.last() + line =~= line);
        assert(r =~= p.drop_last().push(line));
        let full = (raw + line).push('\n');
        assert(raw + appended_text(raw, line) =~= full);
        assert(full.drop_last() =~= raw + line);
        assert(pieces(full, '\n') == r.push(Seq::<char>::empty()));
    }
}

/// A ledger in which `verify` finds nothing stays so after an append
/// whose line reads back as written, and counts one event more.
pub proof fn law_append_keeps_ledger_verified(raw: Seq<char>, d: DraftView, ts: Seq<char>, deep: bool)
    requires
        verify_tally(verify_lines(raw), None, deep).issues.len() == 0,
        append_outcome(raw, d, ts) is Ok,
        append_outcome(raw, d, ts)->Ok_0.text is Some,
        numbers_single_line(d.body),
        parse_line(envelope_line(append_outcome(raw, d, ts)->Ok_0.envelope), (events_of(raw)->Ok_0.len() + 1) as usize)
            == Ok::<EnvelopeView, KernelErrorView>(append_outcome(raw, d, ts)->Ok_0.envelope),
    ensures
        ({
            let after = raw + append_outcome(raw, d, ts)->Ok_0.text->Some_0;
            &&& verify_tally(verify_lines(after), None, deep).issues.len() == 0
            &&& verify_tally(verify_lines(after), None, deep).count == verify_tally(verify_lines(raw), None, deep).count + 1
        }),
{
    let existing = events_of(raw)->Ok_0;
    let a = append_outcome(raw, d, ts)->Ok_0;
    let env = a.envelope;
    let line = envelope_line(env);
    law_append_extends_chain(raw, d, ts);
    lemma_envelope_line_shape(env);
    let vl = verify_lines(raw);
    lemma_clean_tally(vl, deep);
    lemma_pieces_after_append(raw, line);
    lemma_clean_file_lines(raw, deep);
    assert(existing == parse_lines(vl)->Ok_0);
    let after = raw + a.text->Some_0;
    assert(verify_lines(after) =~= vl.push(line));
    let t = verify_tally(vl, None, deep);
    let n = (vl.len() + 1) as usize;
    assert(vl.push(line).drop_last() =~= vl);
    assert(verify_tally(verify_lines(after), None, deep) == verify_step(t, n, line, None, deep));
    lemma_parse_line_number(line, (existing.len() + 1) as usize, n);
    assert(parse_line(line, n) == Ok::<EnvelopeView, KernelErrorView>(env));
    assert(strip_cr(line) == line);
    if let Some(o) = env.op {
        lemma_ops_of_find(existing, o);
    }
    let issues = envelope_issues(n, line, env, t, None, deep);
    assert(issues =~= Seq::<IssueView>::empty());
}


/// The ledger text after `steps` appends, each a draft and the stamp it
/// gets, starting from `raw`: each step adds what its append returns to
/// write, and nothing when it fails or gives back an earlier event.
pub open spec fn ledger_after(raw: Seq<char>, steps: Seq<(DraftView, Seq<char>)>) -> Seq<char>
    decreases steps.len(),
{
    if steps.len() == 0 {
        raw
    } else {
        let before = ledger_after(raw, steps.drop_last());
        match append_outcome(before, steps.last().0, steps.last().1) {
            Ok(a) => match a.text {
                Some(t) => before + t,
                None => before,
            },
            Err(_) => before,
        }
    }
}

/// How many of `steps` wrote a line.
pub open spec fn lines_written(raw: Seq<char>, steps: Seq<(DraftView, Seq<char>)>) -> nat
    decreases steps.len(),
{
    if steps.len() == 0 {
        0
    } else {
        let before = ledger_after(raw, steps.drop_last());
        lines_written(raw, steps.drop_last()) + match append_outcome(before, steps.last().0, steps.last().1) {
            Ok(a) => if a.text is Some { 1nat } else { 0nat },
            Err(_) => 0nat,
        }
    }
}

/// An append of `d` stamped `ts` to `raw` that writes nothing, or writes a
/// line that reads back as the envelope it was made from (which rests on
/// `serde_json` reading canonical text back) and whose body keeps its
/// numbers on one line.
pub open spec fn reads_back_if_written(raw: Seq<char>, d: DraftView, ts: Seq<char>) -> bool {
    match append_outcome(raw, d, ts) {
        Ok(a) => a.text is Some ==> {
            &&& numbers_single_line(d.body)
            &&& parse_line(envelope_line(a.envelope), (events_of(raw)->Ok_0.len() + 1) as usize)
                == Ok::<EnvelopeView, KernelErrorView>(a.envelope)
        },
        Err(_) => true,
    }
}

/// A ledger file made empty and since then changed only by appends, each
/// of which wrote nothing or a line that reads back as written, passes
/// `verify` (without evidence checks) and holds one event per line written.
#[verifier::spinoff_prover]
pub proof fn law_appends_keep_new_ledger_verified(steps: Seq<(DraftView, Seq<char>)>, deep: bool)
    requires
        forall|i: int| 0 <= i < steps.len() ==> reads_back_if_written(
            ledger_after(Seq::empty(), #[trigger] steps.take(i)), steps[i].0, steps[i].1),
    ensures
        verify_tally(verify_lines(ledger_after(Seq::empty(), steps)), None, deep).issues.len() == 0,
        verify_tally(verify_lines(ledger_after(Seq::empty(), steps)), None, deep).count
            == lines_written(Seq::empty(), steps),
    decreases steps.len(),
{
    if steps.len() == 0 {
        let e = Seq::<char>::empty();
        assert(pieces(e, '\n') == seq![Seq::<char>::empty()]);
        assert(verify_lines(e) =~= Seq::<Seq<char>>::empty());
    } else {
        let prior = steps.drop_last();
        assert forall|i: int| 0 <= i < prior.len() implies reads_back_if_written(
            ledger_after(Seq::empty(), #[trigger] prior.take(i)), prior[i].0, prior[i].1) by {
            assert(prior.take(i) =~= steps.take(i));
            assert(prior[i] == steps[i]);
        }
        law_appends_keep_new_ledger_verified(prior, deep);
        let k = prior.len() as int;
        assert(steps.take(k) =~= prior);
        assert(steps[k] == steps.last());
        assert(reads_back_if_written(ledger_after(Seq::empty(), steps.take(k)), steps[k].0, steps[k].1));
        lemma_step_keeps_verified(ledger_after(Seq::empty(), prior), steps.last().0, steps.last().1, deep);
    }
}

/// One step of `law_appends_keep_new_ledger_verified`.
#[verifier::spinoff_prover]
proof fn lemma_step_keeps_verified(before: Seq<char>, d: DraftView, ts: Seq<char>, deep: bool)
    requires
        verify_tally(verify_lines(before), None, deep).issues.len() == 0,
        reads_back_if_written(before, d, ts),
    ensures
        ({
            let (after, n) = match append_outcome(before, d, ts) {
                Ok(a) => match a.text {
                    Some(t) => (before + t, 1nat),
                    None => (before, 0nat),
                },
                Err(_) => (before, 0nat),
            };
            &&& verify_tally(verify_lines(after), None, deep).issues.len() == 0
            &&& verify_tally(verify_lines(after), None, deep).count == verify_tally(verify_lines(before), None, deep).count + n
        }),
{
    if let Ok(a) = append_outcome(before, d, ts) {
        if a.text is Some {
            law_append_keeps_ledger_verified(before, d, ts, deep);
        }
    }
}

/// When `verify` finds nothing, the lines the events are read from are the
/// lines `verify` read.
proof fn lemma_clean_file_lines(raw: Seq<char>, deep: bool)
    requires
        verify_tally(verify_lines(raw), None, deep).issues.len() == 0,
    ensures
        file_lines(raw) == verify_lines(raw),
{
    let vl = verify_lines(raw);
    lemma_clean_tally(vl, deep);
    let p = pieces(raw, '\n');
    lemma_pieces_nonempty(raw, '\n');
    let stripped = p.drop_last().map_values(|l: Seq<char>| strip_cr(l));
    assert(stripped =~= p.drop_last()) by {
        if p.last().len() == 0 {
            assert(vl == p.drop_last());
            assert forall|i: int| 0 <= i < p.drop_last().len() implies #[trigger] stripped[i] == p.drop_last()[i] by {
                assert(vl[i] == p.drop_last()[i]);
            }
        } else {
            assert(vl == p);
            assert forall|i: int| 0 <= i < p.drop_last().len() implies #[trigger] stripped[i] == p.drop_last()[i] by {
                assert(vl[i] == p[i]);
            }
        }
    }
    assert(file_lines(raw) =~= vl) by {
        if p.last().len() > 0 {
            assert(p.drop_last().push(p.last()) =~= p);
        }
    }
}

/// When `verify` finds nothing, reading the events succeeds, and finds as
/// many as `verify` counted.
pub proof fn law_clean_ledger_reads(raw: Seq<char>, deep: bool)
    requires
        verify_tally(verify_lines(raw), None, deep).issues.len() == 0,
    ensures
        events_of(raw) is Ok,
        events_of(raw)->Ok_0.len() == verify_tally(verify_lines(raw), None, deep).count,
{
    lemma_clean_file_lines(raw, deep);
    lemma_clean_tally(verify_lines(raw), deep);
}


/// An append only ever adds at the end: when it has text to write, that
/// text is the new event's canonical line and a newline (after a newline
/// of its own when the file does not end with one), so the old text stays
/// the start of the file; an append that fails, or gives back an earlier
/// event, has nothing to write.
pub proof fn law_append_only_adds(raw: Seq<char>, d: DraftView, ts: Seq<char>)
    ensures
        match append_outcome(raw, d, ts) {
            Ok(a) => match a.text {
                Some(t) => t == appended_text(raw, envelope_line(a.envelope))
                    && (raw + t).take(raw.len() as int) == raw
                    && (raw + t).last() == '\n',
                None => true,
            },
            Err(_) => true,
        },
{
    if let Ok(a) = append_outcome(raw, d, ts) {
        if let Some(t) = a.text {
            assert((raw + t).take(raw.len() as int) =~= raw);
        }
    }
}


// ---- deep and shallow checks ----

/// An issue a check without `deep` can report too: any but a hash that does
/// not match and a file that could not be read.
pub open spec fn shallow_issue(i: IssueView) -> bool {
    i.class != "evidence-hash"@ && i.class != "evidence-read"@
}

pub open spec fn shallow_pred() -> spec_fn(IssueView) -> bool {
    |i: IssueView| shallow_issue(i)
}

/// The issues of `s` a check without `deep` can report, in order.
pub open spec fn shallow_issues(s: Seq<IssueView>) -> Seq<IssueView> {
    s.filter(shallow_pred())
}

proof fn lemma_shallow_empty()
    ensures
        shallow_issues(Seq::<IssueView>::empty()) == Seq::<IssueView>::empty(),
{
    reveal(Seq::filter);
}

proof fn lemma_shallow_unit(x: IssueView)
    ensures
        shallow_issues(seq![x]) == if shallow_issue(x) { seq![x] } else { Seq::<IssueView>::empty() },
{
    reveal(Seq::filter);
    let p = shallow_pred();
    assert(p(x) == shallow_issue(x));
    assert(seq![x].drop_last() =~= Seq::<IssueView>::empty());
    assert(seq![x].last() == x);
    lemma_shallow_empty();
    assert(Seq::<IssueView>::empty().push(x) =~= seq![x]);
}

proof fn lemma_shallow_add(a: Seq<IssueView>, b: Seq<IssueView>)
    ensures
        shallow_issues(a + b) == shallow_issues(a) + shallow_issues(b),
{
    Seq::filter_distributes_over_add(a, b, shallow_pred());
}

/// Which classes a check without `deep` reports too.
proof fn lemma_issue_classes()
    ensures
        shallow_issue(issue(0, "validation"@, Seq::empty())),
        forall|n: usize, m: Seq<char>| shallow_issue(issue(n, "validation"@, m)),
        forall|n: usize, m: Seq<char>| shallow_issue(issue(n, "non-canonical"@, m)),
        forall|n: usize, m: Seq<char>| shallow_issue(issue(n, "seq"@, m)),
        forall|n: usize, m: Seq<char>| shallow_issue(issue(n, "chain"@, m)),
        forall|n: usize, m: Seq<char>| shallow_issue(issue(n, "op-duplicate"@, m)),
        forall|n: usize, m: Seq<char>| shallow_issue(issue(n, "empty-line"@, m)),
        forall|n: usize, m: Seq<char>| shallow_issue(issue(n, "parse"@, m)),
        forall|n: usize, m: Seq<char>| shallow_issue(issue(n, "evidence-invalid"@, m)),
        forall|n: usize, m: Seq<char>| shallow_issue(issue(n, "evidence-missing"@, m)),
        forall|n: usize, m: Seq<char>| !shallow_issue(issue(n, "evidence-hash"@, m)),
        forall|n: usize, m: Seq<char>| !shallow_issue(issue(n, "evidence-read"@, m)),
{
    reveal_strlit("validation");
    reveal_strlit("non-canonical");
    reveal_strlit("seq");
    reveal_strlit("chain");
    reveal_strlit("op-duplicate");
    reveal_strlit("empty-line");
    reveal_strlit("parse");
    reveal_strlit("evidence-invalid");
    reveal_strlit("evidence-missing");
    reveal_strlit("evidence-hash");
    reveal_strlit("evidence-read");
    assert("non-canonical"@[0] != "evidence-hash"@[0]);
    assert("non-canonical"@[0] != "evidence-read"@[0]);
    assert("evidence-hash"@[9] != "evidence-read"@[9]);
}

/// A `when` of a class a check without `deep` reports keeps its issue.
proof fn lemma_shallow_when(c: bool, i: IssueView)
    requires
        shallow_issue(i),
    ensures
        shallow_issues(when(c, i)) == when(c, i),
{
    if c {
        lemma_shallow_unit(i);
    } else {
        lemma_shallow_empty();
    }
}

proof fn lemma_shallow_entry(line_no: usize, e: EvidenceView, probes: Seq<ProbeView>)
    ensures
        entry_issues(line_no, e, probes, false) == shallow_issues(entry_issues(line_no, e, probes, true)),
{
    lemma_issue_classes();
    let t = entry_issues(line_no, e, probes, true);
    if t.len() == 0 {
        lemma_shallow_empty();
        assert(t =~= Seq::<IssueView>::empty());
    } else {
        lemma_shallow_unit(t[0]);
        assert(t =~= seq![t[0]]);
    }
}

proof fn lemma_shallow_evidence(line_no: usize, es: Seq<EvidenceView>, probes: Seq<ProbeView>)
    ensures
        evidence_issues(line_no, es, probes, false) == shallow_issues(evidence_issues(line_no, es, probes, true)),
    decreases es.len(),
{
    if es.len() == 0 {
        lemma_shallow_empty();
    } else {
        lemma_shallow_evidence(line_no, es.drop_last(), probes);
        lemma_shallow_entry(line_no, es.last(), probes);
        lemma_shallow_add(evidence_issues(line_no, es.drop_last(), probes, true),
            entry_issues(line_no, es.last(), probes, true));
    }
}

proof fn lemma_shallow_envelope(
    line_no: usize,
    line: Seq<char>,
    env: EnvelopeView,
    shallow: Tally,
    deep: Tally,
    probes: Option<Seq<ProbeView>>,
)
    requires
        shallow.expected == deep.expected,
        shallow.prev == deep.prev,
        shallow.ops == deep.ops,
    ensures
        envelope_issues(line_no, line, env, shallow, probes, false)
            == shallow_issues(envelope_issues(line_no, line, env, deep, probes, true)),
{
    lemma_issue_classes();
    let a = match envelope_check(env) {
        Err(e) => seq![issue(line_no, "validation"@, e.message())],
        Ok(_) => Seq::<IssueView>::empty(),
    };
    let b = when(envelope_line(env) != line, issue(line_no, "non-canonical"@, "line is not the canonical serialization of its content"@));
    let c = when(env.seq != deep.expected, issue(line_no, "seq"@,
        "expected seq "@ + decimal(deep.expected as nat) + ", got "@ + decimal(env.seq as nat)));
    let d = when(env.prev != deep.prev, issue(line_no, "chain"@, "prev does not match previous id"@));
    let o = match env.op {
        Some(op) => match last_op_seq(deep.ops, op) {
            Some(first) => seq![issue(line_no, "op-duplicate"@, "op "@ + op + " already used at seq "@ + decimal(first as nat))],
            None => Seq::<IssueView>::empty(),
        },
        None => Seq::<IssueView>::empty(),
    };
    let ev_deep = match probes {
        Some(ps) => evidence_issues(line_no, env.evidence, ps, true),
        None => Seq::<IssueView>::empty(),
    };
    match envelope_check(env) {
        Err(e) => lemma_shallow_unit(issue(line_no, "validation"@, e.message())),
        Ok(_) => lemma_shallow_empty(),
    }
    lemma_shallow_when(envelope_line(env) != line, issue(line_no, "non-canonical"@, "line is not the canonical serialization of its content"@));
    lemma_shallow_when(env.seq != deep.expected, issue(line_no, "seq"@,
        "expected seq "@ + decimal(deep.expected as nat) + ", got "@ + decimal(env.seq as nat)));
    lemma_shallow_when(env.prev != deep.prev, issue(line_no, "chain"@, "prev does not match previous id"@));
    if o.len() == 0 {
        lemma_shallow_empty();
        assert(o =~= Seq::<IssueView>::empty());
    } else {
        lemma_shallow_unit(o[0]);
        assert(o =~= seq![o[0]]);
    }
    match probes {
        Some(ps) => lemma_shallow_evidence(line_no, env.evidence, ps),
        None => lemma_shallow_empty(),
    }
    lemma_shallow_add(a, b);
    lemma_shallow_add(a + b, c);
    lemma_shallow_add(a + b + c, d);
    lemma_shallow_add(a + b + c + d, o);
    lemma_shallow_add(a + b + c + d + o, ev_deep);
}

/// With the same findings at the evidence paths, `verify` without `deep`
/// reports exactly what a deep `verify` reports, less the hashes that do
/// not match and the files that could not be read, and counts the same
/// events: the deep check only adds those two classes of issue.
#[verifier::spinoff_prover]
pub proof fn law_deep_only_adds_hash_checks(lines: Seq<Seq<char>>, probes: Option<Seq<ProbeView>>)
    ensures
        verify_tally(lines, probes, false).issues == shallow_issues(verify_tally(lines, probes, true).issues),
        verify_tally(lines, probes, false).count == verify_tally(lines, probes, true).count,
        verify_tally(lines, probes, false).expected == verify_tally(lines, probes, true).expected,
        verify_tally(lines, probes, false).prev == verify_tally(lines, probes, true).prev,
        verify_tally(lines, probes, false).ops == verify_tally(lines, probes, true).ops,
    decreases lines.len(),
{
    if lines.len() == 0 {
        lemma_shallow_empty();
    } else {
        let prior = lines.drop_last();
        law_deep_only_adds_hash_checks(prior, probes);
        let ts = verify_tally(prior, probes, false);
        let td = verify_tally(prior, probes, true);
        let n = lines.len() as usize;
        let raw_line = lines.last();
        let line = strip_cr(raw_line);
        lemma_issue_classes();
        let head = when(line != raw_line, issue(n, "non-canonical"@,
            "line ends with CR: ledger must be LF-only (check git autocrlf)"@));
        lemma_shallow_when(line != raw_line, issue(n, "non-canonical"@,
            "line ends with CR: ledger must be LF-only (check git autocrlf)"@));
        lemma_shallow_add(td.issues, head);
        if line.len() == 0 {
            let x = seq![issue(n, "empty-line"@, "empty line in ledger"@)];
            lemma_shallow_unit(issue(n, "empty-line"@, "empty line in ledger"@));
            lemma_shallow_add(td.issues + head, x);
        } else {
            match parse_line(line, n) {
                Err(e) => {
                    lemma_shallow_unit(issue(n, "parse"@, e.message()));
                    lemma_shallow_add(td.issues + head, seq![issue(n, "parse"@, e.message())]);
                },
                Ok(env) => {
                    lemma_shallow_envelope(n, line, env, ts, td, probes);
                    lemma_shallow_add(td.issues + head, envelope_issues(n, line, env, td, probes, true));
                },
            }
        }
    }
}

// ---- tampering ----

/// Issues only accumulate: what `verify` reports on the first lines is
/// the start of what it reports on all of them.
#[verifier::spinoff_prover]
proof fn lemma_issues_grow(lines: Seq<Seq<char>>, i: int, deep: bool)
    requires
        0 <= i <= lines.len(),
    ensures
        ({
            let part = verify_tally(lines.take(i), None, deep).issues;
            let all = verify_tally(lines, None, deep).issues;
            part.len() <= all.len() && all.take(part.len() as int) == part
        }),
    decreases lines.len() - i,
{
    if i == lines.len() {
        assert(lines.take(i) =~= lines);
        let all = verify_tally(lines, None, deep).issues;
        assert(all.take(all.len() as int) =~= all);
    } else {
        lemma_issues_grow(lines, i + 1, deep);
        let next = lines.take(i + 1);
        assert(next.drop_last() =~= lines.take(i));
        let part = verify_tally(lines.take(i), None, deep).issues;
        let mid = verify_tally(next, None, deep).issues;
        let all = verify_tally(lines, None, deep).issues;
        assert(mid.take(part.len() as int) =~= part);
        assert(all.take(part.len() as int) =~= mid.take(part.len() as int));
    }
}

/// In a ledger `verify` passes, the line at position `i` reads as the
/// event with `seq` `i`, and after `n` lines the next `seq` expected is `n`.
#[verifier::spinoff_prover]
#[verifier::rlimit(60)]
proof fn lemma_clean_seqs(lines: Seq<Seq<char>>, deep: bool)
    requires
        verify_tally(lines, None, deep).issues.len() == 0,
        lines.len() < u64::MAX,
    ensures
        forall|i: int| 0 <= i < lines.len() ==> parse_line(#[trigger] lines[i], (i + 1) as usize) is Ok
            && parse_line(lines[i], (i + 1) as usize)->Ok_0.seq == i,
        verify_tally(lines, None, deep).expected == lines.len(),
    decreases lines.len(),
{
    lemma_clean_tally(lines, deep);
    if lines.len() > 0 {
        let prior = lines.drop_last();
        let t0 = verify_tally(prior, None, deep);
        let n = lines.len() as usize;
        assert(verify_tally(lines, None, deep) == verify_step(t0, n, lines.last(), None, deep));
        assert(t0.issues.len() == 0);
        lemma_clean_seqs(prior, deep);
        let env = parse_line(lines.last(), n)->Ok_0;
        assert(strip_cr(lines.last()) == lines.last());
        assert(lines.last() == lines[lines.len() - 1]);
        assert(env.seq == t0.expected) by {
            if env.seq != t0.expected {
                let issues = envelope_issues(n, lines.last(), env, t0, None, deep);
                assert(issues.len() > 0);
            }
        }
        assert forall|i: int| 0 <= i < lines.len() implies parse_line(#[trigger] lines[i], (i + 1) as usize) is Ok
            && parse_line(lines[i], (i + 1) as usize)->Ok_0.seq == i by {
            if i < prior.len() {
                assert(lines[i] == prior[i]);
            }
        }
    }
}

/// Some issue of `issues` has class `class`.
pub open spec fn has_class(issues: Seq<IssueView>, class: Seq<char>) -> bool {
    exists|j: int| 0 <= j < issues.len() && (#[trigger] issues[j]).class == class
}

/// When the first `m` lines are those of a ledger `verify` passes and the
/// next one is a line of it from another position, `verify` reports a
/// `seq` issue.
#[verifier::spinoff_prover]
#[verifier::rlimit(60)]
proof fn lemma_misplaced_line(lines: Seq<Seq<char>>, other: Seq<Seq<char>>, m: int, q: int, deep: bool)
    requires
        verify_tally(lines, None, deep).issues.len() == 0,
        lines.len() < u64::MAX,
        0 <= m < other.len(),
        m <= lines.len(),
        other.take(m) == lines.take(m),
        0 <= q < lines.len(),
        q != m,
        other[m] == lines[q],
    ensures
        has_class(verify_tally(other, None, deep).issues, "seq"@),
{
    lemma_clean_tally(lines, deep);
    lemma_issues_grow(lines, m, deep);
    let prefix = lines.take(m);
    assert(verify_tally(prefix, None, deep).issues.len() == 0);
    assert(prefix.len() < u64::MAX);
    lemma_clean_seqs(prefix, deep);
    lemma_clean_seqs(lines, deep);
    let t = verify_tally(prefix, None, deep);
    assert(t.expected == m);
    let line = lines[q];
    let n = (m + 1) as usize;
    lemma_parse_line_number(line, (q + 1) as usize, n);
    let env = parse_line(line, n)->Ok_0;
    assert(env.seq == q);
    let next = other.take(m + 1);
    assert(next.drop_last() =~= other.take(m));
    assert(next.last() == line);
    let stepped = verify_tally(next, None, deep);
    assert(stepped == verify_step(t, n, line, None, deep));
    assert(strip_cr(line) == line);
    let head = t.issues;
    let e1 = match envelope_check(env) {
        Err(e) => seq![issue(n, "validation"@, e.message())],
        Ok(_) => Seq::<IssueView>::empty(),
    };
    let e2 = when(envelope_line(env) != line, issue(n, "non-canonical"@, "line is not the canonical serialization of its content"@));
    let w: int = (head.len() + e1.len() + e2.len()) as int;
    assert(stepped.issues[w].class == "seq"@);
    lemma_issues_grow(other, m + 1, deep);
    let all = verify_tally(other, None, deep).issues;
    assert(all[w] == stepped.issues[w]);
}

/// Deleting any line but the last from a ledger `verify` passes is
/// reported: the line after the gap does not carry the `seq` expected.
#[verifier::spinoff_prover]
#[verifier::rlimit(50)]
pub proof fn law_deleted_line_is_flagged(lines: Seq<Seq<char>>, k: int, deep: bool)
    requires
        verify_tally(lines, None, deep).issues.len() == 0,
        lines.len() < u64::MAX,
        0 <= k < lines.len() - 1,
    ensures
        has_class(verify_tally(lines.remove(k), None, deep).issues, "seq"@),
{
    let other = lines.remove(k);
    assert(other.take(k) =~= lines.take(k));
    assert(other[k] == lines[k + 1]);
    lemma_misplaced_line(lines, other, k, k + 1, deep);
}

/// Repeating a line of a ledger `verify` passes right after it is
/// reported: the copy does not carry the `seq` expected.
#[verifier::spinoff_prover]
#[verifier::rlimit(50)]
pub proof fn law_duplicated_line_is_flagged(lines: Seq<Seq<char>>, k: int, deep: bool)
    requires
        verify_tally(lines, None, deep).issues.len() == 0,
        lines.len() < u64::MAX,
        0 <= k < lines.len(),
    ensures
        has_class(verify_tally(lines.insert(k + 1, lines[k]), None, deep).issues, "seq"@),
{
    let other = lines.insert(k + 1, lines[k]);
    assert(other.take(k + 1) =~= lines.take(k + 1));
    assert(other[k + 1] == lines[k]);
    lemma_misplaced_line(lines, other, k + 1, k, deep);
}

/// Swapping two neighbouring lines of a ledger `verify` passes is
/// reported: the first of them is out of `seq` order.
#[verifier::spinoff_prover]
#[verifier::rlimit(50)]
pub proof fn law_swapped_lines_are_flagged(lines: Seq<Seq<char>>, k: int, deep: bool)
    requires
        verify_tally(lines, None, deep).issues.len() == 0,
        lines.len() < u64::MAX,
        0 <= k < lines.len() - 1,
    ensures
        has_class(verify_tally(lines.update(k, lines[k + 1]).update(k + 1, lines[k]), None, deep).issues, "seq"@),
{
    let other = lines.update(k, lines[k + 1]).update(k + 1, lines[k]);
    assert(other.take(k) =~= lines.take(k));
    assert(other[k] == lines[k + 1]);
    lemma_misplaced_line(lines, other, k, k + 1, deep);
}

} // verus!
