//! Views derived from the ledger: loops, the morning brief and the health
//! bells. Everything here is disposable; the ledger is the only authority.
use vstd::prelude::*;
use crate::text::{chars_of, owned, str_eq, opt_view, opt_clone, seq_lt, compare_str};
use crate::json::JsonValue;
use crate::event::{Envelope, EnvelopeView};
use crate::time::{days_between, days_since};
use crate::text::{concat, decimal, signed_decimal, u64_decimal, i64_decimal};

verus! {

/// Where a loop stands.
#[derive(Debug, Clone, Copy, PartialEq, Eq, Structural)]
pub enum LoopStatus {
    Active,
    Parked,
    Closed,
    Killed,
}

pub open spec fn status_label(s: LoopStatus) -> Seq<char> {
    match s {
        LoopStatus::Active => "active"@,
        LoopStatus::Parked => "parked"@,
        LoopStatus::Closed => "closed"@,
        LoopStatus::Killed => "killed"@,
    }
}

impl LoopStatus {
    /// The lowercase name of the status.
    pub fn label(&self) -> (r: &'static str)
        ensures
            r@ == status_label(*self),
    {
        match self {
            LoopStatus::Active => "active",
            LoopStatus::Parked => "parked",
            LoopStatus::Closed => "closed",
            LoopStatus::Killed => "killed",
        }
    }
}

/// A loop: a unit of work that keeps asking for attention until closed.
#[derive(Debug, Clone)]
pub struct LoopState {
    pub slug: String,
    pub title: String,
    pub kind: String,
    pub status: LoopStatus,
    pub next_action: Option<String>,
    pub opened_ts: String,
    pub last_activity_ts: String,
    pub last_note: Option<String>,
    pub touch_count: u64,
}

pub struct LoopStateView {
    pub slug: Seq<char>,
    pub title: Seq<char>,
    pub kind: Seq<char>,
    pub status: LoopStatus,
    pub next_action: Option<Seq<char>>,
    pub opened_ts: Seq<char>,
    pub last_activity_ts: Seq<char>,
    pub last_note: Option<Seq<char>>,
    pub touch_count: nat,
}

impl View for LoopState {
    type V = LoopStateView;

    open spec fn view(&self) -> LoopStateView {
        LoopStateView {
            slug: self.slug@,
            title: self.title@,
            kind: self.kind@,
            status: self.status,
            next_action: opt_view(self.next_action),
            opened_ts: self.opened_ts@,
            last_activity_ts: self.last_activity_ts@,
            last_note: opt_view(self.last_note),
            touch_count: self.touch_count as nat,
        }
    }
}

impl LoopState {
    /// A copy of the state.
    pub fn copy(&self) -> (r: LoopState)
        ensures
            r@ == self@,
    {
        LoopState {
            slug: self.slug.clone(),
            title: self.title.clone(),
            kind: self.kind.clone(),
            status: self.status,
            next_action: opt_clone(&self.next_action),
            opened_ts: self.opened_ts.clone(),
            last_activity_ts: self.last_activity_ts.clone(),
            last_note: opt_clone(&self.last_note),
            touch_count: self.touch_count,
        }
    }
}

/// The verb of a `loop.*` event type (what follows `loop.`).
pub open spec fn loop_verb(t: Seq<char>) -> Option<Seq<char>> {
    if t.len() >= 5 && t.take(5) == "loop."@ {
        Some(t.skip(5))
    } else {
        None
    }
}

/// A loop opened by an event at `ts`, before the event's fields are applied.
pub open spec fn fresh_loop(slug: Seq<char>, ts: Seq<char>) -> LoopStateView {
    LoopStateView {
        slug,
        title: Seq::empty(),
        kind: "project"@,
        status: LoopStatus::Active,
        next_action: None,
        opened_ts: ts,
        last_activity_ts: ts,
        last_note: None,
        touch_count: 0,
    }
}

pub open spec fn or_keep(o: Option<Seq<char>>, d: Seq<char>) -> Seq<char> {
    match o {
        Some(v) => v,
        None => d,
    }
}

pub open spec fn or_keep_opt(o: Option<Seq<char>>, d: Option<Seq<char>>) -> Option<Seq<char>> {
    match o {
        Some(v) => Some(v),
        None => d,
    }
}

/// What one event does to the loops. `loop.<verb>` events name their loop in
/// `body.slug`; any other event counts as activity on the loop named by
/// `body.loop`. Events of the wrong shape change nothing.
pub open spec fn fold_step(m: Map<Seq<char>, LoopStateView>, e: EnvelopeView) -> Map<Seq<char>, LoopStateView> {
    let verb = loop_verb(e.event_type);
    let slug = match verb {
        Some(_) => e.body.get_str("slug"@),
        None => e.body.get_str("loop"@),
    };
    match slug {
        None => m,
        Some(slug) => match verb {
            Some(v) => if v == "open"@ {
                let base = if m.contains_key(slug) { m[slug] } else { fresh_loop(slug, e.ts) };
                m.insert(
                    slug,
                    LoopStateView {
                        title: or_keep(e.body.get_str("title"@), base.title),
                        kind: or_keep(e.body.get_str("kind"@), base.kind),
                        next_action: or_keep_opt(e.body.get_str("next"@), base.next_action),
                        status: LoopStatus::Active,
                        last_activity_ts: e.ts,
                        ..base
                    },
                )
            } else if !m.contains_key(slug) {
                m
            } else {
                let s = LoopStateView { last_activity_ts: e.ts, ..m[slug] };
                m.insert(
                    slug,
                    if v == "next"@ {
                        LoopStateView { next_action: or_keep_opt(e.body.get_str("action"@), s.next_action), ..s }
                    } else if v == "touch"@ {
                        LoopStateView {
                            touch_count: s.touch_count + 1,
                            last_note: or_keep_opt(e.body.get_str("note"@), s.last_note),
                            ..s
                        }
                    } else if v == "close"@ {
                        LoopStateView { status: LoopStatus::Closed, ..s }
                    } else if v == "park"@ {
                        LoopStateView { status: LoopStatus::Parked, ..s }
                    } else if v == "kill"@ {
                        LoopStateView { status: LoopStatus::Killed, ..s }
                    } else {
                        s
                    },
                )
            },
            None => if m.contains_key(slug) {
                m.insert(slug, LoopStateView { last_activity_ts: e.ts, touch_count: m[slug].touch_count + 1, ..m[slug] })
            } else {
                m
            },
        },
    }
}

/// The loops after the events, in order.
pub open spec fn fold_spec(events: Seq<EnvelopeView>) -> Map<Seq<char>, LoopStateView>
    decreases events.len(),
{
    if events.len() == 0 {
        Map::empty()
    } else {
        fold_step(fold_spec(events.drop_last()), events.last())
    }
}

pub open spec fn map_lookup(m: Map<Seq<char>, LoopStateView>, k: Seq<char>) -> Option<LoopStateView> {
    if m.contains_key(k) { Some(m[k]) } else { None }
}

/// A `loop.open` event whose body names `slug` leaves that loop active,
/// whatever came before it: opening works on a new slug and reopens a
/// parked, closed or killed one.
pub proof fn law_open_makes_active(evs: Seq<EnvelopeView>, e: EnvelopeView, slug: Seq<char>)
    requires
        e.event_type == "loop.open"@,
        e.body.get_str("slug"@) == Some(slug),
    ensures
        map_lookup(fold_spec(evs.push(e)), slug) matches Some(st) && st.status == LoopStatus::Active,
{
    reveal_strlit("loop.open");
    reveal_strlit("loop.");
    reveal_strlit("open");
    assert(evs.push(e).drop_last() =~= evs);
    assert(e.event_type.take(5) =~= "loop."@);
    assert(e.event_type.skip(5) =~= "open"@);
}

/// The verb literals, told apart.
proof fn lemma_verbs()
    ensures
        loop_verb("loop.open"@) == Some("open"@),
        loop_verb("loop.next"@) == Some("next"@),
        loop_verb("loop.touch"@) == Some("touch"@),
        loop_verb("loop.close"@) == Some("close"@),
        loop_verb("loop.park"@) == Some("park"@),
        loop_verb("loop.kill"@) == Some("kill"@),
        "loop.open"@.take(5) == "loop."@,
        "loop.next"@.take(5) == "loop."@,
        "loop.touch"@.take(5) == "loop."@,
        "loop.close"@.take(5) == "loop."@,
        "loop.park"@.take(5) == "loop."@,
        "loop.kill"@.take(5) == "loop."@,
        "loop.open"@.skip(5) == "open"@,
        "loop.next"@.skip(5) == "next"@,
        "loop.touch"@.skip(5) == "touch"@,
        "loop.close"@.skip(5) == "close"@,
        "loop.park"@.skip(5) == "park"@,
        "loop.kill"@.skip(5) == "kill"@,
        "next"@ != "open"@,
        "touch"@ != "open"@ && "touch"@ != "next"@,
        "close"@ != "open"@ && "close"@ != "next"@ && "close"@ != "touch"@,
        "park"@ != "open"@ && "park"@ != "next"@ && "park"@ != "touch"@ && "park"@ != "close"@,
        "kill"@ != "open"@ && "kill"@ != "next"@ && "kill"@ != "touch"@ && "kill"@ != "close"@ && "kill"@ != "park"@,
{
    reveal_strlit("loop.");
    reveal_strlit("loop.open");
    reveal_strlit("loop.next");
    reveal_strlit("loop.touch");
    reveal_strlit("loop.close");
    reveal_strlit("loop.park");
    reveal_strlit("loop.kill");
    reveal_strlit("open");
    reveal_strlit("next");
    reveal_strlit("touch");
    reveal_strlit("close");
    reveal_strlit("park");
    reveal_strlit("kill");
    assert("loop.open"@.take(5) =~= "loop."@);
    assert("loop.next"@.take(5) =~= "loop."@);
    assert("loop.touch"@.take(5) =~= "loop."@);
    assert("loop.close"@.take(5) =~= "loop."@);
    assert("loop.park"@.take(5) =~= "loop."@);
    assert("loop.kill"@.take(5) =~= "loop."@);
    assert("loop.open"@.skip(5) =~= "open"@);
    assert("loop.next"@.skip(5) =~= "next"@);
    assert("loop.touch"@.skip(5) =~= "touch"@);
    assert("loop.close"@.skip(5) =~= "close"@);
    assert("loop.park"@.skip(5) =~= "park"@);
    assert("loop.kill"@.skip(5) =~= "kill"@);
    assert("next"@[0] != "open"@[0]);
    assert("touch"@[0] != "open"@[0] && "touch"@[0] != "next"@[0]);
    assert("close"@[0] != "open"@[0] && "close"@[0] != "next"@[0] && "close"@[0] != "touch"@[0]);
    assert("park"@[0] != "open"@[0] && "park"@[0] != "next"@[0] && "park"@[0] != "touch"@[0] && "park"@[0] != "close"@[0]);
    assert("kill"@[0] != "open"@[0] && "kill"@[0] != "next"@[0] && "kill"@[0] != "touch"@[0] && "kill"@[0] != "close"@[0]
        && "kill"@[0] != "park"@[0]);
}

/// `loop.close`, `loop.park` and `loop.kill` naming a loop that exists
/// leave it closed, parked or killed, whatever its history (active, or
/// already in any other state); the event is its latest activity, it keeps
/// when it was opened, and every other loop stays as it was.
pub proof fn law_lifecycle_events_set_status(evs: Seq<EnvelopeView>, e: EnvelopeView, slug: Seq<char>)
    requires
        e.event_type == "loop.close"@ || e.event_type == "loop.park"@ || e.event_type == "loop.kill"@,
        e.body.get_str("slug"@) == Some(slug),
        fold_spec(evs).contains_key(slug),
    ensures
        map_lookup(fold_spec(evs.push(e)), slug) matches Some(st) && {
            &&& e.event_type == "loop.close"@ ==> st.status == LoopStatus::Closed
            &&& e.event_type == "loop.park"@ ==> st.status == LoopStatus::Parked
            &&& e.event_type == "loop.kill"@ ==> st.status == LoopStatus::Killed
            &&& st.last_activity_ts == e.ts
            &&& st.opened_ts == fold_spec(evs)[slug].opened_ts
        },
        forall|k: Seq<char>| k != slug ==> #[trigger] map_lookup(fold_spec(evs.push(e)), k) == map_lookup(fold_spec(evs), k),
{
    lemma_verbs();
    assert(evs.push(e).drop_last() =~= evs);
    assert(evs.push(e).last() == e);
    let m = fold_spec(evs);
    assert(fold_spec(evs.push(e)) == fold_step(m, e));
    let base = LoopStateView { last_activity_ts: e.ts, ..m[slug] };
    if e.event_type == "loop.close"@ {
        assert(fold_step(m, e) == m.insert(slug, LoopStateView { status: LoopStatus::Closed, ..base }));
    } else if e.event_type == "loop.park"@ {
        assert(fold_step(m, e) == m.insert(slug, LoopStateView { status: LoopStatus::Parked, ..base }));
    } else if e.event_type == "loop.kill"@ {
        assert(fold_step(m, e) == m.insert(slug, LoopStateView { status: LoopStatus::Killed, ..base }));
    } else if e.event_type == "loop.touch"@ && e.body.get_str("slug"@) == Some(slug) {
        assert(fold_step(m, e) == m.insert(slug, LoopStateView {
            touch_count: base.touch_count + 1,
            last_note: or_keep_opt(e.body.get_str("note"@), base.last_note),
            ..base
        }));
    } else if e.event_type == "loop.next"@ && e.body.get_str("slug"@) == Some(slug) {
        assert(fold_step(m, e) == m.insert(slug, LoopStateView {
            next_action: or_keep_opt(e.body.get_str("action"@), base.next_action),
            ..base
        }));
    } else {
        assert(loop_verb(e.event_type) is None);
    }
}

/// Activity on a loop that exists — `loop.touch` or `loop.next` naming it,
/// or any event outside `loop.*` whose `body.loop` names it — makes that
/// event its latest activity and leaves its status and opening time as they
/// were; every other loop stays as it was.
pub proof fn law_activity_resets_idleness(evs: Seq<EnvelopeView>, e: EnvelopeView, slug: Seq<char>)
    requires
        fold_spec(evs).contains_key(slug),
        ((e.event_type == "loop.touch"@ || e.event_type == "loop.next"@) && e.body.get_str("slug"@) == Some(slug))
            || (!(e.event_type.len() >= 5 && e.event_type.take(5) == "loop."@) && e.body.get_str("loop"@) == Some(slug)),
    ensures
        map_lookup(fold_spec(evs.push(e)), slug) matches Some(st) && {
            &&& st.last_activity_ts == e.ts
            &&& st.status == fold_spec(evs)[slug].status
            &&& st.opened_ts == fold_spec(evs)[slug].opened_ts
        },
        forall|k: Seq<char>| k != slug ==> #[trigger] map_lookup(fold_spec(evs.push(e)), k) == map_lookup(fold_spec(evs), k),
{
    lemma_verbs();
    assert(evs.push(e).drop_last() =~= evs);
    assert(evs.push(e).last() == e);
    let m = fold_spec(evs);
    assert(fold_spec(evs.push(e)) == fold_step(m, e));
    let base = LoopStateView { last_activity_ts: e.ts, ..m[slug] };
    if e.event_type == "loop.close"@ {
        assert(fold_step(m, e) == m.insert(slug, LoopStateView { status: LoopStatus::Closed, ..base }));
    } else if e.event_type == "loop.park"@ {
        assert(fold_step(m, e) == m.insert(slug, LoopStateView { status: LoopStatus::Parked, ..base }));
    } else if e.event_type == "loop.kill"@ {
        assert(fold_step(m, e) == m.insert(slug, LoopStateView { status: LoopStatus::Killed, ..base }));
    } else if e.event_type == "loop.touch"@ && e.body.get_str("slug"@) == Some(slug) {
        assert(fold_step(m, e) == m.insert(slug, LoopStateView {
            touch_count: base.touch_count + 1,
            last_note: or_keep_opt(e.body.get_str("note"@), base.last_note),
            ..base
        }));
    } else if e.event_type == "loop.next"@ && e.body.get_str("slug"@) == Some(slug) {
        assert(fold_step(m, e) == m.insert(slug, LoopStateView {
            next_action: or_keep_opt(e.body.get_str("action"@), base.next_action),
            ..base
        }));
    } else {
        assert(loop_verb(e.event_type) is None);
    }
}

/// `loop.touch` naming a loop counts one more touch and keeps its note
/// when it carries one; `loop.next` naming a loop replaces its next action
/// with the one it carries.
pub proof fn law_touch_and_next(evs: Seq<EnvelopeView>, e: EnvelopeView, slug: Seq<char>)
    requires
        fold_spec(evs).contains_key(slug),
        e.event_type == "loop.touch"@ || e.event_type == "loop.next"@,
        e.body.get_str("slug"@) == Some(slug),
    ensures
        map_lookup(fold_spec(evs.push(e)), slug) matches Some(st) && {
            &&& e.event_type == "loop.touch"@ ==> st.touch_count == fold_spec(evs)[slug].touch_count + 1
            &&& e.event_type == "loop.touch"@ && e.body.get_str("note"@) is Some ==> st.last_note == e.body.get_str("note"@)
            &&& e.event_type == "loop.next"@ && e.body.get_str("action"@) is Some ==> st.next_action == e.body.get_str("action"@)
        },
{
    lemma_verbs();
    assert(evs.push(e).drop_last() =~= evs);
    assert(evs.push(e).last() == e);
}

/// Events that name a loop not opened yet — any `loop.*` verb but `open`,
/// or activity through `body.loop` — change no loop.
pub proof fn law_unknown_loops_stay_unknown(evs: Seq<EnvelopeView>, e: EnvelopeView, slug: Seq<char>)
    requires
        !fold_spec(evs).contains_key(slug),
        ((e.event_type == "loop.next"@ || e.event_type == "loop.touch"@ || e.event_type == "loop.close"@
            || e.event_type == "loop.park"@ || e.event_type == "loop.kill"@) && e.body.get_str("slug"@) == Some(slug))
            || (!(e.event_type.len() >= 5 && e.event_type.take(5) == "loop."@) && e.body.get_str("loop"@) == Some(slug)),
    ensures
        fold_spec(evs.push(e)) == fold_spec(evs),
{
    lemma_verbs();
    assert(evs.push(e).drop_last() =~= evs);
    assert(evs.push(e).last() == e);
    if e.event_type.len() >= 5 && e.event_type.take(5) == "loop."@ {
        assert(loop_verb(e.event_type) is Some);
    } else {
        assert(loop_verb(e.event_type) is None);
    }
}

/// The state of loop `slug` in a list of loop states.
pub open spec fn find_loop(v: Seq<LoopStateView>, slug: Seq<char>) -> Option<LoopStateView>
    decreases v.len(),
{
    if v.len() == 0 {
        None
    } else if v.last().slug == slug {
        Some(v.last())
    } else {
        find_loop(v.drop_last(), slug)
    }
}

/// Slugs strictly increase.
pub open spec fn slugs_sorted(v: Seq<LoopStateView>) -> bool {
    forall|i: int, k: int| 0 <= i < k < v.len() ==> seq_lt(#[trigger] v[i].slug, #[trigger] v[k].slug)
}

pub open spec fn loop_views(v: Seq<LoopState>) -> Seq<LoopStateView> {
    Seq::new(v.len(), |i: int| v[i]@)
}

pub open spec fn envelope_views(v: Seq<Envelope>) -> Seq<EnvelopeView> {
    Seq::new(v.len(), |i: int| v[i]@)
}

proof fn lemma_find_at(v: Seq<LoopStateView>, idx: int)
    requires
        slugs_sorted(v),
        0 <= idx < v.len(),
    ensures
        find_loop(v, v[idx].slug) == Some(v[idx]),
    decreases v.len(),
{
    if idx != v.len() - 1 {
        crate::text::lemma_seq_lt_irreflexive(v[idx].slug);
        assert(seq_lt(v[idx].slug, v[v.len() - 1].slug));
        assert(v.drop_last()[idx] == v[idx]);
        lemma_find_at(v.drop_last(), idx);
    }
}

proof fn lemma_find_absent(v: Seq<LoopStateView>, k: Seq<char>)
    requires
        forall|j: int| 0 <= j < v.len() ==> (#[trigger] v[j]).slug != k,
    ensures
        find_loop(v, k) is None,
    decreases v.len(),
{
    if v.len() > 0 {
        assert(v[v.len() - 1].slug != k);
        assert forall|j: int| 0 <= j < v.drop_last().len() implies (#[trigger] v.drop_last()[j]).slug != k by {
            assert(v.drop_last()[j] == v[j]);
        }
        lemma_find_absent(v.drop_last(), k);
    }
}

proof fn lemma_find_cases(v: Seq<LoopStateView>, k: Seq<char>)
    requires
        slugs_sorted(v),
    ensures
        forall|j: int| 0 <= j < v.len() && (#[trigger] v[j]).slug == k ==> find_loop(v, k) == Some(v[j]),
        (forall|j: int| 0 <= j < v.len() ==> (#[trigger] v[j]).slug != k) ==> find_loop(v, k) is None,
{
    assert forall|j: int| 0 <= j < v.len() && (#[trigger] v[j]).slug == k implies find_loop(v, k) == Some(v[j]) by {
        lemma_find_at(v, j);
    }
    if forall|j: int| 0 <= j < v.len() ==> (#[trigger] v[j]).slug != k {
        lemma_find_absent(v, k);
    }
}

/// Index of the loop named `slug`, if any.
pub(crate) fn find_index(loops: &Vec<LoopState>, slug: &str) -> (r: Option<usize>)
    requires
        slugs_sorted(loop_views(loops@)),
    ensures
        r matches Some(i) ==> i < loops@.len() && loops@[i as int]@.slug == slug@
            && find_loop(loop_views(loops@), slug@) == Some(loops@[i as int]@),
        r is None ==> find_loop(loop_views(loops@), slug@) is None,
{
    let ghost v = loop_views(loops@);
    let mut i: usize = 0;
    while i < loops.len()
        invariant
            v == loop_views(loops@),
            slugs_sorted(v),
            i <= loops@.len(),
            forall|j: int| 0 <= j < i ==> (#[trigger] v[j]).slug != slug@,
        decreases loops@.len() - i,
    {
        assert(v[i as int] == loops@[i as int]@);
        if str_eq(loops[i].slug.as_str(), slug) {
            proof {
                lemma_find_at(v, i as int);
            }
            return Some(i);
        }
        i = i + 1;
    }
    proof {
        lemma_find_absent(v, slug@);
    }
    None
}

/// Stores `state` under its slug, replacing the state held there; slugs
/// stay strictly increasing.
fn upsert(loops: &mut Vec<LoopState>, state: LoopState)
    requires
        slugs_sorted(loop_views(old(loops)@)),
    ensures
        slugs_sorted(loop_views(final(loops)@)),
        forall|k: Seq<char>| #[trigger] find_loop(loop_views(final(loops)@), k) == if k == state@.slug {
            Some(state@)
        } else {
            find_loop(loop_views(old(loops)@), k)
        },
{
    let ghost old_v = loop_views(loops@);
    let mut p: usize = 0;
    loop
        invariant_except_break
            p <= loops@.len(),
        invariant
            loop_views(loops@) == old_v,
            slugs_sorted(old_v),
            forall|j: int| 0 <= j < p ==> seq_lt(#[trigger] old_v[j].slug, state@.slug),
        ensures
            p <= loops@.len(),
            p < loops@.len() ==> !seq_lt(old_v[p as int].slug, state@.slug),
        decreases loops@.len() - p,
    {
        if p >= loops.len() {
            break;
        }
        let c = compare_str(loops[p].slug.as_str(), state.slug.as_str());
        assert(old_v[p as int] == loops@[p as int]@);
        if c != -1 {
            break;
        }
        p = p + 1;
    }
    let found = p < loops.len() && str_eq(loops[p].slug.as_str(), state.slug.as_str());
    let ghost key = state@.slug;
    let ghost sv = state@;
    proof {
        if p < old_v.len() {
            assert(old_v[p as int] == loops@[p as int]@);
            crate::text::lemma_seq_lt_total(key, old_v[p as int].slug);
        }
        assert forall|j: int| p <= j < old_v.len() && !(found && j == p) implies seq_lt(key, #[trigger] old_v[j].slug) by {
            if j > p {
                assert(seq_lt(old_v[p as int].slug, old_v[j].slug));
                if !found {
                    crate::text::lemma_seq_lt_transitive(key, old_v[p as int].slug, old_v[j].slug);
                }
            }
        }
    }
    if found {
        loops.set(p, state);
    } else {
        loops.insert(p, state);
    }
    proof {
        let new_v = loop_views(loops@);
        if found {
            assert(new_v =~= old_v.update(p as int, sv));
            lemma_upsert_replace(old_v, p as int, sv);
        } else {
            assert(new_v =~= old_v.insert(p as int, sv));
            lemma_upsert_insert(old_v, p as int, sv);
        }
    }
}

proof fn lemma_upsert_replace(old_v: Seq<LoopStateView>, p: int, sv: LoopStateView)
    requires
        slugs_sorted(old_v),
        0 <= p < old_v.len(),
        old_v[p].slug == sv.slug,
    ensures
        slugs_sorted(old_v.update(p, sv)),
        forall|k: Seq<char>| #[trigger] find_loop(old_v.update(p, sv), k) == if k == sv.slug { Some(sv) } else { find_loop(old_v, k) },
{
    let new_v = old_v.update(p, sv);
    let key = sv.slug;
    assert forall|i: int, k: int| 0 <= i < k < new_v.len() implies seq_lt(#[trigger] new_v[i].slug, #[trigger] new_v[k].slug) by {
        assert(new_v[i].slug == old_v[i].slug);
        assert(new_v[k].slug == old_v[k].slug);
    }
    assert forall|k: Seq<char>| #[trigger] find_loop(new_v, k) == if k == key { Some(sv) } else { find_loop(old_v, k) } by {
        lemma_find_cases(new_v, k);
        lemma_find_cases(old_v, k);
        if k == key {
            lemma_find_at(new_v, p);
        } else {
            assert forall|j: int| 0 <= j < new_v.len() && (#[trigger] new_v[j]).slug == k implies old_v[j].slug == k && old_v[j] == new_v[j] by {}
            assert forall|j: int| 0 <= j < old_v.len() && (#[trigger] old_v[j]).slug == k implies new_v[j].slug == k by {}
        }
    }
}

proof fn lemma_upsert_insert(old_v: Seq<LoopStateView>, p: int, sv: LoopStateView)
    requires
        slugs_sorted(old_v),
        0 <= p <= old_v.len(),
        forall|j: int| 0 <= j < p ==> seq_lt(#[trigger] old_v[j].slug, sv.slug),
        forall|j: int| p <= j < old_v.len() ==> seq_lt(sv.slug, #[trigger] old_v[j].slug),
    ensures
        slugs_sorted(old_v.insert(p, sv)),
        forall|k: Seq<char>| #[trigger] find_loop(old_v.insert(p, sv), k) == if k == sv.slug { Some(sv) } else { find_loop(old_v, k) },
{
    lemma_insert_sorted(old_v, p, sv);
    assert forall|k: Seq<char>| #[trigger] find_loop(old_v.insert(p, sv), k) == if k == sv.slug { Some(sv) } else { find_loop(old_v, k) } by {
        lemma_insert_find(old_v, p, sv, k);
    }
}

proof fn lemma_insert_sorted(old_v: Seq<LoopStateView>, p: int, sv: LoopStateView)
    requires
        slugs_sorted(old_v),
        0 <= p <= old_v.len(),
        forall|j: int| 0 <= j < p ==> seq_lt(#[trigger] old_v[j].slug, sv.slug),
        forall|j: int| p <= j < old_v.len() ==> seq_lt(sv.slug, #[trigger] old_v[j].slug),
    ensures
        slugs_sorted(old_v.insert(p, sv)),
{
    let new_v = old_v.insert(p, sv);
    assert forall|i: int, k: int| 0 <= i < k < new_v.len() implies seq_lt(#[trigger] new_v[i].slug, #[trigger] new_v[k].slug) by {
        if k < p {
            assert(new_v[i].slug == old_v[i].slug);
            assert(new_v[k].slug == old_v[k].slug);
        } else if k == p {
            assert(new_v[i].slug == old_v[i].slug);
        } else if i == p {
            assert(new_v[k].slug == old_v[k - 1].slug);
        } else if i < p {
            assert(new_v[i].slug == old_v[i].slug);
            assert(new_v[k].slug == old_v[k - 1].slug);
        } else {
            assert(new_v[i].slug == old_v[i - 1].slug);
            assert(new_v[k].slug == old_v[k - 1].slug);
        }
    }
}

proof fn lemma_insert_find(old_v: Seq<LoopStateView>, p: int, sv: LoopStateView, k: Seq<char>)
    requires
        slugs_sorted(old_v),
        slugs_sorted(old_v.insert(p, sv)),
        0 <= p <= old_v.len(),
    ensures
        find_loop(old_v.insert(p, sv), k) == if k == sv.slug { Some(sv) } else { find_loop(old_v, k) },
{
    let new_v = old_v.insert(p, sv);
    lemma_find_cases(new_v, k);
    lemma_find_cases(old_v, k);
    if k == sv.slug {
        lemma_find_at(new_v, p);
    } else {
        assert forall|j: int| 0 <= j < new_v.len() && (#[trigger] new_v[j]).slug == k implies
            (j < p && old_v[j] == new_v[j]) || (j > p && old_v[j - 1] == new_v[j]) by {}
        assert forall|j: int| 0 <= j < old_v.len() && (#[trigger] old_v[j]).slug == k implies
            (j < p && new_v[j] == old_v[j]) || (j >= p && new_v[j + 1] == old_v[j]) by {}
    }
}


/// Every loop of the fold is stored under its own slug, and was touched at
/// most once per event.
pub proof fn lemma_fold_invariants(evs: Seq<EnvelopeView>)
    ensures
        forall|k: Seq<char>| #[trigger] fold_spec(evs).contains_key(k) ==> fold_spec(evs)[k].slug == k
            && fold_spec(evs)[k].touch_count <= evs.len(),
    decreases evs.len(),
{
    if evs.len() > 0 {
        lemma_fold_invariants(evs.drop_last());
    }
}

/// The text after `loop.` in an event type, when it starts so.
fn verb_of(t: &str) -> (r: Option<String>)
    ensures
        opt_view(r) == loop_verb(t@),
{
    let cs = chars_of(t);
    proof {
        reveal_strlit("loop.");
    }
    if cs.len() >= 5 && cs[0] == 'l' && cs[1] == 'o' && cs[2] == 'o' && cs[3] == 'p' && cs[4] == '.' {
        assert(t@.take(5) =~= "loop."@);
        let mut rest: Vec<char> = Vec::new();
        let mut i: usize = 5;
        while i < cs.len()
            invariant
                5 <= i <= cs@.len(),
                rest@ == cs@.subrange(5, i as int),
            decreases cs@.len() - i,
        {
            rest.push(cs[i]);
            assert(rest@ =~= cs@.subrange(5, i + 1));
            i = i + 1;
        }
        assert(rest@ =~= t@.skip(5));
        Some(crate::text::string_of(rest.as_slice()))
    } else {
        proof {
            if t@.len() >= 5 && t@.take(5) == "loop."@ {
                assert(t@.take(5)[0] == 'l');
                assert(t@.take(5)[1] == 'o');
                assert(t@.take(5)[2] == 'o');
                assert(t@.take(5)[3] == 'p');
                assert(t@.take(5)[4] == '.');
            }
        }
        None
    }
}

fn pick(o: Option<String>, d: &String) -> (r: String)
    ensures
        r@ == or_keep(opt_view(o), d@),
{
    match o {
        Some(v) => v,
        None => d.clone(),
    }
}

fn pick_opt(o: Option<String>, d: &Option<String>) -> (r: Option<String>)
    ensures
        opt_view(r) == or_keep_opt(opt_view(o), opt_view(*d)),
{
    match o {
        Some(v) => Some(v),
        None => opt_clone(d),
    }
}

/// Folds the events into the loops they describe, ordered by slug.
/// Events of the wrong shape are passed over: checking structure is the
/// ledger verification's job, and the fold is total.
pub fn fold_loops(events: &[Envelope]) -> (loops: Vec<LoopState>)
    ensures
        slugs_sorted(loop_views(loops@)),
        forall|k: Seq<char>| #[trigger] find_loop(loop_views(loops@), k) == map_lookup(fold_spec(envelope_views(events@)), k),
        loop_views(loops@) == loops_of(envelope_views(events@)),
{
    let ghost evs = envelope_views(events@);
    let mut loops: Vec<LoopState> = Vec::new();
    let mut i: usize = 0;
    proof {
        assert(evs.take(0) =~= Seq::<EnvelopeView>::empty());
        assert(loop_views(loops@) =~= Seq::<LoopStateView>::empty());
    }
    while i < events.len()
        invariant
            evs == envelope_views(events@),
            i <= events@.len(),
            slugs_sorted(loop_views(loops@)),
            forall|k: Seq<char>| #[trigger] find_loop(loop_views(loops@), k) == map_lookup(fold_spec(evs.take(i as int)), k),
        decreases events@.len() - i,
    {
        let ghost m = fold_spec(evs.take(i as int));
        let ghost e = evs[i as int];
        proof {
            assert(evs.take(i + 1).drop_last() =~= evs.take(i as int));
            assert(evs.take(i + 1).last() == e);
            assert(fold_spec(evs.take(i + 1)) == fold_step(m, e));
            lemma_fold_invariants(evs.take(i as int));
            assert(e == events@[i as int]@);
        }
        let ev = &events[i];
        let verb = verb_of(ev.event_type.as_str());
        let slug = match &verb {
            Some(_) => ev.body.get_str("slug"),
            None => ev.body.get_str("loop"),
        };
        if let Some(slug) = slug {
            let ghost k = slug@;
            let found = find_index(&loops, slug.as_str());
            proof {
                assert(map_lookup(m, k) == find_loop(loop_views(loops@), k));
            }
            match verb {
                Some(v) => {
                    if str_eq(v.as_str(), "open") {
                        let base = match found {
                            Some(j) => loops[j].copy(),
                            None => LoopState {
                                slug: slug.clone(),
                                title: String::new(),
                                kind: owned("project"),
                                status: LoopStatus::Active,
                                next_action: None,
                                opened_ts: ev.ts.clone(),
                                last_activity_ts: ev.ts.clone(),
                                last_note: None,
                                touch_count: 0,
                            },
                        };
                        proof {
                            assert(base@ == if m.contains_key(k) { m[k] } else { fresh_loop(k, e.ts) });
                        }
                        let state = LoopState {
                            slug: base.slug.clone(),
                            title: pick(ev.body.get_str("title"), &base.title),
                            kind: pick(ev.body.get_str("kind"), &base.kind),
                            status: LoopStatus::Active,
                            next_action: pick_opt(ev.body.get_str("next"), &base.next_action),
                            opened_ts: base.opened_ts.clone(),
                            last_activity_ts: ev.ts.clone(),
                            last_note: opt_clone(&base.last_note),
                            touch_count: base.touch_count,
                        };
                        upsert(&mut loops, state);
                    } else if let Some(j) = found {
                        let mut st = loops[j].copy();
                        st.last_activity_ts = ev.ts.clone();
                        if str_eq(v.as_str(), "next") {
                            st.next_action = pick_opt(ev.body.get_str("action"), &st.next_action);
                        } else if str_eq(v.as_str(), "touch") {
                            st.touch_count = st.touch_count + 1;
                            st.last_note = pick_opt(ev.body.get_str("note"), &st.last_note);
                        } else if str_eq(v.as_str(), "close") {
                            st.status = LoopStatus::Closed;
                        } else if str_eq(v.as_str(), "park") {
                            st.status = LoopStatus::Parked;
                        } else if str_eq(v.as_str(), "kill") {
                            st.status = LoopStatus::Killed;
                        }
                        upsert(&mut loops, st);
                    }
                },
                None => {
                    if let Some(j) = found {
                        let mut st = loops[j].copy();
                        st.last_activity_ts = ev.ts.clone();
                        st.touch_count = st.touch_count + 1;
                        upsert(&mut loops, st);
                    }
                },
            }
        }
        proof {
            assert forall|k: Seq<char>| #[trigger] find_loop(loop_views(loops@), k) == map_lookup(fold_spec(evs.take(i + 1)), k) by {}
        }
        i = i + 1;
    }
    proof {
        assert(evs.take(i as int) =~= evs);
        lemma_loops_of(evs, loop_views(loops@));
    }
    loops
}

/// Two slug-sorted lists that agree on every slug are the same list.
#[verifier::rlimit(60)]
#[verifier::spinoff_prover]
pub proof fn lemma_sorted_lists_equal(v1: Seq<LoopStateView>, v2: Seq<LoopStateView>)
    requires
        slugs_sorted(v1),
        slugs_sorted(v2),
        forall|k: Seq<char>| #[trigger] find_loop(v1, k) == find_loop(v2, k),
    ensures
        v1 == v2,
    decreases v1.len() + v2.len(),
{
    if v1.len() == 0 && v2.len() == 0 {
        assert(v1 =~= v2);
    } else if v1.len() == 0 {
        lemma_find_at(v2, 0);
        assert(find_loop(v1, v2[0].slug) is None);
    } else if v2.len() == 0 {
        lemma_find_at(v1, 0);
        assert(find_loop(v2, v1[0].slug) is None);
    } else {
        let a = v1.last();
        let b = v2.last();
        lemma_find_at(v1, v1.len() - 1);
        lemma_find_at(v2, v2.len() - 1);
        lemma_find_cases(v1, b.slug);
        lemma_find_cases(v2, a.slug);
        // `a` sits somewhere in `v2`, and `b` somewhere in `v1`.
        if find_loop(v2, a.slug) is None {
            assert(false);
        }
        let ja = choose|j: int| 0 <= j < v2.len() && (#[trigger] v2[j]).slug == a.slug;
        let jb = choose|j: int| 0 <= j < v1.len() && (#[trigger] v1[j]).slug == b.slug;
        if !(exists|j: int| 0 <= j < v2.len() && (#[trigger] v2[j]).slug == a.slug) {
            lemma_find_absent(v2, a.slug);
        }
        if !(exists|j: int| 0 <= j < v1.len() && (#[trigger] v1[j]).slug == b.slug) {
            lemma_find_absent(v1, b.slug);
        }
        crate::text::lemma_seq_lt_irreflexive(a.slug);
        crate::text::lemma_seq_lt_irreflexive(b.slug);
        if ja < v2.len() - 1 {
            assert(seq_lt(v2[ja].slug, v2[v2.len() - 1].slug));
            if jb < v1.len() - 1 {
                assert(seq_lt(v1[jb].slug, v1[v1.len() - 1].slug));
                crate::text::lemma_seq_lt_asymmetric(a.slug, b.slug);
            }
        }
        if jb < v1.len() - 1 {
            assert(seq_lt(v1[jb].slug, v1[v1.len() - 1].slug));
        }
        assert(a.slug == b.slug);
        assert(a == b);
        let w1 = v1.drop_last();
        let w2 = v2.drop_last();
        assert forall|k: Seq<char>| #[trigger] find_loop(w1, k) == find_loop(w2, k) by {
            if k == a.slug {
                assert forall|j: int| 0 <= j < w1.len() implies (#[trigger] w1[j]).slug != k by {
                    assert(seq_lt(v1[j].slug, v1[v1.len() - 1].slug));
                }
                assert forall|j: int| 0 <= j < w2.len() implies (#[trigger] w2[j]).slug != k by {
                    assert(seq_lt(v2[j].slug, v2[v2.len() - 1].slug));
                }
                lemma_find_absent(w1, k);
                lemma_find_absent(w2, k);
            } else {
                assert(find_loop(v1, k) == find_loop(w1, k));
                assert(find_loop(v2, k) == find_loop(w2, k));
            }
        }
        assert(slugs_sorted(w1));
        assert(slugs_sorted(w2));
        lemma_sorted_lists_equal(w1, w2);
        assert(v1 =~= w1.push(a));
        assert(v2 =~= w2.push(b));
    }
}

/// The loops after the events, as a list ordered by slug.
pub open spec fn loops_of(evs: Seq<EnvelopeView>) -> Seq<LoopStateView> {
    choose|v: Seq<LoopStateView>| slugs_sorted(v) && forall|k: Seq<char>| #[trigger] find_loop(v, k) == map_lookup(fold_spec(evs), k)
}

/// Any slug-sorted list holding exactly the folded loops is `loops_of`.
pub proof fn lemma_loops_of(evs: Seq<EnvelopeView>, v: Seq<LoopStateView>)
    requires
        slugs_sorted(v),
        forall|k: Seq<char>| #[trigger] find_loop(v, k) == map_lookup(fold_spec(evs), k),
    ensures
        loops_of(evs) == v,
{
    let w = loops_of(evs);
    assert(slugs_sorted(w) && forall|k: Seq<char>| #[trigger] find_loop(w, k) == map_lookup(fold_spec(evs), k));
    lemma_sorted_lists_equal(w, v);
}

/// The loops of `v` whose status is `st`, in order.
pub open spec fn with_status(v: Seq<LoopStateView>, st: LoopStatus) -> Seq<LoopStateView>
    decreases v.len(),
{
    if v.len() == 0 {
        Seq::empty()
    } else if v.last().status == st {
        with_status(v.drop_last(), st).push(v.last())
    } else {
        with_status(v.drop_last(), st)
    }
}

/// How many of `v` are active projects (habits do not count toward WIP).
pub open spec fn active_projects(v: Seq<LoopStateView>) -> nat
    decreases v.len(),
{
    if v.len() == 0 {
        0
    } else {
        active_projects(v.drop_last()) + if v.last().status == LoopStatus::Active && v.last().kind != "habit"@ {
            1nat
        } else {
            0nat
        }
    }
}

/// What the brief and the health bells are computed against.
#[derive(Debug, Clone)]
pub struct BriefConfig {
    /// The present instant, as RFC 3339 text.
    pub now: String,
    pub stall_days: i64,
    pub habit_stall_days: i64,
    pub wip_limit: usize,
}

/// An active loop as the brief shows it.
#[derive(Debug, Clone)]
pub struct LoopBrief {
    pub state: LoopState,
    pub days_idle: i64,
    pub stalled: bool,
}

pub struct LoopBriefView {
    pub state: LoopStateView,
    pub days_idle: i64,
    pub stalled: bool,
}

impl View for LoopBrief {
    type V = LoopBriefView;

    open spec fn view(&self) -> LoopBriefView {
        LoopBriefView { state: self.state@, days_idle: self.days_idle, stalled: self.stalled }
    }
}

/// The morning brief.
#[derive(Debug)]
pub struct Brief {
    pub active: Vec<LoopBrief>,
    pub parked: Vec<LoopState>,
    pub wip_exceeded: bool,
}

/// Whole days since `ts`; 0 when a timestamp does not parse.
pub open spec fn idle_days(now: Seq<char>, ts: Seq<char>) -> i64 {
    match days_between(now, ts) {
        Some(d) => d,
        None => 0,
    }
}

/// The brief line of an active loop: idle days, and stalled once they reach
/// the threshold of its kind.
pub open spec fn brief_of(s: LoopStateView, now: Seq<char>, stall_days: i64, habit_stall_days: i64) -> LoopBriefView {
    let d = idle_days(now, s.last_activity_ts);
    LoopBriefView {
        state: s,
        days_idle: d,
        stalled: d >= if s.kind == "habit"@ { habit_stall_days } else { stall_days },
    }
}

pub open spec fn briefs_of(v: Seq<LoopStateView>, now: Seq<char>, stall_days: i64, habit_stall_days: i64) -> Seq<LoopBriefView>
    decreases v.len(),
{
    if v.len() == 0 {
        Seq::empty()
    } else {
        briefs_of(v.drop_last(), now, stall_days, habit_stall_days).push(brief_of(v.last(), now, stall_days, habit_stall_days))
    }
}

/// Most idle first; among equally idle loops, by slug.
pub open spec fn idle_before(a: LoopBriefView, b: LoopBriefView) -> bool {
    a.days_idle > b.days_idle || (a.days_idle == b.days_idle && seq_lt(a.state.slug, b.state.slug))
}

pub open spec fn idle_sorted(v: Seq<LoopBriefView>) -> bool {
    forall|i: int, k: int| 0 <= i < k < v.len() ==> idle_before(#[trigger] v[i], #[trigger] v[k])
}

pub open spec fn brief_views(v: Seq<LoopBrief>) -> Seq<LoopBriefView> {
    Seq::new(v.len(), |i: int| v[i]@)
}

proof fn lemma_insert_idle_sorted(v: Seq<LoopBriefView>, p: int, x: LoopBriefView)
    requires
        idle_sorted(v),
        0 <= p <= v.len(),
        forall|i: int| 0 <= i < p ==> (#[trigger] v[i]).days_idle >= x.days_idle,
        forall|i: int| 0 <= i < v.len() ==> seq_lt((#[trigger] v[i]).state.slug, x.state.slug),
        p < v.len() ==> v[p].days_idle < x.days_idle,
    ensures
        idle_sorted(v.insert(p, x)),
{
    let w = v.insert(p, x);
    assert forall|i: int, k: int| 0 <= i < k < w.len() implies idle_before(#[trigger] w[i], #[trigger] w[k]) by {
        if k < p {
            assert(w[i] == v[i] && w[k] == v[k]);
        } else if k == p {
            assert(w[i] == v[i]);
        } else if i == p {
            assert(w[k] == v[k - 1]);
            if k - 1 > p {
                assert(idle_before(v[p], v[k - 1]));
            }
        } else if i < p {
            assert(w[i] == v[i] && w[k] == v[k - 1]);
        } else {
            assert(w[i] == v[i - 1] && w[k] == v[k - 1]);
        }
    }
}

proof fn lemma_briefs_of_at(v: Seq<LoopStateView>, now: Seq<char>, stall_days: i64, habit_stall_days: i64)
    ensures
        briefs_of(v, now, stall_days, habit_stall_days).len() == v.len(),
        forall|i: int| 0 <= i < v.len() ==> #[trigger] briefs_of(v, now, stall_days, habit_stall_days)[i]
            == brief_of(v[i], now, stall_days, habit_stall_days),
    decreases v.len(),
{
    if v.len() > 0 {
        lemma_briefs_of_at(v.drop_last(), now, stall_days, habit_stall_days);
        assert forall|i: int| 0 <= i < v.len() implies #[trigger] briefs_of(v, now, stall_days, habit_stall_days)[i]
            == brief_of(v[i], now, stall_days, habit_stall_days) by {
            if i < v.len() - 1 {
                assert(v.drop_last()[i] == v[i]);
            }
        }
    }
}

proof fn lemma_with_status_members(v: Seq<LoopStateView>, st: LoopStatus)
    ensures
        forall|i: int| 0 <= i < with_status(v, st).len() ==> v.contains(#[trigger] with_status(v, st)[i]),
        forall|j: int| 0 <= j < v.len() && (#[trigger] v[j]).status == st ==> with_status(v, st).contains(v[j]),
    decreases v.len(),
{
    if v.len() > 0 {
        let p = v.drop_last();
        lemma_with_status_members(p, st);
        let w = with_status(v, st);
        let wp = with_status(p, st);
        assert forall|i: int| 0 <= i < w.len() implies v.contains(#[trigger] w[i]) by {
            if i < wp.len() {
                assert(w[i] == wp[i]);
                assert(v.contains(wp[i])) by {
                    let j = choose|j: int| 0 <= j < p.len() && p[j] == wp[i];
                    assert(v[j] == p[j]);
                }
            } else {
                assert(w[i] == v.last());
                assert(v[v.len() - 1] == v.last());
            }
        }
        assert forall|j: int| 0 <= j < v.len() && (#[trigger] v[j]).status == st implies w.contains(v[j]) by {
            if j < v.len() - 1 {
                assert(p[j] == v[j]);
                assert(wp.contains(p[j]));
                let i = choose|i: int| 0 <= i < wp.len() && wp[i] == p[j];
                assert(w[i] == wp[i]);
            } else {
                assert(w[w.len() - 1] == v[j]);
            }
        }
    }
}

proof fn lemma_with_status_only(v: Seq<LoopStateView>, st: LoopStatus)
    ensures
        forall|i: int| 0 <= i < with_status(v, st).len() ==> (#[trigger] with_status(v, st)[i]).status == st,
    decreases v.len(),
{
    if v.len() > 0 {
        lemma_with_status_only(v.drop_last(), st);
        let w = with_status(v, st);
        let wp = with_status(v.drop_last(), st);
        assert forall|i: int| 0 <= i < w.len() implies (#[trigger] w[i]).status == st by {
            if i < wp.len() {
                assert(w[i] == wp[i]);
            }
        }
    }
}

/// The brief's lists split the loops by status: the loops picked for a
/// status are loops of `v` with that status, and every loop of `v` with
/// that status is picked.
pub proof fn law_brief_lists_follow_status(v: Seq<LoopStateView>, st: LoopStatus)
    ensures
        forall|i: int| 0 <= i < with_status(v, st).len() ==> (#[trigger] with_status(v, st)[i]).status == st
            && v.contains(with_status(v, st)[i]),
        forall|j: int| 0 <= j < v.len() && (#[trigger] v[j]).status == st ==> with_status(v, st).contains(v[j]),
{
    lemma_with_status_only(v, st);
    lemma_with_status_members(v, st);
}

/// The brief lists the most idle loop first: along its active entries the
/// idle days never grow.
pub proof fn law_brief_most_idle_first(entries: Seq<LoopBriefView>)
    requires
        idle_sorted(entries),
    ensures
        forall|i: int, k: int| 0 <= i < k < entries.len() ==> (#[trigger] entries[i]).days_idle >= (#[trigger] entries[k]).days_idle,
{
}

/// The WIP count is the number of active loops that are not habits.
pub proof fn law_wip_counts_active_projects(v: Seq<LoopStateView>)
    ensures
        active_projects(v) == v.filter(|s: LoopStateView| s.status == LoopStatus::Active && s.kind != "habit"@).len(),
    decreases v.len(),
{
    reveal(Seq::filter);
    if v.len() > 0 {
        law_wip_counts_active_projects(v.drop_last());
    }
}

/// In the morning brief a loop's idle days count from its latest activity,
/// not from when it was opened: after a `loop.touch` or `loop.next` naming
/// an active loop, or an event outside `loop.*` whose `body.loop` names
/// it, that loop is among the brief's active entries (taken from `v`, the
/// folded loops in slug order), its idle days are the whole days from that
/// event's time to now (0 when either time does not parse), and it is
/// stalled exactly when they reach the threshold of its kind.
pub proof fn law_brief_counts_idle_from_latest_activity(
    evs: Seq<EnvelopeView>,
    e: EnvelopeView,
    slug: Seq<char>,
    v: Seq<LoopStateView>,
    now: Seq<char>,
    stall_days: i64,
    habit_stall_days: i64,
)
    requires
        fold_spec(evs).contains_key(slug),
        fold_spec(evs)[slug].status == LoopStatus::Active,
        ((e.event_type == "loop.touch"@ || e.event_type == "loop.next"@) && e.body.get_str("slug"@) == Some(slug))
            || (!(e.event_type.len() >= 5 && e.event_type.take(5) == "loop."@) && e.body.get_str("loop"@) == Some(slug)),
        slugs_sorted(v),
        forall|k: Seq<char>| #[trigger] find_loop(v, k) == map_lookup(fold_spec(evs.push(e)), k),
    ensures
        ({
            let entries = briefs_of(with_status(v, LoopStatus::Active), now, stall_days, habit_stall_days);
            let d = match days_between(now, e.ts) {
                Some(d) => d,
                None => 0,
            };
            &&& exists|i: int| 0 <= i < entries.len() && (#[trigger] entries[i]).state.slug == slug
            &&& forall|i: int| 0 <= i < entries.len() && (#[trigger] entries[i]).state.slug == slug ==> {
                &&& entries[i].days_idle == d
                &&& entries[i].stalled == (d >= if entries[i].state.kind == "habit"@ { habit_stall_days } else { stall_days })
            }
        }),
{
    law_activity_resets_idleness(evs, e, slug);
    let st = fold_spec(evs.push(e))[slug];
    assert(find_loop(v, slug) == Some(st));
    lemma_find_cases(v, slug);
    let j = choose|j: int| 0 <= j < v.len() && (#[trigger] v[j]).slug == slug;
    assert(v[j] == st);
    let w = with_status(v, LoopStatus::Active);
    lemma_with_status_members(v, LoopStatus::Active);
    lemma_briefs_of_at(w, now, stall_days, habit_stall_days);
    let entries = briefs_of(w, now, stall_days, habit_stall_days);
    assert(w.contains(v[j]));
    let i0 = choose|i: int| 0 <= i < w.len() && w[i] == v[j];
    assert(entries[i0].state.slug == slug);
    assert forall|i: int| 0 <= i < entries.len() && (#[trigger] entries[i]).state.slug == slug implies
        entries[i].state == st by {
        assert(entries[i] == brief_of(w[i], now, stall_days, habit_stall_days));
        assert(v.contains(w[i]));
        let k = choose|k: int| 0 <= k < v.len() && v[k] == w[i];
        assert(v[k].slug == slug);
        assert(find_loop(v, slug) == Some(v[k]));
    }
}

/// The morning brief: active loops with the most idle first (stalled once
/// idle for the threshold of their kind), the parked loops in slug order,
/// and whether active projects exceed the WIP limit.
pub fn brief(events: &[Envelope], config: &BriefConfig) -> (b: Brief)
    ensures
        ({
            let loops = loops_of(envelope_views(events@));
            let briefs = briefs_of(with_status(loops, LoopStatus::Active), config.now@, config.stall_days, config.habit_stall_days);
            &&& idle_sorted(brief_views(b.active@))
            &&& brief_views(b.active@).to_multiset() == briefs.to_multiset()
            &&& loop_views(b.parked@) == with_status(loops, LoopStatus::Parked)
            &&& b.wip_exceeded == (active_projects(loops) > config.wip_limit)
        }),
{
    let loops = fold_loops(events);
    let ghost lv = loop_views(loops@);
    let mut active: Vec<LoopBrief> = Vec::new();
    let mut parked: Vec<LoopState> = Vec::new();
    let mut projects: usize = 0;
    let mut j: usize = 0;
    proof {
        assert(lv.take(0) =~= Seq::<LoopStateView>::empty());
        assert(brief_views(active@) =~= Seq::<LoopBriefView>::empty());
        assert(loop_views(parked@) =~= Seq::<LoopStateView>::empty());
    }
    while j < loops.len()
        invariant
            lv == loop_views(loops@),
            slugs_sorted(lv),
            j <= loops@.len(),
            idle_sorted(brief_views(active@)),
            brief_views(active@).to_multiset() == briefs_of(with_status(lv.take(j as int), LoopStatus::Active), config.now@, config.stall_days, config.habit_stall_days).to_multiset(),
            j < loops@.len() ==> forall|i: int| 0 <= i < active@.len() ==> seq_lt((#[trigger] active@[i])@.state.slug, lv[j as int].slug),
            loop_views(parked@) == with_status(lv.take(j as int), LoopStatus::Parked),
            projects == active_projects(lv.take(j as int)),
            projects <= j,
        decreases loops@.len() - j,
    {
        let st = &loops[j];
        let ghost sv = lv[j as int];
        proof {
            assert(sv == st@);
            assert(lv.take(j + 1).drop_last() =~= lv.take(j as int));
            assert(lv.take(j + 1).last() == sv);
        }
        let is_habit = str_eq(st.kind.as_str(), "habit");
        match st.status {
            LoopStatus::Active => {
                let days = match days_since(config.now.as_str(), st.last_activity_ts.as_str()) {
                    Some(d) => d,
                    None => 0,
                };
                let threshold = if is_habit { config.habit_stall_days } else { config.stall_days };
                let item = LoopBrief { state: st.copy(), days_idle: days, stalled: days >= threshold };
                let ghost x = item@;
                assert(x == brief_of(sv, config.now@, config.stall_days, config.habit_stall_days));
                let mut p: usize = 0;
                while p < active.len() && active[p].days_idle >= days
                    invariant
                        p <= active@.len(),
                        forall|i: int| 0 <= i < p ==> (#[trigger] active@[i]).days_idle >= days,
                    decreases active@.len() - p,
                {
                    p = p + 1;
                }
                let ghost before = brief_views(active@);
                let ghost raw = active@;
                active.insert(p, item);
                proof {
                    assert(brief_views(active@) =~= before.insert(p as int, x));
                    assert forall|i: int| 0 <= i < p implies (#[trigger] before[i]).days_idle >= x.days_idle by {
                        assert(before[i] == raw[i]@);
                    }
                    lemma_insert_idle_sorted(before, p as int, x);
                    vstd::seq_lib::to_multiset_insert(before, p as int, x);
                    let ws = with_status(lv.take(j as int), LoopStatus::Active);
                    assert(with_status(lv.take(j + 1), LoopStatus::Active) == ws.push(sv));
                    assert(ws.push(sv).drop_last() =~= ws);
                    assert(briefs_of(ws.push(sv), config.now@, config.stall_days, config.habit_stall_days)
                        == briefs_of(ws, config.now@, config.stall_days, config.habit_stall_days).push(x));
                    vstd::seq_lib::to_multiset_build(briefs_of(ws, config.now@, config.stall_days, config.habit_stall_days), x);
                }
                if !is_habit {
                    projects = projects + 1;
                }
            },
            LoopStatus::Parked => {
                let ghost before = loop_views(parked@);
                parked.push(st.copy());
                proof {
                    assert(loop_views(parked@) =~= before.push(sv));
                    assert(with_status(lv.take(j + 1), LoopStatus::Active) == with_status(lv.take(j as int), LoopStatus::Active));
                }
            },
            _ => {
                proof {
                    assert(with_status(lv.take(j + 1), LoopStatus::Active) == with_status(lv.take(j as int), LoopStatus::Active));
                }
            },
        }
        proof {
            if j + 1 < lv.len() {
                assert(seq_lt(lv[j as int].slug, lv[j + 1].slug));
                assert forall|i: int| 0 <= i < active@.len() implies seq_lt((#[trigger] active@[i])@.state.slug, lv[j + 1].slug) by {
                    if active@[i]@.state.slug != sv.slug {
                        crate::text::lemma_seq_lt_transitive(active@[i]@.state.slug, lv[j as int].slug, lv[j + 1].slug);
                    }
                }
            }
        }
        j = j + 1;
    }
    proof {
        assert(lv.take(j as int) =~= lv);
    }
    Brief { active, parked, wip_exceeded: projects > config.wip_limit }
}

/// Counts of the loops by status, and the health bells.
#[derive(Debug)]
pub struct Health {
    pub total_events: usize,
    pub active: usize,
    pub parked: usize,
    pub closed: usize,
    pub killed: usize,
    pub days_since_journal: Option<i64>,
    pub events_since_last_close: usize,
    pub bells: Vec<String>,
}

/// A morning review: a `journal.entry` or a `video.log`.
pub open spec fn is_journal(t: Seq<char>) -> bool {
    t == "journal.entry"@ || t == "video.log"@
}

/// The last morning review among the events.
pub open spec fn last_journal(evs: Seq<EnvelopeView>) -> Option<EnvelopeView>
    decreases evs.len(),
{
    if evs.len() == 0 {
        None
    } else if is_journal(evs.last().event_type) {
        Some(evs.last())
    } else {
        last_journal(evs.drop_last())
    }
}

/// Days since the last morning review; none when there was none, or when a
/// timestamp does not parse.
pub open spec fn journal_gap(evs: Seq<EnvelopeView>, now: Seq<char>) -> Option<i64> {
    match last_journal(evs) {
        Some(e) => days_between(now, e.ts),
        None => None,
    }
}

/// How many events follow the last `loop.close` (all of them when there is none).
pub open spec fn since_last_close(evs: Seq<EnvelopeView>) -> nat
    decreases evs.len(),
{
    if evs.len() == 0 || evs.last().event_type == "loop.close"@ {
        0
    } else {
        since_last_close(evs.drop_last()) + 1
    }
}

/// The bells that ring: no morning review yet, or none for two days or more;
/// more active projects than the WIP limit; more than 200 events since
/// anything was closed.
pub open spec fn bells_of(gap: Option<i64>, projects: nat, wip_limit: usize, total: nat, since_close: nat) -> Seq<Seq<char>> {
    (match gap {
        None => seq!["朝の統括がまだ一度も台帳に入っていない"@],
        Some(d) => if d >= 2 { seq!["朝の統括が "@ + signed_decimal(d as int) + " 日途絶えている"@] } else { Seq::empty() },
    })
    + (if projects > wip_limit {
        seq!["稼働中プロジェクトが "@ + decimal(projects) + " 本ある(上限 "@ + decimal(wip_limit as nat) + ")。どれかを保留場へ"@]
    } else {
        Seq::empty()
    })
    + (if total > 0 && since_close > 200 {
        seq!["最後に何かを閉じてから "@ + decimal(since_close) + " イベント経過。台帳が回っているのに何も閉じていない"@]
    } else {
        Seq::empty()
    })
}

pub open spec fn string_views(v: Seq<String>) -> Seq<Seq<char>> {
    Seq::new(v.len(), |i: int| v[i]@)
}

fn push_string(v: &mut Vec<String>, s: String)
    ensures
        string_views(final(v)@) == string_views(old(v)@).push(s@),
{
    v.push(s);
    assert(string_views(v@) =~= string_views(old(v)@).push(s@));
}

/// The health of the ledger: loop counts by status, days since the last
/// morning review, events since the last close, and the bells.
pub fn health(events: &[Envelope], config: &BriefConfig) -> (h: Health)
    ensures
        ({
            let evs = envelope_views(events@);
            let loops = loops_of(evs);
            &&& h.total_events == events@.len()
            &&& h.active == with_status(loops, LoopStatus::Active).len()
            &&& h.parked == with_status(loops, LoopStatus::Parked).len()
            &&& h.closed == with_status(loops, LoopStatus::Closed).len()
            &&& h.killed == with_status(loops, LoopStatus::Killed).len()
            &&& h.days_since_journal == journal_gap(evs, config.now@)
            &&& h.events_since_last_close == since_last_close(evs)
            &&& string_views(h.bells@) == bells_of(
                journal_gap(evs, config.now@),
                active_projects(loops),
                config.wip_limit,
                evs.len(),
                since_last_close(evs),
            )
        }),
{
    let ghost evs = envelope_views(events@);
    let loops = fold_loops(events);
    let ghost lv = loop_views(loops@);
    let mut active: usize = 0;
    let mut parked: usize = 0;
    let mut closed: usize = 0;
    let mut killed: usize = 0;
    let mut projects: usize = 0;
    let mut j: usize = 0;
    while j < loops.len()
        invariant
            lv == loop_views(loops@),
            j <= loops@.len(),
            active == with_status(lv.take(j as int), LoopStatus::Active).len(),
            parked == with_status(lv.take(j as int), LoopStatus::Parked).len(),
            closed == with_status(lv.take(j as int), LoopStatus::Closed).len(),
            killed == with_status(lv.take(j as int), LoopStatus::Killed).len(),
            projects == active_projects(lv.take(j as int)),
            active <= j && parked <= j && closed <= j && killed <= j && projects <= j,
        decreases loops@.len() - j,
    {
        proof {
            assert(lv.take(j + 1).drop_last() =~= lv.take(j as int));
            assert(lv.take(j + 1).last() == loops@[j as int]@);
        }
        match loops[j].status {
            LoopStatus::Active => {
                active = active + 1;
                if !str_eq(loops[j].kind.as_str(), "habit") {
                    projects = projects + 1;
                }
            },
            LoopStatus::Parked => {
                parked = parked + 1;
            },
            LoopStatus::Closed => {
                closed = closed + 1;
            },
            LoopStatus::Killed => {
                killed = killed + 1;
            },
        }
        j = j + 1;
    }
    proof {
        assert(lv.take(j as int) =~= lv);
    }
    // The last morning review, searching from the end.
    let mut k: usize = events.len();
    proof {
        assert(evs.take(k as int) =~= evs);
    }
    while k > 0 && !(str_eq(events[k - 1].event_type.as_str(), "journal.entry")
        || str_eq(events[k - 1].event_type.as_str(), "video.log"))
        invariant
            evs == envelope_views(events@),
            k <= events@.len(),
            last_journal(evs) == last_journal(evs.take(k as int)),
        decreases k,
    {
        proof {
            assert(evs.take(k as int).drop_last() =~= evs.take(k - 1));
            assert(evs.take(k as int).last() == events@[k - 1]@);
        }
        k = k - 1;
    }
    let days_since_journal = if k > 0 {
        proof {
            assert(evs.take(k as int).last() == events@[k - 1]@);
        }
        days_since(config.now.as_str(), events[k - 1].ts.as_str())
    } else {
        None
    };
    // Events after the last close.
    let mut since: usize = 0;
    let mut m: usize = events.len();
    proof {
        assert(evs.take(m as int) =~= evs);
    }
    while m > 0 && !str_eq(events[m - 1].event_type.as_str(), "loop.close")
        invariant
            evs == envelope_views(events@),
            m <= events@.len(),
            since + m == events@.len(),
            since_last_close(evs) == since_last_close(evs.take(m as int)) + since,
        decreases m,
    {
        proof {
            assert(evs.take(m as int).drop_last() =~= evs.take(m - 1));
            assert(evs.take(m as int).last() == events@[m - 1]@);
        }
        m = m - 1;
        since = since + 1;
    }
    proof {
        if m > 0 {
            assert(evs.take(m as int).last() == events@[m - 1]@);
        }
    }
    let mut bells: Vec<String> = Vec::new();
    let ghost b0 = string_views(bells@);
    assert(b0 =~= Seq::<Seq<char>>::empty());
    match days_since_journal {
        None => {
            push_string(&mut bells, owned("朝の統括がまだ一度も台帳に入っていない"));
        },
        Some(d) => {
            if d >= 2 {
                let t = concat("朝の統括が ", i64_decimal(d).as_str());
                push_string(&mut bells, concat(t.as_str(), " 日途絶えている"));
            }
        },
    }
    let ghost b1 = string_views(bells@);
    if projects > config.wip_limit {
        let t = concat("稼働中プロジェクトが ", u64_decimal(projects as u64).as_str());
        let t = concat(t.as_str(), " 本ある(上限 ");
        let t = concat(t.as_str(), u64_decimal(config.wip_limit as u64).as_str());
        push_string(&mut bells, concat(t.as_str(), ")。どれかを保留場へ"));
    }
    let ghost b2 = string_views(bells@);
    if events.len() > 0 && since > 200 {
        let t = concat("最後に何かを閉じてから ", u64_decimal(since as u64).as_str());
        push_string(&mut bells, concat(t.as_str(), " イベント経過。台帳が回っているのに何も閉じていない"));
    }
    proof {
        let gap = journal_gap(evs, config.now@);
        assert(b1 =~= b0 + (match gap {
            None => seq!["朝の統括がまだ一度も台帳に入っていない"@],
            Some(d) => if d >= 2 { seq!["朝の統括が "@ + signed_decimal(d as int) + " 日途絶えている"@] } else { Seq::empty() },
        }));
        assert(string_views(bells@) =~= bells_of(gap, active_projects(lv), config.wip_limit, evs.len(), since_last_close(evs)));
    }
    Health {
        total_events: events.len(),
        active,
        parked,
        closed,
        killed,
        days_since_journal,
        events_since_last_close: since,
        bells,
    }
}
} // verus!
