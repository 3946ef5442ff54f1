//! The workspace and its settings file, `banto.toml`. Every setting may be
//! left out.
use vstd::prelude::*;
use crate::text::{owned, str_eq, concat};
use crate::fold::BriefConfig;
use crate::time::{now_rfc3339_precise, rfc3339_error};

verus! {

/// The ledger file, relative to the workspace root, unless configured.
pub const DEFAULT_LEDGER: &'static str = "ledger/ledger.jsonl";
/// The evidence store, relative to the workspace root, unless configured.
pub const DEFAULT_OBJECTS: &'static str = "ledger/objects";

/// A parsed TOML value, as far as the settings read it: strings, integers
/// and tables; every other kind of value is `Other`.
pub enum Toml {
    Str(String),
    Integer(i64),
    Table(Vec<(String, Toml)>),
    Other,
}

pub enum TomlView {
    Str(Seq<char>),
    Integer(i64),
    Table(Seq<(Seq<char>, TomlView)>),
    Other,
}

pub open spec fn toml_view(t: Toml) -> TomlView
    decreases t,
{
    match t {
        Toml::Str(s) => TomlView::Str(s@),
        Toml::Integer(i) => TomlView::Integer(i),
        Toml::Table(entries) => TomlView::Table(
            Seq::new(
                entries@.len(),
                |k: int|
                    if 0 <= k < entries@.len() {
                        proof {
                            assert(decreases_to!(t => entries));
                            assert(decreases_to!(entries => entries@));
                            assert(decreases_to!(entries@ => entries@[k]));
                            assert(decreases_to!(entries@[k] => entries@[k].1));
                        }
                        (entries@[k].0@, toml_view(entries@[k].1))
                    } else {
                        (Seq::empty(), TomlView::Other)
                    },
            ),
        ),
        Toml::Other => TomlView::Other,
    }
}

impl View for Toml {
    type V = TomlView;

    open spec fn view(&self) -> TomlView {
        toml_view(*self)
    }
}

/// What `text.parse::<toml::Table>()` makes of `text`: the document as a
/// table, or the text of the error.
pub uninterp spec fn parsed_toml(text: Seq<char>) -> Result<TomlView, Seq<char>>;

/// `toml::Table`'s `FromStr` (`toml::from_str`), the table turned into a
/// `Toml`: on success the result is `parsed_toml(text)`, otherwise the
/// error's text.
#[verifier::external_body]
fn parse_toml(text: &str) -> (r: Result<Toml, String>)
    ensures
        r is Ok ==> parsed_toml(text@) == Ok::<TomlView, Seq<char>>(r->Ok_0@),
        r is Err ==> parsed_toml(text@) == Err::<TomlView, Seq<char>>(r->Err_0@),
{
    match text.parse::<toml::Table>() {
        Ok(t) => Ok(toml_of_value(toml::Value::Table(t))),
        Err(e) => Err(e.to_string()),
    }
}

/// `toml::Value`, carried through `parse_toml` only.
#[verifier::external_type_specification]
#[verifier::external_body]
pub struct ExTomlValue(toml::Value);

/// One-for-one conversion of a parsed `toml::Value`, used by `parse_toml`
/// alone: strings, integers and tables keep their variant, tables their
/// entries in the map's order; floats, booleans, datetimes and arrays
/// become `Other`.
#[verifier::external_body]
fn toml_of_value(v: toml::Value) -> Toml {
    match v {
        toml::Value::String(s) => Toml::Str(s),
        toml::Value::Integer(i) => Toml::Integer(i),
        toml::Value::Table(t) => Toml::Table(t.into_iter().map(|(k, v)| (k, toml_of_value(v))).collect()),
        _ => Toml::Other,
    }
}

/// The value of the first entry named `key` of a table.
pub open spec fn toml_get(t: TomlView, key: Seq<char>) -> Option<TomlView> {
    match t {
        TomlView::Table(entries) => first_entry(entries, key),
        _ => None,
    }
}

pub open spec fn first_entry(entries: Seq<(Seq<char>, TomlView)>, key: Seq<char>) -> Option<TomlView>
    decreases entries.len(),
{
    if entries.len() == 0 {
        None
    } else if entries[0].0 == key {
        Some(entries[0].1)
    } else {
        first_entry(entries.drop_first(), key)
    }
}

/// An integer setting, or its default.
pub open spec fn int_setting(t: TomlView, key: Seq<char>, default: i64) -> i64 {
    match toml_get(t, key) {
        Some(TomlView::Integer(i)) => i,
        _ => default,
    }
}

/// A string setting, if there is one.
pub open spec fn str_setting(t: TomlView, key: Seq<char>) -> Option<Seq<char>> {
    match toml_get(t, key) {
        Some(TomlView::Str(s)) => Some(s),
        _ => None,
    }
}

/// A path of the `[paths]` table, or its default.
pub open spec fn path_setting(t: TomlView, key: Seq<char>, default: Seq<char>) -> Seq<char> {
    match toml_get(t, "paths"@) {
        Some(p) => match p {
            TomlView::Table(_) => match str_setting(p, key) {
                Some(s) => s,
                None => default,
            },
            _ => default,
        },
        None => default,
    }
}

/// A workspace: its root, the writer's name, the thresholds of the brief
/// and the health bells, and where the ledger and the evidence store lie
/// under the root.
#[derive(Debug)]
pub struct Workspace {
    pub root: String,
    pub actor: String,
    pub stall_days: i64,
    pub habit_stall_days: i64,
    pub wip_limit: usize,
    pub ledger_rel: String,
    pub objects_rel: String,
}

pub struct WorkspaceView {
    pub root: Seq<char>,
    pub actor: Seq<char>,
    pub stall_days: i64,
    pub habit_stall_days: i64,
    pub wip_limit: usize,
    pub ledger_rel: Seq<char>,
    pub objects_rel: Seq<char>,
}

impl View for Workspace {
    type V = WorkspaceView;

    open spec fn view(&self) -> WorkspaceView {
        WorkspaceView {
            root: self.root@,
            actor: self.actor@,
            stall_days: self.stall_days,
            habit_stall_days: self.habit_stall_days,
            wip_limit: self.wip_limit,
            ledger_rel: self.ledger_rel@,
            objects_rel: self.objects_rel@,
        }
    }
}

/// The workspace a settings table describes: the `--actor` flag wins over
/// the `actor` setting, which wins over `default_actor`; a negative
/// `wip_limit` counts as 0.
pub open spec fn workspace_of(root: Seq<char>, actor_flag: Option<Seq<char>>, default_actor: Seq<char>, t: TomlView) -> WorkspaceView {
    let wip = int_setting(t, "wip_limit"@, 2);
    WorkspaceView {
        root,
        actor: match actor_flag {
            Some(a) => a,
            None => match str_setting(t, "actor"@) {
                Some(a) => a,
                None => default_actor,
            },
        },
        stall_days: int_setting(t, "stall_days"@, 4),
        habit_stall_days: int_setting(t, "habit_stall_days"@, 2),
        wip_limit: if wip < 0 { 0 } else { wip as usize },
        ledger_rel: path_setting(t, "ledger"@, "ledger/ledger.jsonl"@),
        objects_rel: path_setting(t, "objects"@, "ledger/objects"@),
    }
}

/// `path` under `base`, as `Path::join` puts it on Unix: an absolute `path`
/// stands alone; otherwise a `/` separates the two unless `base` is empty
/// or already ends with one.
pub open spec fn path_join(base: Seq<char>, path: Seq<char>) -> Seq<char> {
    if path.len() > 0 && path[0] == '/' {
        path
    } else if base.len() > 0 && base.last() != '/' {
        base + seq!['/'] + path
    } else {
        base + path
    }
}

/// `path_join(base, path)`, computed.
pub fn join_path(base: &str, path: &str) -> (r: String)
    ensures
        r@ == path_join(base@, path@),
{
    let p = crate::text::chars_of(path);
    if p.len() > 0 && p[0] == '/' {
        return owned(path);
    }
    let b = crate::text::chars_of(base);
    if b.len() > 0 && b[b.len() - 1] != '/' {
        let r = concat(base, "/");
        let r = concat(r.as_str(), path);
        proof {
            reveal_strlit("/");
        }
        r
    } else {
        concat(base, path)
    }
}

/// The value of the first entry named `key`.
fn get_entry<'a>(entries: &'a Vec<(String, Toml)>, key: &str) -> (r: Option<&'a Toml>)
    ensures
        match r {
            Some(v) => first_entry(toml_view(Toml::Table(*entries))->Table_0, key@) == Some(v@),
            None => first_entry(toml_view(Toml::Table(*entries))->Table_0, key@) is None,
        },
{
    let ghost es = toml_view(Toml::Table(*entries))->Table_0;
    let mut i: usize = 0;
    proof {
        assert(es.skip(0) =~= es);
    }
    while i < entries.len()
        invariant
            es == toml_view(Toml::Table(*entries))->Table_0,
            i <= entries@.len(),
            first_entry(es, key@) == first_entry(es.skip(i as int), key@),
        decreases entries@.len() - i,
    {
        proof {
            assert(es.skip(i as int)[0] == (entries@[i as int].0@, entries@[i as int].1@));
            assert(es.skip(i as int).drop_first() =~= es.skip(i + 1));
        }
        if str_eq(entries[i].0.as_str(), key) {
            return Some(&entries[i].1);
        }
        i = i + 1;
    }
    proof {
        assert(es.skip(i as int) =~= Seq::<(Seq<char>, TomlView)>::empty());
    }
    None
}

fn get<'a>(t: &'a Toml, key: &str) -> (r: Option<&'a Toml>)
    ensures
        match r {
            Some(v) => toml_get(t@, key@) == Some(v@),
            None => toml_get(t@, key@) is None,
        },
{
    match t {
        Toml::Table(entries) => get_entry(entries, key),
        _ => None,
    }
}

fn int_of(t: &Toml, key: &str, default: i64) -> (r: i64)
    ensures
        r == int_setting(t@, key@, default),
{
    match get(t, key) {
        Some(Toml::Integer(i)) => *i,
        _ => default,
    }
}

fn str_of(t: &Toml, key: &str) -> (r: Option<String>)
    ensures
        crate::text::opt_view(r) == str_setting(t@, key@),
{
    match get(t, key) {
        Some(Toml::Str(s)) => Some(s.clone()),
        _ => None,
    }
}

fn path_of(t: &Toml, key: &str, default: &str) -> (r: String)
    ensures
        r@ == path_setting(t@, key@, default@),
{
    match get(t, "paths") {
        Some(p) => match p {
            Toml::Table(_) => match str_of(p, key) {
                Some(s) => s,
                None => owned(default),
            },
            _ => owned(default),
        },
        None => owned(default),
    }
}

impl Workspace {
    /// The workspace rooted at `root` whose `banto.toml` holds `text`.
    pub fn from_toml(root: String, actor_flag: Option<String>, default_actor: String, text: &str) -> (r: Result<Workspace, String>)
        ensures
            match parsed_toml(text@) {
                Err(m) => r matches Err(e) && e@ == "banto.toml の解析に失敗: "@ + m,
                Ok(t) => r matches Ok(ws) && ws@ == workspace_of(root@, crate::text::opt_view(actor_flag), default_actor@, t),
            },
    {
        let table = match parse_toml(text) {
            Ok(t) => t,
            Err(m) => {
                return Err(concat("banto.toml の解析に失敗: ", m.as_str()));
            },
        };
        let actor = match actor_flag {
            Some(a) => a,
            None => match str_of(&table, "actor") {
                Some(a) => a,
                None => default_actor,
            },
        };
        let wip = int_of(&table, "wip_limit", 2);
        let wip_limit: usize = if wip < 0 { 0 } else { wip as usize };
        Ok(Workspace {
            root,
            actor,
            stall_days: int_of(&table, "stall_days", 4),
            habit_stall_days: int_of(&table, "habit_stall_days", 2),
            wip_limit,
            ledger_rel: path_of(&table, "ledger", DEFAULT_LEDGER),
            objects_rel: path_of(&table, "objects", DEFAULT_OBJECTS),
        })
    }

    /// The ledger file.
    pub fn ledger_path(&self) -> (r: String)
        ensures
            r@ == path_join(self.root@, self.ledger_rel@),
    {
        join_path(self.root.as_str(), self.ledger_rel.as_str())
    }

    /// The evidence store.
    pub fn objects_path(&self) -> (r: String)
        ensures
            r@ == path_join(self.root@, self.objects_rel@),
    {
        join_path(self.root.as_str(), self.objects_rel.as_str())
    }

    /// The settings of the brief and the health bells, at the current
    /// local time (RFC 3339 text that reads back; which instant is the
    /// clock's).
    pub fn brief_config(&self) -> (c: BriefConfig)
        ensures
            rfc3339_error(c.now@) is None,
            c.stall_days == self.stall_days,
            c.habit_stall_days == self.habit_stall_days,
            c.wip_limit == self.wip_limit,
    {
        BriefConfig {
            now: now_rfc3339_precise(),
            stall_days: self.stall_days,
            habit_stall_days: self.habit_stall_days,
            wip_limit: self.wip_limit,
        }
    }
}

} // verus!
