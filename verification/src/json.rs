//! JSON values and their canonical form.
//!
//! Canonical form (schema banto/1): UTF-8, object keys in byte order, no
//! whitespace, strings escaped the way `serde_json` escapes them. Every line
//! of the ledger must equal the canonical form of the value it parses to.
use vstd::prelude::*;
use crate::text::{seq_lt, owned, compare_str, lemma_seq_lt_transitive};
use crate::KernelError;

verus! {

/// A JSON value. Numbers are held as the text `serde_json` prints for them.
///
/// Object entries are kept in strictly increasing key order (see
/// `JsonValue::wf`), as `serde_json`'s map keeps them; `Json::object` builds
/// such an object from entries in any order.
#[derive(Debug, PartialEq)]
pub enum Json {
    Null,
    Bool(bool),
    Number(String),
    Str(String),
    Array(Vec<Json>),
    Object(Vec<(String, Json)>),
}

/// The mathematical content of a `Json`.
pub enum JsonValue {
    Null,
    Bool(bool),
    Number(Seq<char>),
    Str(Seq<char>),
    Array(Seq<JsonValue>),
    Object(Seq<(Seq<char>, JsonValue)>),
}

pub open spec fn json_view(j: Json) -> JsonValue
    decreases j,
{
    match j {
        Json::Null => JsonValue::Null,
        Json::Bool(b) => JsonValue::Bool(b),
        Json::Number(n) => JsonValue::Number(n@),
        Json::Str(s) => JsonValue::Str(s@),
        Json::Array(items) => JsonValue::Array(
            Seq::new(
                items@.len(),
                |k: int|
                    if 0 <= k < items@.len() {
                        proof {
                            assert(decreases_to!(j => items));
                            assert(decreases_to!(items => items@));
                            assert(decreases_to!(items@ => items@[k]));
                        }
                        json_view(items@[k])
                    } else {
                        JsonValue::Null
                    },
            ),
        ),
        Json::Object(entries) => JsonValue::Object(
            Seq::new(
                entries@.len(),
                |k: int|
                    if 0 <= k < entries@.len() {
                        proof {
                            assert(decreases_to!(j => entries));
                            assert(decreases_to!(entries => entries@));
                            assert(decreases_to!(entries@ => entries@[k]));
                            assert(decreases_to!(entries@[k] => entries@[k].1));
                        }
                        (entries@[k].0@, json_view(entries@[k].1))
                    } else {
                        (Seq::empty(), JsonValue::Null)
                    },
            ),
        ),
    }
}

impl View for Json {
    type V = JsonValue;

    open spec fn view(&self) -> JsonValue {
        json_view(*self)
    }
}

/// The escape `serde_json` writes for one character of a string.
pub open spec fn escape_char(c: char) -> Seq<char> {
    if c == '"' {
        seq!['\\', '"']
    } else if c == '\\' {
        seq!['\\', '\\']
    } else if c == '\x08' {
        seq!['\\', 'b']
    } else if c == '\t' {
        seq!['\\', 't']
    } else if c == '\n' {
        seq!['\\', 'n']
    } else if c == '\x0c' {
        seq!['\\', 'f']
    } else if c == '\r' {
        seq!['\\', 'r']
    } else if (c as u32) < 0x20 {
        seq!['\\', 'u', '0', '0', hex_digit((c as u32) / 16), hex_digit((c as u32) % 16)]
    } else {
        seq![c]
    }
}

/// Lowercase hexadecimal digit for `d < 16`.
pub open spec fn hex_digit(d: u32) -> char {
    if d < 10 {
        ((('0' as u32) + d) as char)
    } else {
        ((('a' as u32) + (d - 10)) as char)
    }
}

pub open spec fn escaped(s: Seq<char>) -> Seq<char>
    decreases s.len(),
{
    if s.len() == 0 {
        Seq::empty()
    } else {
        escaped(s.drop_last()) + escape_char(s.last())
    }
}

/// A JSON string literal for `s`.
pub open spec fn json_quote(s: Seq<char>) -> Seq<char> {
    seq!['"'] + escaped(s) + seq!['"']
}

/// Canonical text of a value.
pub open spec fn canon(j: JsonValue) -> Seq<char>
    decreases j, 0nat,
{
    match j {
        JsonValue::Null => "null"@,
        JsonValue::Bool(b) => if b { "true"@ } else { "false"@ },
        JsonValue::Number(n) => n,
        JsonValue::Str(s) => json_quote(s),
        JsonValue::Array(items) => seq!['['] + canon_items(items, items.len()) + seq![']'],
        JsonValue::Object(entries) => seq!['{'] + canon_entries(entries, entries.len()) + seq!['}'],
    }
}

/// Canonical text of the first `n` items of an array, comma separated.
pub open spec fn canon_items(items: Seq<JsonValue>, n: nat) -> Seq<char>
    decreases items, n,
{
    if n == 0 || n > items.len() {
        Seq::empty()
    } else if n == 1 {
        canon(items[0])
    } else {
        canon_items(items, (n - 1) as nat) + seq![','] + canon(items[n - 1])
    }
}

/// Canonical text of one object entry: quoted key, colon, value.
pub open spec fn canon_entry(e: (Seq<char>, JsonValue)) -> Seq<char>
    decreases e, 0nat,
{
    json_quote(e.0) + seq![':'] + canon(e.1)
}

/// Canonical text of the first `n` entries of an object, comma separated.
pub open spec fn canon_entries(entries: Seq<(Seq<char>, JsonValue)>, n: nat) -> Seq<char>
    decreases entries, n,
{
    if n == 0 || n > entries.len() {
        Seq::empty()
    } else if n == 1 {
        canon_entry(entries[0])
    } else {
        canon_entries(entries, (n - 1) as nat) + seq![','] + canon_entry(entries[n - 1])
    }
}

/// Keys strictly increase: sorted and free of duplicates.
pub open spec fn keys_sorted(entries: Seq<(Seq<char>, JsonValue)>) -> bool {
    forall|i: int, k: int| 0 <= i < k < entries.len() ==> seq_lt(#[trigger] entries[i].0, #[trigger] entries[k].0)
}

impl JsonValue {
    /// Every object inside the value (itself included) has strictly
    /// increasing keys.
    pub open spec fn wf(self) -> bool
        decreases self,
    {
        match self {
            JsonValue::Array(items) => forall|i: int| 0 <= i < items.len() ==> (#[trigger] items[i]).wf(),
            JsonValue::Object(entries) => keys_sorted(entries) && forall|i: int|
                0 <= i < entries.len() ==> (#[trigger] entries[i]).1.wf(),
            _ => true,
        }
    }

    /// The value stored under `key`, when `self` is an object holding it
    /// (keys being unique, the last entry with that key).
    pub open spec fn get(self, key: Seq<char>) -> Option<JsonValue> {
        match self {
            JsonValue::Object(entries) => last_value(entries, key),
            _ => None,
        }
    }

    /// The string held under `key`, when there is one.
    pub open spec fn get_str(self, key: Seq<char>) -> Option<Seq<char>> {
        match self.get(key) {
            Some(JsonValue::Str(s)) => Some(s),
            _ => None,
        }
    }
}

impl Json {
    /// A string value.
    pub fn string(s: &str) -> (j: Json)
        ensures
            j@ == JsonValue::Str(s@),
    {
        Json::Str(owned(s))
    }

    /// A copy of the value.
    pub fn copy(&self) -> (r: Json)
        ensures
            r@ == self@,
        decreases self,
    {
        match self {
            Json::Null => Json::Null,
            Json::Bool(b) => Json::Bool(*b),
            Json::Number(n) => Json::Number(n.clone()),
            Json::Str(s) => Json::Str(s.clone()),
            Json::Array(items) => {
                let mut out: Vec<Json> = Vec::new();
                let mut i: usize = 0;
                while i < items.len()
                    invariant
                        *self == Json::Array(*items),
                        i <= items@.len(),
                        out@.len() == i,
                        forall|k: int| 0 <= k < i ==> (#[trigger] out@[k])@ == items@[k]@,
                    decreases items@.len() - i,
                {
                    proof {
                        assert(decreases_to!(*self => self->Array_0));
                        assert(decreases_to!(self->Array_0 => self->Array_0@));
                        assert(decreases_to!(self->Array_0@ => self->Array_0@[i as int]));
                    }
                    out.push(items[i].copy());
                    i = i + 1;
                }
                let r = Json::Array(out);
                proof {
                    assert(json_view(r)->Array_0 =~= json_view(*self)->Array_0);
                }
                r
            },
            Json::Object(entries) => {
                let mut out: Vec<(String, Json)> = Vec::new();
                let mut i: usize = 0;
                while i < entries.len()
                    invariant
                        *self == Json::Object(*entries),
                        i <= entries@.len(),
                        out@.len() == i,
                        forall|k: int| 0 <= k < i ==> (#[trigger] out@[k]).0@ == entries@[k].0@,
                        forall|k: int| 0 <= k < i ==> (#[trigger] out@[k]).1@ == entries@[k].1@,
                    decreases entries@.len() - i,
                {
                    proof {
                        assert(decreases_to!(*self => self->Object_0));
                        assert(decreases_to!(self->Object_0 => self->Object_0@));
                        assert(decreases_to!(self->Object_0@ => self->Object_0@[i as int]));
                        assert(decreases_to!(self->Object_0@[i as int] => self->Object_0@[i as int].1));
                    }
                    let v = entries[i].1.copy();
                    out.push((entries[i].0.clone(), v));
                    i = i + 1;
                }
                let r = Json::Object(out);
                proof {
                    assert(json_view(r)->Object_0 =~= json_view(*self)->Object_0);
                }
                r
            },
        }
    }

    /// The value stored under `key`, when `self` is an object holding it.
    pub fn get(&self, key: &str) -> (r: Option<&Json>)
        ensures
            r matches Some(v) ==> self@.get(key@) == Some(v@),
            r is None ==> self@.get(key@) is None,
    {
        match self {
            Json::Object(entries) => {
                let ghost es = self@->Object_0;
                let mut i: usize = entries.len();
                proof {
                    assert(es.take(i as int) =~= es);
                }
                while i > 0
                    invariant
                        *self == Json::Object(*entries),
                        es == self@->Object_0,
                        es.len() == entries@.len(),
                        i <= entries@.len(),
                        last_value(es, key@) == last_value(es.take(i as int), key@),
                    decreases i,
                {
                    proof {
                        assert(es[i - 1] == (entries@[i - 1].0@, entries@[i - 1].1@));
                        assert(es.take(i as int).drop_last() =~= es.take(i - 1));
                        assert(es.take(i as int).last() == es[i - 1]);
                    }
                    if crate::text::str_eq(entries[i - 1].0.as_str(), key) {
                        return Some(&entries[i - 1].1);
                    }
                    i = i - 1;
                }
                None
            },
            _ => None,
        }
    }

    /// The string held under `key`, when there is one.
    pub fn get_str(&self, key: &str) -> (r: Option<String>)
        ensures
            r matches Some(s) ==> self@.get_str(key@) == Some(s@),
            r is None ==> self@.get_str(key@) is None,
    {
        match self.get(key) {
            Some(Json::Str(s)) => Some(s.clone()),
            _ => None,
        }
    }
}

/// The view of a vector of object entries.
pub open spec fn entries_view(es: Seq<(String, Json)>) -> Seq<(Seq<char>, JsonValue)> {
    Seq::new(es.len(), |k: int| (es[k].0@, es[k].1@))
}

/// Adding an entry whose key sorts after the last key keeps an object well
/// formed, when the new value is.
pub proof fn lemma_sorted_push(es: Seq<(Seq<char>, JsonValue)>, k: Seq<char>, v: JsonValue)
    requires
        JsonValue::Object(es).wf(),
        v.wf(),
        es.len() > 0 ==> seq_lt(es.last().0, k),
    ensures
        JsonValue::Object(es.push((k, v))).wf(),
{
    let n = es.push((k, v));
    assert forall|i: int, j: int| 0 <= i < j < n.len() implies seq_lt(#[trigger] n[i].0, #[trigger] n[j].0) by {
        if j == es.len() {
            if i < es.len() - 1 {
                assert(seq_lt(es[i].0, es[es.len() - 1].0));
                lemma_seq_lt_transitive(es[i].0, es.last().0, k);
            }
        } else {
            assert(seq_lt(es[i].0, es[j].0));
        }
    }
    assert forall|i: int| 0 <= i < n.len() implies (#[trigger] n[i]).1.wf() by {
        if i < es.len() {
            assert(es[i].1.wf());
        }
    }
}

/// Appends an entry to the entries of an object under construction; with
/// a key after the last one and a well-formed value, a well-formed object
/// stays well formed.
pub fn push_sorted(v: &mut Vec<(String, Json)>, key: &str, value: Json)
    ensures
        entries_view(final(v)@) == entries_view(old(v)@).push((key@, value@)),
        JsonValue::Object(entries_view(old(v)@)).wf() && value@.wf()
            && (entries_view(old(v)@).len() > 0 ==> seq_lt(entries_view(old(v)@).last().0, key@))
            ==> JsonValue::Object(entries_view(final(v)@)).wf(),
{
    let ghost before = entries_view(v@);
    v.push((owned(key), value));
    proof {
        assert(entries_view(v@) =~= before.push((key@, value@)));
        if JsonValue::Object(before).wf() && value@.wf() && (before.len() > 0 ==> seq_lt(before.last().0, key@)) {
            lemma_sorted_push(before, key@, value@);
        }
    }
}

pub proof fn lemma_object_view(es: Vec<(String, Json)>)
    ensures
        Json::Object(es)@ == JsonValue::Object(entries_view(es@)),
{
    assert(Json::Object(es)@->Object_0 =~= entries_view(es@));
}

/// In an object with strictly increasing keys, the value found under the key
/// of entry `i` is that entry's value.
pub proof fn lemma_get_at(es: Seq<(Seq<char>, JsonValue)>, idx: int)
    requires
        keys_sorted(es),
        0 <= idx < es.len(),
    ensures
        JsonValue::Object(es).get(es[idx].0) == Some(es[idx].1),
    decreases es.len(),
{
    if idx != es.len() - 1 {
        crate::text::lemma_seq_lt_irreflexive(es[idx].0);
        assert(seq_lt(es[idx].0, es[es.len() - 1].0));
        assert(es.drop_last()[idx] == es[idx]);
        lemma_get_at(es.drop_last(), idx);
    }
}

/// A key held by no entry is found nowhere.
pub proof fn lemma_get_absent(es: Seq<(Seq<char>, JsonValue)>, k: Seq<char>)
    requires
        forall|j: int| 0 <= j < es.len() ==> (#[trigger] es[j]).0 != k,
    ensures
        JsonValue::Object(es).get(k) is None,
    decreases es.len(),
{
    if es.len() > 0 {
        assert(es[es.len() - 1].0 != k);
        assert forall|j: int| 0 <= j < es.drop_last().len() implies (#[trigger] es.drop_last()[j]).0 != k by {
            assert(es.drop_last()[j] == es[j]);
        }
        lemma_get_absent(es.drop_last(), k);
    }
}

/// Lookup in an object with strictly increasing keys.
pub proof fn lemma_get_cases(es: Seq<(Seq<char>, JsonValue)>, k: Seq<char>)
    requires
        keys_sorted(es),
    ensures
        JsonValue::Object(es).get(k) is Some <==> exists|j: int| 0 <= j < es.len() && (#[trigger] es[j]).0 == k,
        forall|j: int| 0 <= j < es.len() && (#[trigger] es[j]).0 == k ==> JsonValue::Object(es).get(k) == Some(es[j].1),
{
    assert forall|j: int| 0 <= j < es.len() && (#[trigger] es[j]).0 == k implies JsonValue::Object(es).get(k) == Some(es[j].1) by {
        lemma_get_at(es, j);
    }
    if !(exists|j: int| 0 <= j < es.len() && (#[trigger] es[j]).0 == k) {
        lemma_get_absent(es, k);
    }
}

impl Json {
    /// An object with no entries.
    pub fn empty_object() -> (j: Json)
        ensures
            j@ == JsonValue::Object(Seq::empty()),
            j@.wf(),
    {
        let j = Json::Object(Vec::new());
        assert(j@->Object_0 =~= Seq::<(Seq<char>, JsonValue)>::empty());
        j
    }

    /// A number from an unsigned integer.
    pub fn from_u64(n: u64) -> (j: Json)
        ensures
            j@ == JsonValue::Number(crate::text::decimal(n as nat)),
    {
        Json::Number(crate::text::u64_decimal(n))
    }

    /// Stores `value` under `key` in an object, replacing what was there
    /// (map insertion). Keys stay strictly increasing. A non-object is left
    /// unchanged.
    pub fn insert(&mut self, key: String, value: Json)
        requires
            old(self)@.wf(),
        ensures
            old(self)@ is Object ==> final(self)@ is Object,
            old(self)@ !is Object ==> final(self)@ == old(self)@,
            old(self)@ is Object ==> keys_sorted(final(self)@->Object_0),
            old(self)@ is Object ==> forall|k: Seq<char>| #[trigger] final(self)@.get(k) == if k == key@ {
                Some(value@)
            } else {
                old(self)@.get(k)
            },
            value@.wf() ==> final(self)@.wf(),
    {
        match self {
            Json::Object(es) => {
                let ghost old_es = entries_view(es@);
                proof {
                    lemma_object_view(*es);
                }
                let mut p: usize = 0;
                loop
                    invariant_except_break
                        p <= es@.len(),
                    invariant
                        entries_view(es@) == old_es,
                        keys_sorted(old_es),
                        forall|j: int| 0 <= j < old_es.len() ==> (#[trigger] old_es[j]).1.wf(),
                        forall|j: int| 0 <= j < p ==> seq_lt(#[trigger] old_es[j].0, key@),
                    ensures
                        p <= es@.len(),
                        p < es@.len() ==> !seq_lt(old_es[p as int].0, key@),
                    decreases es@.len() - p,
                {
                    if p >= es.len() {
                        break;
                    }
                    let c = compare_str(es[p].0.as_str(), key.as_str());
                    assert(old_es[p as int].0 == es@[p as int].0@);
                    if c != -1 {
                        break;
                    }
                    p = p + 1;
                }
                let found = p < es.len() && crate::text::str_eq(es[p].0.as_str(), key.as_str());
                // Every entry from `p` on has a larger key, unless entry `p` holds `key` itself.
                proof {
                    if p < old_es.len() {
                        assert(old_es[p as int].0 == es@[p as int].0@);
                        crate::text::lemma_seq_lt_total(key@, old_es[p as int].0);
                    }
                    assert forall|j: int| p <= j < old_es.len() && !(found && j == p) implies seq_lt(key@, #[trigger] old_es[j].0) by {
                        if j > p {
                            assert(seq_lt(old_es[p as int].0, old_es[j].0));
                            if !found {
                                crate::text::lemma_seq_lt_transitive(key@, old_es[p as int].0, old_es[j].0);
                            }
                        }
                    }
                }
                let ghost vv = value@;
                if found {
                    es.set(p, (key, value));
                } else {
                    es.insert(p, (key, value));
                }
                proof {
                    let new_es = entries_view(es@);
                    lemma_object_view(*es);
                    if found {
                        assert(new_es =~= old_es.update(p as int, (key@, vv)));
                        assert forall|i: int, k: int| 0 <= i < k < new_es.len() implies seq_lt(#[trigger] new_es[i].0, #[trigger] new_es[k].0) by {
                            assert(new_es[i].0 == old_es[i].0);
                            assert(new_es[k].0 == old_es[k].0);
                        }
                        assert forall|k: Seq<char>| #[trigger] JsonValue::Object(new_es).get(k) == if k == key@ {
                            Some(vv)
                        } else {
                            JsonValue::Object(old_es).get(k)
                        } by {
                            lemma_get_cases(new_es, k);
                            lemma_get_cases(old_es, k);
                            if k == key@ {
                                lemma_get_at(new_es, p as int);
                            } else {
                                assert forall|j: int| 0 <= j < new_es.len() && (#[trigger] new_es[j]).0 == k implies old_es[j].0 == k && old_es[j].1 == new_es[j].1 by {}
                                assert forall|j: int| 0 <= j < old_es.len() && (#[trigger] old_es[j]).0 == k implies new_es[j].0 == k by {}
                            }
                        }
                    } else {
                        assert(new_es =~= old_es.insert(p as int, (key@, vv)));
                        assert forall|i: int, k: int| 0 <= i < k < new_es.len() implies seq_lt(#[trigger] new_es[i].0, #[trigger] new_es[k].0) by {
                            if k < p {
                                assert(new_es[i].0 == old_es[i].0);
                                assert(new_es[k].0 == old_es[k].0);
                            } else if k == p {
                                assert(new_es[i].0 == old_es[i].0);
                            } else if i == p {
                                assert(new_es[k].0 == old_es[k - 1].0);
                            } else if i < p {
                                assert(new_es[i].0 == old_es[i].0);
                                assert(new_es[k].0 == old_es[k - 1].0);
                            } else {
                                assert(new_es[i].0 == old_es[i - 1].0);
                                assert(new_es[k].0 == old_es[k - 1].0);
                            }
                        }
                        assert forall|k: Seq<char>| #[trigger] JsonValue::Object(new_es).get(k) == if k == key@ {
                            Some(vv)
                        } else {
                            JsonValue::Object(old_es).get(k)
                        } by {
                            lemma_get_cases(new_es, k);
                            lemma_get_cases(old_es, k);
                            if k == key@ {
                                lemma_get_at(new_es, p as int);
                            } else {
                                assert forall|j: int| 0 <= j < new_es.len() && (#[trigger] new_es[j]).0 == k implies
                                    (j < p && old_es[j].0 == k && old_es[j].1 == new_es[j].1)
                                    || (j > p && old_es[j - 1].0 == k && old_es[j - 1].1 == new_es[j].1) by {}
                                assert forall|j: int| 0 <= j < old_es.len() && (#[trigger] old_es[j]).0 == k implies
                                    (j < p && new_es[j].0 == k) || (j >= p && new_es[j + 1].0 == k) by {
                                    if j >= p {
                                        assert(new_es[j + 1] == old_es[j]);
                                    }
                                }
                            }
                        }
                    }
                    if vv.wf() {
                        assert forall|j: int| 0 <= j < new_es.len() implies (#[trigger] new_es[j]).1.wf() by {
                            if found {
                                if j != p {
                                    assert(new_es[j] == old_es[j]);
                                }
                            } else if j < p {
                                assert(new_es[j] == old_es[j]);
                            } else if j > p {
                                assert(new_es[j] == old_es[j - 1]);
                            }
                        }
                    }
                }
            },
            _ => {},
        }
    }

    /// An object holding `entries`; for a key given more than once the last
    /// value wins.
    pub fn object(entries: Vec<(String, Json)>) -> (j: Json)
        requires
            forall|i: int| 0 <= i < entries@.len() ==> (#[trigger] entries@[i]).1@.wf(),
        ensures
            j@ is Object,
            j@.wf(),
            forall|k: Seq<char>| #[trigger] j@.get(k) == last_value(entries_view(entries@), k),
    {
        let mut j = Json::empty_object();
        let mut rest = entries;
        let ghost all = entries_view(rest@);
        let ghost orig = rest@;
        let total = rest.len();
        let mut n: usize = 0;
        proof {
            assert forall|k: Seq<char>| #[trigger] j@.get(k) == last_value(all.take(0), k) by {}
        }
        while rest.len() > 0
            invariant
                all.len() == orig.len(),
                all.len() == total,
                n + rest@.len() == all.len(),
                rest@ == orig.subrange(n as int, orig.len() as int),
                all == entries_view(orig),
                forall|i: int| 0 <= i < orig.len() ==> (#[trigger] orig[i]).1@.wf(),
                j@ is Object,
                j@.wf(),
                forall|k: Seq<char>| #[trigger] j@.get(k) == last_value(all.take(n as int), k),
            decreases rest@.len(),
        {
            assert(n < all.len());
            let (key, value) = rest.remove(0);
            let ghost kv = key@;
            let ghost vv = value@;
            proof {
                assert(orig[n as int] == (key, value));
                assert(kv == all[n as int].0 && vv == all[n as int].1);
            }
            j.insert(key, value);
            proof {
                assert(all.take(n + 1) =~= all.take(n as int).push(all[n as int]));
                assert(rest@ =~= orig.subrange(n + 1, orig.len() as int));
                assert forall|k: Seq<char>| #[trigger] j@.get(k) == last_value(all.take(n + 1), k) by {
                    assert(all.take(n + 1).last() == all[n as int]);
                    assert(all.take(n + 1).drop_last() =~= all.take(n as int));
                }
            }
            n = n + 1;
        }
        proof {
            assert(all.take(n as int) =~= all);
        }
        j
    }
}

/// The value given last for `key` among `entries`.
pub open spec fn last_value(entries: Seq<(Seq<char>, JsonValue)>, key: Seq<char>) -> Option<JsonValue>
    decreases entries.len(),
{
    if entries.len() == 0 {
        None
    } else if entries.last().0 == key {
        Some(entries.last().1)
    } else {
        last_value(entries.drop_last(), key)
    }
}

/// In an object whose values are well formed, so is the value found under
/// any key.
pub proof fn lemma_last_value_wf(es: Seq<(Seq<char>, JsonValue)>, key: Seq<char>)
    requires
        forall|i: int| 0 <= i < es.len() ==> (#[trigger] es[i]).1.wf(),
    ensures
        last_value(es, key) matches Some(v) ==> v.wf(),
    decreases es.len(),
{
    if es.len() > 0 {
        assert(es.last().1.wf());
        let rest = es.drop_last();
        assert forall|i: int| 0 <= i < rest.len() implies (#[trigger] rest[i]).1.wf() by {
            assert(rest[i] == es[i]);
        }
        lemma_last_value_wf(rest, key);
    }
}

/// The value of a run of decimal digits.
pub open spec fn digits_value(t: Seq<char>) -> int
    decreases t.len(),
{
    if t.len() == 0 {
        0
    } else {
        digits_value(t.drop_last()) * 10 + ((t.last() as u32) - ('0' as u32))
    }
}

/// Non-empty and made of decimal digits only.
pub open spec fn all_digits(t: Seq<char>) -> bool {
    t.len() > 0 && forall|i: int| 0 <= i < t.len() ==> '0' <= #[trigger] t[i] && t[i] <= '9'
}

impl JsonValue {
    /// The value as an unsigned 64-bit integer: a number written with digits
    /// only, no larger than `u64::MAX`. (`serde_json` writes every other number,
    /// negative or fractional, with a sign, a point or an exponent.)
    pub open spec fn as_u64(self) -> Option<u64> {
        match self {
            JsonValue::Number(t) => if all_digits(t) && digits_value(t) <= u64::MAX {
                Some(digits_value(t) as u64)
            } else {
                None
            },
            _ => None,
        }
    }
}

proof fn lemma_digits_grow(t: Seq<char>, i: int)
    requires
        0 <= i <= t.len(),
        forall|k: int| 0 <= k < t.len() ==> '0' <= #[trigger] t[k] && t[k] <= '9',
    ensures
        digits_value(t) >= digits_value(t.take(i)),
        digits_value(t.take(i)) >= 0,
    decreases t.len(),
{
    if t.len() > 0 {
        if i == t.len() {
            assert(t.take(i) =~= t);
            lemma_digits_grow(t.drop_last(), i - 1);
        } else {
            assert(t.drop_last().take(i) =~= t.take(i));
            lemma_digits_grow(t.drop_last(), i);
        }
    } else {
        assert(t.take(i) =~= t);
    }
}

impl Json {
    /// The value as a `u64`, when it is a number written with digits only
    /// that fits.
    pub fn as_u64(&self) -> (r: Option<u64>)
        ensures
            r == self@.as_u64(),
    {
        match self {
            Json::Number(text) => {
                assert(self@ == JsonValue::Number(text@));
                let cs = crate::text::chars_of(text.as_str());
                if cs.len() == 0 {
                    return None;
                }
                let mut acc: u64 = 0;
                let mut i: usize = 0;
                while i < cs.len()
                    invariant
                        cs@ == text@,
                        i <= cs@.len(),
                        acc == digits_value(cs@.take(i as int)),
                        self@ == JsonValue::Number(cs@),
                        forall|k: int| 0 <= k < i ==> '0' <= #[trigger] cs@[k] && cs@[k] <= '9',
                    decreases cs@.len() - i,
                {
                    let c = cs[i];
                    if !('0' <= c && c <= '9') {
                        assert(!('0' <= cs@[i as int] && cs@[i as int] <= '9'));
                        return None;
                    }
                    let d = ((c as u32) - ('0' as u32)) as u64;
                    proof {
                        assert(cs@.take(i + 1).drop_last() =~= cs@.take(i as int));
                        assert(cs@.take(i + 1).last() == c);
                        assert(digits_value(cs@.take(i + 1)) == acc * 10 + d);
                        if all_digits(cs@) {
                            lemma_digits_grow(cs@, i + 1);
                        }
                    }
                    match acc.checked_mul(10) {
                        Some(m) => match m.checked_add(d) {
                            Some(v) => {
                                acc = v;
                            },
                            None => {
                                proof {
                                    assert(m + d > u64::MAX);
                                    assert(m == acc * 10);
                                }
                                return None;
                            },
                        },
                        None => {
                            proof {
                                assert(acc * 10 > u64::MAX);
                            }
                            return None;
                        },
                    }
                    i = i + 1;
                }
                proof {
                    assert(cs@.take(i as int) =~= cs@);
                }
                Some(acc)
            },
            _ => None,
        }
    }
}

/// What `serde_json::from_str::<serde_json::Value>` makes of `text`: the value,
/// or the text of the error.
pub uninterp spec fn parsed_json(text: Seq<char>) -> Result<JsonValue, Seq<char>>;

/// `serde_json::from_str` into a `serde_json::Value`, turned into a `Json`
/// (maps become objects in the order the map keeps, numbers the text their
/// `Display` writes). On success the result equals `parsed_json(text)`, and
/// its objects have strictly increasing keys: `serde_json::Map` is a
/// `BTreeMap<String, Value>`, ordered by the bytes of the keys and holding each
/// key once. On failure the error's text is returned.
#[verifier::external_body]
pub(crate) fn parse_json(text: &str) -> (r: Result<Json, String>)
    ensures
        r is Ok ==> parsed_json(text@) == Ok::<JsonValue, Seq<char>>(r->Ok_0@),
        r is Ok ==> r->Ok_0@.wf(),
        r is Err ==> parsed_json(text@) == Err::<JsonValue, Seq<char>>(r->Err_0@),
{
    match serde_json::from_str::<serde_json::Value>(text) {
        Ok(v) => Ok(json_of_value(v)),
        Err(e) => Err(e.to_string()),
    }
}

/// `serde_json::Value`, carried through `parse_json` only.
#[verifier::external_type_specification]
#[verifier::external_body]
pub struct ExSerdeJsonValue(serde_json::Value);

/// One-for-one conversion of a parsed `serde_json::Value`, used by
/// `parse_json` alone: each variant becomes the variant of the same name,
/// numbers their `Display` text, maps their entries in the map's order.
#[verifier::external_body]
fn json_of_value(v: serde_json::Value) -> Json {
    match v {
        serde_json::Value::Null => Json::Null,
        serde_json::Value::Bool(b) => Json::Bool(b),
        serde_json::Value::Number(n) => Json::Number(n.to_string()),
        serde_json::Value::String(s) => Json::Str(s),
        serde_json::Value::Array(items) => Json::Array(items.into_iter().map(json_of_value).collect()),
        serde_json::Value::Object(map) => Json::Object(map.into_iter().map(|(k, v)| (k, json_of_value(v))).collect()),
    }
}

/// `serde_json`'s string literal for `s`: quotes around `s`, with `"`, `\`
/// and the characters below U+0020 escaped (`\b \t \n \f \r` by name, the
/// others as `\u00xx` with lowercase hex), everything else written as is.
/// Serialising a `&str` into memory cannot fail.
#[verifier::external_body]
fn quote(s: &str) -> (q: String)
    ensures
        q@ == json_quote(s@),
{
    serde_json::to_string(s).unwrap_or_default()
}

/// Canonical text of `value`, appended to `out`.
fn write_value(value: &Json, out: &mut String)
    ensures
        final(out)@ == old(out)@ + canon(value@),
    decreases value,
{
    match value {
        Json::Null => {
            out.append("null");
        },
        Json::Bool(b) => {
            if *b {
                out.append("true");
            } else {
                out.append("false");
            }
        },
        Json::Number(n) => {
            out.append(n.as_str());
        },
        Json::Str(s) => {
            let q = quote(s.as_str());
            out.append(q.as_str());
        },
        Json::Array(items) => {
            let ghost start = out@;
            out.append("[");
            proof {
                reveal_strlit("[");
            }
            let mut i: usize = 0;
            while i < items.len()
                invariant
                    *value == Json::Array(*items),
                    i <= items@.len(),
                    out@ == start + seq!['['] + canon_items(value@->Array_0, i as nat),
                decreases items@.len() - i,
            {
                if i > 0 {
                    out.append(",");
                    proof {
                        reveal_strlit(",");
                    }
                }
                proof {
                    assert(decreases_to!(*value => value->Array_0));
                    assert(decreases_to!(value->Array_0 => value->Array_0@));
                    assert(decreases_to!(value->Array_0@ => value->Array_0@[i as int]));
                }
                write_value(&items[i], out);
                proof {
                    assert(out@ =~= start + seq!['['] + canon_items(value@->Array_0, (i + 1) as nat));
                }
                i = i + 1;
            }
            out.append("]");
            proof {
                reveal_strlit("]");
                assert(out@ =~= start + canon(value@));
            }
        },
        Json::Object(entries) => {
            let ghost start = out@;
            out.append("{");
            proof {
                reveal_strlit("{");
            }
            let mut i: usize = 0;
            while i < entries.len()
                invariant
                    *value == Json::Object(*entries),
                    i <= entries@.len(),
                    out@ == start + seq!['{'] + canon_entries(value@->Object_0, i as nat),
                decreases entries@.len() - i,
            {
                if i > 0 {
                    out.append(",");
                    proof {
                        reveal_strlit(",");
                    }
                }
                let q = quote(entries[i].0.as_str());
                out.append(q.as_str());
                out.append(":");
                proof {
                    reveal_strlit(":");
                    assert(decreases_to!(*value => value->Object_0));
                    assert(decreases_to!(value->Object_0 => value->Object_0@));
                    assert(decreases_to!(value->Object_0@ => value->Object_0@[i as int]));
                    assert(decreases_to!(value->Object_0@[i as int] => value->Object_0@[i as int].1));
                }
                write_value(&entries[i].1, out);
                proof {
                    let es = value@->Object_0;
                    assert(es[i as int] == (entries@[i as int].0@, entries@[i as int].1@));
                    assert(canon_entry(es[i as int]) == json_quote(entries@[i as int].0@) + seq![':'] + canon(entries@[i as int].1@));
                    assert(out@ =~= start + seq!['{'] + canon_entries(value@->Object_0, (i + 1) as nat));
                }
                i = i + 1;
            }
            out.append("}");
            proof {
                reveal_strlit("}");
                assert(out@ =~= start + canon(value@));
            }
        },
    }
}

/// The canonical text of `value`, a well-formed value as `serde_json`
/// holds them (each object's keys in order, none twice). Always succeeds:
/// every number a `Json` holds is already finite text.
pub fn canonical_string(value: &Json) -> (r: Result<String, KernelError>)
    requires
        value@.wf(),
    ensures
        r matches Ok(s) && s@ == canon(value@),
{
    let mut out = String::new();
    write_value(value, &mut out);
    assert(out@ =~= canon(value@));
    Ok(out)
}

} // verus!
