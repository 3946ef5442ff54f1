//! The envelope of schema banto/1.
//!
//! `op` and the evidence fields `uri`/`media_type`/`bytes` are left out when
//! unset; every other field is always present.
use vstd::prelude::*;
use crate::text::{seq_lt, lemma_seq_lt_at, chars_of, concat, owned, str_eq, opt_view, opt_clone, utf8_len, has_control, any_control, byte_len, decimal, u64_decimal};
use crate::json::{Json, JsonValue, canon, canonical_string, parse_json, parsed_json, entries_view, lemma_object_view, push_sorted};
use crate::hash::{hash_bytes, hash_hex};
use crate::time::{check_rfc3339, rfc3339_error};
use crate::{KernelError, KernelErrorView};

verus! {

pub open spec fn is_lower_hex(c: char) -> bool {
    ('0' <= c && c <= '9') || ('a' <= c && c <= 'f')
}

/// Exactly 64 characters, each a lowercase hex digit.
pub open spec fn hex64(s: Seq<char>) -> bool {
    s.len() == 64 && forall|i: int| 0 <= i < s.len() ==> is_lower_hex(#[trigger] s[i])
}

/// `s` is 64 lowercase hex characters (a SHA-256 in hex).
pub fn is_hex64(s: &str) -> (r: bool)
    ensures
        r == hex64(s@),
{
    let cs = chars_of(s);
    if cs.len() != 64 {
        return false;
    }
    let mut i: usize = 0;
    while i < cs.len()
        invariant
            cs@ == s@,
            i <= cs@.len(),
            forall|k: int| 0 <= k < i ==> is_lower_hex(#[trigger] cs@[k]),
        decreases cs@.len() - i,
    {
        let c = cs[i];
        if !(('0' <= c && c <= '9') || ('a' <= c && c <= 'f')) {
            return false;
        }
        i = i + 1;
    }
    true
}

/// A character allowed inside one segment of an event type.
pub open spec fn is_type_char(c: char) -> bool {
    ('a' <= c && c <= 'z') || ('0' <= c && c <= '9') || c == '_' || c == '-'
}

/// An event type: 1 to 100 bytes, lowercase and dot separated, every segment
/// non-empty and made of `[a-z0-9_-]`. Said per character: only segment
/// characters and dots, no dot first or last, and no two dots in a row.
pub open spec fn valid_type(s: Seq<char>) -> bool {
    &&& 0 < s.len() <= 100
    &&& forall|i: int| 0 <= i < s.len() ==> (is_type_char(#[trigger] s[i]) || s[i] == '.')
    &&& s[0] != '.'
    &&& s[s.len() - 1] != '.'
    &&& forall|i: int| 0 <= i < s.len() - 1 && #[trigger] s[i] == '.' ==> s[i + 1] != '.'
}

/// `s` is a valid event type.
pub fn is_valid_type(s: &str) -> (r: bool)
    ensures
        r == valid_type(s@),
{
    let cs = chars_of(s);
    if cs.len() == 0 || cs.len() > 100 {
        return false;
    }
    if cs[0] == '.' || cs[cs.len() - 1] == '.' {
        return false;
    }
    let mut i: usize = 0;
    while i < cs.len()
        invariant
            cs@ == s@,
            0 < cs@.len() <= 100,
            i <= cs@.len(),
            forall|k: int| 0 <= k < i ==> (is_type_char(#[trigger] cs@[k]) || cs@[k] == '.'),
            forall|k: int| 0 <= k < i && k < cs@.len() - 1 && #[trigger] cs@[k] == '.' ==> cs@[k + 1] != '.',
        decreases cs@.len() - i,
    {
        let c = cs[i];
        let segment_char = ('a' <= c && c <= 'z') || ('0' <= c && c <= '9') || c == '_' || c == '-';
        if !segment_char && c != '.' {
            return false;
        }
        if c == '.' && i + 1 < cs.len() && cs[i + 1] == '.' {
            return false;
        }
        i = i + 1;
    }
    true
}


/// The schema every envelope of this ledger carries.
pub const SCHEMA: &'static str = "banto/1";

pub open spec fn schema_text() -> Seq<char> {
    "banto/1"@
}

const MAX_ACTOR_LEN: usize = 200;
const MAX_OP_LEN: usize = 200;
const MAX_URI_LEN: usize = 1000;
const MAX_MEDIA_TYPE_LEN: usize = 200;

/// Evidence: the SHA-256 of a primary artifact, with where to find it.
#[derive(Debug, Clone, PartialEq, Eq)]
pub struct Evidence {
    pub sha256: String,
    pub uri: Option<String>,
    pub media_type: Option<String>,
    pub bytes: Option<u64>,
}

pub struct EvidenceView {
    pub sha256: Seq<char>,
    pub uri: Option<Seq<char>>,
    pub media_type: Option<Seq<char>>,
    pub bytes: Option<u64>,
}

impl View for Evidence {
    type V = EvidenceView;

    open spec fn view(&self) -> EvidenceView {
        EvidenceView {
            sha256: self.sha256@,
            uri: opt_view(self.uri),
            media_type: opt_view(self.media_type),
            bytes: self.bytes,
        }
    }
}

/// An event of the ledger.
#[derive(Debug, PartialEq)]
pub struct Envelope {
    pub schema: String,
    pub seq: u64,
    pub prev: Option<String>,
    pub ts: String,
    pub actor: String,
    pub event_type: String,
    pub body: Json,
    pub evidence: Vec<Evidence>,
    pub op: Option<String>,
    pub id: String,
}

pub struct EnvelopeView {
    pub schema: Seq<char>,
    pub seq: u64,
    pub prev: Option<Seq<char>>,
    pub ts: Seq<char>,
    pub actor: Seq<char>,
    pub event_type: Seq<char>,
    pub body: JsonValue,
    pub evidence: Seq<EvidenceView>,
    pub op: Option<Seq<char>>,
    pub id: Seq<char>,
}

pub open spec fn evidence_views(es: Seq<Evidence>) -> Seq<EvidenceView> {
    Seq::new(es.len(), |i: int| es[i]@)
}

impl View for Envelope {
    type V = EnvelopeView;

    open spec fn view(&self) -> EnvelopeView {
        EnvelopeView {
            schema: self.schema@,
            seq: self.seq,
            prev: opt_view(self.prev),
            ts: self.ts@,
            actor: self.actor@,
            event_type: self.event_type@,
            body: self.body@,
            evidence: evidence_views(self.evidence@),
            op: opt_view(self.op),
            id: self.id@,
        }
    }
}

/// An optional object entry.
pub open spec fn opt_entry(key: Seq<char>, v: Option<JsonValue>) -> Seq<(Seq<char>, JsonValue)> {
    match v {
        Some(v) => seq![(key, v)],
        None => Seq::empty(),
    }
}

pub open spec fn opt_str_json(s: Option<Seq<char>>) -> Option<JsonValue> {
    match s {
        Some(s) => Some(JsonValue::Str(s)),
        None => None,
    }
}

/// The JSON object of an evidence entry; unset fields are left out.
pub open spec fn evidence_json(e: EvidenceView) -> JsonValue {
    JsonValue::Object(
        opt_entry("bytes"@, match e.bytes { Some(b) => Some(JsonValue::Number(decimal(b as nat))), None => None })
        + opt_entry("media_type"@, opt_str_json(e.media_type))
        + seq![("sha256"@, JsonValue::Str(e.sha256))]
        + opt_entry("uri"@, opt_str_json(e.uri))
    )
}

/// The JSON object of an envelope, with its fields in key order; `id` only
/// when `with_id`, `op` only when set.
pub open spec fn envelope_json(e: EnvelopeView, with_id: bool) -> JsonValue {
    JsonValue::Object(
        seq![
            ("actor"@, JsonValue::Str(e.actor)),
            ("body"@, e.body),
            ("evidence"@, JsonValue::Array(e.evidence.map_values(|ev: EvidenceView| evidence_json(ev)))),
        ]
        + (if with_id { seq![("id"@, JsonValue::Str(e.id))] } else { Seq::empty() })
        + opt_entry("op"@, opt_str_json(e.op))
        + seq![
            ("prev"@, match e.prev { Some(p) => JsonValue::Str(p), None => JsonValue::Null }),
            ("schema"@, JsonValue::Str(e.schema)),
            ("seq"@, JsonValue::Number(decimal(e.seq as nat))),
            ("ts"@, JsonValue::Str(e.ts)),
            ("type"@, JsonValue::Str(e.event_type)),
        ]
    )
}

/// The id an envelope must carry: the SHA-256 of the canonical form of the
/// envelope without its `id`.
pub open spec fn envelope_id(e: EnvelopeView) -> Seq<char> {
    hash_hex(vstd::utf8::encode_utf8(canon(envelope_json(e, false))))
}

/// The ledger line of an envelope: the canonical form, id included.
pub open spec fn envelope_line(e: EnvelopeView) -> Seq<char> {
    canon(envelope_json(e, true))
}

/// Every envelope of `evs` carries a well-formed body, as every envelope
/// read from a line does.
pub open spec fn all_bodies_wf(evs: Seq<Envelope>) -> bool {
    forall|k: int| 0 <= k < evs.len() ==> (#[trigger] evs[k])@.body.wf()
}

/// The field names of evidence entries and of envelopes, each before the
/// next one it can be followed by, in key order.
proof fn lemma_field_order()
    ensures
        seq_lt("bytes"@, "media_type"@),
        seq_lt("bytes"@, "sha256"@),
        seq_lt("media_type"@, "sha256"@),
        seq_lt("sha256"@, "uri"@),
        seq_lt("actor"@, "body"@),
        seq_lt("body"@, "evidence"@),
        seq_lt("evidence"@, "id"@),
        seq_lt("evidence"@, "op"@),
        seq_lt("evidence"@, "prev"@),
        seq_lt("id"@, "op"@),
        seq_lt("id"@, "prev"@),
        seq_lt("op"@, "prev"@),
        seq_lt("prev"@, "schema"@),
        seq_lt("schema"@, "seq"@),
        seq_lt("seq"@, "ts"@),
        seq_lt("ts"@, "type"@),
{
    reveal_strlit("actor");
    reveal_strlit("body");
    reveal_strlit("bytes");
    reveal_strlit("evidence");
    reveal_strlit("id");
    reveal_strlit("media_type");
    reveal_strlit("op");
    reveal_strlit("prev");
    reveal_strlit("schema");
    reveal_strlit("seq");
    reveal_strlit("sha256");
    reveal_strlit("ts");
    reveal_strlit("type");
    reveal_strlit("uri");
    assert("bytes"@.take(0) =~= "media_type"@.take(0));
    lemma_seq_lt_at("bytes"@, "media_type"@, 0);
    assert("bytes"@.take(0) =~= "sha256"@.take(0));
    lemma_seq_lt_at("bytes"@, "sha256"@, 0);
    assert("media_type"@.take(0) =~= "sha256"@.take(0));
    lemma_seq_lt_at("media_type"@, "sha256"@, 0);
    assert("sha256"@.take(0) =~= "uri"@.take(0));
    lemma_seq_lt_at("sha256"@, "uri"@, 0);
    assert("actor"@.take(0) =~= "body"@.take(0));
    lemma_seq_lt_at("actor"@, "body"@, 0);
    assert("body"@.take(0) =~= "evidence"@.take(0));
    lemma_seq_lt_at("body"@, "evidence"@, 0);
    assert("evidence"@.take(0) =~= "id"@.take(0));
    lemma_seq_lt_at("evidence"@, "id"@, 0);
    assert("evidence"@.take(0) =~= "op"@.take(0));
    lemma_seq_lt_at("evidence"@, "op"@, 0);
    assert("evidence"@.take(0) =~= "prev"@.take(0));
    lemma_seq_lt_at("evidence"@, "prev"@, 0);
    assert("id"@.take(0) =~= "op"@.take(0));
    lemma_seq_lt_at("id"@, "op"@, 0);
    assert("id"@.take(0) =~= "prev"@.take(0));
    lemma_seq_lt_at("id"@, "prev"@, 0);
    assert("op"@.take(0) =~= "prev"@.take(0));
    lemma_seq_lt_at("op"@, "prev"@, 0);
    assert("prev"@.take(0) =~= "schema"@.take(0));
    lemma_seq_lt_at("prev"@, "schema"@, 0);
    assert("schema"@.take(1) =~= "seq"@.take(1));
    lemma_seq_lt_at("schema"@, "seq"@, 1);
    assert("seq"@.take(0) =~= "ts"@.take(0));
    lemma_seq_lt_at("seq"@, "ts"@, 0);
    assert("ts"@.take(1) =~= "type"@.take(1));
    lemma_seq_lt_at("ts"@, "type"@, 1);
}

impl Evidence {
    /// A copy of the evidence.
    pub fn copy(&self) -> (r: Evidence)
        ensures
            r@ == self@,
    {
        Evidence {
            sha256: self.sha256.clone(),
            uri: opt_clone(&self.uri),
            media_type: opt_clone(&self.media_type),
            bytes: self.bytes,
        }
    }

    fn to_value(&self) -> (j: Json)
        ensures
            j@ == evidence_json(self@),
            j@.wf(),
    {
        proof {
            lemma_field_order();
        }
        let mut m: Vec<(String, Json)> = Vec::new();
        let ghost m0 = entries_view(m@);
        assert(m0 =~= Seq::<(Seq<char>, JsonValue)>::empty());
        if let Some(b) = self.bytes {
            push_sorted(&mut m, "bytes", Json::from_u64(b));
        }
        let ghost m1 = entries_view(m@);
        if let Some(mt) = &self.media_type {
            push_sorted(&mut m, "media_type", Json::string(mt.as_str()));
        }
        let ghost m2 = entries_view(m@);
        push_sorted(&mut m, "sha256", Json::string(self.sha256.as_str()));
        let ghost m3 = entries_view(m@);
        if let Some(uri) = &self.uri {
            push_sorted(&mut m, "uri", Json::string(uri.as_str()));
        }
        proof {
            lemma_object_view(m);
            let e = self@;
            assert(m1 =~= opt_entry("bytes"@, match e.bytes { Some(b) => Some(JsonValue::Number(decimal(b as nat))), None => None }));
            assert(m2 =~= m1 + opt_entry("media_type"@, opt_str_json(e.media_type)));
            assert(m3 =~= m2 + seq![("sha256"@, JsonValue::Str(e.sha256))]);
            assert(entries_view(m@) =~= m3 + opt_entry("uri"@, opt_str_json(e.uri)));
        }
        Json::Object(m)
    }
}


impl Envelope {
    fn to_value(&self, with_id: bool) -> (j: Json)
        ensures
            j@ == envelope_json(self@, with_id),
            self@.body.wf() ==> j@.wf(),
    {
        proof {
            lemma_field_order();
        }
        let mut m: Vec<(String, Json)> = Vec::new();
        assert(entries_view(m@) =~= Seq::<(Seq<char>, JsonValue)>::empty());
        push_sorted(&mut m, "actor", Json::string(self.actor.as_str()));
        push_sorted(&mut m, "body", self.body.copy());
        let mut evs: Vec<Json> = Vec::new();
        let mut i: usize = 0;
        while i < self.evidence.len()
            invariant
                i <= self.evidence@.len(),
                evs@.len() == i,
                forall|k: int| 0 <= k < i ==> (#[trigger] evs@[k])@ == evidence_json(self.evidence@[k]@),
                forall|k: int| 0 <= k < i ==> (#[trigger] evs@[k])@.wf(),
            decreases self.evidence@.len() - i,
        {
            evs.push(self.evidence[i].to_value());
            i = i + 1;
        }
        let ghost evs_view = Json::Array(evs)@;
        proof {
            assert(evs_view->Array_0 =~= self@.evidence.map_values(|ev: EvidenceView| evidence_json(ev)));
        }
        push_sorted(&mut m, "evidence", Json::Array(evs));
        let ghost m3 = entries_view(m@);
        if with_id {
            push_sorted(&mut m, "id", Json::string(self.id.as_str()));
        }
        let ghost m4 = entries_view(m@);
        if let Some(op) = &self.op {
            push_sorted(&mut m, "op", Json::string(op.as_str()));
        }
        let ghost m5 = entries_view(m@);
        let prev = match &self.prev {
            Some(p) => Json::string(p.as_str()),
            None => Json::Null,
        };
        push_sorted(&mut m, "prev", prev);
        push_sorted(&mut m, "schema", Json::string(self.schema.as_str()));
        push_sorted(&mut m, "seq", Json::from_u64(self.seq));
        push_sorted(&mut m, "ts", Json::string(self.ts.as_str()));
        push_sorted(&mut m, "type", Json::string(self.event_type.as_str()));
        proof {
            lemma_object_view(m);
            let e = self@;
            assert(m3 =~= seq![
                ("actor"@, JsonValue::Str(e.actor)),
                ("body"@, e.body),
                ("evidence"@, JsonValue::Array(e.evidence.map_values(|ev: EvidenceView| evidence_json(ev)))),
            ]);
            assert(m4 =~= m3 + (if with_id { seq![("id"@, JsonValue::Str(e.id))] } else { Seq::empty() }));
            assert(m5 =~= m4 + opt_entry("op"@, opt_str_json(e.op)));
            assert(entries_view(m@) =~= m5 + seq![
                ("prev"@, match e.prev { Some(p) => JsonValue::Str(p), None => JsonValue::Null }),
                ("schema"@, JsonValue::Str(e.schema)),
                ("seq"@, JsonValue::Number(decimal(e.seq as nat))),
                ("ts"@, JsonValue::Str(e.ts)),
                ("type"@, JsonValue::Str(e.event_type)),
            ]);
        }
        Json::Object(m)
    }

    /// SHA-256 of the canonical JSON of the envelope without `id`. Always
    /// succeeds.
    pub fn compute_id(&self) -> (r: Result<String, KernelError>)
        requires
            self@.body.wf(),
        ensures
            r matches Ok(id) && id@ == envelope_id(self@),
    {
        let value = self.to_value(false);
        let canon = canonical_string(&value)?;
        Ok(hash_bytes(canon.as_str().as_bytes()))
    }

    /// The line written to the ledger: the canonical form, without a newline.
    /// Always succeeds.
    pub fn to_line(&self) -> (r: Result<String, KernelError>)
        requires
            self@.body.wf(),
        ensures
            r matches Ok(line) && line@ == envelope_line(self@),
    {
        let value = self.to_value(true);
        canonical_string(&value)
    }
}

/// A field name an evidence entry (`for_evidence`) or an envelope may carry.
pub open spec fn known_key(k: Seq<char>, for_evidence: bool) -> bool {
    if for_evidence {
        k == "sha256"@ || k == "uri"@ || k == "media_type"@ || k == "bytes"@
    } else {
        k == "schema"@ || k == "seq"@ || k == "prev"@ || k == "ts"@ || k == "actor"@ || k == "type"@
            || k == "body"@ || k == "evidence"@ || k == "op"@ || k == "id"@
    }
}

/// The first key, in order, that is not a known field name.
pub open spec fn first_unknown(keys: Seq<Seq<char>>, for_evidence: bool) -> Option<Seq<char>>
    decreases keys.len(),
{
    if keys.len() == 0 {
        None
    } else if !known_key(keys[0], for_evidence) {
        Some(keys[0])
    } else {
        first_unknown(keys.drop_first(), for_evidence)
    }
}

/// The keys of an object, in stored order.
pub open spec fn object_keys(v: JsonValue) -> Seq<Seq<char>> {
    match v {
        JsonValue::Object(es) => es.map_values(|e: (Seq<char>, JsonValue)| e.0),
        _ => Seq::empty(),
    }
}

/// A required string field.
pub open spec fn req_str(v: JsonValue, key: Seq<char>, label: Seq<char>) -> Result<Seq<char>, KernelErrorView> {
    match v.get_str(key) {
        Some(s) => Ok(s),
        None => Err(KernelErrorView::Validation(label + " must be a string"@)),
    }
}

/// An optional string field: absent is fine, anything but a string is not.
pub open spec fn opt_str(v: JsonValue, key: Seq<char>, label: Seq<char>) -> Result<Option<Seq<char>>, KernelErrorView> {
    match v.get(key) {
        None => Ok(None),
        Some(JsonValue::Str(s)) => Ok(Some(s)),
        Some(_) => Err(KernelErrorView::Validation(label + " must be a string"@)),
    }
}

/// Reading an evidence entry from its JSON object.
pub open spec fn evidence_from_json(v: JsonValue) -> Result<EvidenceView, KernelErrorView> {
    if !(v is Object) {
        Err(KernelErrorView::Validation("evidence entry must be an object"@))
    } else {
        match first_unknown(object_keys(v), true) {
            Some(k) => Err(KernelErrorView::Validation("unknown evidence field: "@ + k)),
            None => match req_str(v, "sha256"@, "evidence.sha256"@) {
                Err(e) => Err(e),
                Ok(sha256) => match opt_str(v, "uri"@, "evidence.uri"@) {
                    Err(e) => Err(e),
                    Ok(uri) => match opt_str(v, "media_type"@, "evidence.media_type"@) {
                        Err(e) => Err(e),
                        Ok(media_type) => match v.get("bytes"@) {
                            None => Ok(EvidenceView { sha256, uri, media_type, bytes: None }),
                            Some(b) => match b.as_u64() {
                                Some(n) => Ok(EvidenceView { sha256, uri, media_type, bytes: Some(n) }),
                                None => Err(KernelErrorView::Validation("evidence.bytes must be a non-negative integer"@)),
                            },
                        },
                    },
                },
            },
        }
    }
}

/// Reading every entry of an evidence array; the first failure wins.
pub open spec fn evidence_list(items: Seq<JsonValue>) -> Result<Seq<EvidenceView>, KernelErrorView>
    decreases items.len(),
{
    if items.len() == 0 {
        Ok(Seq::empty())
    } else {
        match evidence_list(items.drop_last()) {
            Err(e) => Err(e),
            Ok(prefix) => match evidence_from_json(items.last()) {
                Err(e) => Err(e),
                Ok(ev) => Ok(prefix.push(ev)),
            },
        }
    }
}

pub open spec fn parse_error(line_no: usize, msg: Seq<char>) -> KernelErrorView {
    KernelErrorView::Parse { line: line_no, msg }
}

/// Reading an envelope from its JSON value; `line_no` names the line in
/// errors.
pub open spec fn envelope_from_json(v: JsonValue, line_no: usize) -> Result<EnvelopeView, KernelErrorView> {
    if !(v is Object) {
        Err(parse_error(line_no, "event must be a JSON object"@))
    } else {
        match first_unknown(object_keys(v), false) {
            Some(k) => Err(parse_error(line_no, "unknown envelope field: "@ + k)),
            None => match (match v.get("seq"@) { Some(n) => n.as_u64(), None => None }) {
                None => Err(parse_error(line_no, "seq must be a non-negative integer"@)),
                Some(seq) => match (match v.get("prev"@) {
                    Some(JsonValue::Null) => Some(None),
                    Some(JsonValue::Str(p)) => Some(Some(p)),
                    _ => None,
                }) {
                    None => Err(parse_error(line_no, "prev must be a string or null"@)),
                    Some(prev) => match (match v.get("evidence"@) {
                        Some(JsonValue::Array(items)) => Some(evidence_list(items)),
                        _ => None,
                    }) {
                        None => Err(parse_error(line_no, "evidence must be an array"@)),
                        Some(Err(e)) => Err(e),
                        Some(Ok(evidence)) => match v.get("body"@) {
                            None => Err(parse_error(line_no, "missing body"@)),
                            Some(body) => match req_str(v, "schema"@, "schema"@) {
                                Err(e) => Err(e),
                                Ok(schema) => match req_str(v, "ts"@, "ts"@) {
                                    Err(e) => Err(e),
                                    Ok(ts) => match req_str(v, "actor"@, "actor"@) {
                                        Err(e) => Err(e),
                                        Ok(actor) => match req_str(v, "type"@, "type"@) {
                                            Err(e) => Err(e),
                                            Ok(event_type) => match opt_str(v, "op"@, "op"@) {
                                                Err(e) => Err(e),
                                                Ok(op) => match req_str(v, "id"@, "id"@) {
                                                    Err(e) => Err(e),
                                                    Ok(id) => Ok(EnvelopeView {
                                                        schema,
                                                        seq,
                                                        prev,
                                                        ts,
                                                        actor,
                                                        event_type,
                                                        body,
                                                        evidence,
                                                        op,
                                                        id,
                                                    }),
                                                },
                                            },
                                        },
                                    },
                                },
                            },
                        },
                    },
                },
            },
        }
    }
}

/// Reading one ledger line: JSON first, then the envelope's structure.
pub open spec fn parse_line(line: Seq<char>, line_no: usize) -> Result<EnvelopeView, KernelErrorView> {
    match parsed_json(line) {
        Err(msg) => Err(parse_error(line_no, msg)),
        Ok(v) => envelope_from_json(v, line_no),
    }
}

/// `first_unknown` of the keys of `entries`, computed.
fn find_unknown_key(entries: &Vec<(String, Json)>, for_evidence: bool) -> (r: Option<String>)
    ensures
        opt_view(r) == first_unknown(entries_view(entries@).map_values(|e: (Seq<char>, JsonValue)| e.0), for_evidence),
{
    let ghost keys = entries_view(entries@).map_values(|e: (Seq<char>, JsonValue)| e.0);
    let mut i: usize = 0;
    proof {
        assert(keys.subrange(0, keys.len() as int) =~= keys);
    }
    while i < entries.len()
        invariant
            i <= entries@.len(),
            keys == entries_view(entries@).map_values(|e: (Seq<char>, JsonValue)| e.0),
            first_unknown(keys, for_evidence) == first_unknown(keys.subrange(i as int, keys.len() as int), for_evidence),
        decreases entries@.len() - i,
    {
        let k = entries[i].0.as_str();
        let known = if for_evidence {
            str_eq(k, "sha256") || str_eq(k, "uri") || str_eq(k, "media_type") || str_eq(k, "bytes")
        } else {
            str_eq(k, "schema") || str_eq(k, "seq") || str_eq(k, "prev") || str_eq(k, "ts")
                || str_eq(k, "actor") || str_eq(k, "type") || str_eq(k, "body")
                || str_eq(k, "evidence") || str_eq(k, "op") || str_eq(k, "id")
        };
        proof {
            let rest = keys.subrange(i as int, keys.len() as int);
            assert(rest[0] == k@);
            assert(rest.drop_first() =~= keys.subrange(i + 1, keys.len() as int));
        }
        if !known {
            return Some(entries[i].0.clone());
        }
        i = i + 1;
    }
    proof {
        assert(keys.subrange(i as int, keys.len() as int).len() == 0);
    }
    None
}

fn req_str_of(v: &Json, key: &str, label: &str) -> (r: Result<String, KernelError>)
    ensures
        match r {
            Ok(s) => req_str(v@, key@, label@) == Ok::<Seq<char>, KernelErrorView>(s@),
            Err(e) => req_str(v@, key@, label@) == Err::<Seq<char>, KernelErrorView>(e@),
        },
{
    match v.get_str(key) {
        Some(s) => Ok(s),
        None => Err(KernelError::Validation(concat(label, " must be a string"))),
    }
}

fn opt_str_of(v: &Json, key: &str, label: &str) -> (r: Result<Option<String>, KernelError>)
    ensures
        match r {
            Ok(s) => opt_str(v@, key@, label@) == Ok::<Option<Seq<char>>, KernelErrorView>(opt_view(s)),
            Err(e) => opt_str(v@, key@, label@) == Err::<Option<Seq<char>>, KernelErrorView>(e@),
        },
{
    match v.get(key) {
        None => Ok(None),
        Some(Json::Str(s)) => Ok(Some(s.clone())),
        Some(_) => Err(KernelError::Validation(concat(label, " must be a string"))),
    }
}

impl Evidence {
    /// Reads an evidence entry from its JSON object.
    pub fn from_value(value: &Json) -> (r: Result<Evidence, KernelError>)
        ensures
            match r {
                Ok(ev) => evidence_from_json(value@) == Ok::<EvidenceView, KernelErrorView>(ev@),
                Err(e) => evidence_from_json(value@) == Err::<EvidenceView, KernelErrorView>(e@),
            },
    {
        let entries = match value {
            Json::Object(es) => es,
            _ => {
                return Err(KernelError::Validation(owned("evidence entry must be an object")));
            },
        };
        proof {
            lemma_object_view(*entries);
        }
        match find_unknown_key(entries, true) {
            Some(k) => {
                return Err(KernelError::Validation(concat("unknown evidence field: ", k.as_str())));
            },
            None => {},
        }
        let sha256 = req_str_of(value, "sha256", "evidence.sha256")?;
        let uri = opt_str_of(value, "uri", "evidence.uri")?;
        let media_type = opt_str_of(value, "media_type", "evidence.media_type")?;
        let bytes = match value.get("bytes") {
            None => None,
            Some(v) => match v.as_u64() {
                Some(n) => Some(n),
                None => {
                    return Err(KernelError::Validation(owned("evidence.bytes must be a non-negative integer")));
                },
            },
        };
        Ok(Evidence { sha256, uri, media_type, bytes })
    }
}

/// Once a prefix of the evidence array fails, the whole array fails the same way.
proof fn lemma_evidence_list_err(items: Seq<JsonValue>, i: int)
    requires
        0 <= i <= items.len(),
        evidence_list(items.take(i)) is Err,
    ensures
        evidence_list(items) == evidence_list(items.take(i)),
    decreases items.len() - i,
{
    if i < items.len() {
        assert(items.take(i + 1).drop_last() =~= items.take(i));
        lemma_evidence_list_err(items, i + 1);
    } else {
        assert(items.take(i) =~= items);
    }
}

/// Reads the entries of an evidence array.
fn evidence_from_items(items: &Vec<Json>) -> (r: Result<Vec<Evidence>, KernelError>)
    ensures
        match r {
            Ok(evs) => evidence_list(Json::Array(*items)@->Array_0) == Ok::<Seq<EvidenceView>, KernelErrorView>(evidence_views(evs@)),
            Err(e) => evidence_list(Json::Array(*items)@->Array_0) == Err::<Seq<EvidenceView>, KernelErrorView>(e@),
        },
{
    let ghost all = Json::Array(*items)@->Array_0;
    let mut out: Vec<Evidence> = Vec::new();
    let mut i: usize = 0;
    proof {
        assert(all.take(0) =~= Seq::<JsonValue>::empty());
        assert(evidence_views(out@) =~= Seq::<EvidenceView>::empty());
    }
    while i < items.len()
        invariant
            all == Json::Array(*items)@->Array_0,
            all.len() == items@.len(),
            i <= items@.len(),
            evidence_list(all.take(i as int)) == Ok::<Seq<EvidenceView>, KernelErrorView>(evidence_views(out@)),
        decreases items@.len() - i,
    {
        proof {
            assert(all[i as int] == items@[i as int]@);
            assert(all.take(i + 1).drop_last() =~= all.take(i as int));
            assert(all.take(i + 1).last() == all[i as int]);
        }
        match Evidence::from_value(&items[i]) {
            Ok(ev) => {
                let ghost before = out@;
                let ghost evv = ev@;
                out.push(ev);
                proof {
                    assert(out@[before.len() as int]@ == evv);
                    assert forall|k: int| 0 <= k < before.len() implies #[trigger] out@[k]@ == before[k]@ by {
                        assert(out@[k] == before[k]);
                    }
                    assert(evidence_views(out@) =~= evidence_views(before).push(evv));
                }
            },
            Err(e) => {
                proof {
                    lemma_evidence_list_err(all, i + 1);
                }
                return Err(e);
            },
        }
        i = i + 1;
    }
    proof {
        assert(all.take(i as int) =~= all);
    }
    Ok(out)
}

impl Envelope {
    /// Reads one ledger line; `line_no` names the line in errors.
    pub fn from_line(line: &str, line_no: usize) -> (r: Result<Envelope, KernelError>)
        ensures
            match r {
                Ok(env) => parse_line(line@, line_no) == Ok::<EnvelopeView, KernelErrorView>(env@),
                Err(e) => parse_line(line@, line_no) == Err::<EnvelopeView, KernelErrorView>(e@),
            },
            r matches Ok(env) ==> env@.body.wf(),
    {
        let value = match parse_json(line) {
            Ok(v) => v,
            Err(msg) => {
                return Err(KernelError::Parse { line: line_no, msg });
            },
        };
        let ghost v = value@;
        let entries = match &value {
            Json::Object(es) => es,
            _ => {
                return Err(KernelError::Parse { line: line_no, msg: owned("event must be a JSON object") });
            },
        };
        proof {
            lemma_object_view(*entries);
        }
        match find_unknown_key(entries, false) {
            Some(k) => {
                return Err(KernelError::Parse { line: line_no, msg: concat("unknown envelope field: ", k.as_str()) });
            },
            None => {},
        }
        let seq = match value.get("seq") {
            Some(n) => n.as_u64(),
            None => None,
        };
        let seq = match seq {
            Some(n) => n,
            None => {
                return Err(KernelError::Parse { line: line_no, msg: owned("seq must be a non-negative integer") });
            },
        };
        let prev = match value.get("prev") {
            Some(Json::Null) => None,
            Some(Json::Str(p)) => Some(p.clone()),
            _ => {
                return Err(KernelError::Parse { line: line_no, msg: owned("prev must be a string or null") });
            },
        };
        let evidence = match value.get("evidence") {
            Some(Json::Array(items)) => evidence_from_items(items)?,
            _ => {
                return Err(KernelError::Parse { line: line_no, msg: owned("evidence must be an array") });
            },
        };
        proof {
            crate::json::lemma_last_value_wf(entries_view(entries@), "body"@);
        }
        let body = match value.get("body") {
            Some(b) => b.copy(),
            None => {
                return Err(KernelError::Parse { line: line_no, msg: owned("missing body") });
            },
        };
        let schema = req_str_of(&value, "schema", "schema")?;
        let ts = req_str_of(&value, "ts", "ts")?;
        let actor = req_str_of(&value, "actor", "actor")?;
        let event_type = req_str_of(&value, "type", "type")?;
        let op = opt_str_of(&value, "op", "op")?;
        let id = req_str_of(&value, "id", "id")?;
        Ok(Envelope { schema, seq, prev, ts, actor, event_type, body, evidence, op, id })
    }
}

/// A bounded free-text field: non-empty, at most `max` bytes, no control
/// characters.
pub open spec fn valid_text(s: Seq<char>, max: nat) -> bool {
    s.len() > 0 && utf8_len(s) <= max && !has_control(s)
}

/// The first rule an evidence entry breaks, if any.
pub open spec fn evidence_check(e: EvidenceView) -> Result<(), KernelErrorView> {
    if !hex64(e.sha256) {
        Err(KernelErrorView::Validation("evidence.sha256 must be 64 lowercase hex chars, got: "@ + e.sha256))
    } else if e.uri matches Some(uri) && !valid_text(uri, 1000) {
        Err(KernelErrorView::Validation("invalid evidence.uri"@))
    } else if e.media_type matches Some(mt) && !valid_text(mt, 200) {
        Err(KernelErrorView::Validation("invalid evidence.media_type"@))
    } else {
        Ok(())
    }
}

/// The first failure among the evidence entries, in order.
pub open spec fn evidence_list_check(es: Seq<EvidenceView>) -> Result<(), KernelErrorView>
    decreases es.len(),
{
    if es.len() == 0 {
        Ok(())
    } else {
        match evidence_list_check(es.drop_last()) {
            Err(e) => Err(e),
            Ok(()) => evidence_check(es.last()),
        }
    }
}

/// The first structural rule of schema banto/1 the envelope breaks, if any
/// (the chain across envelopes is checked by the ledger's verification).
pub open spec fn envelope_check(e: EnvelopeView) -> Result<(), KernelErrorView> {
    if e.schema != schema_text() {
        Err(KernelErrorView::Validation("unknown schema: "@ + e.schema + " (expected banto/1)"@))
    } else if e.prev matches Some(p) && !hex64(p) {
        Err(KernelErrorView::Validation("prev must be 64 hex chars"@))
    } else if (e.seq == 0) != (e.prev is None) {
        Err(KernelErrorView::Validation("prev must be null exactly for seq 0"@))
    } else if rfc3339_error(e.ts) is Some {
        Err(KernelErrorView::Validation("ts is not RFC 3339: "@ + rfc3339_error(e.ts)->Some_0))
    } else if !valid_text(e.actor, 200) {
        Err(KernelErrorView::Validation("invalid actor"@))
    } else if !valid_type(e.event_type) {
        Err(KernelErrorView::Validation("invalid type: "@ + e.event_type))
    } else if !(e.body is Object) {
        Err(KernelErrorView::Validation("body must be a JSON object"@))
    } else if evidence_list_check(e.evidence) is Err {
        evidence_list_check(e.evidence)
    } else if e.op matches Some(op) && !valid_text(op, 200) {
        Err(KernelErrorView::Validation("invalid op"@))
    } else if !hex64(e.id) {
        Err(KernelErrorView::Validation("id must be 64 hex chars"@))
    } else if envelope_id(e) != e.id {
        Err(KernelErrorView::Validation("id mismatch: recorded "@ + e.id + ", computed "@ + envelope_id(e)))
    } else {
        Ok(())
    }
}

fn text_ok(s: &str, max: usize) -> (r: bool)
    ensures
        r == valid_text(s@, max as nat),
{
    let n = byte_len(s);
    proof {
        lemma_utf8_len_positive(s@);
    }
    n > 0 && n <= max && !any_control(s)
}

/// A string is empty exactly when its encoding is.
proof fn lemma_utf8_len_positive(s: Seq<char>)
    ensures
        (s.len() > 0) == (utf8_len(s) > 0),
{
    if s.len() > 0 {
        assert(vstd::utf8::encode_scalar(s[0] as u32).len() >= 1);
        assert(vstd::utf8::encode_utf8(s) == vstd::utf8::encode_scalar(s[0] as u32) + vstd::utf8::encode_utf8(s.drop_first()));
    } else {
        assert(vstd::utf8::encode_utf8(s) =~= Seq::<u8>::empty());
    }
}

impl Evidence {
    fn validate(&self) -> (r: Result<(), KernelError>)
        ensures
            match r {
                Ok(()) => evidence_check(self@) == Ok::<(), KernelErrorView>(()),
                Err(e) => evidence_check(self@) == Err::<(), KernelErrorView>(e@),
            },
    {
        if !is_hex64(self.sha256.as_str()) {
            return Err(KernelError::Validation(concat(
                "evidence.sha256 must be 64 lowercase hex chars, got: ",
                self.sha256.as_str(),
            )));
        }
        if let Some(uri) = &self.uri {
            if !text_ok(uri.as_str(), MAX_URI_LEN) {
                return Err(KernelError::Validation(owned("invalid evidence.uri")));
            }
        }
        if let Some(mt) = &self.media_type {
            if !text_ok(mt.as_str(), MAX_MEDIA_TYPE_LEN) {
                return Err(KernelError::Validation(owned("invalid evidence.media_type")));
            }
        }
        Ok(())
    }
}

impl Envelope {
    /// Checks the structural rules of schema banto/1 and reports the first
    /// one broken.
    pub fn validate(&self) -> (r: Result<(), KernelError>)
        requires
            self@.body.wf(),
        ensures
            match r {
                Ok(()) => envelope_check(self@) == Ok::<(), KernelErrorView>(()),
                Err(e) => envelope_check(self@) == Err::<(), KernelErrorView>(e@),
            },
    {
        if !str_eq(self.schema.as_str(), SCHEMA) {
            let m = concat("unknown schema: ", self.schema.as_str());
            let m = concat(m.as_str(), " (expected banto/1)");
            return Err(KernelError::Validation(m));
        }
        if let Some(prev) = &self.prev {
            if !is_hex64(prev.as_str()) {
                return Err(KernelError::Validation(owned("prev must be 64 hex chars")));
            }
        }
        if (self.seq == 0) != self.prev.is_none() {
            return Err(KernelError::Validation(owned("prev must be null exactly for seq 0")));
        }
        if let Some(msg) = check_rfc3339(self.ts.as_str()) {
            return Err(KernelError::Validation(concat("ts is not RFC 3339: ", msg.as_str())));
        }
        if !text_ok(self.actor.as_str(), MAX_ACTOR_LEN) {
            return Err(KernelError::Validation(owned("invalid actor")));
        }
        if !is_valid_type(self.event_type.as_str()) {
            return Err(KernelError::Validation(concat("invalid type: ", self.event_type.as_str())));
        }
        match &self.body {
            Json::Object(_) => {},
            _ => {
                return Err(KernelError::Validation(owned("body must be a JSON object")));
            },
        }
        let mut i: usize = 0;
        #[verifier::loop_isolation(false)]
        while i < self.evidence.len()
            invariant
                i <= self.evidence@.len(),
                evidence_list_check(evidence_views(self.evidence@).take(i as int)) == Ok::<(), KernelErrorView>(()),
            decreases self.evidence@.len() - i,
        {
            let ghost evs = evidence_views(self.evidence@);
            proof {
                assert(evs.take(i + 1).drop_last() =~= evs.take(i as int));
                assert(evs.take(i + 1).last() == self.evidence@[i as int]@);
            }
            match self.evidence[i].validate() {
                Ok(()) => {},
                Err(e) => {
                    proof {
                        lemma_evidence_check_err(evs, i + 1);
                    }
                    return Err(e);
                },
            }
            i = i + 1;
        }
        proof {
            assert(evidence_views(self.evidence@).take(i as int) =~= evidence_views(self.evidence@));
        }
        if let Some(op) = &self.op {
            if !text_ok(op.as_str(), MAX_OP_LEN) {
                return Err(KernelError::Validation(owned("invalid op")));
            }
        }
        if !is_hex64(self.id.as_str()) {
            return Err(KernelError::Validation(owned("id must be 64 hex chars")));
        }
        let computed = self.compute_id()?;
        if !str_eq(computed.as_str(), self.id.as_str()) {
            let m = concat("id mismatch: recorded ", self.id.as_str());
            let m = concat(m.as_str(), ", computed ");
            let m = concat(m.as_str(), computed.as_str());
            return Err(KernelError::Validation(m));
        }
        Ok(())
    }

    /// A copy of the envelope.
    pub fn copy(&self) -> (r: Envelope)
        ensures
            r@ == self@,
    {
        let mut evidence: Vec<Evidence> = Vec::new();
        let mut i: usize = 0;
        while i < self.evidence.len()
            invariant
                i <= self.evidence@.len(),
                evidence@.len() == i,
                forall|k: int| 0 <= k < i ==> (#[trigger] evidence@[k])@ == self.evidence@[k]@,
            decreases self.evidence@.len() - i,
        {
            evidence.push(self.evidence[i].copy());
            i = i + 1;
        }
        let r = Envelope {
            schema: self.schema.clone(),
            seq: self.seq,
            prev: opt_clone(&self.prev),
            ts: self.ts.clone(),
            actor: self.actor.clone(),
            event_type: self.event_type.clone(),
            body: self.body.copy(),
            evidence,
            op: opt_clone(&self.op),
            id: self.id.clone(),
        };
        proof {
            assert(evidence_views(r.evidence@) =~= evidence_views(self.evidence@));
        }
        r
    }

    /// Same content for idempotency matching: actor, type, body (as JSON
    /// values compare) and evidence agree (seq, prev, ts and id are not
    /// compared).
    pub fn same_content(&self, other: &Envelope) -> (r: bool)
        ensures
            r == (self@.actor == other@.actor && self@.event_type == other@.event_type
                && json_same(self@.body, other@.body) && self@.evidence == other@.evidence),
    {
        str_eq(self.actor.as_str(), other.actor.as_str())
            && str_eq(self.event_type.as_str(), other.event_type.as_str())
            && json_equal(&self.body, &other.body)
            && evidence_equal(&self.evidence, &other.evidence)
    }
}

proof fn lemma_evidence_check_err(es: Seq<EvidenceView>, i: int)
    requires
        0 <= i <= es.len(),
        evidence_list_check(es.take(i)) is Err,
    ensures
        evidence_list_check(es) == evidence_list_check(es.take(i)),
    decreases es.len() - i,
{
    if i < es.len() {
        assert(es.take(i + 1).drop_last() =~= es.take(i));
        lemma_evidence_check_err(es, i + 1);
    } else {
        assert(es.take(i) =~= es);
    }
}

pub(crate) fn opt_str_equal(a: &Option<String>, b: &Option<String>) -> (r: bool)
    ensures
        r == (opt_view(*a) == opt_view(*b)),
{
    match (a, b) {
        (Some(x), Some(y)) => str_eq(x.as_str(), y.as_str()),
        (None, None) => true,
        _ => false,
    }
}

pub(crate) fn evidence_equal(a: &Vec<Evidence>, b: &Vec<Evidence>) -> (r: bool)
    ensures
        r == (evidence_views(a@) == evidence_views(b@)),
{
    if a.len() != b.len() {
        proof {
            assert(evidence_views(a@).len() != evidence_views(b@).len());
        }
        return false;
    }
    let mut i: usize = 0;
    while i < a.len()
        invariant
            a@.len() == b@.len(),
            i <= a@.len(),
            forall|k: int| 0 <= k < i ==> (#[trigger] a@[k])@ == b@[k]@,
        decreases a@.len() - i,
    {
        let x = &a[i];
        let y = &b[i];
        let same = str_eq(x.sha256.as_str(), y.sha256.as_str()) && opt_str_equal(&x.uri, &y.uri)
            && opt_str_equal(&x.media_type, &y.media_type) && x.bytes == y.bytes;
        if !same {
            proof {
                assert(evidence_views(a@)[i as int] != evidence_views(b@)[i as int]);
            }
            return false;
        }
        i = i + 1;
    }
    proof {
        assert(evidence_views(a@) =~= evidence_views(b@));
    }
    true
}

/// A number written `0.0` or `-0.0`: the two zeros, which `serde_json`
/// holds as different floats that compare equal.
pub open spec fn zero_float(t: Seq<char>) -> bool {
    t == "0.0"@ || t == "-0.0"@
}

/// Two numbers as `serde_json` compares them: the same text (each value
/// has one text), or both zero floats.
pub open spec fn number_same(x: Seq<char>, y: Seq<char>) -> bool {
    x == y || (zero_float(x) && zero_float(y))
}

/// Two JSON values as `serde_json::Value` compares them: numbers by value,
/// arrays element by element, objects entry by entry, the rest as they are.
pub open spec fn json_same(a: JsonValue, b: JsonValue) -> bool
    decreases a,
{
    match (a, b) {
        (JsonValue::Number(x), JsonValue::Number(y)) => number_same(x, y),
        (JsonValue::Array(xs), JsonValue::Array(ys)) => xs.len() == ys.len()
            && forall|i: int| 0 <= i < xs.len() ==> json_same(#[trigger] xs[i], ys[i]),
        (JsonValue::Object(xs), JsonValue::Object(ys)) => xs.len() == ys.len()
            && forall|i: int| 0 <= i < xs.len() ==> (#[trigger] xs[i]).0 == ys[i].0 && json_same(xs[i].1, ys[i].1),
        _ => a == b,
    }
}

/// Every value is the same as itself.
pub proof fn lemma_json_same_refl(a: JsonValue)
    ensures
        json_same(a, a),
    decreases a,
{
    match a {
        JsonValue::Array(xs) => {
            assert forall|i: int| 0 <= i < xs.len() implies json_same(#[trigger] xs[i], xs[i]) by {
                lemma_json_same_refl(xs[i]);
            }
        },
        JsonValue::Object(xs) => {
            assert forall|i: int| 0 <= i < xs.len() implies (#[trigger] xs[i]).0 == xs[i].0 && json_same(xs[i].1, xs[i].1) by {
                lemma_json_same_refl(xs[i].1);
            }
        },
        _ => {},
    }
}

/// Whether `s` is a zero float.
fn is_zero_float(s: &str) -> (r: bool)
    ensures
        r == zero_float(s@),
{
    str_eq(s, "0.0") || str_eq(s, "-0.0")
}

/// Equality of two JSON values as `serde_json::Value` compares them.
pub fn json_equal(a: &Json, b: &Json) -> (r: bool)
    ensures
        r == json_same(a@, b@),
    decreases a,
{
    match (a, b) {
        (Json::Null, Json::Null) => true,
        (Json::Bool(x), Json::Bool(y)) => *x == *y,
        (Json::Number(x), Json::Number(y)) => str_eq(x.as_str(), y.as_str())
            || (is_zero_float(x.as_str()) && is_zero_float(y.as_str())),
        (Json::Str(x), Json::Str(y)) => str_eq(x.as_str(), y.as_str()),
        (Json::Array(xs), Json::Array(ys)) => {
            let ghost av = a@->Array_0;
            let ghost bv = b@->Array_0;
            if xs.len() != ys.len() {
                proof {
                    assert(av.len() != bv.len());
                }
                return false;
            }
            let mut i: usize = 0;
            while i < xs.len()
                invariant
                    *a == Json::Array(*xs),
                    *b == Json::Array(*ys),
                    av == a@->Array_0,
                    bv == b@->Array_0,
                    xs@.len() == ys@.len(),
                    i <= xs@.len(),
                    forall|k: int| 0 <= k < i ==> json_same(#[trigger] av[k], bv[k]),
                decreases xs@.len() - i,
            {
                proof {
                    assert(decreases_to!(*a => a->Array_0));
                    assert(decreases_to!(a->Array_0 => a->Array_0@));
                    assert(decreases_to!(a->Array_0@ => a->Array_0@[i as int]));
                }
                if !json_equal(&xs[i], &ys[i]) {
                    proof {
                        assert(av[i as int] == xs@[i as int]@);
                        assert(bv[i as int] == ys@[i as int]@);
                    }
                    return false;
                }
                i = i + 1;
            }
            true
        },
        (Json::Object(xs), Json::Object(ys)) => {
            let ghost av = a@->Object_0;
            let ghost bv = b@->Object_0;
            if xs.len() != ys.len() {
                proof {
                    assert(av.len() != bv.len());
                }
                return false;
            }
            let mut i: usize = 0;
            while i < xs.len()
                invariant
                    *a == Json::Object(*xs),
                    *b == Json::Object(*ys),
                    av == a@->Object_0,
                    bv == b@->Object_0,
                    xs@.len() == ys@.len(),
                    i <= xs@.len(),
                    forall|k: int| 0 <= k < i ==> (#[trigger] av[k]).0 == bv[k].0 && json_same(av[k].1, bv[k].1),
                decreases xs@.len() - i,
            {
                proof {
                    assert(decreases_to!(*a => a->Object_0));
                    assert(decreases_to!(a->Object_0 => a->Object_0@));
                    assert(decreases_to!(a->Object_0@ => a->Object_0@[i as int]));
                    assert(decreases_to!(a->Object_0@[i as int] => a->Object_0@[i as int].1));
                }
                let same_key = str_eq(xs[i].0.as_str(), ys[i].0.as_str());
                if !same_key || !json_equal(&xs[i].1, &ys[i].1) {
                    proof {
                        assert(av[i as int] == (xs@[i as int].0@, xs@[i as int].1@));
                        assert(bv[i as int] == (ys@[i as int].0@, ys@[i as int].1@));
                    }
                    return false;
                }
                proof {
                    assert(av[i as int] == (xs@[i as int].0@, xs@[i as int].1@));
                    assert(bv[i as int] == (ys@[i as int].0@, ys@[i as int].1@));
                }
                i = i + 1;
            }
            true
        },
        _ => false,
    }
}
} // verus!

verus! {

/// The id an envelope must carry does not depend on the id it records.
pub proof fn law_id_ignores_recorded_id(e: EnvelopeView, other: Seq<char>)
    ensures
        envelope_id(EnvelopeView { id: other, ..e }) == envelope_id(e),
{
    assert(envelope_json(EnvelopeView { id: other, ..e }, false) == envelope_json(e, false));
}

/// A valid envelope is sealed: its id is 64 lowercase hex digits, the hash
/// of its own canonical form; it speaks schema banto/1, and only the first
/// envelope (seq 0) has no predecessor.
pub proof fn law_valid_envelope_is_sealed(e: EnvelopeView)
    requires
        envelope_check(e) is Ok,
    ensures
        hex64(e.id),
        e.id == envelope_id(e),
        e.schema == schema_text(),
        (e.seq == 0) == (e.prev is None),
        rfc3339_error(e.ts) is None,
        valid_type(e.event_type),
        e.body is Object,
{
}

} // verus!
