//! Data records — the fundamental unit of data in AgenticData.
use vstd::prelude::*;
use super::json::{JsonValue, JsonView, member_views, lemma_member_views, jview, view_as_str, view_as_i64};
use crate::hash::{blake3_hash, hex, hex_exec, spec_blake3};
use crate::text::{str_eq, string_of};
use super::json_io::spec_object_json;

verus! {

/// Unique record identifier.
pub type RecordId = String;

/// Status of a record in the system.
#[derive(Debug, Clone, Copy, PartialEq, Eq, Structural)]
pub enum RecordStatus {
    /// Normal active record.
    Active,
    /// Quarantined by quality checks.
    Quarantined,
    /// Soft-deleted / archived.
    Archived,
    /// Redacted (PII removed).
    Redacted,
}

/// No key occurs twice.
pub open spec fn keys_unique(s: Seq<(Seq<char>, JsonView)>) -> bool {
    forall|i: int, j: int| 0 <= i < j < s.len() ==> s[i].0 != s[j].0
}

/// The value stored under `key`.
pub open spec fn lookup(s: Seq<(Seq<char>, JsonView)>, key: Seq<char>) -> Option<JsonView> {
    if exists|i: int| 0 <= i < s.len() && s[i].0 == key {
        Some(s[choose|i: int| 0 <= i < s.len() && s[i].0 == key].1)
    } else {
        None
    }
}

/// Storing `value` under `key` (`HashMap::insert`): an existing entry keeps its
/// place and takes the new value, a new key goes at the end.
pub open spec fn insert_entry(s: Seq<(Seq<char>, JsonView)>, key: Seq<char>, value: JsonView) -> Seq<
    (Seq<char>, JsonView),
> {
    if exists|i: int| 0 <= i < s.len() && s[i].0 == key {
        s.update(choose|i: int| 0 <= i < s.len() && s[i].0 == key, (key, value))
    } else {
        s.push((key, value))
    }
}

/// The entries without `key` (`HashMap::remove`).
pub open spec fn remove_entry(s: Seq<(Seq<char>, JsonView)>, key: Seq<char>) -> Seq<
    (Seq<char>, JsonView),
> {
    if exists|i: int| 0 <= i < s.len() && s[i].0 == key {
        s.remove(choose|i: int| 0 <= i < s.len() && s[i].0 == key)
    } else {
        s
    }
}

/// A map from field names to JSON values: each name occurs once, and the entries
/// keep the order in which their names were first inserted.
#[derive(Debug)]
pub struct FieldMap {
    entries: Vec<(String, JsonValue)>,
}

impl View for FieldMap {
    type V = Seq<(Seq<char>, JsonView)>;

    closed spec fn view(&self) -> Seq<(Seq<char>, JsonView)> {
        member_views(self.entries@)
    }
}

impl FieldMap {
    #[verifier::type_invariant]
    closed spec fn inv(self) -> bool {
        keys_unique(member_views(self.entries@))
    }

    /// The entries, in order.
    pub closed spec fn entry_values(&self) -> Seq<(String, JsonValue)> {
        self.entries@
    }

    /// The view of the entries is the view of each entry.
    pub proof fn lemma_view(&self)
        ensures
            self@ == member_views(self.entry_values()),
            self@.len() == self.entry_values().len(),
            forall|i: int|
                0 <= i < self@.len() ==> #[trigger] self@[i] == (
                    self.entry_values()[i].0@,
                    jview(self.entry_values()[i].1),
                ),
    {
        lemma_member_views(self.entries@);
    }

    /// An empty map.
    pub fn new() -> (r: FieldMap)
        ensures
            r@ == Seq::<(Seq<char>, JsonView)>::empty(),
    {
        let r = FieldMap { entries: Vec::new() };
        assert(member_views(r.entries@) =~= Seq::<(Seq<char>, JsonView)>::empty());
        r
    }

    /// The entries, in order.
    pub fn entries(&self) -> (r: &Vec<(String, JsonValue)>)
        ensures
            r@ == self.entry_values(),
            member_views(r@) == self@,
            keys_unique(self@),
    {
        proof {
            use_type_invariant(self);
        }
        &self.entries
    }

    /// Number of entries.
    pub fn len(&self) -> (r: usize)
        ensures
            r == self@.len(),
    {
        proof {
            lemma_member_views(self.entries@);
        }
        self.entries.len()
    }

    /// Whether the map is empty.
    pub fn is_empty(&self) -> (r: bool)
        ensures
            r == (self@.len() == 0),
    {
        self.len() == 0
    }

    fn index_of(&self, key: &str) -> (r: Option<usize>)
        ensures
            match r {
                Some(i) => i < self@.len() && self@[i as int].0 == key@,
                None => forall|i: int| 0 <= i < self@.len() ==> self@[i].0 != key@,
            },
    {
        proof {
            lemma_member_views(self.entries@);
        }
        let mut i: usize = 0;
        while i < self.entries.len()
            invariant
                i <= self.entries@.len(),
                member_views(self.entries@).len() == self.entries@.len(),
                forall|k: int|
                    0 <= k < member_views(self.entries@).len() ==> #[trigger] member_views(
                        self.entries@,
                    )[k] == (self.entries@[k].0@, jview(self.entries@[k].1)),
                forall|k: int| 0 <= k < i ==> self.entries@[k].0@ != key@,
            decreases self.entries.len() - i,
        {
            if str_eq(self.entries[i].0.as_str(), key) {
                return Some(i);
            }
            i = i + 1;
        }
        None
    }

    /// The value stored under `key`.
    pub fn get(&self, key: &str) -> (r: Option<&JsonValue>)
        ensures
            match r {
                Some(v) => lookup(self@, key@) == Some(v@),
                None => lookup(self@, key@) is None,
            },
    {
        proof {
            use_type_invariant(self);
            lemma_member_views(self.entries@);
        }
        match self.index_of(key) {
            Some(i) => {
                assert(self@[i as int].0 == key@);
                Some(&self.entries[i].1)
            },
            None => None,
        }
    }

    /// Store `value` under `key`, replacing any value there.
    pub fn insert(&mut self, key: String, value: JsonValue)
        ensures
            final(self)@ == insert_entry(old(self)@, key@, value@),
    {
        proof {
            use_type_invariant(&*self);
            lemma_member_views(self.entries@);
        }
        let ghost old_v = self@;
        match self.index_of(key.as_str()) {
            Some(i) => {
                let ghost kv = key@;
                let ghost vv = value@;
                let mut es: Vec<(String, JsonValue)> = Vec::new();
                std::mem::swap(&mut es, &mut self.entries);
                es.set(i, (key, value));
                proof {
                    lemma_member_views(es@);
                    assert(member_views(es@) =~= old_v.update(i as int, (kv, vv)));
                }
                self.entries = es;
            },
            None => {
                let ghost kv = key@;
                let ghost vv = value@;
                let mut es: Vec<(String, JsonValue)> = Vec::new();
                std::mem::swap(&mut es, &mut self.entries);
                es.push((key, value));
                proof {
                    lemma_member_views(es@);
                    assert(member_views(es@) =~= old_v.push((kv, vv)));
                }
                self.entries = es;
            },
        }
    }

    /// Remove the entry of `key`, returning its value.
    pub fn remove(&mut self, key: &str) -> (r: Option<JsonValue>)
        ensures
            match r {
                Some(v) => lookup(old(self)@, key@) == Some(v@),
                None => lookup(old(self)@, key@) is None,
            },
            final(self)@ == remove_entry(old(self)@, key@),
    {
        proof {
            use_type_invariant(&*self);
            lemma_member_views(self.entries@);
        }
        let ghost old_v = self@;
        match self.index_of(key) {
            Some(i) => {
                let mut es: Vec<(String, JsonValue)> = Vec::new();
                std::mem::swap(&mut es, &mut self.entries);
                let (_, v) = es.remove(i);
                proof {
                    lemma_member_views(es@);
                    assert(member_views(es@) =~= old_v.remove(i as int));
                }
                self.entries = es;
                Some(v)
            },
            None => {
                None
            },
        }
    }
}

} // verus!

verus! {

/// A fresh random UUID (v4) in its 36-char hyphenated form (`uuid::Uuid::new_v4`).
/// Nothing but the length is promised: the value is random.
#[verifier::external_body]
pub fn new_uuid() -> (r: String)
    ensures
        r@.len() == 36,
{
    uuid::Uuid::new_v4().to_string()
}

/// The checksum of a record's fields: the hex BLAKE3 digest of their JSON bytes.
pub open spec fn fields_checksum(fields: Seq<(Seq<char>, JsonView)>) -> Seq<char> {
    hex(spec_blake3(spec_object_json(fields)))
}

/// A single data record with metadata.
#[derive(Debug)]
pub struct DataRecord {
    /// Unique identifier.
    pub id: RecordId,
    /// Source this record came from.
    pub source_id: String,
    /// Schema node this record belongs to.
    pub schema_node: String,
    /// Field values (field name → JSON value).
    pub fields: FieldMap,
    /// Record status.
    pub status: RecordStatus,
    /// Version number (increments on update).
    pub version: u32,
    /// When this version was created (epoch micros).
    pub created_at: u64,
    /// When this version was last modified (epoch micros).
    pub updated_at: u64,
    /// Content checksum (BLAKE3).
    pub checksum: String,
    /// Compressed content size in bytes.
    pub compressed_size: u32,
    /// Uncompressed content size in bytes.
    pub raw_size: u32,
}

impl FieldMap {
    /// A copy of the map.
    pub fn duplicate(&self) -> (r: FieldMap)
        ensures
            r@ == self@,
    {
        proof {
            use_type_invariant(self);
            lemma_member_views(self.entries@);
        }
        let mut out: Vec<(String, JsonValue)> = Vec::new();
        let mut i: usize = 0;
        while i < self.entries.len()
            invariant
                i <= self.entries@.len(),
                out@.len() == i,
                forall|k: int|
                    0 <= k < i ==> out@[k].0@ == self.entries@[k].0@ && jview(out@[k].1) == jview(
                        self.entries@[k].1,
                    ),
            decreases self.entries.len() - i,
        {
            out.push((self.entries[i].0.clone(), self.entries[i].1.deep_clone()));
            i = i + 1;
        }
        proof {
            lemma_member_views(out@);
            lemma_member_views(self.entries@);
            assert(member_views(out@) =~= member_views(self.entries@));
        }
        FieldMap { entries: out }
    }
}

/// Two records hold the same data.
pub open spec fn same_record(a: DataRecord, b: DataRecord) -> bool {
    &&& a.id@ == b.id@
    &&& a.source_id@ == b.source_id@
    &&& a.schema_node@ == b.schema_node@
    &&& a.fields@ == b.fields@
    &&& a.status == b.status
    &&& a.version == b.version
    &&& a.created_at == b.created_at
    &&& a.updated_at == b.updated_at
    &&& a.checksum@ == b.checksum@
    &&& a.compressed_size == b.compressed_size
    &&& a.raw_size == b.raw_size
}

impl DataRecord {
    /// Create a new record with a random ID, the current time, and the checksum and
    /// size of the fields' JSON bytes.
    pub fn new(source_id: &str, schema_node: &str, fields: FieldMap) -> (r: DataRecord)
        ensures
            r.id@.len() == 36,
            r.source_id@ == source_id@,
            r.schema_node@ == schema_node@,
            r.fields@ == fields@,
            r.status == RecordStatus::Active,
            r.version == 1,
            r.created_at == r.updated_at,
            r.checksum@ == fields_checksum(fields@),
            r.compressed_size == 0,
            r.raw_size == spec_object_json(fields@).len() as u32,
    {
        let now = crate::types::now_micros();
        let id = new_uuid();
        let content = super::json_io::fields_json_bytes(&fields);
        let digest = blake3_hash(content.as_slice());
        let checksum = string_of(&hex_exec(&digest));
        let raw_size = content.len() as u32;
        DataRecord {
            id,
            source_id: source_id.to_owned(),
            schema_node: schema_node.to_owned(),
            fields,
            status: RecordStatus::Active,
            version: 1,
            created_at: now,
            updated_at: now,
            checksum,
            compressed_size: 0,
            raw_size,
        }
    }

    /// A copy of the record.
    pub fn duplicate(&self) -> (r: DataRecord)
        ensures
            same_record(r, *self),
    {
        DataRecord {
            id: self.id.clone(),
            source_id: self.source_id.clone(),
            schema_node: self.schema_node.clone(),
            fields: self.fields.duplicate(),
            status: self.status,
            version: self.version,
            created_at: self.created_at,
            updated_at: self.updated_at,
            checksum: self.checksum.clone(),
            compressed_size: self.compressed_size,
            raw_size: self.raw_size,
        }
    }

    /// Get a field value by name.
    pub fn get(&self, field: &str) -> (r: Option<&JsonValue>)
        ensures
            match r {
                Some(v) => lookup(self.fields@, field@) == Some(v@),
                None => lookup(self.fields@, field@) is None,
            },
    {
        self.fields.get(field)
    }

    /// Get a field as a string.
    pub fn get_str(&self, field: &str) -> (r: Option<&str>)
        ensures
            match r {
                Some(s) => lookup(self.fields@, field@) == Some(JsonView::Str(s@)),
                None => !(lookup(self.fields@, field@) matches Some(JsonView::Str(_))),
            },
    {
        match self.fields.get(field) {
            Some(v) => v.as_str(),
            None => None,
        }
    }

    /// Get a field as an `i64`.
    pub fn get_i64(&self, field: &str) -> (r: Option<i64>)
        ensures
            match r {
                Some(n) => lookup(self.fields@, field@) == Some(JsonView::Int(n)),
                None => !(lookup(self.fields@, field@) matches Some(JsonView::Int(_))),
            },
    {
        match self.fields.get(field) {
            Some(v) => v.as_i64(),
            None => None,
        }
    }

    /// Check if this record is active.
    pub fn is_active(&self) -> (r: bool)
        ensures
            r == (self.status == RecordStatus::Active),
    {
        self.status == RecordStatus::Active
    }

    /// Field count.
    pub fn field_count(&self) -> (r: usize)
        ensures
            r == self.fields@.len(),
    {
        self.fields.len()
    }
}

impl Clone for DataRecord {
    fn clone(&self) -> (r: DataRecord)
        ensures
            same_record(r, *self),
    {
        self.duplicate()
    }
}


/// What a read gives back of a write: after storing `value` under `key`, `key` holds
/// `value` and every other key what it held before; after removing `key`, `key` holds
/// nothing and every other key what it held before; both keep each key once.
pub proof fn lemma_lookup_after_write(s: Seq<(Seq<char>, JsonView)>, key: Seq<char>, value: JsonView, other: Seq<char>)
    requires
        keys_unique(s),
        other != key,
    ensures
        keys_unique(insert_entry(s, key, value)),
        lookup(insert_entry(s, key, value), key) == Some(value),
        lookup(insert_entry(s, key, value), other) == lookup(s, other),
        keys_unique(remove_entry(s, key)),
        lookup(remove_entry(s, key), key) is None,
        lookup(remove_entry(s, key), other) == lookup(s, other),
{
    let t = insert_entry(s, key, value);
    let u = remove_entry(s, key);
    if exists|i: int| 0 <= i < s.len() && s[i].0 == key {
        let i = choose|i: int| 0 <= i < s.len() && s[i].0 == key;
        assert(t == s.update(i, (key, value)));
        assert(t[i].0 == key);
        let c = choose|j: int| 0 <= j < t.len() && t[j].0 == key;
        assert(c == i);
        assert(u == s.remove(i));
        assert forall|j: int| 0 <= j < u.len() implies u[j].0 != key by {
            if j < i {
                assert(u[j] == s[j]);
            } else {
                assert(u[j] == s[j + 1]);
            }
        }
        if exists|j: int| 0 <= j < s.len() && s[j].0 == other {
            let j = choose|j: int| 0 <= j < s.len() && s[j].0 == other;
            assert(t[j].0 == other);
            let cj = choose|q: int| 0 <= q < t.len() && t[q].0 == other;
            assert(cj == j);
            let k = if j < i { j } else { j - 1 };
            assert(u[k] == s[j]);
            let ck = choose|q: int| 0 <= q < u.len() && u[q].0 == other;
            if ck < i {
                assert(u[ck] == s[ck]);
            } else {
                assert(u[ck] == s[ck + 1]);
            }
        } else {
            assert forall|q: int| 0 <= q < t.len() implies t[q].0 != other by {
                if q != i {
                    assert(t[q] == s[q]);
                }
            }
            assert forall|q: int| 0 <= q < u.len() implies u[q].0 != other by {
                if q < i {
                    assert(u[q] == s[q]);
                } else {
                    assert(u[q] == s[q + 1]);
                }
            }
        }
    } else {
        assert(t == s.push((key, value)));
        assert(u == s);
        assert(t[s.len() as int].0 == key);
        if exists|j: int| 0 <= j < s.len() && s[j].0 == other {
            let j = choose|j: int| 0 <= j < s.len() && s[j].0 == other;
            assert(t[j].0 == other);
            let cj = choose|q: int| 0 <= q < t.len() && t[q].0 == other;
            assert(cj == j);
        } else {
            assert forall|q: int| 0 <= q < t.len() implies t[q].0 != other by {
                if q < s.len() {
                    assert(t[q] == s[q]);
                }
            }
        }
    }
}

} // verus!
