//! Universal schema: one description for tables, documents, key-value data, graphs,
//! time series and geospatial data.
//!
//! Confidences are given in thousandths (1000 stands for 1.0, a declared type).
use vstd::prelude::*;
use crate::text::{str_eq, chars_of, string_of, find_char_exec, find_char, slice_vec};
use super::record::new_uuid;
use super::now_micros;

verus! {

/// A field type in the universal schema.
#[derive(Debug, PartialEq)]
pub enum FieldType {
    /// Text/string data.
    Text,
    /// Integer (i64).
    Integer,
    /// Floating point.
    Float,
    /// Boolean.
    Boolean,
    /// Date/time (ISO 8601).
    DateTime,
    /// Date only (YYYY-MM-DD).
    Date,
    /// Time only (HH:MM:SS).
    Time,
    /// Duration/interval.
    Duration,
    /// Binary/blob data.
    Binary,
    /// UUID.
    Uuid,
    /// JSON/nested object.
    Object(Box<UniversalSchema>),
    /// Array of a specific type.
    Array(Box<FieldType>),
    /// Map/dictionary (key type → value type).
    Dict(Box<FieldType>, Box<FieldType>),
    /// Geospatial point (lat, lng).
    GeoPoint,
    /// Geospatial polygon/region.
    GeoRegion,
    /// Enum with known values.
    Enum(Vec<String>),
    /// Currency amount (value + currency code).
    Currency,
    /// Email address.
    Email,
    /// URL.
    Url,
    /// IP address.
    IpAddress,
    /// Unknown/unresolved type.
    Unknown,
    /// Null/missing.
    Null,
}

/// Statistical summary of a numeric field; `min`, `max` and `mean` are in
/// thousandths.
#[derive(Debug, Clone, Copy, PartialEq, Eq, Structural)]
pub struct FieldStats {
    pub min: i64,
    pub max: i64,
    pub mean: i64,
    pub null_count: u64,
    pub distinct_count: u64,
    pub total_count: u64,
}

/// A single field in a schema.
#[derive(Debug, PartialEq)]
pub struct SchemaField {
    /// Field name (column name, JSON key, etc).
    pub name: String,
    /// Detected or declared type.
    pub field_type: FieldType,
    /// Whether this field can be null/missing.
    pub nullable: bool,
    /// Human-readable description (auto-generated or provided).
    pub description: Option<String>,
    /// Confidence in type inference, in thousandths (1000 = declared).
    pub confidence: u32,
    /// Sample values seen during inference (up to 5).
    pub sample_values: Vec<String>,
    /// Statistical summary (for numeric fields).
    pub stats: Option<FieldStats>,
}

/// Types of relationships between schema fields.
#[derive(Debug, Clone, Copy, PartialEq, Eq, Structural)]
pub enum SchemaEdgeType {
    /// Foreign key / reference.
    References,
    /// Parent-child containment.
    Contains,
    /// Derived/computed from.
    DerivedFrom,
    /// Belongs to (inverse of Contains).
    BelongsTo,
    /// Semantically similar fields.
    SimilarTo,
}

/// A relationship edge between schema nodes.
#[derive(Debug, Clone, PartialEq)]
pub struct SchemaEdge {
    /// Source field (fully qualified: "table.column" or "$.path.field").
    pub from: String,
    /// Target field.
    pub to: String,
    /// Relationship type.
    pub edge_type: SchemaEdgeType,
    /// Confidence in this relationship, in thousandths.
    pub confidence: u32,
}

/// A node in the schema graph (table, document, collection).
#[derive(Debug, PartialEq)]
pub struct SchemaNode {
    /// Node name (table name, collection name, file name).
    pub name: String,
    /// Source identifier.
    pub source: String,
    /// Fields in this node.
    pub fields: Vec<SchemaField>,
    /// Number of records/rows (if known).
    pub record_count: Option<u64>,
}

/// A complete universal schema covering one or more data sources.
#[derive(Debug, PartialEq)]
pub struct UniversalSchema {
    /// Schema identifier.
    pub id: String,
    /// Human-readable name.
    pub name: String,
    /// Schema nodes (tables, collections, document types).
    pub nodes: Vec<SchemaNode>,
    /// Relationships between fields across nodes.
    pub edges: Vec<SchemaEdge>,
    /// When this schema was inferred/updated.
    pub inferred_at: u64,
    /// Schema version (increments on evolution).
    pub version: u32,
}

/// Total number of fields of a sequence of nodes.
pub open spec fn fields_total(nodes: Seq<SchemaNode>) -> nat
    decreases nodes.len(),
{
    if nodes.len() == 0 {
        0
    } else {
        fields_total(nodes.drop_last()) + nodes.last().fields@.len()
    }
}

/// Position of the first node named `name`.
pub open spec fn node_index(nodes: Seq<SchemaNode>, name: Seq<char>) -> Option<int> {
    if exists|i: int| 0 <= i < nodes.len() && nodes[i].name@ == name {
        Some(
            choose|i: int|
                0 <= i < nodes.len() && nodes[i].name@ == name && forall|j: int|
                    0 <= j < i ==> nodes[j].name@ != name,
        )
    } else {
        None
    }
}

/// Position of the first field named `name`.
pub open spec fn field_index(fields: Seq<SchemaField>, name: Seq<char>) -> Option<int> {
    if exists|i: int| 0 <= i < fields.len() && fields[i].name@ == name {
        Some(
            choose|i: int|
                0 <= i < fields.len() && fields[i].name@ == name && forall|j: int|
                    0 <= j < i ==> fields[j].name@ != name,
        )
    } else {
        None
    }
}

/// What `node_index` gives: the first node of that name.
pub proof fn lemma_node_index(nodes: Seq<SchemaNode>, name: Seq<char>)
    ensures
        node_index(nodes, name) matches Some(i) ==> 0 <= i < nodes.len() && nodes[i].name@ == name
            && forall|j: int| 0 <= j < i ==> nodes[j].name@ != name,
        node_index(nodes, name) is None ==> forall|j: int|
            0 <= j < nodes.len() ==> nodes[j].name@ != name,
{
    if exists|i: int| 0 <= i < nodes.len() && nodes[i].name@ == name {
        let i0 = choose|i: int| 0 <= i < nodes.len() && nodes[i].name@ == name;
        lemma_min_node(nodes, name, i0);
    }
}

proof fn lemma_min_node(nodes: Seq<SchemaNode>, name: Seq<char>, i0: int)
    requires
        0 <= i0 < nodes.len(),
        nodes[i0].name@ == name,
    ensures
        exists|i: int|
            0 <= i < nodes.len() && nodes[i].name@ == name && forall|j: int|
                0 <= j < i ==> nodes[j].name@ != name,
    decreases i0,
{
    if exists|j: int| 0 <= j < i0 && nodes[j].name@ == name {
        let j = choose|j: int| 0 <= j < i0 && nodes[j].name@ == name;
        lemma_min_node(nodes, name, j);
    } else {
        assert(forall|j: int| 0 <= j < i0 ==> nodes[j].name@ != name);
    }
}

proof fn lemma_first_node(nodes: Seq<SchemaNode>, name: Seq<char>, i: int)
    requires
        0 <= i < nodes.len(),
        nodes[i].name@ == name,
        forall|j: int| 0 <= j < i ==> nodes[j].name@ != name,
    ensures
        node_index(nodes, name) == Some(i),
{
    let k = choose|k: int|
        0 <= k < nodes.len() && nodes[k].name@ == name && forall|j: int|
            0 <= j < k ==> nodes[j].name@ != name;
    assert(k == i) by {
        if k < i {
        } else if k > i {
        }
    }
}

proof fn lemma_first_field(fields: Seq<SchemaField>, name: Seq<char>, i: int)
    requires
        0 <= i < fields.len(),
        fields[i].name@ == name,
        forall|j: int| 0 <= j < i ==> fields[j].name@ != name,
    ensures
        field_index(fields, name) == Some(i),
{
    let k = choose|k: int|
        0 <= k < fields.len() && fields[k].name@ == name && forall|j: int|
            0 <= j < k ==> fields[j].name@ != name;
    assert(k == i) by {
        if k < i {
        } else if k > i {
        }
    }
}

/// The qualified name `node.field` split at its first `.`.
pub open spec fn split_qualified(q: Seq<char>) -> Option<(Seq<char>, Seq<char>)> {
    match find_char(q, '.') {
        Some(k) => Some((q.subrange(0, k), q.subrange(k + 1, q.len() as int))),
        None => None,
    }
}

impl UniversalSchema {
    /// Create a new empty schema, with a fresh random id, at the current time, at
    /// version 1.
    pub fn new(name: &str) -> (r: UniversalSchema)
        ensures
            r.id@.len() == 36,
            r.name@ == name@,
            r.nodes@.len() == 0,
            r.edges@.len() == 0,
            r.version == 1,
    {
        UniversalSchema {
            id: new_uuid(),
            name: name.to_owned(),
            nodes: Vec::new(),
            edges: Vec::new(),
            inferred_at: now_micros(),
            version: 1,
        }
    }

    /// Total field count across all nodes.
    pub fn total_fields(&self) -> (r: usize)
        requires
            fields_total(self.nodes@) <= usize::MAX,
        ensures
            r == fields_total(self.nodes@),
    {
        let mut total: usize = 0;
        let mut i: usize = 0;
        while i < self.nodes.len()
            invariant
                i <= self.nodes@.len(),
                total == fields_total(self.nodes@.subrange(0, i as int)),
                fields_total(self.nodes@) <= usize::MAX,
            decreases self.nodes.len() - i,
        {
            assert(self.nodes@.subrange(0, i + 1).drop_last() =~= self.nodes@.subrange(0, i as int));
            proof {
                lemma_fields_total_prefix(self.nodes@, i + 1);
            }
            total = total + self.nodes[i].fields.len();
            i = i + 1;
        }
        assert(self.nodes@.subrange(0, self.nodes@.len() as int) =~= self.nodes@);
        total
    }

    /// Find the first node with that name.
    pub fn find_node(&self, name: &str) -> (r: Option<&SchemaNode>)
        ensures
            match node_index(self.nodes@, name@) {
                Some(i) => r == Some(&self.nodes@[i]),
                None => r is None,
            },
    {
        let mut i: usize = 0;
        while i < self.nodes.len()
            invariant
                i <= self.nodes@.len(),
                forall|j: int| 0 <= j < i ==> self.nodes@[j].name@ != name@,
            decreases self.nodes.len() - i,
        {
            if str_eq(self.nodes[i].name.as_str(), name) {
                proof {
                    lemma_first_node(self.nodes@, name@, i as int);
                }
                return Some(&self.nodes[i]);
            }
            i = i + 1;
        }
        None
    }

    /// Find a field by its qualified name `node.field` (split at the first `.`): the
    /// first field of that name in the first node of that name.
    pub fn find_field(&self, qualified: &str) -> (r: Option<&SchemaField>)
        ensures
            match split_qualified(qualified@) {
                Some((n, f)) => match node_index(self.nodes@, n) {
                    Some(i) => match field_index(self.nodes@[i].fields@, f) {
                        Some(j) => r == Some(&self.nodes@[i].fields@[j]),
                        None => r is None,
                    },
                    None => r is None,
                },
                None => r is None,
            },
    {
        let q = chars_of(qualified);
        let k = match find_char_exec(&q, '.') {
            Some(k) => k,
            None => {
                return None;
            },
        };
        let qlen = q.len();
        assert(k < qlen);
        let node_name = string_of(&slice_vec(&q, 0, k));
        let field_name = string_of(&slice_vec(&q, k + 1, q.len()));
        assert(split_qualified(qualified@) == Some((node_name@, field_name@)));
        let node = match self.find_node(node_name.as_str()) {
            Some(n) => n,
            None => {
                return None;
            },
        };
        let ghost ni = node_index(self.nodes@, node_name@)->0;
        assert(node_index(self.nodes@, node_name@) == Some(ni));
        assert(*node == self.nodes@[ni]);
        let mut j: usize = 0;
        while j < node.fields.len()
            invariant
                j <= node.fields@.len(),
                forall|m: int| 0 <= m < j ==> node.fields@[m].name@ != field_name@,
                *node == self.nodes@[ni],
                node_index(self.nodes@, node_name@) == Some(ni),
                split_qualified(qualified@) == Some((node_name@, field_name@)),
            decreases node.fields.len() - j,
        {
            if str_eq(node.fields[j].name.as_str(), field_name.as_str()) {
                proof {
                    lemma_first_field(node.fields@, field_name@, j as int);
                }
                return Some(&node.fields[j]);
            }
            j = j + 1;
        }
        None
    }
}

proof fn lemma_fields_total_prefix(nodes: Seq<SchemaNode>, i: int)
    requires
        0 <= i <= nodes.len(),
    ensures
        fields_total(nodes.subrange(0, i)) <= fields_total(nodes),
    decreases nodes.len() - i,
{
    if i < nodes.len() {
        lemma_fields_total_prefix(nodes.drop_last(), i);
        assert(nodes.drop_last().subrange(0, i) =~= nodes.subrange(0, i));
    } else {
        assert(nodes.subrange(0, i) =~= nodes);
    }
}

impl SchemaField {
    /// A field with an inferred type: not nullable, no description, samples or stats.
    pub fn inferred(name: &str, field_type: FieldType, confidence: u32) -> (r: SchemaField)
        ensures
            r.name@ == name@,
            r.field_type == field_type,
            !r.nullable,
            r.description is None,
            r.confidence == confidence,
            r.sample_values@.len() == 0,
            r.stats is None,
    {
        SchemaField {
            name: name.to_owned(),
            field_type,
            nullable: false,
            description: None,
            confidence,
            sample_values: Vec::new(),
            stats: None,
        }
    }
}

} // verus!
