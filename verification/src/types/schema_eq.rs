//! Deep equality of field types and schemas: two values are equal when they agree
//! part by part, as a derived `==` compares them.
use vstd::prelude::*;
use crate::text::{string_views, str_eq};
use super::schema::{FieldType, UniversalSchema, SchemaNode, SchemaField, SchemaEdge};

verus! {

/// The variant of a field type, by number.
pub open spec fn variant_of(t: FieldType) -> int {
    match t {
        FieldType::Text => 0,
        FieldType::Integer => 1,
        FieldType::Float => 2,
        FieldType::Boolean => 3,
        FieldType::DateTime => 4,
        FieldType::Date => 5,
        FieldType::Time => 6,
        FieldType::Duration => 7,
        FieldType::Binary => 8,
        FieldType::Uuid => 9,
        FieldType::Object(_) => 10,
        FieldType::Array(_) => 11,
        FieldType::Dict(_, _) => 12,
        FieldType::GeoPoint => 13,
        FieldType::GeoRegion => 14,
        FieldType::Enum(_) => 15,
        FieldType::Currency => 16,
        FieldType::Email => 17,
        FieldType::Url => 18,
        FieldType::IpAddress => 19,
        FieldType::Unknown => 20,
        FieldType::Null => 21,
    }
}

/// Two field types are equal: the same variant with equal parts.
pub open spec fn types_equal(a: FieldType, b: FieldType) -> bool
    decreases a,
{
    match a {
        FieldType::Object(x) => match b {
            FieldType::Object(y) => schemas_equal(*x, *y),
            _ => false,
        },
        FieldType::Array(x) => match b {
            FieldType::Array(y) => types_equal(*x, *y),
            _ => false,
        },
        FieldType::Dict(k, v) => match b {
            FieldType::Dict(k2, v2) => types_equal(*k, *k2) && types_equal(*v, *v2),
            _ => false,
        },
        FieldType::Enum(vs) => match b {
            FieldType::Enum(ws) => string_views(vs@) == string_views(ws@),
            _ => false,
        },
        _ => variant_of(a) == variant_of(b),
    }
}

/// Two schemas are equal in every part.
pub open spec fn schemas_equal(a: UniversalSchema, b: UniversalSchema) -> bool
    decreases a,
{
    &&& a.id@ == b.id@
    &&& a.name@ == b.name@
    &&& nodes_equal(a.nodes@, b.nodes@)
    &&& edges_equal(a.edges@, b.edges@)
    &&& a.inferred_at == b.inferred_at
    &&& a.version == b.version
}

/// Two lists of nodes are equal, node by node.
pub open spec fn nodes_equal(s: Seq<SchemaNode>, t: Seq<SchemaNode>) -> bool
    decreases s,
{
    &&& s.len() == t.len()
    &&& (s.len() == 0 || (nodes_equal(s.subrange(0, s.len() - 1), t.subrange(0, t.len() - 1))
        && node_equal(s[s.len() - 1], t[t.len() - 1])))
}

/// Two nodes are equal in every part.
pub open spec fn node_equal(a: SchemaNode, b: SchemaNode) -> bool
    decreases a,
{
    &&& a.name@ == b.name@
    &&& a.source@ == b.source@
    &&& fields_equal(a.fields@, b.fields@)
    &&& a.record_count == b.record_count
}

/// Two lists of fields are equal, field by field.
pub open spec fn fields_equal(s: Seq<SchemaField>, t: Seq<SchemaField>) -> bool
    decreases s,
{
    &&& s.len() == t.len()
    &&& (s.len() == 0 || (fields_equal(s.subrange(0, s.len() - 1), t.subrange(0, t.len() - 1))
        && field_equal(s[s.len() - 1], t[t.len() - 1])))
}

/// Two fields are equal in every part.
pub open spec fn field_equal(a: SchemaField, b: SchemaField) -> bool
    decreases a,
{
    &&& a.name@ == b.name@
    &&& types_equal(a.field_type, b.field_type)
    &&& a.nullable == b.nullable
    &&& match (a.description, b.description) {
        (Some(x), Some(y)) => x@ == y@,
        (None, None) => true,
        _ => false,
    }
    &&& a.confidence == b.confidence
    &&& string_views(a.sample_values@) == string_views(b.sample_values@)
    &&& a.stats == b.stats
}

/// Two edges are equal in every part.
pub open spec fn edge_equal(a: SchemaEdge, b: SchemaEdge) -> bool {
    &&& a.from@ == b.from@
    &&& a.to@ == b.to@
    &&& a.edge_type == b.edge_type
    &&& a.confidence == b.confidence
}

/// Two lists of edges are equal, edge by edge.
pub open spec fn edges_equal(s: Seq<SchemaEdge>, t: Seq<SchemaEdge>) -> bool {
    &&& s.len() == t.len()
    &&& forall|i: int| 0 <= i < s.len() ==> #[trigger] edge_equal(s[i], t[i])
}

proof fn lemma_nodes_equal_elem(s: Seq<SchemaNode>, t: Seq<SchemaNode>, k: int)
    requires
        nodes_equal(s, t),
        0 <= k < s.len(),
    ensures
        node_equal(s[k], t[k]),
    decreases s.len(),
{
    if k < s.len() - 1 {
        lemma_nodes_equal_elem(s.subrange(0, s.len() - 1), t.subrange(0, t.len() - 1), k);
    }
}

proof fn lemma_fields_equal_elem(s: Seq<SchemaField>, t: Seq<SchemaField>, k: int)
    requires
        fields_equal(s, t),
        0 <= k < s.len(),
    ensures
        field_equal(s[k], t[k]),
    decreases s.len(),
{
    if k < s.len() - 1 {
        lemma_fields_equal_elem(s.subrange(0, s.len() - 1), t.subrange(0, t.len() - 1), k);
    }
}

fn same_strings(a: &Vec<String>, b: &Vec<String>) -> (r: bool)
    ensures
        r == (string_views(a@) == string_views(b@)),
{
    if a.len() != b.len() {
        return false;
    }
    let mut i: usize = 0;
    while i < a.len()
        invariant
            i <= a@.len(),
            a@.len() == b@.len(),
            forall|k: int| 0 <= k < i ==> a@[k]@ == b@[k]@,
        decreases a.len() - i,
    {
        if !str_eq(a[i].as_str(), b[i].as_str()) {
            assert(string_views(a@)[i as int] != string_views(b@)[i as int]);
            return false;
        }
        i = i + 1;
    }
    assert(string_views(a@) =~= string_views(b@));
    true
}

/// Whether two field types are equal (`FieldType`'s `==`).
pub fn same_type(a: &FieldType, b: &FieldType) -> (r: bool)
    ensures
        r == types_equal(*a, *b),
    decreases a,
{
    match a {
        FieldType::Object(x) => match b {
            FieldType::Object(y) => same_schema(x, y),
            _ => false,
        },
        FieldType::Array(x) => match b {
            FieldType::Array(y) => same_type(x, y),
            _ => false,
        },
        FieldType::Dict(k, v) => match b {
            FieldType::Dict(k2, v2) => same_type(k, k2) && same_type(v, v2),
            _ => false,
        },
        FieldType::Enum(vs) => match b {
            FieldType::Enum(ws) => same_strings(vs, ws),
            _ => false,
        },
        FieldType::Text => matches!(b, FieldType::Text),
        FieldType::Integer => matches!(b, FieldType::Integer),
        FieldType::Float => matches!(b, FieldType::Float),
        FieldType::Boolean => matches!(b, FieldType::Boolean),
        FieldType::DateTime => matches!(b, FieldType::DateTime),
        FieldType::Date => matches!(b, FieldType::Date),
        FieldType::Time => matches!(b, FieldType::Time),
        FieldType::Duration => matches!(b, FieldType::Duration),
        FieldType::Binary => matches!(b, FieldType::Binary),
        FieldType::Uuid => matches!(b, FieldType::Uuid),
        FieldType::GeoPoint => matches!(b, FieldType::GeoPoint),
        FieldType::GeoRegion => matches!(b, FieldType::GeoRegion),
        FieldType::Currency => matches!(b, FieldType::Currency),
        FieldType::Email => matches!(b, FieldType::Email),
        FieldType::Url => matches!(b, FieldType::Url),
        FieldType::IpAddress => matches!(b, FieldType::IpAddress),
        FieldType::Unknown => matches!(b, FieldType::Unknown),
        FieldType::Null => matches!(b, FieldType::Null),
    }
}

/// Whether two schemas are equal (`UniversalSchema`'s `==`).
pub fn same_schema(a: &UniversalSchema, b: &UniversalSchema) -> (r: bool)
    ensures
        r == schemas_equal(*a, *b),
    decreases a,
{
    if !str_eq(a.id.as_str(), b.id.as_str()) || !str_eq(a.name.as_str(), b.name.as_str()) {
        return false;
    }
    if a.inferred_at != b.inferred_at || a.version != b.version {
        return false;
    }
    if !same_edges(&a.edges, &b.edges) {
        return false;
    }
    same_nodes(&a.nodes, &b.nodes)
}

fn same_edges(a: &Vec<SchemaEdge>, b: &Vec<SchemaEdge>) -> (r: bool)
    ensures
        r == edges_equal(a@, b@),
{
    if a.len() != b.len() {
        return false;
    }
    let mut i: usize = 0;
    while i < a.len()
        invariant
            i <= a@.len(),
            a@.len() == b@.len(),
            forall|k: int| 0 <= k < i ==> #[trigger] edge_equal(a@[k], b@[k]),
        decreases a.len() - i,
    {
        let x = &a[i];
        let y = &b[i];
        if !str_eq(x.from.as_str(), y.from.as_str()) || !str_eq(x.to.as_str(), y.to.as_str())
            || x.edge_type != y.edge_type || x.confidence != y.confidence {
            assert(!edge_equal(a@[i as int], b@[i as int]));
            return false;
        }
        i = i + 1;
    }
    true
}

fn same_nodes(s: &Vec<SchemaNode>, t: &Vec<SchemaNode>) -> (r: bool)
    ensures
        r == nodes_equal(s@, t@),
    decreases s,
{
    if s.len() != t.len() {
        return false;
    }
    let mut i: usize = 0;
    assert(s@.subrange(0, 0) =~= Seq::<SchemaNode>::empty());
    assert(t@.subrange(0, 0) =~= Seq::<SchemaNode>::empty());
    while i < s.len()
        invariant
            i <= s@.len(),
            s@.len() == t@.len(),
            nodes_equal(s@.subrange(0, i as int), t@.subrange(0, i as int)),
        decreases s.len() - i,
    {
        assert(s@.subrange(0, i + 1).subrange(0, i as int) =~= s@.subrange(0, i as int));
        assert(t@.subrange(0, i + 1).subrange(0, i as int) =~= t@.subrange(0, i as int));
        if !same_node(&s[i], &t[i]) {
            proof {
                if nodes_equal(s@, t@) {
                    lemma_nodes_equal_elem(s@, t@, i as int);
                }
            }
            return false;
        }
        i = i + 1;
    }
    assert(s@.subrange(0, s@.len() as int) =~= s@);
    assert(t@.subrange(0, t@.len() as int) =~= t@);
    true
}

fn same_node(a: &SchemaNode, b: &SchemaNode) -> (r: bool)
    ensures
        r == node_equal(*a, *b),
    decreases a,
{
    str_eq(a.name.as_str(), b.name.as_str()) && str_eq(a.source.as_str(), b.source.as_str())
        && a.record_count == b.record_count && same_fields(&a.fields, &b.fields)
}

fn same_fields(s: &Vec<SchemaField>, t: &Vec<SchemaField>) -> (r: bool)
    ensures
        r == fields_equal(s@, t@),
    decreases s,
{
    if s.len() != t.len() {
        return false;
    }
    let mut i: usize = 0;
    assert(s@.subrange(0, 0) =~= Seq::<SchemaField>::empty());
    assert(t@.subrange(0, 0) =~= Seq::<SchemaField>::empty());
    while i < s.len()
        invariant
            i <= s@.len(),
            s@.len() == t@.len(),
            fields_equal(s@.subrange(0, i as int), t@.subrange(0, i as int)),
        decreases s.len() - i,
    {
        assert(s@.subrange(0, i + 1).subrange(0, i as int) =~= s@.subrange(0, i as int));
        assert(t@.subrange(0, i + 1).subrange(0, i as int) =~= t@.subrange(0, i as int));
        if !same_field(&s[i], &t[i]) {
            proof {
                if fields_equal(s@, t@) {
                    lemma_fields_equal_elem(s@, t@, i as int);
                }
            }
            return false;
        }
        i = i + 1;
    }
    assert(s@.subrange(0, s@.len() as int) =~= s@);
    assert(t@.subrange(0, t@.len() as int) =~= t@);
    true
}

fn same_field(a: &SchemaField, b: &SchemaField) -> (r: bool)
    ensures
        r == field_equal(*a, *b),
    decreases a,
{
    let desc = match (&a.description, &b.description) {
        (Some(x), Some(y)) => str_eq(x.as_str(), y.as_str()),
        (None, None) => true,
        _ => false,
    };
    str_eq(a.name.as_str(), b.name.as_str()) && a.nullable == b.nullable && desc && a.confidence
        == b.confidence && a.stats == b.stats && same_strings(&a.sample_values, &b.sample_values)
        && same_type(&a.field_type, &b.field_type)
}

fn copy_strings(v: &Vec<String>) -> (r: Vec<String>)
    ensures
        string_views(r@) == string_views(v@),
{
    let mut out: Vec<String> = Vec::new();
    let mut i: usize = 0;
    while i < v.len()
        invariant
            i <= v@.len(),
            out@.len() == i,
            forall|k: int| 0 <= k < i ==> #[trigger] out@[k]@ == v@[k]@,
        decreases v.len() - i,
    {
        out.push(v[i].clone());
        i = i + 1;
    }
    assert(string_views(out@) =~= string_views(v@));
    out
}

/// A copy of a field type.
pub fn copy_type(t: &FieldType) -> (r: FieldType)
    ensures
        types_equal(r, *t),
    decreases t,
{
    match t {
        FieldType::Object(x) => FieldType::Object(Box::new(copy_schema(x))),
        FieldType::Array(x) => FieldType::Array(Box::new(copy_type(x))),
        FieldType::Dict(k, v) => FieldType::Dict(Box::new(copy_type(k)), Box::new(copy_type(v))),
        FieldType::Enum(vs) => FieldType::Enum(copy_strings(vs)),
        FieldType::Text => FieldType::Text,
        FieldType::Integer => FieldType::Integer,
        FieldType::Float => FieldType::Float,
        FieldType::Boolean => FieldType::Boolean,
        FieldType::DateTime => FieldType::DateTime,
        FieldType::Date => FieldType::Date,
        FieldType::Time => FieldType::Time,
        FieldType::Duration => FieldType::Duration,
        FieldType::Binary => FieldType::Binary,
        FieldType::Uuid => FieldType::Uuid,
        FieldType::GeoPoint => FieldType::GeoPoint,
        FieldType::GeoRegion => FieldType::GeoRegion,
        FieldType::Currency => FieldType::Currency,
        FieldType::Email => FieldType::Email,
        FieldType::Url => FieldType::Url,
        FieldType::IpAddress => FieldType::IpAddress,
        FieldType::Unknown => FieldType::Unknown,
        FieldType::Null => FieldType::Null,
    }
}

/// A copy of a schema.
pub fn copy_schema(s: &UniversalSchema) -> (r: UniversalSchema)
    ensures
        schemas_equal(r, *s),
    decreases s,
{
    let mut edges: Vec<SchemaEdge> = Vec::new();
    let mut i: usize = 0;
    while i < s.edges.len()
        invariant
            i <= s.edges@.len(),
            edges@.len() == i,
            forall|k: int| 0 <= k < i ==> #[trigger] edge_equal(edges@[k], s.edges@[k]),
        decreases s.edges.len() - i,
    {
        let e = &s.edges[i];
        edges.push(SchemaEdge { from: e.from.clone(), to: e.to.clone(), edge_type: e.edge_type, confidence: e.confidence });
        i = i + 1;
    }
    let nodes = copy_nodes(&s.nodes);
    UniversalSchema {
        id: s.id.clone(),
        name: s.name.clone(),
        nodes,
        edges,
        inferred_at: s.inferred_at,
        version: s.version,
    }
}

fn copy_nodes(v: &Vec<SchemaNode>) -> (r: Vec<SchemaNode>)
    ensures
        nodes_equal(r@, v@),
    decreases v,
{
    let mut out: Vec<SchemaNode> = Vec::new();
    let mut i: usize = 0;
    assert(v@.subrange(0, 0) =~= Seq::<SchemaNode>::empty());
    while i < v.len()
        invariant
            i <= v@.len(),
            out@.len() == i,
            nodes_equal(out@, v@.subrange(0, i as int)),
        decreases v.len() - i,
    {
        let ghost o0 = out@;
        out.push(copy_node(&v[i]));
        assert(out@.subrange(0, out@.len() - 1) =~= o0);
        assert(v@.subrange(0, i + 1).subrange(0, i as int) =~= v@.subrange(0, i as int));
        i = i + 1;
    }
    assert(v@.subrange(0, v@.len() as int) =~= v@);
    out
}

/// A copy of a node.
pub fn copy_node(n: &SchemaNode) -> (r: SchemaNode)
    ensures
        node_equal(r, *n),
    decreases n,
{
    SchemaNode {
        name: n.name.clone(),
        source: n.source.clone(),
        fields: copy_fields(&n.fields),
        record_count: n.record_count,
    }
}

fn copy_fields(v: &Vec<SchemaField>) -> (r: Vec<SchemaField>)
    ensures
        fields_equal(r@, v@),
    decreases v,
{
    let mut out: Vec<SchemaField> = Vec::new();
    let mut i: usize = 0;
    assert(v@.subrange(0, 0) =~= Seq::<SchemaField>::empty());
    while i < v.len()
        invariant
            i <= v@.len(),
            out@.len() == i,
            fields_equal(out@, v@.subrange(0, i as int)),
        decreases v.len() - i,
    {
        let ghost o0 = out@;
        out.push(copy_field(&v[i]));
        assert(out@.subrange(0, out@.len() - 1) =~= o0);
        assert(v@.subrange(0, i + 1).subrange(0, i as int) =~= v@.subrange(0, i as int));
        i = i + 1;
    }
    assert(v@.subrange(0, v@.len() as int) =~= v@);
    out
}

/// A copy of a field.
pub fn copy_field(f: &SchemaField) -> (r: SchemaField)
    ensures
        field_equal(r, *f),
    decreases f,
{
    let description = match &f.description {
        Some(d) => Some(d.clone()),
        None => None,
    };
    SchemaField {
        name: f.name.clone(),
        field_type: copy_type(&f.field_type),
        nullable: f.nullable,
        description,
        confidence: f.confidence,
        sample_values: copy_strings(&f.sample_values),
        stats: f.stats,
    }
}

} // verus!
