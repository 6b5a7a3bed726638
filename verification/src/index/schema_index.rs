//! Schema index: lookup of schemas, nodes and fields by name.
//!
//! Schemas are kept by id, fields by qualified name (`node.field`) and nodes by
//! name, each key once, in the order in which it was first added.
use vstd::prelude::*;
use crate::text::{first_index, lemma_first_index, lemma_first_index_at, unique_keys, str_eq, string_views, chars_of, string_of, push_all, contains, contains_exec, spec_to_lower, to_lower};
use crate::types::schema::{FieldType, SchemaField, SchemaNode, UniversalSchema};
use crate::types::schema_eq::{schemas_equal, types_equal, copy_schema, same_type};
use crate::engine::store::{upsert, schema_ids};

verus! {

/// Where a field is: schema id, node name, position in the node.
pub type FieldLoc = (Seq<char>, Seq<char>, nat);

/// The keys of a keyed list.
pub open spec fn keys_of<V>(s: Seq<(Seq<char>, V)>) -> Seq<Seq<char>> {
    s.map_values(|p: (Seq<char>, V)| p.0)
}

/// Storing `v` under `k` in a keyed list: the entry of `k` is replaced in place, a
/// new key goes at the end.
pub open spec fn kv_put<V>(s: Seq<(Seq<char>, V)>, k: Seq<char>, v: V) -> Seq<(Seq<char>, V)> {
    match first_index(keys_of(s), k) {
        Some(i) => s.update(i, (k, v)),
        None => s.push((k, v)),
    }
}

/// The value stored under `k`.
pub open spec fn kv_get<V>(s: Seq<(Seq<char>, V)>, k: Seq<char>) -> Option<V> {
    match first_index(keys_of(s), k) {
        Some(i) => Some(s[i].1),
        None => None,
    }
}

/// The qualified name of a field: `node.field`.
pub open spec fn qualified(node: Seq<char>, field: Seq<char>) -> Seq<char> {
    node + "."@ + field
}

/// The field entries after indexing the fields of a node, in order.
pub open spec fn index_node_fields(fm: Seq<(Seq<char>, FieldLoc)>, id: Seq<char>, node: Seq<char>, fields: Seq<SchemaField>) -> Seq<(Seq<char>, FieldLoc)>
    decreases fields.len(),
{
    if fields.len() == 0 {
        fm
    } else {
        let n = (fields.len() - 1) as nat;
        kv_put(index_node_fields(fm, id, node, fields.drop_last()), qualified(node, fields.last().name@), (id, node, n))
    }
}

/// The field entries after indexing the fields of each node, in order.
pub open spec fn index_fields(fm: Seq<(Seq<char>, FieldLoc)>, id: Seq<char>, nodes: Seq<SchemaNode>) -> Seq<(Seq<char>, FieldLoc)>
    decreases nodes.len(),
{
    if nodes.len() == 0 {
        fm
    } else {
        index_node_fields(index_fields(fm, id, nodes.drop_last()), id, nodes.last().name@, nodes.last().fields@)
    }
}

/// The node entries after recording that each node is in schema `id`.
pub open spec fn index_nodes(ns: Seq<(Seq<char>, Seq<Seq<char>>)>, id: Seq<char>, nodes: Seq<SchemaNode>) -> Seq<(Seq<char>, Seq<Seq<char>>)>
    decreases nodes.len(),
{
    if nodes.len() == 0 {
        ns
    } else {
        let prev = index_nodes(ns, id, nodes.drop_last());
        let name = nodes.last().name@;
        match kv_get(prev, name) {
            Some(ids) => kv_put(prev, name, ids.push(id)),
            None => kv_put(prev, name, seq![id]),
        }
    }
}

/// Index for schema lookups.
#[derive(Debug)]
pub struct SchemaIndex {
    schemas: Vec<UniversalSchema>,
    field_map: Vec<(String, (String, String, usize))>,
    node_to_schemas: Vec<(String, Vec<String>)>,
}

/// View of a field entry.
pub open spec fn field_entry_view(e: (String, (String, String, usize))) -> (Seq<char>, FieldLoc) {
    (e.0@, ((e.1).0@, (e.1).1@, (e.1).2 as nat))
}

/// View of a node entry.
pub open spec fn node_entry_view(e: (String, Vec<String>)) -> (Seq<char>, Seq<Seq<char>>) {
    (e.0@, string_views(e.1@))
}

impl SchemaIndex {
    /// The indexed schemas, each id once.
    pub closed spec fn schemas(&self) -> Seq<UniversalSchema> {
        self.schemas@
    }

    /// The field entries: qualified name → location.
    pub closed spec fn fields(&self) -> Seq<(Seq<char>, FieldLoc)> {
        self.field_map@.map_values(|e: (String, (String, String, usize))| field_entry_view(e))
    }

    /// The node entries: node name → ids of the schemas that have it.
    pub closed spec fn nodes(&self) -> Seq<(Seq<char>, Seq<Seq<char>>)> {
        self.node_to_schemas@.map_values(|e: (String, Vec<String>)| node_entry_view(e))
    }

    #[verifier::type_invariant]
    closed spec fn inv(self) -> bool {
        &&& unique_keys(schema_ids(self.schemas@))
        &&& unique_keys(keys_of(self.fields()))
        &&& unique_keys(keys_of(self.nodes()))
    }

    /// An empty index.
    pub fn new() -> (r: SchemaIndex)
        ensures
            r.schemas().len() == 0,
            r.fields().len() == 0,
            r.nodes().len() == 0,
    {
        let r = SchemaIndex { schemas: Vec::new(), field_map: Vec::new(), node_to_schemas: Vec::new() };
        assert(schema_ids(r.schemas@) =~= Seq::<Seq<char>>::empty());
        assert(keys_of(r.fields()) =~= Seq::<Seq<char>>::empty());
        assert(keys_of(r.nodes()) =~= Seq::<Seq<char>>::empty());
        r
    }
}

proof fn lemma_kv_put_unique<V>(s: Seq<(Seq<char>, V)>, k: Seq<char>, v: V)
    requires
        unique_keys(keys_of(s)),
    ensures
        unique_keys(keys_of(kv_put(s, k, v))),
        keys_of(kv_put(s, k, v)) == match first_index(keys_of(s), k) {
            Some(i) => keys_of(s),
            None => keys_of(s).push(k),
        },
{
    lemma_first_index(keys_of(s), k);
    match first_index(keys_of(s), k) {
        Some(i) => {
            assert(keys_of(kv_put(s, k, v)) =~= keys_of(s));
        },
        None => {
            assert(keys_of(kv_put(s, k, v)) =~= keys_of(s).push(k));
        },
    }
}

/// What a read gives back of a write in a keyed list: after storing `v` under `k`,
/// `k` gives `v` and every other key what it gave before.
pub proof fn lemma_kv_get_after_put<V>(s: Seq<(Seq<char>, V)>, k: Seq<char>, v: V, other: Seq<char>)
    requires
        other != k,
    ensures
        kv_get(kv_put(s, k, v), k) == Some(v),
        kv_get(kv_put(s, k, v), other) == kv_get(s, other),
{
    let t = kv_put(s, k, v);
    lemma_first_index(keys_of(s), k);
    lemma_first_index(keys_of(s), other);
    lemma_first_index(keys_of(t), k);
    lemma_first_index(keys_of(t), other);
    match first_index(keys_of(s), k) {
        Some(i) => {
            assert(keys_of(t) =~= keys_of(s).update(i, k));
        },
        None => {
            assert(keys_of(t) =~= keys_of(s).push(k));
        },
    }
    match first_index(keys_of(t), k) {
        Some(j) => {
            match first_index(keys_of(s), k) {
                Some(i) => {
                    assert(keys_of(t)[i] == k);
                    if j < i {
                        assert(keys_of(s)[j] == keys_of(t)[j]);
                    }
                },
                None => {
                    assert(keys_of(t)[s.len() as int] == k);
                    if j < s.len() {
                        assert(keys_of(s)[j] == keys_of(t)[j]);
                    }
                },
            }
        },
        None => {
            match first_index(keys_of(s), k) {
                Some(i) => {
                    assert(keys_of(t)[i] == k);
                },
                None => {
                    assert(keys_of(t)[s.len() as int] == k);
                },
            }
        },
    }
    match first_index(keys_of(s), other) {
        Some(i) => {
            assert(keys_of(t)[i] == other);
            match first_index(keys_of(t), other) {
                Some(j) => {
                    if j < i {
                        assert(keys_of(s)[j] == keys_of(t)[j]);
                    } else if j > i {
                        assert(keys_of(t)[i] == other);
                    }
                },
                None => {},
            }
        },
        None => {
            match first_index(keys_of(t), other) {
                Some(j) => {
                    if j < s.len() {
                        assert(keys_of(s)[j] == keys_of(t)[j]);
                    }
                },
                None => {},
            }
        },
    }
}

/// The views of field entries.
pub open spec fn field_views(v: Seq<(String, (String, String, usize))>) -> Seq<(Seq<char>, FieldLoc)> {
    v.map_values(|e: (String, (String, String, usize))| field_entry_view(e))
}

/// The views of node entries.
pub open spec fn node_views(v: Seq<(String, Vec<String>)>) -> Seq<(Seq<char>, Seq<Seq<char>>)> {
    v.map_values(|e: (String, Vec<String>)| node_entry_view(e))
}

fn field_pos(v: &Vec<(String, (String, String, usize))>, key: &str) -> (r: Option<usize>)
    ensures
        match r {
            Some(i) => first_index(keys_of(field_views(v@)), key@) == Some(i as int) && i < v@.len(),
            None => first_index(keys_of(field_views(v@)), key@) is None,
        },
{
    let ghost ks = keys_of(field_views(v@));
    let mut i: usize = 0;
    while i < v.len()
        invariant
            i <= v@.len(),
            ks == keys_of(field_views(v@)),
            forall|j: int| 0 <= j < i ==> ks[j] != key@,
        decreases v.len() - i,
    {
        assert(ks[i as int] == v@[i as int].0@);
        if str_eq(v[i].0.as_str(), key) {
            proof {
                lemma_first_index_at(ks, key@, i as int);
            }
            return Some(i);
        }
        i = i + 1;
    }
    proof {
        lemma_first_index(ks, key@);
    }
    None
}

/// Position of a key in a keyed list of string lists.
pub(crate) fn node_pos(v: &Vec<(String, Vec<String>)>, key: &str) -> (r: Option<usize>)
    ensures
        match r {
            Some(i) => first_index(keys_of(node_views(v@)), key@) == Some(i as int) && i < v@.len(),
            None => first_index(keys_of(node_views(v@)), key@) is None,
        },
{
    let ghost ks = keys_of(node_views(v@));
    let mut i: usize = 0;
    while i < v.len()
        invariant
            i <= v@.len(),
            ks == keys_of(node_views(v@)),
            forall|j: int| 0 <= j < i ==> ks[j] != key@,
        decreases v.len() - i,
    {
        assert(ks[i as int] == v@[i as int].0@);
        if str_eq(v[i].0.as_str(), key) {
            proof {
                lemma_first_index_at(ks, key@, i as int);
            }
            return Some(i);
        }
        i = i + 1;
    }
    proof {
        lemma_first_index(ks, key@);
    }
    None
}

fn schema_pos(v: &Vec<UniversalSchema>, id: &str) -> (r: Option<usize>)
    ensures
        match r {
            Some(i) => first_index(schema_ids(v@), id@) == Some(i as int) && i < v@.len(),
            None => first_index(schema_ids(v@), id@) is None,
        },
{
    let ghost ks = schema_ids(v@);
    let mut i: usize = 0;
    while i < v.len()
        invariant
            i <= v@.len(),
            ks == schema_ids(v@),
            forall|j: int| 0 <= j < i ==> ks[j] != id@,
        decreases v.len() - i,
    {
        if str_eq(v[i].id.as_str(), id) {
            proof {
                lemma_first_index_at(ks, id@, i as int);
            }
            return Some(i);
        }
        i = i + 1;
    }
    proof {
        lemma_first_index(ks, id@);
    }
    None
}

fn put_field(v: &mut Vec<(String, (String, String, usize))>, key: String, loc: (String, String, usize))
    requires
        unique_keys(keys_of(field_views(old(v)@))),
    ensures
        field_views(final(v)@) == kv_put(field_views(old(v)@), key@, (loc.0@, loc.1@, loc.2 as nat)),
        unique_keys(keys_of(field_views(final(v)@))),
{
    let ghost v0 = field_views(v@);
    let ghost e = (key@, (loc.0@, loc.1@, loc.2 as nat));
    match field_pos(v, key.as_str()) {
        Some(i) => {
            v.set(i, (key, loc));
            assert(field_views(v@) =~= v0.update(i as int, e));
        },
        None => {
            v.push((key, loc));
            assert(field_views(v@) =~= v0.push(e));
        },
    }
    proof {
        lemma_kv_put_unique(v0, e.0, e.1);
    }
}

/// Append `id` to the list stored under `name` (starting the list if there is none).
pub(crate) fn append_under(v: &mut Vec<(String, Vec<String>)>, name: &String, id: &String)
    requires
        unique_keys(keys_of(node_views(old(v)@))),
    ensures
        node_views(final(v)@) == match kv_get(node_views(old(v)@), name@) {
            Some(ids) => kv_put(node_views(old(v)@), name@, ids.push(id@)),
            None => kv_put(node_views(old(v)@), name@, seq![id@]),
        },
        unique_keys(keys_of(node_views(final(v)@))),
{
    let ghost v0 = node_views(v@);
    match node_pos(v, name.as_str()) {
        Some(i) => {
            proof {
                lemma_first_index(keys_of(v0), name@);
            }
            let ghost vi = v@[i as int];
            assert(keys_of(v0)[i as int] == vi.0@);
            let (k, mut ids) = v.remove(i);
            assert(k@ == name@);
            let ghost old_ids = string_views(ids@);
            assert(kv_get(v0, name@) == Some(old_ids));
            ids.push(id.clone());
            assert(string_views(ids@) =~= old_ids.push(id@));
            v.insert(i, (k, ids));
            assert(node_views(v@) =~= v0.update(i as int, (name@, old_ids.push(id@))));
            proof {
                lemma_kv_put_unique(v0, name@, old_ids.push(id@));
            }
        },
        None => {
            let mut ids: Vec<String> = Vec::new();
            ids.push(id.clone());
            assert(string_views(ids@) =~= seq![id@]);
            v.push((name.clone(), ids));
            assert(node_views(v@) =~= v0.push((name@, seq![id@])));
            proof {
                lemma_kv_put_unique(v0, name@, seq![id@]);
            }
        },
    }
}

impl SchemaIndex {
    /// Index a schema: a copy is stored under its id (replacing one with that id),
    /// each node records the schema's id, and each field is stored under its
    /// qualified name with its place.
    pub fn add(&mut self, schema: &UniversalSchema)
        ensures
            exists|c: UniversalSchema|
                #[trigger] schemas_equal(c, *schema) && final(self).schemas() == upsert(
                    old(self).schemas(),
                    schema_ids(old(self).schemas()),
                    schema.id@,
                    c,
                ),
            final(self).nodes() == index_nodes(old(self).nodes(), schema.id@, schema.nodes@),
            final(self).fields() == index_fields(old(self).fields(), schema.id@, schema.nodes@),
    {
        proof {
            use_type_invariant(&*self);
        }
        let ghost s0 = self.schemas@;
        let copy = copy_schema(schema);
        let ghost c = copy;
        let mut schemas: Vec<UniversalSchema> = Vec::new();
        std::mem::swap(&mut schemas, &mut self.schemas);
        match schema_pos(&schemas, schema.id.as_str()) {
            Some(i) => {
                schemas.set(i, copy);
            },
            None => {
                schemas.push(copy);
            },
        }
        proof {
            lemma_first_index(schema_ids(s0), schema.id@);
            assert(schemas@ == upsert(s0, schema_ids(s0), schema.id@, c));
            match first_index(schema_ids(s0), schema.id@) {
                Some(i) => {
                    assert(schema_ids(schemas@) =~= schema_ids(s0));
                },
                None => {
                    assert(schema_ids(schemas@) =~= schema_ids(s0).push(schema.id@));
                },
            }
        }
        let mut nodes: Vec<(String, Vec<String>)> = Vec::new();
        std::mem::swap(&mut nodes, &mut self.node_to_schemas);
        let mut fields: Vec<(String, (String, String, usize))> = Vec::new();
        std::mem::swap(&mut fields, &mut self.field_map);
        let ghost n0 = node_views(nodes@);
        let ghost f0 = field_views(fields@);
        assert(n0 == old(self).nodes());
        assert(f0 == old(self).fields());
        let mut k: usize = 0;
        assert(schema.nodes@.subrange(0, 0) =~= Seq::<SchemaNode>::empty());
        while k < schema.nodes.len()
            invariant
                k <= schema.nodes@.len(),
                node_views(nodes@) == index_nodes(n0, schema.id@, schema.nodes@.subrange(0, k as int)),
                field_views(fields@) == index_fields(f0, schema.id@, schema.nodes@.subrange(0, k as int)),
                unique_keys(keys_of(node_views(nodes@))),
                unique_keys(keys_of(field_views(fields@))),
            decreases schema.nodes.len() - k,
        {
            assert(schema.nodes@.subrange(0, k + 1).drop_last() =~= schema.nodes@.subrange(0, k as int));
            let node = &schema.nodes[k];
            append_under(&mut nodes, &node.name, &schema.id);
            let ghost fb = field_views(fields@);
            let mut j: usize = 0;
            assert(node.fields@.subrange(0, 0) =~= Seq::<SchemaField>::empty());
            while j < node.fields.len()
                invariant
                    j <= node.fields@.len(),
                    field_views(fields@) == index_node_fields(fb, schema.id@, node.name@, node.fields@.subrange(0, j as int)),
                    unique_keys(keys_of(field_views(fields@))),
                decreases node.fields.len() - j,
            {
                assert(node.fields@.subrange(0, j + 1).drop_last() =~= node.fields@.subrange(0, j as int));
                let mut key = chars_of(node.name.as_str());
                push_all(&mut key, &chars_of("."));
                push_all(&mut key, &chars_of(node.fields[j].name.as_str()));
                put_field(&mut fields, string_of(&key), (schema.id.clone(), node.name.clone(), j));
                j = j + 1;
            }
            assert(node.fields@.subrange(0, node.fields@.len() as int) =~= node.fields@);
            k = k + 1;
        }
        assert(schema.nodes@.subrange(0, schema.nodes@.len() as int) =~= schema.nodes@);
        self.schemas = schemas;
        self.node_to_schemas = nodes;
        self.field_map = fields;
    }
}

/// The names of a list of nodes.
pub open spec fn node_names(nodes: Seq<SchemaNode>) -> Seq<Seq<char>> {
    nodes.map_values(|n: SchemaNode| n.name@)
}

/// The field at a location: in the schema with the id, the first node with the
/// name, at the position.
pub open spec fn field_at(schemas: Seq<UniversalSchema>, loc: FieldLoc) -> Option<SchemaField> {
    match first_index(schema_ids(schemas), loc.0) {
        Some(si) => {
            let nodes = schemas[si].nodes@;
            match first_index(node_names(nodes), loc.1) {
                Some(ni) => if loc.2 < nodes[ni].fields@.len() {
                    Some(nodes[ni].fields@[loc.2 as int])
                } else {
                    None
                },
                None => None,
            }
        },
        None => None,
    }
}

/// The schemas with the given ids, in that order (ids of no schema skipped).
pub open spec fn schemas_by_ids(schemas: Seq<UniversalSchema>, ids: Seq<Seq<char>>) -> Seq<UniversalSchema>
    decreases ids.len(),
{
    if ids.len() == 0 {
        Seq::empty()
    } else {
        schemas_by_ids(schemas, ids.drop_last()) + match first_index(schema_ids(schemas), ids.last()) {
            Some(i) => seq![schemas[i]],
            None => Seq::empty(),
        }
    }
}

/// The fields of a node of the given type, with their qualified names, in order.
pub open spec fn typed_in_node(node: Seq<char>, fields: Seq<SchemaField>, ft: FieldType) -> Seq<(Seq<char>, SchemaField)>
    decreases fields.len(),
{
    if fields.len() == 0 {
        Seq::empty()
    } else {
        typed_in_node(node, fields.drop_last(), ft) + if types_equal(fields.last().field_type, ft) {
            seq![(qualified(node, fields.last().name@), fields.last())]
        } else {
            Seq::empty()
        }
    }
}

/// The fields of the given type of each node.
pub open spec fn typed_in_nodes(nodes: Seq<SchemaNode>, ft: FieldType) -> Seq<(Seq<char>, SchemaField)>
    decreases nodes.len(),
{
    if nodes.len() == 0 {
        Seq::empty()
    } else {
        typed_in_nodes(nodes.drop_last(), ft) + typed_in_node(nodes.last().name@, nodes.last().fields@, ft)
    }
}

/// The fields of the given type of each schema.
pub open spec fn typed_fields(schemas: Seq<UniversalSchema>, ft: FieldType) -> Seq<(Seq<char>, SchemaField)>
    decreases schemas.len(),
{
    if schemas.len() == 0 {
        Seq::empty()
    } else {
        typed_fields(schemas.drop_last(), ft) + typed_in_nodes(schemas.last().nodes@, ft)
    }
}

/// The indexed fields whose lower-case qualified name contains `lp`, in entry order.
pub open spec fn matching_fields(schemas: Seq<UniversalSchema>, fm: Seq<(Seq<char>, FieldLoc)>, lp: Seq<char>) -> Seq<(Seq<char>, SchemaField)>
    decreases fm.len(),
{
    if fm.len() == 0 {
        Seq::empty()
    } else {
        let e = fm.last();
        matching_fields(schemas, fm.drop_last(), lp) + if contains(spec_to_lower(e.0), lp) {
            match field_at(schemas, e.1) {
                Some(f) => seq![(e.0, f)],
                None => Seq::empty(),
            }
        } else {
            Seq::empty()
        }
    }
}

/// Views of named field references.
pub open spec fn named_fields(v: Seq<(String, &SchemaField)>) -> Seq<(Seq<char>, SchemaField)> {
    v.map_values(|p: (String, &SchemaField)| (p.0@, *p.1))
}

impl SchemaIndex {
    fn locate(&self, loc: &(String, String, usize)) -> (r: Option<&SchemaField>)
        ensures
            match field_at(self.schemas(), (loc.0@, loc.1@, loc.2 as nat)) {
                Some(f) => r matches Some(x) && *x == f,
                None => r is None,
            },
    {
        match schema_pos(&self.schemas, loc.0.as_str()) {
            None => None,
            Some(si) => {
                let nodes = &self.schemas[si].nodes;
                let ghost ns = node_names(nodes@);
                let mut ni: usize = 0;
                while ni < nodes.len()
                    invariant
                        ni <= nodes@.len(),
                        ns == node_names(nodes@),
                        forall|j: int| 0 <= j < ni ==> ns[j] != loc.1@,
                        si < self.schemas@.len(),
                        first_index(schema_ids(self.schemas@), loc.0@) == Some(si as int),
                        nodes@ == self.schemas@[si as int].nodes@,
                    decreases nodes.len() - ni,
                {
                    if str_eq(nodes[ni].name.as_str(), loc.1.as_str()) {
                        proof {
                            lemma_first_index_at(ns, loc.1@, ni as int);
                        }
                        if loc.2 < nodes[ni].fields.len() {
                            return Some(&nodes[ni].fields[loc.2]);
                        } else {
                            return None;
                        }
                    }
                    ni = ni + 1;
                }
                proof {
                    lemma_first_index(ns, loc.1@);
                }
                None
            },
        }
    }

    /// Look up a field by qualified name `node.field`.
    pub fn find_field(&self, qualified_name: &str) -> (r: Option<&SchemaField>)
        ensures
            match kv_get(self.fields(), qualified_name@) {
                Some(loc) => match field_at(self.schemas(), loc) {
                    Some(f) => r matches Some(x) && *x == f,
                    None => r is None,
                },
                None => r is None,
            },
    {
        match field_pos(&self.field_map, qualified_name) {
            Some(i) => {
                assert(field_views(self.field_map@) == self.fields());
                self.locate(&self.field_map[i].1)
            },
            None => None,
        }
    }

    /// The schemas that have a node of the given name, in the order they were added.
    pub fn schemas_for_node(&self, node: &str) -> (r: Vec<&UniversalSchema>)
        ensures
            r@.map_values(|x: &UniversalSchema| *x) == match kv_get(self.nodes(), node@) {
                Some(ids) => schemas_by_ids(self.schemas(), ids),
                None => Seq::empty(),
            },
    {
        let mut out: Vec<&UniversalSchema> = Vec::new();
        match node_pos(&self.node_to_schemas, node) {
            None => {
                assert(out@.map_values(|x: &UniversalSchema| *x) =~= Seq::<UniversalSchema>::empty());
                out
            },
            Some(i) => {
                let ids = &self.node_to_schemas[i].1;
                let ghost iv = string_views(ids@);
                assert(node_views(self.node_to_schemas@) == self.nodes());
                assert(kv_get(self.nodes(), node@) == Some(iv));
                let mut k: usize = 0;
                assert(iv.subrange(0, 0) =~= Seq::<Seq<char>>::empty());
                assert(out@.map_values(|x: &UniversalSchema| *x) =~= Seq::<UniversalSchema>::empty());
                while k < ids.len()
                    invariant
                        k <= ids@.len(),
                        iv == string_views(ids@),
                        out@.map_values(|x: &UniversalSchema| *x) == schemas_by_ids(self.schemas(), iv.subrange(0, k as int)),
                    decreases ids.len() - k,
                {
                    assert(iv.subrange(0, k + 1).drop_last() =~= iv.subrange(0, k as int));
                    assert(iv[k as int] == ids@[k as int]@);
                    let ghost o0 = out@;
                    match schema_pos(&self.schemas, ids[k].as_str()) {
                        Some(si) => {
                            out.push(&self.schemas[si]);
                            assert(out@.map_values(|x: &UniversalSchema| *x) =~= o0.map_values(|x: &UniversalSchema| *x).push(self.schemas@[si as int]));
                        },
                        None => {},
                    }
                    k = k + 1;
                }
                assert(iv.subrange(0, iv.len() as int) =~= iv);
                out
            },
        }
    }

    /// The fields of the given type across all schemas, with their qualified names.
    pub fn fields_of_type(&self, field_type: &FieldType) -> (r: Vec<(String, &SchemaField)>)
        ensures
            named_fields(r@) == typed_fields(self.schemas(), *field_type),
    {
        let ghost sv = self.schemas@;
        let mut out: Vec<(String, &SchemaField)> = Vec::new();
        let mut k: usize = 0;
        assert(sv.subrange(0, 0) =~= Seq::<UniversalSchema>::empty());
        assert(named_fields(out@) =~= Seq::<(Seq<char>, SchemaField)>::empty());
        while k < self.schemas.len()
            invariant
                k <= sv.len(),
                sv == self.schemas@,
                named_fields(out@) == typed_fields(sv.subrange(0, k as int), *field_type),
            decreases self.schemas.len() - k,
        {
            assert(sv.subrange(0, k + 1).drop_last() =~= sv.subrange(0, k as int));
            let nodes = &self.schemas[k].nodes;
            let ghost b0 = named_fields(out@);
            let mut n: usize = 0;
            assert(nodes@.subrange(0, 0) =~= Seq::<SchemaNode>::empty());
            assert(b0 =~= b0 + typed_in_nodes(nodes@.subrange(0, 0), *field_type));
            while n < nodes.len()
                invariant
                    n <= nodes@.len(),
                    named_fields(out@) == b0 + typed_in_nodes(nodes@.subrange(0, n as int), *field_type),
                decreases nodes.len() - n,
            {
                assert(nodes@.subrange(0, n + 1).drop_last() =~= nodes@.subrange(0, n as int));
                let node = &nodes[n];
                let ghost b1 = named_fields(out@);
                let mut f: usize = 0;
                assert(node.fields@.subrange(0, 0) =~= Seq::<SchemaField>::empty());
                assert(b1 =~= b1 + typed_in_node(node.name@, node.fields@.subrange(0, 0), *field_type));
                while f < node.fields.len()
                    invariant
                        f <= node.fields@.len(),
                        named_fields(out@) == b1 + typed_in_node(node.name@, node.fields@.subrange(0, f as int), *field_type),
                    decreases node.fields.len() - f,
                {
                    assert(node.fields@.subrange(0, f + 1).drop_last() =~= node.fields@.subrange(0, f as int));
                    let field = &node.fields[f];
                    if same_type(&field.field_type, field_type) {
                        let mut key = chars_of(node.name.as_str());
                        push_all(&mut key, &chars_of("."));
                        push_all(&mut key, &chars_of(field.name.as_str()));
                        let ghost o0 = out@;
                        out.push((string_of(&key), field));
                        assert(named_fields(out@) =~= named_fields(o0).push((qualified(node.name@, field.name@), *field)));
                    }
                    assert(named_fields(out@) =~= b1 + typed_in_node(node.name@, node.fields@.subrange(0, f + 1), *field_type));
                    f = f + 1;
                }
                assert(node.fields@.subrange(0, node.fields@.len() as int) =~= node.fields@);
                assert(named_fields(out@) =~= b0 + typed_in_nodes(nodes@.subrange(0, n + 1), *field_type));
                n = n + 1;
            }
            assert(nodes@.subrange(0, nodes@.len() as int) =~= nodes@);
            assert(named_fields(out@) =~= typed_fields(sv.subrange(0, k + 1), *field_type));
            k = k + 1;
        }
        assert(sv.subrange(0, sv.len() as int) =~= sv);
        out
    }

    /// Number of indexed fields.
    pub fn field_count(&self) -> (r: usize)
        ensures
            r == self.fields().len(),
    {
        self.field_map.len()
    }

    /// Number of indexed schemas.
    pub fn schema_count(&self) -> (r: usize)
        ensures
            r == self.schemas().len(),
    {
        self.schemas.len()
    }

    /// The indexed fields whose qualified name contains the pattern, ignoring case,
    /// with their names.
    pub fn search_fields(&self, pattern: &str) -> (r: Vec<(String, &SchemaField)>)
        ensures
            named_fields(r@) == matching_fields(self.schemas(), self.fields(), spec_to_lower(pattern@)),
    {
        let lp = to_lower(&chars_of(pattern));
        let ghost fm = self.fields();
        let mut out: Vec<(String, &SchemaField)> = Vec::new();
        let mut i: usize = 0;
        assert(fm.subrange(0, 0) =~= Seq::<(Seq<char>, FieldLoc)>::empty());
        assert(named_fields(out@) =~= Seq::<(Seq<char>, SchemaField)>::empty());
        while i < self.field_map.len()
            invariant
                i <= fm.len(),
                fm == self.fields(),
                fm == field_views(self.field_map@),
                lp@ == spec_to_lower(pattern@),
                named_fields(out@) == matching_fields(self.schemas(), fm.subrange(0, i as int), lp@),
            decreases self.field_map.len() - i,
        {
            assert(fm.subrange(0, i + 1).drop_last() =~= fm.subrange(0, i as int));
            let e = &self.field_map[i];
            assert(fm[i as int] == field_entry_view(*e));
            let kl = to_lower(&chars_of(e.0.as_str()));
            if contains_exec(&kl, &lp) {
                match self.locate(&e.1) {
                    Some(f) => {
                        let ghost o0 = out@;
                        out.push((e.0.clone(), f));
                        assert(named_fields(out@) =~= named_fields(o0).push((e.0@, *f)));
                    },
                    None => {},
                }
            }
            assert(named_fields(out@) =~= matching_fields(self.schemas(), fm.subrange(0, i + 1), lp@));
            i = i + 1;
        }
        assert(fm.subrange(0, fm.len() as int) =~= fm);
        out
    }
}

impl Default for SchemaIndex {
    fn default() -> (r: SchemaIndex)
        ensures
            r.schemas().len() == 0,
            r.fields().len() == 0,
            r.nodes().len() == 0,
    {
        SchemaIndex::new()
    }
}

} // verus!
