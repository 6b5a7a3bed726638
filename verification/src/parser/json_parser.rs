//! JSON and JSON Lines parsers: objects become records, their keys the schema.
use vstd::prelude::*;
use vstd::string::StringExecFns;
use crate::text::{unique_keys, string_views, chars_of, string_of, trim, trim_exec, lines, lines_exec, views, decimal, decimal_exec, push_all, str_eq};
use crate::types::error::{AdatError, AdatResult};
use crate::types::json::{JsonValue, JsonView, json_get, element_views, member_views, lemma_element_views, lemma_member_views};
use crate::types::json_io::{spec_parse_json, parse_json_text, spec_json_text, json_text};
use crate::types::record::{DataRecord, FieldMap};
use crate::types::schema::{FieldType, SchemaField, SchemaNode, UniversalSchema};
use super::{ParseResult, fields_of, record_is};
use super::xml_parser::add_key;

verus! {

/// The kind of a JSON value, as type inference counts it.
#[derive(PartialEq, Eq, Structural, Clone, Copy)]
pub enum JsonKind {
    Bool,
    Int,
    Float,
    Str,
    Arr,
    Obj,
}

/// The kind of a non-null value (`None` for null): numbers that fit in `i64` are
/// integers, other numbers floating-point.
pub open spec fn kind_of(v: JsonView) -> Option<JsonKind> {
    match v {
        JsonView::Null => None,
        JsonView::Bool(_) => Some(JsonKind::Bool),
        JsonView::Int(_) => Some(JsonKind::Int),
        JsonView::UInt(_) => Some(JsonKind::Float),
        JsonView::Float(_) => Some(JsonKind::Float),
        JsonView::Str(_) => Some(JsonKind::Str),
        JsonView::Array(_) => Some(JsonKind::Arr),
        JsonView::Object(_) => Some(JsonKind::Obj),
    }
}

/// The kinds of the non-null values of `key` in the values, in order.
pub open spec fn kinds_of(values: Seq<JsonView>, key: Seq<char>) -> Seq<JsonKind>
    decreases values.len(),
{
    if values.len() == 0 {
        Seq::empty()
    } else {
        kinds_of(values.drop_last(), key) + match json_get(values.last(), key) {
            Some(f) => match kind_of(f) {
                Some(k) => seq![k],
                None => Seq::empty(),
            },
            None => Seq::empty(),
        }
    }
}

/// How often a kind occurs.
pub open spec fn kind_count(ks: Seq<JsonKind>, k: JsonKind) -> nat
    decreases ks.len(),
{
    if ks.len() == 0 {
        0
    } else {
        kind_count(ks.drop_last(), k) + if ks.last() == k {
            1nat
        } else {
            0nat
        }
    }
}

/// The most common kind among the first `n`: on a tie the later one
/// (`Iterator::max_by_key`).
pub open spec fn most_common_upto(ks: Seq<JsonKind>, n: int) -> JsonKind
    decreases n,
{
    if n <= 1 {
        ks[0]
    } else {
        let best = most_common_upto(ks, n - 1);
        if kind_count(ks, ks[n - 1]) >= kind_count(ks, best) {
            ks[n - 1]
        } else {
            best
        }
    }
}

/// The field type inferred for `key`: `Null` when it holds no non-null value, else
/// the type of its most common kind.
pub open spec fn inferred_kind(values: Seq<JsonView>, key: Seq<char>) -> Option<JsonKind> {
    let ks = kinds_of(values, key);
    if ks.len() == 0 {
        None
    } else {
        Some(most_common_upto(ks, ks.len() as int))
    }
}

/// The field type stands for the inferred kind (a nested object is an empty schema
/// named `nested`).
pub open spec fn type_for_kind(t: FieldType, k: Option<JsonKind>) -> bool {
    match k {
        None => t == FieldType::Null,
        Some(JsonKind::Bool) => t == FieldType::Boolean,
        Some(JsonKind::Int) => t == FieldType::Integer,
        Some(JsonKind::Float) => t == FieldType::Float,
        Some(JsonKind::Str) => t == FieldType::Text,
        Some(JsonKind::Arr) => t == FieldType::Array(Box::new(FieldType::Unknown)),
        Some(JsonKind::Obj) => t matches FieldType::Object(s) && s.name@ == "nested"@ && s.nodes@.len()
            == 0 && s.edges@.len() == 0 && s.version == 1,
    }
}

fn kind_of_exec(v: &JsonValue) -> (r: Option<JsonKind>)
    ensures
        r == kind_of(v@),
{
    match v {
        JsonValue::Null => None,
        JsonValue::Bool(_) => Some(JsonKind::Bool),
        JsonValue::Int(_) => Some(JsonKind::Int),
        JsonValue::UInt(_) => Some(JsonKind::Float),
        JsonValue::Float(_) => Some(JsonKind::Float),
        JsonValue::Str(_) => Some(JsonKind::Str),
        JsonValue::Array(_) => Some(JsonKind::Arr),
        JsonValue::Object(_) => Some(JsonKind::Obj),
    }
}

fn kind_count_exec(ks: &Vec<JsonKind>, k: JsonKind) -> (r: usize)
    ensures
        r == kind_count(ks@, k),
{
    let mut c: usize = 0;
    let mut i: usize = 0;
    while i < ks.len()
        invariant
            i <= ks@.len(),
            c <= i,
            c == kind_count(ks@.subrange(0, i as int), k),
        decreases ks.len() - i,
    {
        assert(ks@.subrange(0, i + 1).drop_last() =~= ks@.subrange(0, i as int));
        if ks[i] == k {
            c = c + 1;
        }
        i = i + 1;
    }
    assert(ks@.subrange(0, ks@.len() as int) =~= ks@);
    c
}

/// Infer the type of a JSON field across several values: the type of the most common
/// kind of its non-null values.
pub fn infer_json_type(values: &Vec<JsonValue>, key: &str) -> (r: FieldType)
    ensures
        type_for_kind(r, inferred_kind(element_views(values@), key@)),
{
    proof {
        lemma_element_views(values@);
    }
    let ghost vs = element_views(values@);
    let mut ks: Vec<JsonKind> = Vec::new();
    let mut i: usize = 0;
    while i < values.len()
        invariant
            i <= values@.len(),
            vs == element_views(values@),
            vs.len() == values@.len(),
            forall|j: int| 0 <= j < vs.len() ==> #[trigger] vs[j] == values@[j]@,
            ks@ == kinds_of(vs.subrange(0, i as int), key@),
        decreases values.len() - i,
    {
        assert(vs.subrange(0, i + 1).drop_last() =~= vs.subrange(0, i as int));
        assert(vs[i as int] == values@[i as int]@);
        match values[i].get(key) {
            Some(f) => match kind_of_exec(f) {
                Some(k) => {
                    ks.push(k);
                },
                None => {},
            },
            None => {},
        }
        assert(ks@ =~= kinds_of(vs.subrange(0, i + 1), key@));
        i = i + 1;
    }
    assert(vs.subrange(0, vs.len() as int) =~= vs);
    if ks.len() == 0 {
        return FieldType::Null;
    }
    let mut best = ks[0];
    let mut best_count = kind_count_exec(&ks, best);
    let mut n: usize = 1;
    while n < ks.len()
        invariant
            1 <= n <= ks@.len(),
            best == most_common_upto(ks@, n as int),
            best_count == kind_count(ks@, best),
        decreases ks.len() - n,
    {
        let c = kind_count_exec(&ks, ks[n]);
        if c >= best_count {
            best = ks[n];
            best_count = c;
        }
        n = n + 1;
    }
    match best {
        JsonKind::Bool => FieldType::Boolean,
        JsonKind::Int => FieldType::Integer,
        JsonKind::Float => FieldType::Float,
        JsonKind::Str => FieldType::Text,
        JsonKind::Arr => FieldType::Array(Box::new(FieldType::Unknown)),
        JsonKind::Obj => FieldType::Object(Box::new(UniversalSchema::new("nested"))),
    }
}

/// The keys of the objects among the values, each once, in the order first seen.
pub open spec fn object_keys(values: Seq<JsonView>) -> Seq<Seq<char>>
    decreases values.len(),
{
    if values.len() == 0 {
        Seq::empty()
    } else {
        match values.last() {
            JsonView::Object(ms) => keys_added(object_keys(values.drop_last()), ms),
            _ => object_keys(values.drop_last()),
        }
    }
}

/// The key list with the members' keys added, in order.
pub open spec fn keys_added(keys: Seq<Seq<char>>, ms: Seq<(Seq<char>, JsonView)>) -> Seq<Seq<char>>
    decreases ms.len(),
{
    if ms.len() == 0 {
        keys
    } else {
        add_key(keys_added(keys, ms.drop_last()), ms.last().0)
    }
}

/// The sample texts of `key`: the JSON texts of its values in the objects, in order.
pub open spec fn key_texts(values: Seq<JsonView>, key: Seq<char>) -> Seq<Seq<char>>
    decreases values.len(),
{
    if values.len() == 0 {
        Seq::empty()
    } else {
        key_texts(values.drop_last(), key) + match values.last() {
            JsonView::Object(ms) => member_texts(ms, key),
            _ => Seq::empty(),
        }
    }
}

/// The JSON texts of the members named `key`, in order.
pub open spec fn member_texts(ms: Seq<(Seq<char>, JsonView)>, key: Seq<char>) -> Seq<Seq<char>>
    decreases ms.len(),
{
    if ms.len() == 0 {
        Seq::empty()
    } else {
        member_texts(ms.drop_last(), key) + if ms.last().0 == key {
            seq![spec_json_text(ms.last().1)]
        } else {
            Seq::empty()
        }
    }
}

/// At most the first five.
pub open spec fn first_five(s: Seq<Seq<char>>) -> Seq<Seq<char>> {
    if s.len() <= 5 {
        s
    } else {
        s.subrange(0, 5)
    }
}

/// The object values among the values.
pub open spec fn object_members(values: Seq<JsonView>) -> Seq<Seq<(Seq<char>, JsonView)>>
    decreases values.len(),
{
    if values.len() == 0 {
        Seq::empty()
    } else {
        object_members(values.drop_last()) + match values.last() {
            JsonView::Object(ms) => seq![ms],
            _ => Seq::empty(),
        }
    }
}

/// Number of values that are not objects.
pub open spec fn non_objects(values: Seq<JsonView>) -> nat
    decreases values.len(),
{
    if values.len() == 0 {
        0
    } else {
        non_objects(values.drop_last()) + match values.last() {
            JsonView::Object(_) => 0nat,
            _ => 1nat,
        }
    }
}

/// The result of parsing an array of values: a record (named after the source) per
/// object, a count of the other values, and a schema field per key with its inferred
/// type, confidence 900 and up to five sample texts.
pub open spec fn array_result(p: ParseResult, values: Seq<JsonView>, source: Seq<char>) -> bool {
    let objs = object_members(values);
    let keys = object_keys(values);
    &&& p.records@.len() == objs.len()
    &&& forall|i: int|
        0 <= i < objs.len() ==> record_is(#[trigger] p.records@[i], source, source, fields_of(objs[i]))
    &&& p.errors == non_objects(values)
    &&& p.schema.name@ == source
    &&& p.schema.version == 1
    &&& p.schema.edges@.len() == 0
    &&& p.schema.nodes@.len() == 1
    &&& p.schema.nodes@[0].name@ == source
    &&& p.schema.nodes@[0].source@ == source
    &&& p.schema.nodes@[0].record_count == Some(objs.len() as u64)
    &&& p.schema.nodes@[0].fields@.len() == keys.len()
    &&& forall|i: int|
        0 <= i < keys.len() ==> {
            let f = #[trigger] p.schema.nodes@[0].fields@[i];
            &&& f.name@ == keys[i]
            &&& type_for_kind(f.field_type, inferred_kind(values, keys[i]))
            &&& !f.nullable
            &&& f.description is None
            &&& f.confidence == 900
            &&& string_views(f.sample_values@) == first_five(key_texts(values, keys[i]))
            &&& f.stats is None
        }
}

proof fn lemma_keys_added_unique(keys: Seq<Seq<char>>, ms: Seq<(Seq<char>, JsonView)>)
    requires
        unique_keys(keys),
    ensures
        unique_keys(keys_added(keys, ms)),
    decreases ms.len(),
{
    if ms.len() > 0 {
        lemma_keys_added_unique(keys, ms.drop_last());
    }
}

proof fn lemma_object_keys_unique(values: Seq<JsonView>)
    ensures
        unique_keys(object_keys(values)),
    decreases values.len(),
{
    if values.len() > 0 {
        lemma_object_keys_unique(values.drop_last());
        match values.last() {
            JsonView::Object(ms) => {
                lemma_keys_added_unique(object_keys(values.drop_last()), ms);
            },
            _ => {},
        }
    }
}

/// Keeping the first five samples: one more sample is kept exactly while fewer
/// than five are.
pub proof fn lemma_first_five_push(s: Seq<Seq<char>>, x: Seq<char>)
    ensures
        first_five(s.push(x)) == (if s.len() < 5 {
            first_five(s).push(x)
        } else {
            first_five(s)
        }),
{
    if s.len() >= 5 {
        assert(s.push(x).subrange(0, 5) =~= s.subrange(0, 5));
    }
}

proof fn lemma_keys_added_grow(keys: Seq<Seq<char>>, ms: Seq<(Seq<char>, JsonView)>, k: Seq<char>)
    ensures
        keys.contains(k) ==> keys_added(keys, ms).contains(k),
        !keys_added(keys, ms).contains(k) ==> member_texts(ms, k) == Seq::<Seq<char>>::empty(),
    decreases ms.len(),
{
    if ms.len() > 0 {
        lemma_keys_added_grow(keys, ms.drop_last(), k);
        let ka = keys_added(keys, ms.drop_last());
        if ka.contains(k) {
            let j = choose|j: int| 0 <= j < ka.len() && ka[j] == k;
            assert(add_key(ka, ms.last().0)[j] == k);
        }
        if ms.last().0 == k {
            assert(add_key(ka, k).contains(k)) by {
                if !ka.contains(k) {
                    assert(ka.push(k)[ka.len() as int] == k);
                }
            }
        }
    }
}

proof fn lemma_new_key_no_texts(values: Seq<JsonView>, k: Seq<char>)
    ensures
        !object_keys(values).contains(k) ==> key_texts(values, k) == Seq::<Seq<char>>::empty(),
    decreases values.len(),
{
    if values.len() > 0 {
        lemma_new_key_no_texts(values.drop_last(), k);
        match values.last() {
            JsonView::Object(ms) => {
                lemma_keys_added_grow(object_keys(values.drop_last()), ms, k);
            },
            _ => {},
        }
    }
}

/// Position of a key in the list.
fn key_pos(keys: &Vec<String>, k: &String) -> (r: Option<usize>)
    ensures
        r matches Some(j) ==> j < keys@.len() && keys@[j as int]@ == k@,
        r is None ==> !string_views(keys@).contains(k@),
{
    let mut i: usize = 0;
    while i < keys.len()
        invariant
            i <= keys@.len(),
            forall|j: int| 0 <= j < i ==> keys@[j]@ != k@,
        decreases keys.len() - i,
    {
        if str_eq(keys[i].as_str(), k.as_str()) {
            return Some(i);
        }
        i = i + 1;
    }
    proof {
        if string_views(keys@).contains(k@) {
            let j = choose|j: int| 0 <= j < keys@.len() && string_views(keys@)[j] == k@;
            assert(keys@[j]@ == k@);
        }
    }
    None
}

/// The keys, samples and field map after reading the members of one object.
fn scan_object(
    ms: &Vec<(String, JsonValue)>,
    keys: &mut Vec<String>,
    samples: &mut Vec<Vec<String>>,
    Ghost(prev): Ghost<Seq<JsonView>>,
) -> (r: FieldMap)
    requires
        string_views(old(keys)@) == object_keys(prev),
        old(samples)@.len() == old(keys)@.len(),
        forall|j: int|
            0 <= j < old(keys)@.len() ==> string_views((#[trigger] old(samples)@[j])@)
                == first_five(key_texts(prev, old(keys)@[j]@)),
    ensures
        string_views(final(keys)@) == keys_added(object_keys(prev), member_views(ms@)),
        final(samples)@.len() == final(keys)@.len(),
        forall|j: int|
            0 <= j < final(keys)@.len() ==> string_views((#[trigger] final(samples)@[j])@) == first_five(
                key_texts(prev, final(keys)@[j]@) + member_texts(member_views(ms@), final(keys)@[j]@),
            ),
        r@ == fields_of(member_views(ms@)),
{
    proof {
        lemma_member_views(ms@);
    }
    let ghost mv = member_views(ms@);
    let mut fields = FieldMap::new();
    let mut m: usize = 0;
    proof {
        lemma_object_keys_unique(prev);
    }
    assert(mv.subrange(0, 0) =~= Seq::<(Seq<char>, JsonView)>::empty());
    assert forall|j: int| 0 <= j < keys@.len() implies key_texts(prev, keys@[j]@) + member_texts(mv.subrange(0, 0), keys@[j]@) =~= key_texts(prev, keys@[j]@) by {}
    while m < ms.len()
        invariant
            m <= ms@.len(),
            mv == member_views(ms@),
            mv.len() == ms@.len(),
            forall|j: int| 0 <= j < mv.len() ==> #[trigger] mv[j] == (ms@[j].0@, ms@[j].1@),
            string_views(keys@) == keys_added(object_keys(prev), mv.subrange(0, m as int)),
            samples@.len() == keys@.len(),
            unique_keys(string_views(keys@)),
            forall|j: int|
                0 <= j < keys@.len() ==> string_views((#[trigger] samples@[j])@)
                    == first_five(key_texts(prev, keys@[j]@) + member_texts(mv.subrange(0, m as int), keys@[j]@)),
            fields@ == fields_of(mv.subrange(0, m as int)),
        decreases ms.len() - m,
    {
        let ghost sub = mv.subrange(0, m as int);
        let ghost sub1 = mv.subrange(0, m + 1);
        assert(sub1.drop_last() =~= sub);
        assert(sub1.last() == mv[m as int]);
        let k = &ms[m].0;
        let v = &ms[m].1;
        let ghost kv = string_views(keys@);
        let idx = match key_pos(keys, k) {
            Some(j) => {
                assert(kv[j as int] == k@);
                j
            },
            None => {
                proof {
                    lemma_new_key_no_texts(prev, k@);
                    lemma_keys_added_grow(object_keys(prev), sub, k@);
                    if object_keys(prev).contains(k@) {
                    }
                }
                keys.push(k.clone());
                samples.push(Vec::new());
                assert(string_views(keys@) =~= kv.push(k@));
                proof {
                    let n = (keys@.len() - 1) as int;
                    assert(string_views(samples@[n]@) =~= Seq::<Seq<char>>::empty());
                    assert(key_texts(prev, k@) + member_texts(sub, k@) =~= Seq::<Seq<char>>::empty());
                }
                keys.len() - 1
            },
        };
        let t = json_text(v);
        let ghost s0 = samples@;
        if samples[idx].len() < 5 {
            let mut list = samples.remove(idx);
            list.push(t);
            samples.insert(idx, list);
        }
        proof {
            assert forall|j: int| 0 <= j < keys@.len() implies string_views((#[trigger] samples@[j])@) == first_five(key_texts(prev, keys@[j]@) + member_texts(sub1, keys@[j]@)) by {
                let kj = keys@[j]@;
                let base = key_texts(prev, kj) + member_texts(sub, kj);
                if kj == k@ {
                    assert(member_texts(sub1, kj) =~= member_texts(sub, kj).push(spec_json_text(v@)));
                    assert(key_texts(prev, kj) + member_texts(sub1, kj) =~= base.push(spec_json_text(v@)));
                    lemma_first_five_push(base, spec_json_text(v@));
                    assert(j == idx) by {
                        let kvs = string_views(keys@);
                        assert(kvs[j] == kj);
                        assert(kvs[idx as int] == k@);
                    }
                    if s0[idx as int]@.len() < 5 {
                        assert(samples@[idx as int]@ =~= s0[idx as int]@.push(t));
                        assert(string_views(samples@[idx as int]@) =~= string_views(s0[idx as int]@).push(t@));
                    }
                } else {
                    assert(member_texts(sub1, kj) =~= member_texts(sub, kj));
                    assert(samples@[j] == s0[j]);
                }
            }
        }
        proof {
            lemma_object_keys_unique(prev);
            lemma_keys_added_unique(object_keys(prev), sub1);
        }
        fields.insert(k.clone(), v.deep_clone());
        m = m + 1;
    }
    assert(mv.subrange(0, mv.len() as int) =~= mv);
    fields
}

/// A copy of a list of strings.
pub fn copy_strings(v: &Vec<String>) -> (r: Vec<String>)
    ensures
        string_views(r@) == string_views(v@),
{
    let mut out: Vec<String> = Vec::new();
    let mut i: usize = 0;
    while i < v.len()
        invariant
            i <= v@.len(),
            out@.len() == i,
            forall|k: int| 0 <= k < i ==> #[trigger] out@[k]@ == v@[k]@,
        decreases v.len() - i,
    {
        out.push(v[i].clone());
        i = i + 1;
    }
    assert(string_views(out@) =~= string_views(v@));
    out
}

proof fn lemma_non_objects_bound(values: Seq<JsonView>)
    ensures
        non_objects(values) <= values.len(),
    decreases values.len(),
{
    if values.len() > 0 {
        lemma_non_objects_bound(values.drop_last());
    }
}

/// Parse an array of JSON values: each object becomes a record of the source, each
/// other value counts as an error, and the schema gets one field per key, with the
/// inferred type and the first five sample texts.
pub fn parse_array(values: &Vec<JsonValue>, source_name: &str) -> (r: ParseResult)
    ensures
        array_result(r, element_views(values@), source_name@),
        r.warnings@.len() == 0,
{
    proof {
        lemma_element_views(values@);
    }
    let ghost vs = element_views(values@);
    let mut records: Vec<DataRecord> = Vec::new();
    let mut keys: Vec<String> = Vec::new();
    let mut samples: Vec<Vec<String>> = Vec::new();
    let mut errors: usize = 0;
    let mut i: usize = 0;
    assert(vs.subrange(0, 0) =~= Seq::<JsonView>::empty());
    while i < values.len()
        invariant
            i <= values@.len(),
            vs == element_views(values@),
            vs.len() == values@.len(),
            forall|j: int| 0 <= j < vs.len() ==> #[trigger] vs[j] == values@[j]@,
            records@.len() == object_members(vs.subrange(0, i as int)).len(),
            forall|k: int|
                0 <= k < records@.len() ==> record_is(
                    #[trigger] records@[k],
                    source_name@,
                    source_name@,
                    fields_of(object_members(vs.subrange(0, i as int))[k]),
                ),
            errors == non_objects(vs.subrange(0, i as int)),
            string_views(keys@) == object_keys(vs.subrange(0, i as int)),
            samples@.len() == keys@.len(),
            forall|j: int|
                0 <= j < keys@.len() ==> string_views((#[trigger] samples@[j])@) == first_five(
                    key_texts(vs.subrange(0, i as int), keys@[j]@),
                ),
        decreases values.len() - i,
    {
        let ghost sub = vs.subrange(0, i as int);
        let ghost sub1 = vs.subrange(0, i + 1);
        assert(sub1.drop_last() =~= sub);
        assert(sub1.last() == values@[i as int]@);
        match &values[i] {
            JsonValue::Object(ms) => {
                let fields = scan_object(ms, &mut keys, &mut samples, Ghost(sub));
                let rec = DataRecord::new(source_name, source_name, fields);
                let ghost r0 = records@;
                records.push(rec);
                proof {
                    let mv = member_views(ms@);
                    assert(object_members(sub1) =~= object_members(sub).push(mv));
                    assert forall|k: int| 0 <= k < records@.len() implies record_is(
                        #[trigger] records@[k],
                        source_name@,
                        source_name@,
                        fields_of(object_members(sub1)[k]),
                    ) by {
                        if k < r0.len() {
                            assert(records@[k] == r0[k]);
                        }
                    }
                    assert forall|j: int| 0 <= j < keys@.len() implies string_views(
                        (#[trigger] samples@[j])@,
                    ) == first_five(key_texts(sub1, keys@[j]@)) by {
                        assert(key_texts(sub1, keys@[j]@) == key_texts(sub, keys@[j]@) + member_texts(
                            mv,
                            keys@[j]@,
                        ));
                    }
                }
            },
            _ => {
                proof {
                    lemma_non_objects_bound(sub);
                    assert(object_members(sub1) =~= object_members(sub));
                    assert forall|j: int| 0 <= j < keys@.len() implies string_views(
                        (#[trigger] samples@[j])@,
                    ) == first_five(key_texts(sub1, keys@[j]@)) by {
                        assert(key_texts(sub1, keys@[j]@) =~= key_texts(sub, keys@[j]@));
                    }
                }
                errors = errors + 1;
            },
        }
        i = i + 1;
    }
    assert(vs.subrange(0, vs.len() as int) =~= vs);
    let ghost okeys = object_keys(vs);
    let mut fields: Vec<SchemaField> = Vec::new();
    let mut j: usize = 0;
    while j < keys.len()
        invariant
            j <= keys@.len(),
            vs == element_views(values@),
            string_views(keys@) == okeys,
            okeys == object_keys(vs),
            samples@.len() == keys@.len(),
            forall|k: int|
                0 <= k < keys@.len() ==> string_views((#[trigger] samples@[k])@) == first_five(
                    key_texts(vs, keys@[k]@),
                ),
            fields@.len() == j,
            forall|k: int|
                0 <= k < j ==> {
                    let f = #[trigger] fields@[k];
                    &&& f.name@ == okeys[k]
                    &&& type_for_kind(f.field_type, inferred_kind(vs, okeys[k]))
                    &&& !f.nullable
                    &&& f.description is None
                    &&& f.confidence == 900
                    &&& string_views(f.sample_values@) == first_five(key_texts(vs, okeys[k]))
                    &&& f.stats is None
                },
        decreases keys.len() - j,
    {
        assert(string_views(keys@)[j as int] == keys@[j as int]@);
        let t = infer_json_type(values, keys[j].as_str());
        let f = SchemaField {
            name: keys[j].clone(),
            field_type: t,
            nullable: false,
            description: None,
            confidence: 900,
            sample_values: copy_strings(&samples[j]),
            stats: None,
        };
        fields.push(f);
        j = j + 1;
    }
    let count = records.len() as u64;
    let schema = super::single_node(source_name, source_name, fields, count);
    ParseResult { schema, records, errors, warnings: Vec::new() }
}

/// What a parsed JSON value gives: an array its elements, an object itself; any
/// other value is refused.
pub open spec fn value_result(r: AdatResult<ParseResult>, v: JsonView, source: Seq<char>) -> bool {
    match v {
        JsonView::Array(vs) => r matches Ok(p) && array_result(p, vs, source) && p.warnings@.len()
            == 0,
        JsonView::Object(ms) => r matches Ok(p) && array_result(p, seq![v], source)
            && p.warnings@.len() == 0,
        _ => r matches Err(AdatError::Parse(m)) && m@ == "JSON must be an object or array"@,
    }
}

/// Parse a JSON value that has been read: an array of values or a single object.
pub fn parse_value(value: JsonValue, source_name: &str) -> (r: AdatResult<ParseResult>)
    ensures
        value_result(r, value@, source_name@),
{
    match value {
        JsonValue::Array(arr) => Ok(parse_array(&arr, source_name)),
        JsonValue::Object(ms) => {
            let one = vec![JsonValue::Object(ms)];
            proof {
                lemma_element_views(one@);
                assert(element_views(one@) =~= seq![one@[0]@]);
            }
            Ok(parse_array(&one, source_name))
        },
        _ => Err(AdatError::Parse("JSON must be an object or array".to_owned())),
    }
}

/// What parsing JSON data gives.
pub open spec fn json_outcome(r: AdatResult<ParseResult>, data: Seq<char>, source: Seq<char>) -> bool {
    &&& (match spec_parse_json(data) {
            Ok(v) => value_result(r, v, source),
            Err(e) => r matches Err(AdatError::Parse(m)) && m@ == "Invalid JSON: "@ + e,
        })
}

/// Parse JSON data (an object or an array of objects): text that serde_json refuses
/// is a `Parse` error with its message.
pub fn parse(data: &str, source_name: &str) -> (r: AdatResult<ParseResult>)
    ensures
        json_outcome(r, data@, source_name@),
{
    match parse_json_text(data) {
        Ok(v) => parse_value(v, source_name),
        Err(e) => {
            let mut m = "Invalid JSON: ".to_owned();
            m.append(e.as_str());
            Err(AdatError::Parse(m))
        },
    }
}

/// The value a JSON Lines line holds: `None` for a blank line or one that does not
/// parse.
pub open spec fn line_value(l: Seq<char>) -> Option<JsonView> {
    let t = trim(l);
    if t.len() == 0 {
        None
    } else {
        match spec_parse_json(t) {
            Ok(v) => Some(v),
            Err(_) => None,
        }
    }
}

/// The parse error of a JSON Lines line, if it is not blank and does not parse.
pub open spec fn line_error(l: Seq<char>) -> Option<Seq<char>> {
    let t = trim(l);
    if t.len() == 0 {
        None
    } else {
        match spec_parse_json(t) {
            Ok(_) => None,
            Err(e) => Some(e),
        }
    }
}

/// The values of the lines, in order.
pub open spec fn lines_values(ls: Seq<Seq<char>>) -> Seq<JsonView>
    decreases ls.len(),
{
    if ls.len() == 0 {
        Seq::empty()
    } else {
        lines_values(ls.drop_last()) + match line_value(ls.last()) {
            Some(v) => seq![v],
            None => Seq::empty(),
        }
    }
}

/// A warning `Line {n}: {error}` for each line that does not parse (lines counted
/// from 1).
pub open spec fn lines_warnings(ls: Seq<Seq<char>>) -> Seq<Seq<char>>
    decreases ls.len(),
{
    if ls.len() == 0 {
        Seq::empty()
    } else {
        lines_warnings(ls.drop_last()) + match line_error(ls.last()) {
            Some(e) => seq!["Line "@ + decimal(ls.len()) + ": "@ + e],
            None => Seq::empty(),
        }
    }
}

/// What parsing JSON Lines data gives.
pub open spec fn json_lines_outcome(r: AdatResult<ParseResult>, data: Seq<char>, source: Seq<char>) -> bool {
    &&& (r matches Ok(p) && array_result(p, lines_values(lines(data)), source)
            && string_views(p.warnings@) == lines_warnings(lines(data)))
}

/// Parse JSON Lines: one JSON value per line. Blank lines are skipped, a line that
/// does not parse gives a warning, and the values are then parsed as an array.
pub fn parse_lines(data: &str, source_name: &str) -> (r: AdatResult<ParseResult>)
    ensures
        json_lines_outcome(r, data@, source_name@),
{
    let ls = lines_exec(&chars_of(data));
    let ghost lv = views(ls@);
    let mut objects: Vec<JsonValue> = Vec::new();
    let mut warnings: Vec<String> = Vec::new();
    let mut i: usize = 0;
    while i < ls.len()
        invariant
            i <= ls@.len(),
            lv == views(ls@),
            lv == lines(data@),
            element_views(objects@) == lines_values(lv.subrange(0, i as int)),
            string_views(warnings@) == lines_warnings(lv.subrange(0, i as int)),
        decreases ls.len() - i,
    {
        let ghost sub = lv.subrange(0, i as int);
        let ghost sub1 = lv.subrange(0, i + 1);
        assert(sub1.drop_last() =~= sub);
        assert(sub1.last() == ls@[i as int]@);
        assert(sub1.len() == i + 1);
        let t = trim_exec(&ls[i]);
        if t.len() > 0 {
            let text = string_of(&t);
            match parse_json_text(text.as_str()) {
                Ok(v) => {
                    let ghost o0 = objects@;
                    objects.push(v);
                    proof {
                        lemma_element_views(o0);
                        lemma_element_views(objects@);
                        assert(element_views(objects@) =~= element_views(o0).push(objects@[o0.len() as int]@));
                    }
                },
                Err(e) => {
                    let mut w = chars_of("Line ");
                    push_all(&mut w, &decimal_exec(i as u128 + 1));
                    push_all(&mut w, &chars_of(": "));
                    push_all(&mut w, &chars_of(e.as_str()));
                    let ghost w0 = warnings@;
                    warnings.push(string_of(&w));
                    assert(string_views(warnings@) =~= string_views(w0).push(w@));
                },
            }
        }
        i = i + 1;
    }
    assert(lv.subrange(0, lv.len() as int) =~= lv);
    let mut result = parse_array(&objects, source_name);
    result.warnings = warnings;
    Ok(result)
}

/// The key holds an array in value `i`.
pub open spec fn holds_array(values: Seq<JsonView>, key: Seq<char>, i: int) -> bool {
    json_get(values[i], key) matches Some(x) && x is Array
}

/// Every value of the key that is not null is an array.
pub open spec fn only_arrays(values: Seq<JsonView>, key: Seq<char>) -> bool {
    forall|i: int|
        0 <= i < values.len() ==> (#[trigger] json_get(values[i], key) matches Some(x) ==> (x is Null
            || x is Array))
}

proof fn lemma_kinds_arrays(values: Seq<JsonView>, key: Seq<char>)
    ensures
        only_arrays(values, key) ==> forall|j: int|
            0 <= j < kinds_of(values, key).len() ==> #[trigger] kinds_of(values, key)[j] == JsonKind::Arr,
        (exists|i: int| 0 <= i < values.len() && #[trigger] holds_array(values, key, i)) ==> kinds_of(
            values,
            key,
        ).len() > 0,
        forall|j: int|
            0 <= j < kinds_of(values, key).len() && #[trigger] kinds_of(values, key)[j] == JsonKind::Arr
                ==> exists|i: int| 0 <= i < values.len() && #[trigger] holds_array(values, key, i),
    decreases values.len(),
{
    if values.len() > 0 {
        let pre = values.drop_last();
        lemma_kinds_arrays(pre, key);
        let n = values.len() - 1;
        assert forall|i: int| 0 <= i < pre.len() implies #[trigger] holds_array(pre, key, i) == holds_array(values, key, i) by {
            assert(pre[i] == values[i]);
        }
        assert forall|i: int| 0 <= i < pre.len() implies #[trigger] json_get(pre[i], key) == json_get(values[i], key) by {
            assert(pre[i] == values[i]);
        }
        let ks = kinds_of(values, key);
        let kp = kinds_of(pre, key);
        if exists|i: int| 0 <= i < values.len() && #[trigger] holds_array(values, key, i) {
            let i = choose|i: int| 0 <= i < values.len() && #[trigger] holds_array(values, key, i);
            if i < n {
                assert(holds_array(pre, key, i));
            }
        }
        if only_arrays(values, key) {
            assert forall|i: int| 0 <= i < pre.len() implies (#[trigger] json_get(pre[i], key) matches Some(x) ==> (x is Null || x is Array)) by {
                assert(json_get(values[i], key) matches Some(x) ==> (x is Null || x is Array));
            }
            assert(json_get(values[n], key) matches Some(x) ==> (x is Null || x is Array));
        }
        assert forall|j: int| 0 <= j < ks.len() && #[trigger] ks[j] == JsonKind::Arr implies exists|i: int|
            0 <= i < values.len() && #[trigger] holds_array(values, key, i) by {
            if j < kp.len() {
                assert(ks[j] == kp[j]);
                let i = choose|i: int| 0 <= i < pre.len() && #[trigger] holds_array(pre, key, i);
                assert(holds_array(values, key, i));
            } else {
                assert(holds_array(values, key, n));
            }
        }
    }
}

proof fn lemma_most_common_is_one(ks: Seq<JsonKind>, n: int)
    requires
        1 <= n <= ks.len(),
    ensures
        exists|j: int| 0 <= j < n && ks[j] == most_common_upto(ks, n),
    decreases n,
{
    if n > 1 {
        lemma_most_common_is_one(ks, n - 1);
        if kind_count(ks, ks[n - 1]) < kind_count(ks, most_common_upto(ks, n - 1)) {
            let j = choose|j: int| 0 <= j < n - 1 && ks[j] == most_common_upto(ks, n - 1);
            assert(ks[j] == most_common_upto(ks, n));
        } else {
            assert(ks[n - 1] == most_common_upto(ks, n));
        }
    } else {
        assert(ks[0] == most_common_upto(ks, n));
    }
}

/// Arrays: a key that holds an array in some value, and nothing but arrays or null
/// in the others, is inferred as `Array(Unknown)`, never as a scalar type; and an
/// array type is inferred only for a key that holds an array somewhere.
pub proof fn law_array_fields(values: Seq<JsonView>, key: Seq<char>, t: FieldType)
    requires
        type_for_kind(t, inferred_kind(values, key)),
    ensures
        ((exists|i: int| 0 <= i < values.len() && #[trigger] holds_array(values, key, i)) && only_arrays(
            values,
            key,
        )) ==> t == FieldType::Array(Box::new(FieldType::Unknown)),
        t is Array ==> exists|i: int| 0 <= i < values.len() && #[trigger] holds_array(values, key, i),
{
    lemma_kinds_arrays(values, key);
    let ks = kinds_of(values, key);
    if ks.len() > 0 {
        lemma_most_common_is_one(ks, ks.len() as int);
        let j = choose|j: int| 0 <= j < ks.len() && ks[j] == most_common_upto(ks, ks.len() as int);
        assert(ks[j] == most_common_upto(ks, ks.len() as int));
    }
}

/// The key holds, in value `i`, a value that `p` accepts.
pub open spec fn holds_where(values: Seq<JsonView>, key: Seq<char>, i: int, p: spec_fn(JsonView) -> bool) -> bool {
    json_get(values[i], key) matches Some(x) && p(x)
}

/// Every value of the key that is not null is one that `p` accepts.
pub open spec fn only_where(values: Seq<JsonView>, key: Seq<char>, p: spec_fn(JsonView) -> bool) -> bool {
    forall|i: int|
        0 <= i < values.len() ==> (#[trigger] json_get(values[i], key) matches Some(x) ==> (x is Null
            || p(x)))
}

proof fn lemma_kinds_uniform(values: Seq<JsonView>, key: Seq<char>, p: spec_fn(JsonView) -> bool, k: JsonKind)
    requires
        forall|x: JsonView| #[trigger] p(x) ==> kind_of(x) == Some(k),
    ensures
        only_where(values, key, p) ==> forall|j: int|
            0 <= j < kinds_of(values, key).len() ==> #[trigger] kinds_of(values, key)[j] == k,
        (exists|i: int| 0 <= i < values.len() && #[trigger] holds_where(values, key, i, p)) ==> kinds_of(
            values,
            key,
        ).len() > 0,
        (forall|i: int| 0 <= i < values.len() ==> !(#[trigger] json_get(values[i], key) matches Some(x) && !(x is Null)))
            ==> kinds_of(values, key).len() == 0,
    decreases values.len(),
{
    if values.len() > 0 {
        let pre = values.drop_last();
        lemma_kinds_uniform(pre, key, p, k);
        let n = values.len() - 1;
        assert forall|i: int| 0 <= i < pre.len() implies #[trigger] json_get(pre[i], key) == json_get(values[i], key) by {
            assert(pre[i] == values[i]);
        }
        if exists|i: int| 0 <= i < values.len() && #[trigger] holds_where(values, key, i, p) {
            let i = choose|i: int| 0 <= i < values.len() && #[trigger] holds_where(values, key, i, p);
            if i < n {
                assert(holds_where(pre, key, i, p));
            }
        }
        if only_where(values, key, p) {
            assert forall|i: int| 0 <= i < pre.len() implies (#[trigger] json_get(pre[i], key) matches Some(x) ==> (x is Null || p(x))) by {
                assert(json_get(values[i], key) matches Some(x) ==> (x is Null || p(x)));
            }
            assert(json_get(values[n], key) matches Some(x) ==> (x is Null || p(x)));
        }
        if forall|i: int| 0 <= i < values.len() ==> !(#[trigger] json_get(values[i], key) matches Some(x) && !(x is Null)) {
            assert forall|i: int| 0 <= i < pre.len() implies !(#[trigger] json_get(pre[i], key) matches Some(x) && !(x is Null)) by {
                assert(!(json_get(values[i], key) matches Some(x) && !(x is Null)));
            }
            assert(!(json_get(values[n], key) matches Some(x) && !(x is Null)));
        }
    }
}

/// Field types of uniform keys: a key whose present values are all null (or absent)
/// is `Null`; one that holds at least one value and only booleans is `Boolean`, only
/// `i64` integers `Integer`, only other numbers `Float`, only strings `Text`, only
/// arrays `Array(Unknown)`, only objects an empty nested schema.
pub proof fn law_uniform_fields(values: Seq<JsonView>, key: Seq<char>, t: FieldType)
    requires
        type_for_kind(t, inferred_kind(values, key)),
    ensures
        (forall|i: int| 0 <= i < values.len() ==> !(#[trigger] json_get(values[i], key) matches Some(x) && !(x is Null)))
            ==> t == FieldType::Null,
        ({
            let p = |x: JsonView| x is Bool;
            (exists|i: int| 0 <= i < values.len() && #[trigger] holds_where(values, key, i, p)) && only_where(values, key, p)
        }) ==> t == FieldType::Boolean,
        ({
            let p = |x: JsonView| x is Int;
            (exists|i: int| 0 <= i < values.len() && #[trigger] holds_where(values, key, i, p)) && only_where(values, key, p)
        }) ==> t == FieldType::Integer,
        ({
            let p = |x: JsonView| x is Float || x is UInt;
            (exists|i: int| 0 <= i < values.len() && #[trigger] holds_where(values, key, i, p)) && only_where(values, key, p)
        }) ==> t == FieldType::Float,
        ({
            let p = |x: JsonView| x is Str;
            (exists|i: int| 0 <= i < values.len() && #[trigger] holds_where(values, key, i, p)) && only_where(values, key, p)
        }) ==> t == FieldType::Text,
        ({
            let p = |x: JsonView| x is Array;
            (exists|i: int| 0 <= i < values.len() && #[trigger] holds_where(values, key, i, p)) && only_where(values, key, p)
        }) ==> t == FieldType::Array(Box::new(FieldType::Unknown)),
        ({
            let p = |x: JsonView| x is Object;
            (exists|i: int| 0 <= i < values.len() && #[trigger] holds_where(values, key, i, p)) && only_where(values, key, p)
        }) ==> (t matches FieldType::Object(s) && s.name@ == "nested"@ && s.nodes@.len() == 0),
{
    let ks = kinds_of(values, key);
    if ks.len() > 0 {
        lemma_most_common_is_one(ks, ks.len() as int);
        let j = choose|j: int| 0 <= j < ks.len() && ks[j] == most_common_upto(ks, ks.len() as int);
        assert(ks[j] == most_common_upto(ks, ks.len() as int));
    }
    lemma_kinds_uniform(values, key, |x: JsonView| x is Bool, JsonKind::Bool);
    lemma_kinds_uniform(values, key, |x: JsonView| x is Int, JsonKind::Int);
    lemma_kinds_uniform(values, key, |x: JsonView| x is Float || x is UInt, JsonKind::Float);
    lemma_kinds_uniform(values, key, |x: JsonView| x is Str, JsonKind::Str);
    lemma_kinds_uniform(values, key, |x: JsonView| x is Array, JsonKind::Arr);
    lemma_kinds_uniform(values, key, |x: JsonView| x is Object, JsonKind::Obj);
}

proof fn lemma_most_common_last_max(ks: Seq<JsonKind>, n: int)
    requires
        1 <= n <= ks.len(),
    ensures
        forall|j: int| 0 <= j < n ==> kind_count(ks, #[trigger] ks[j]) <= kind_count(ks, most_common_upto(ks, n)),
        exists|j: int|
            0 <= j < n && ks[j] == most_common_upto(ks, n) && forall|j2: int|
                j < j2 < n ==> kind_count(ks, #[trigger] ks[j2]) < kind_count(ks, most_common_upto(ks, n)),
    decreases n,
{
    if n > 1 {
        lemma_most_common_last_max(ks, n - 1);
        let b = most_common_upto(ks, n - 1);
        let j0 = choose|j: int|
            0 <= j < n - 1 && ks[j] == b && forall|j2: int|
                j < j2 < n - 1 ==> kind_count(ks, #[trigger] ks[j2]) < kind_count(ks, b);
        if kind_count(ks, ks[n - 1]) >= kind_count(ks, b) {
            assert(most_common_upto(ks, n) == ks[n - 1]);
            assert forall|j: int| 0 <= j < n implies kind_count(ks, #[trigger] ks[j]) <= kind_count(ks, most_common_upto(ks, n)) by {
                if j < n - 1 {
                    assert(kind_count(ks, ks[j]) <= kind_count(ks, b));
                }
            }
            assert(ks[n - 1] == most_common_upto(ks, n));
        } else {
            assert(most_common_upto(ks, n) == b);
            assert(forall|j2: int| j0 < j2 < n ==> kind_count(ks, #[trigger] ks[j2]) < kind_count(ks, b));
        }
    } else {
        assert(ks[0] == most_common_upto(ks, n));
    }
}

/// The most common kind wins: the kind inferred for a key occurs at least as often
/// among its non-null values as any other kind there, and on a tie it is the kind of
/// the last of the tied values.
pub proof fn law_most_common_kind(values: Seq<JsonView>, key: Seq<char>)
    ensures
        ({
            let ks = kinds_of(values, key);
            inferred_kind(values, key) matches Some(m) ==> {
                &&& forall|j: int| 0 <= j < ks.len() ==> kind_count(ks, #[trigger] ks[j]) <= kind_count(ks, m)
                &&& exists|j: int|
                    0 <= j < ks.len() && ks[j] == m && forall|j2: int|
                        j < j2 < ks.len() ==> kind_count(ks, #[trigger] ks[j2]) < kind_count(ks, m)
            }
        }),
        (inferred_kind(values, key) is None) == (kinds_of(values, key).len() == 0),
{
    let ks = kinds_of(values, key);
    if ks.len() > 0 {
        lemma_most_common_last_max(ks, ks.len() as int);
    }
}

} // verus!
