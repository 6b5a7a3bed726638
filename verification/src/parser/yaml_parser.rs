//! YAML and TOML parsers: key-value lines become one record.
use vstd::prelude::*;
use crate::text::{
    chars_of, string_of, starts_with, starts_with_lit, ends_with, ends_with_exec, find_char,
    find_char_exec, trim, trim_exec, trim_start_lit, trim_start_lit_exec, trim_char, trim_char_exec,
    slice_vec, lines, lines_exec, views, push_all, eq_lit, parse_i64, parse_i64_spec,
};
use crate::types::error::AdatResult;
use crate::types::json::{JsonValue, JsonView};
use crate::types::json_io::{spec_float_value, parse_float_value};
use crate::types::record::{DataRecord, FieldMap, insert_entry};
use crate::types::schema::FieldType;
use super::{ParseResult, record_is, fields_are, inferred_fields, single_node};

verus! {

/// The JSON value of a YAML or TOML scalar: `null` for an empty text, `~` or `null`,
/// an integer, a floating-point number, a boolean, else the text without quotes.
pub open spec fn yaml_value(v: Seq<char>) -> JsonView {
    if v.len() == 0 || v == "~"@ || v == "null"@ {
        JsonView::Null
    } else {
        match parse_i64_spec(v) {
            Some(n) => JsonView::Int(n),
            None => match spec_float_value(v) {
                Some(f) => f,
                None => if v == "true"@ {
                    JsonView::Bool(true)
                } else if v == "false"@ {
                    JsonView::Bool(false)
                } else {
                    JsonView::Str(trim_char(trim_char(v, '"'), '\''))
                },
            },
        }
    }
}

/// Parse a YAML or TOML scalar into a JSON value.
pub fn parse_yaml_value(val: &str) -> (r: JsonValue)
    ensures
        r@ == yaml_value(val@),
{
    let cs = chars_of(val);
    if cs.len() == 0 || eq_lit(&cs, "~") || eq_lit(&cs, "null") {
        return JsonValue::Null;
    }
    match parse_i64(&cs) {
        Some(n) => {
            return JsonValue::Int(n);
        },
        None => {},
    }
    match parse_float_value(val) {
        Some(f) => {
            return f;
        },
        None => {},
    }
    if eq_lit(&cs, "true") {
        JsonValue::Bool(true)
    } else if eq_lit(&cs, "false") {
        JsonValue::Bool(false)
    } else {
        JsonValue::Str(string_of(&trim_char_exec(&trim_char_exec(&cs, '"'), '\'')))
    }
}

/// The key-value pair of a YAML line: text before the first `:` (trimmed) and the
/// value after it; none for blank lines, comments, lines without `:`, empty keys and
/// keys starting with `-`.
pub open spec fn yaml_pair(line: Seq<char>) -> Option<(Seq<char>, JsonView)> {
    let t = trim(line);
    if t.len() == 0 || starts_with(t, "#"@) {
        None
    } else {
        match find_char(t, ':') {
            Some(c) => {
                let key = trim(t.subrange(0, c));
                if key.len() > 0 && !starts_with(key, "-"@) {
                    Some((key, yaml_value(trim(t.subrange(c + 1, t.len() as int)))))
                } else {
                    None
                }
            },
            None => None,
        }
    }
}

/// The pairs of YAML lines, in order.
pub open spec fn yaml_pairs(ls: Seq<Seq<char>>) -> Seq<(Seq<char>, JsonView)>
    decreases ls.len(),
{
    if ls.len() == 0 {
        Seq::empty()
    } else {
        yaml_pairs(ls.drop_last()) + match yaml_pair(ls.last()) {
            Some(p) => seq![p],
            None => Seq::empty(),
        }
    }
}

/// The YAML document without surrounding whitespace and leading `---` markers.
pub open spec fn yaml_body(data: Seq<char>) -> Seq<char> {
    trim(trim_start_lit(trim(data), "---"@))
}

/// The fields after inserting the pairs in order.
pub open spec fn map_of_pairs(pairs: Seq<(Seq<char>, JsonView)>) -> Seq<(Seq<char>, JsonView)> {
    super::fields_of(pairs)
}

/// The records of key-value data: one when it has any field.
pub open spec fn kv_records(fields: Seq<(Seq<char>, JsonView)>) -> Seq<Seq<(Seq<char>, JsonView)>> {
    if fields.len() > 0 {
        seq![fields]
    } else {
        Seq::empty()
    }
}

/// What parsing YAML data gives.
pub open spec fn yaml_outcome(r: AdatResult<ParseResult>, data: Seq<char>, source: Seq<char>) -> bool {
    &&& (match r {
            Ok(p) => {
                let pairs = yaml_pairs(lines(yaml_body(data)));
                let recs = kv_records(super::fields_of(pairs));
                &&& p.records@.len() == recs.len()
                &&& forall|i: int|
                    0 <= i < recs.len() ==> record_is(
                        #[trigger] p.records@[i],
                        source,
                        source,
                        recs[i],
                    )
                &&& p.schema.name@ == source
                &&& p.schema.nodes@.len() == 1
                &&& p.schema.nodes@[0].name@ == source
                &&& p.schema.nodes@[0].source@ == source
                &&& fields_are(
                    p.schema.nodes@[0].fields@,
                    pairs.map_values(|p: (Seq<char>, JsonView)| (p.0, FieldType::Text, 750u32)),
                )
                &&& p.schema.nodes@[0].record_count == Some(1u64)
                &&& p.errors == 0
                &&& p.warnings@.len() == 0
            },
            Err(_) => false,
        })
}

/// Parse YAML key-value lines: one record (named after the source) of every
/// `key: value` pair; every key read is listed in the schema.
pub fn parse_yaml(data: &str, source_name: &str) -> (r: AdatResult<ParseResult>)
    ensures
        yaml_outcome(r, data@, source_name@),
{
    let clean = trim_exec(&trim_start_lit_exec(&trim_exec(chars_of(data).as_slice()), &chars_of("---")));
    let ls = lines_exec(&clean);
    let ghost all = views(ls@);
    let mut fields = FieldMap::new();
    let mut keys: Vec<String> = Vec::new();
    let mut i: usize = 0;
    while i < ls.len()
        invariant
            i <= ls@.len(),
            all == views(ls@),
            all == lines(yaml_body(data@)),
            fields@ == super::fields_of(yaml_pairs(all.subrange(0, i as int))),
            keys@.len() == yaml_pairs(all.subrange(0, i as int)).len(),
            forall|k: int|
                0 <= k < keys@.len() ==> (#[trigger] keys@[k])@ == yaml_pairs(
                    all.subrange(0, i as int),
                )[k].0,
        decreases ls.len() - i,
    {
        assert(all.subrange(0, i + 1).drop_last() =~= all.subrange(0, i as int));
        assert(all[i as int] == ls@[i as int]@);
        let ghost before = yaml_pairs(all.subrange(0, i as int));
        let t = trim_exec(&ls[i]);
        if t.len() > 0 && !starts_with_lit(&t, "#") {
            match find_char_exec(&t, ':') {
                Some(c) => {
                    let tl = t.len();
                    let key = trim_exec(&slice_vec(&t, 0, c));
                    if key.len() > 0 && !starts_with_lit(&key, "-") {
                        let val = trim_exec(&slice_vec(&t, c + 1, tl));
                        let v = parse_yaml_value(string_of(&val).as_str());
                        let ks = string_of(&key);
                        keys.push(ks.clone());
                        fields.insert(ks, v);
                        assert(yaml_pairs(all.subrange(0, i + 1)) =~= before.push((key@, v@)));
                        assert((before.push((key@, v@))).drop_last() =~= before);
                    } else {
                        assert(yaml_pairs(all.subrange(0, i + 1)) =~= before);
                    }
                },
                None => {
                    assert(yaml_pairs(all.subrange(0, i + 1)) =~= before);
                },
            }
        } else {
            assert(yaml_pairs(all.subrange(0, i + 1)) =~= before);
        }
        i = i + 1;
    }
    assert(all.subrange(0, all.len() as int) =~= all);
    finish_kv(source_name, fields, keys, 750, Ghost(yaml_pairs(all)))
}

/// Build the result of key-value parsing: one record when there are fields, and a
/// schema listing the keys.
fn finish_kv(
    source_name: &str,
    fields: FieldMap,
    keys: Vec<String>,
    confidence: u32,
    Ghost(pairs): Ghost<Seq<(Seq<char>, JsonView)>>,
) -> (r: AdatResult<ParseResult>)
    requires
        fields@ == super::fields_of(pairs),
        keys@.len() == pairs.len(),
        forall|k: int| 0 <= k < keys@.len() ==> (#[trigger] keys@[k])@ == pairs[k].0,
    ensures
        match r {
            Ok(p) => {
                let recs = kv_records(super::fields_of(pairs));
                &&& p.records@.len() == recs.len()
                &&& forall|i: int|
                    0 <= i < recs.len() ==> record_is(
                        #[trigger] p.records@[i],
                        source_name@,
                        source_name@,
                        recs[i],
                    )
                &&& p.schema.name@ == source_name@
                &&& p.schema.nodes@.len() == 1
                &&& p.schema.nodes@[0].name@ == source_name@
                &&& p.schema.nodes@[0].source@ == source_name@
                &&& fields_are(
                    p.schema.nodes@[0].fields@,
                    pairs.map_values(|p: (Seq<char>, JsonView)| (p.0, FieldType::Text, confidence)),
                )
                &&& p.schema.nodes@[0].record_count == Some(1u64)
                &&& p.errors == 0
                &&& p.warnings@.len() == 0
            },
            Err(_) => false,
        },
{
    let mut model: Vec<(&str, FieldType, u32)> = Vec::new();
    let mut k: usize = 0;
    while k < keys.len()
        invariant
            k <= keys@.len(),
            model@.len() == k,
            forall|j: int|
                0 <= j < k ==> (#[trigger] model@[j]).0@ == keys@[j]@ && model@[j].1
                    == FieldType::Text && model@[j].2 == confidence,
        decreases keys.len() - k,
    {
        model.push((keys[k].as_str(), FieldType::Text, confidence));
        k = k + 1;
    }
    proof {
        let mv = model@.map_values(|m: (&str, FieldType, u32)| (m.0@, m.1, m.2));
        let want = pairs.map_values(|p: (Seq<char>, JsonView)| (p.0, FieldType::Text, confidence));
        assert forall|j: int| 0 <= j < mv.len() implies mv[j] == want[j] by {
            assert(model@[j].0@ == keys@[j]@);
        }
        assert(mv =~= want);
    }
    let schema_fields = inferred_fields(model);
    let schema = single_node(source_name, source_name, schema_fields, 1);
    let records = if fields.len() == 0 {
        Vec::new()
    } else {
        vec![DataRecord::new(source_name, source_name, fields)]
    };
    Ok(ParseResult { schema, records, errors: 0, warnings: Vec::new() })
}

/// TOML key-value pairs: the keys (prefixed by their section, `section.key`) and
/// values read after the lines, with the current section.
pub open spec fn toml_state(ls: Seq<Seq<char>>) -> (Seq<(Seq<char>, JsonView)>, Seq<char>)
    decreases ls.len(),
{
    if ls.len() == 0 {
        (Seq::empty(), Seq::empty())
    } else {
        let (pairs, section) = toml_state(ls.drop_last());
        let t = trim(ls.last());
        if t.len() == 0 || starts_with(t, "#"@) {
            (pairs, section)
        } else if starts_with(t, "["@) && ends_with(t, "]"@) {
            (pairs, t.subrange(1, t.len() - 1))
        } else {
            match find_char(t, '=') {
                Some(e) => {
                    let raw = trim(t.subrange(0, e));
                    let val = trim_char(trim(t.subrange(e + 1, t.len() as int)), '"');
                    let key = if section.len() == 0 {
                        raw
                    } else {
                        section + seq!['.'] + raw
                    };
                    (pairs.push((key, yaml_value(val))), section)
                },
                None => (pairs, section),
            }
        }
    }
}

/// What parsing TOML data gives.
pub open spec fn toml_outcome(r: AdatResult<ParseResult>, data: Seq<char>, source: Seq<char>) -> bool {
    &&& (match r {
            Ok(p) => {
                let pairs = toml_state(lines(data)).0;
                let recs = kv_records(super::fields_of(pairs));
                &&& p.records@.len() == recs.len()
                &&& forall|i: int|
                    0 <= i < recs.len() ==> record_is(
                        #[trigger] p.records@[i],
                        source,
                        source,
                        recs[i],
                    )
                &&& p.schema.name@ == source
                &&& p.schema.nodes@.len() == 1
                &&& p.schema.nodes@[0].name@ == source
                &&& p.schema.nodes@[0].source@ == source
                &&& fields_are(
                    p.schema.nodes@[0].fields@,
                    pairs.map_values(|p: (Seq<char>, JsonView)| (p.0, FieldType::Text, 800u32)),
                )
                &&& p.schema.nodes@[0].record_count == Some(1u64)
                &&& p.errors == 0
                &&& p.warnings@.len() == 0
            },
            Err(_) => false,
        })
}

/// Parse TOML key-value lines: one record (named after the source) of every
/// `key = value` pair, keys prefixed by their `[section]`; every key read is listed in
/// the schema.
pub fn parse_toml(data: &str, source_name: &str) -> (r: AdatResult<ParseResult>)
    ensures
        toml_outcome(r, data@, source_name@),
{
    let ls = lines_exec(chars_of(data).as_slice());
    let ghost all = views(ls@);
    let mut fields = FieldMap::new();
    let mut keys: Vec<String> = Vec::new();
    let mut section: Vec<char> = Vec::new();
    let mut i: usize = 0;
    while i < ls.len()
        invariant
            i <= ls@.len(),
            all == views(ls@),
            all == lines(data@),
            fields@ == super::fields_of(toml_state(all.subrange(0, i as int)).0),
            section@ == toml_state(all.subrange(0, i as int)).1,
            keys@.len() == toml_state(all.subrange(0, i as int)).0.len(),
            forall|k: int|
                0 <= k < keys@.len() ==> (#[trigger] keys@[k])@ == toml_state(
                    all.subrange(0, i as int),
                ).0[k].0,
        decreases ls.len() - i,
    {
        assert(all.subrange(0, i + 1).drop_last() =~= all.subrange(0, i as int));
        assert(all[i as int] == ls@[i as int]@);
        let ghost before = toml_state(all.subrange(0, i as int)).0;
        let t = trim_exec(&ls[i]);
        if t.len() == 0 || starts_with_lit(&t, "#") {
        } else if starts_with_lit(&t, "[") && ends_with_exec(&t, &chars_of("]")) {
            proof {
                crate::text::lemma_single_char_affix(t@, '[');
                crate::text::lemma_single_char_affix(t@, ']');
                reveal_strlit("[");
                reveal_strlit("]");
                assert("["@ =~= seq!['[']);
                assert("]"@ =~= seq![']']);
            }
            section = slice_vec(&t, 1, t.len() - 1);
        } else {
            match find_char_exec(&t, '=') {
                Some(e) => {
                    let tl = t.len();
                    let raw = trim_exec(&slice_vec(&t, 0, e));
                    let val = trim_char_exec(&trim_exec(&slice_vec(&t, e + 1, tl)), '"');
                    let ghost rv = raw@;
                    let mut key: Vec<char> = Vec::new();
                    if section.len() == 0 {
                        key = raw;
                    } else {
                        push_all(&mut key, &section);
                        key.push('.');
                        push_all(&mut key, &raw);
                    }
                    assert(key@ =~= (if section@.len() == 0 {
                        rv
                    } else {
                        section@ + seq!['.'] + rv
                    }));
                    let v = parse_yaml_value(string_of(&val).as_str());
                    let ks = string_of(&key);
                    keys.push(ks.clone());
                    fields.insert(ks, v);
                    assert(toml_state(all.subrange(0, i + 1)).0 == before.push((key@, v@)));
                    assert((before.push((key@, v@))).drop_last() =~= before);
                },
                None => {},
            }
        }
        i = i + 1;
    }
    assert(all.subrange(0, all.len() as int) =~= all);
    finish_kv(source_name, fields, keys, 800, Ghost(toml_state(all).0))
}

} // verus!
