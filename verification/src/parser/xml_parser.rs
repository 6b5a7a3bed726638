//! XML parser: the children of the root element become records of their elements.
use vstd::prelude::*;
use crate::text::{
    chars_of, string_of, starts_with, starts_with_lit, ends_with, find_char, find_char_exec,
    rfind, rfind_exec, trim, trim_exec, trim_start, trim_start_exec, trim_start_char,
    trim_start_char_exec, trim_end_char, trim_end_char_exec, slice_vec, lines, lines_exec, views,
    parse_i64, parse_i64_spec, eq_lit, push_all, str_eq,
};
use crate::types::error::AdatResult;
use crate::types::json::{JsonValue, JsonView};
use crate::types::json_io::{spec_float_value, parse_float_value};
use crate::types::record::{DataRecord, FieldMap, insert_entry};
use crate::types::schema::FieldType;
use super::sql_parser::{before_ws, ws_pos};
use super::{ParseResult, fields_are, field_is, record_is, inferred_fields, single_node};

verus! {

/// The name of a tag: the first word after the `<` and before any `>` or `/` at the
/// end.
pub open spec fn tag_name(s: Seq<char>) -> Seq<char> {
    before_ws(trim_start(trim_end_char(trim_end_char(trim_start_char(s, '<'), '>'), '/')))
}

fn first_word(s: &[char]) -> (r: Vec<char>)
    ensures
        r@ == before_ws(trim_start(s@)),
{
    let t = trim_start_exec(s);
    let mut i: usize = 0;
    while i < t.len() && !crate::text::char_is_ws(t[i])
        invariant
            i <= t@.len(),
            forall|j: int| 0 <= j < i ==> !crate::text::is_ws(t@[j]),
        decreases t.len() - i,
    {
        i = i + 1;
    }
    proof {
        lemma_ws_pos_at(t@, i as int);
    }
    slice_vec(&t, 0, i)
}

proof fn lemma_ws_pos_at(t: Seq<char>, i: int)
    requires
        0 <= i <= t.len(),
        forall|j: int| 0 <= j < i ==> !crate::text::is_ws(t[j]),
        i < t.len() ==> crate::text::is_ws(t[i]),
    ensures
        before_ws(t) == t.subrange(0, i),
    decreases i,
{
    if i == 0 {
        if t.len() == 0 {
            assert(t.subrange(0, 0) =~= t);
        }
    } else {
        lemma_ws_pos_at(t.drop_first(), i - 1);
        assert forall|j: int| 0 < j < t.len() implies t.drop_first()[j - 1] == t[j] by {}
        match ws_pos(t.drop_first()) {
            Some(k) => {
                assert(t.drop_first().subrange(0, k) == t.drop_first().subrange(0, i - 1));
            },
            None => {},
        }
        if i < t.len() {
            assert(ws_pos(t.drop_first()) == Some(i - 1)) by {
                lemma_ws_first(t.drop_first(), i - 1);
            }
            assert(t.subrange(0, i) =~= seq![t[0]] + t.drop_first().subrange(0, i - 1));
        } else {
            assert(ws_pos(t.drop_first()) is None) by {
                lemma_ws_none(t.drop_first());
            }
            assert(t.subrange(0, i) =~= t);
        }
    }
}

proof fn lemma_ws_first(t: Seq<char>, k: int)
    requires
        0 <= k < t.len(),
        forall|j: int| 0 <= j < k ==> !crate::text::is_ws(t[j]),
        crate::text::is_ws(t[k]),
    ensures
        ws_pos(t) == Some(k),
    decreases k,
{
    if k > 0 {
        lemma_ws_first(t.drop_first(), k - 1);
    }
}

proof fn lemma_ws_none(t: Seq<char>)
    requires
        forall|j: int| 0 <= j < t.len() ==> !crate::text::is_ws(t[j]),
    ensures
        ws_pos(t) is None,
    decreases t.len(),
{
    if t.len() > 0 {
        lemma_ws_none(t.drop_first());
    }
}

/// The name of a tag: the first word after `<`, without a closing `>` or `/`.
pub fn extract_tag_name(tag_str: &str) -> (r: String)
    ensures
        r@ == tag_name(tag_str@),
{
    let s = chars_of(tag_str);
    let a = trim_end_char_exec(&trim_end_char_exec(&trim_start_char_exec(&s, '<'), '>'), '/');
    string_of(&first_word(&a))
}

/// Tag and value of an element on one line, `<tag>value</tag>`.
pub open spec fn inline_tag(line: Seq<char>) -> Option<(Seq<char>, Seq<char>)> {
    let t = trim(line);
    if !starts_with(t, "<"@) || starts_with(t, "<?"@) || starts_with(t, "</"@) {
        None
    } else {
        match find_char(t, '>') {
            None => None,
            Some(o) => match rfind(t, "</"@) {
                None => None,
                Some(c) => if c <= o {
                    None
                } else {
                    let tag = tag_name(t.subrange(0, o + 1));
                    let val = t.subrange(o + 1, c);
                    if tag.len() == 0 || val.len() == 0 {
                        None
                    } else {
                        Some((tag, val))
                    }
                },
            },
        }
    }
}

/// Tag and value of an element written on one line, `<tag>value</tag>`.
pub fn extract_inline_tag(line: &str) -> (r: Option<(String, String)>)
    ensures
        match r {
            Some((t, v)) => inline_tag(line@) == Some((t@, v@)),
            None => inline_tag(line@) is None,
        },
{
    let t = trim_exec(chars_of(line).as_slice());
    if !starts_with_lit(&t, "<") || starts_with_lit(&t, "<?") || starts_with_lit(&t, "</") {
        return None;
    }
    let o = match find_char_exec(&t, '>') {
        Some(o) => o,
        None => {
            return None;
        },
    };
    let close = chars_of("</");
    let c = match rfind_exec(&t, &close) {
        Some(c) => c,
        None => {
            return None;
        },
    };
    if c <= o {
        return None;
    }
    let tag = extract_tag_name(string_of(&slice_vec(&t, 0, o + 1)).as_str());
    let val = slice_vec(&t, o + 1, c);
    if tag.as_str().as_bytes().len() == 0 || val.len() == 0 {
        proof {
            if tag@.len() > 0 {
                assert(vstd::utf8::encode_utf8(tag@).len() > 0) by {
                    vstd::utf8::encode_utf8_first_scalar(tag@);
                }
            }
        }
        return None;
    }
    proof {
        if tag@.len() == 0 {
            assert(vstd::utf8::encode_utf8(tag@).len() == 0);
        }
    }
    Some((tag, string_of(&val)))
}

/// The JSON value of an element's text: `null` when empty, an integer, a
/// floating-point number, a boolean, else the text.
pub open spec fn xml_value(v: Seq<char>) -> JsonView {
    if v.len() == 0 {
        JsonView::Null
    } else {
        match parse_i64_spec(v) {
            Some(n) => JsonView::Int(n),
            None => match spec_float_value(v) {
                Some(f) => f,
                None => if v == "true"@ {
                    JsonView::Bool(true)
                } else if v == "false"@ {
                    JsonView::Bool(false)
                } else {
                    JsonView::Str(v)
                },
            },
        }
    }
}

/// Parse an element's text into a JSON value.
pub fn parse_xml_value(val: &str) -> (r: JsonValue)
    ensures
        r@ == xml_value(val@),
{
    let cs = chars_of(val);
    if cs.len() == 0 {
        return JsonValue::Null;
    }
    match parse_i64(&cs) {
        Some(n) => {
            return JsonValue::Int(n);
        },
        None => {},
    }
    match parse_float_value(val) {
        Some(f) => {
            return f;
        },
        None => {},
    }
    if eq_lit(&cs, "true") {
        JsonValue::Bool(true)
    } else if eq_lit(&cs, "false") {
        JsonValue::Bool(false)
    } else {
        JsonValue::Str(val.to_owned())
    }
}

/// The state of the XML scan.
pub struct XmlState {
    /// Fields of the finished records.
    pub recs: Seq<Seq<(Seq<char>, JsonView)>>,
    /// Fields of the record being read.
    pub cur: Seq<(Seq<char>, JsonView)>,
    /// Every element name seen in a record, in the order first seen.
    pub keys: Seq<Seq<char>>,
    pub depth: int,
    pub tag: Seq<char>,
    pub in_content: bool,
    pub buf: Seq<char>,
    /// Name of the first child of the root.
    pub root: Seq<char>,
}

/// The key list with `k` added unless it is there.
pub open spec fn add_key(keys: Seq<Seq<char>>, k: Seq<char>) -> Seq<Seq<char>> {
    if keys.contains(k) {
        keys
    } else {
        keys.push(k)
    }
}

/// The state after a line, before its inline element is read.
pub open spec fn xml_tags_step(st: XmlState, t: Seq<char>) -> XmlState {
    if starts_with(t, "<"@) && !starts_with(t, "</"@) && !ends_with(t, "/>"@) {
        let tag = tag_name(t);
        let d = st.depth + 1;
        XmlState {
            recs: if d == 2 && st.cur.len() > 0 {
                st.recs.push(st.cur)
            } else {
                st.recs
            },
            cur: if d == 2 && st.cur.len() > 0 {
                Seq::empty()
            } else {
                st.cur
            },
            keys: st.keys,
            depth: d,
            tag: tag,
            in_content: true,
            buf: Seq::empty(),
            root: if d == 2 && st.root.len() == 0 {
                tag
            } else {
                st.root
            },
        }
    } else if ends_with(t, "/>"@) {
        let tag = tag_name(t);
        if st.depth >= 2 && tag.len() > 0 {
            XmlState {
                keys: add_key(st.keys, tag),
                cur: insert_entry(st.cur, tag, JsonView::Null),
                ..st
            }
        } else {
            st
        }
    } else if starts_with(t, "</"@) {
        let closes = st.in_content && st.depth >= 3 && st.tag.len() > 0;
        XmlState {
            keys: if closes {
                add_key(st.keys, st.tag)
            } else {
                st.keys
            },
            cur: if closes {
                insert_entry(st.cur, st.tag, xml_value(trim(st.buf)))
            } else {
                st.cur
            },
            depth: if st.depth > 0 {
                st.depth - 1
            } else {
                0
            },
            in_content: false,
            ..st
        }
    } else if st.in_content {
        XmlState { buf: st.buf + t, ..st }
    } else {
        st
    }
}

/// The state after a trimmed line.
pub open spec fn xml_step(st: XmlState, t: Seq<char>) -> XmlState {
    if t.len() == 0 || starts_with(t, "<?"@) {
        st
    } else {
        let st1 = xml_tags_step(st, t);
        match inline_tag(t) {
            Some((tag, val)) => if st1.depth >= 2 {
                XmlState {
                    keys: add_key(st1.keys, tag),
                    cur: insert_entry(st1.cur, tag, xml_value(val)),
                    ..st1
                }
            } else {
                st1
            },
            None => st1,
        }
    }
}

/// The state before any line.
pub open spec fn xml_start() -> XmlState {
    XmlState {
        recs: Seq::empty(),
        cur: Seq::empty(),
        keys: Seq::empty(),
        depth: 0,
        tag: Seq::empty(),
        in_content: false,
        buf: Seq::empty(),
        root: Seq::empty(),
    }
}

/// The state after the lines.
pub open spec fn xml_state(ls: Seq<Seq<char>>) -> XmlState
    decreases ls.len(),
{
    if ls.len() == 0 {
        xml_start()
    } else {
        xml_step(xml_state(ls.drop_last()), trim(ls.last()))
    }
}

/// The fields of the records of an XML document: one per child of the root, with
/// the elements read inside it.
pub open spec fn xml_records(data: Seq<char>) -> Seq<Seq<(Seq<char>, JsonView)>> {
    let st = xml_state(lines(data));
    if st.cur.len() > 0 {
        st.recs.push(st.cur)
    } else {
        st.recs
    }
}

proof fn lemma_xml_depth(ls: Seq<Seq<char>>)
    ensures
        0 <= xml_state(ls).depth <= ls.len(),
    decreases ls.len(),
{
    if ls.len() > 0 {
        lemma_xml_depth(ls.drop_last());
    }
}

fn add_key_exec(keys: &mut Vec<String>, k: &String)
    ensures
        final(keys)@.map_values(|s: String| s@) == add_key(
            old(keys)@.map_values(|s: String| s@),
            k@,
        ),
{
    let ghost kv = old(keys)@.map_values(|s: String| s@);
    let mut i: usize = 0;
    while i < keys.len()
        invariant
            i <= keys@.len(),
            kv == keys@.map_values(|s: String| s@),
            forall|j: int| 0 <= j < i ==> kv[j] != k@,
        decreases keys.len() - i,
    {
        if str_eq(keys[i].as_str(), k.as_str()) {
            assert(kv[i as int] == k@);
            return ;
        }
        i = i + 1;
    }
    keys.push(k.clone());
    assert(keys@.map_values(|s: String| s@) =~= kv.push(k@));
}

/// The exec state of the scan.
struct XmlScan {
    records: Vec<DataRecord>,
    cur: FieldMap,
    keys: Vec<String>,
    depth: u32,
    tag: String,
    in_content: bool,
    buf: Vec<char>,
    root: String,
}

/// The scan holds the state `st`, its records made from `source`.
spec fn scan_is(sc: XmlScan, st: XmlState, source: Seq<char>) -> bool {
    &&& sc.records@.len() == st.recs.len()
    &&& forall|i: int|
        0 <= i < st.recs.len() ==> record_is(#[trigger] sc.records@[i], source, source, st.recs[i])
    &&& sc.cur@ == st.cur
    &&& sc.keys@.map_values(|s: String| s@) == st.keys
    &&& sc.depth == st.depth
    &&& sc.tag@ == st.tag
    &&& sc.in_content == st.in_content
    &&& sc.buf@ == st.buf
    &&& sc.root@ == st.root
}

fn scan_tags(sc: &mut XmlScan, t: &Vec<char>, source_name: &str, Ghost(st): Ghost<XmlState>)
    requires
        scan_is(*old(sc), st, source_name@),
        st.depth < u32::MAX,
    ensures
        scan_is(*final(sc), xml_tags_step(st, t@), source_name@),
{
    let line = string_of(t);
    if starts_with_lit(t, "<") && !starts_with_lit(t, "</") && !crate::text::ends_with_exec(
        t,
        &chars_of("/>"),
    ) {
        let tag = extract_tag_name(line.as_str());
        sc.depth = sc.depth + 1;
        if sc.depth == 2 && sc.root.as_str().as_bytes().len() == 0 {
            sc.root = tag.clone();
            proof {
                if st.root.len() > 0 {
                    vstd::utf8::encode_utf8_first_scalar(st.root);
                }
            }
        } else {
            proof {
                if sc.depth == 2 && st.root.len() == 0 {
                    assert(vstd::utf8::encode_utf8(st.root).len() == 0);
                }
            }
        }
        if sc.depth == 2 && sc.cur.len() > 0 {
            let ghost r0 = sc.records@;
            let rec = DataRecord::new(source_name, source_name, sc.cur.duplicate());
            sc.records.push(rec);
            sc.cur = FieldMap::new();
            assert forall|i: int| 0 <= i < r0.len() implies sc.records@[i] == r0[i] by {}
        }
        sc.tag = tag;
        sc.in_content = true;
        sc.buf = Vec::new();
    } else if crate::text::ends_with_exec(t, &chars_of("/>")) {
        let tag = extract_tag_name(line.as_str());
        let tc = chars_of(tag.as_str());
        if sc.depth >= 2 && tc.len() > 0 {
            add_key_exec(&mut sc.keys, &tag);
            sc.cur.insert(tag, JsonValue::Null);
        }
    } else if starts_with_lit(t, "</") {
        let tc = chars_of(sc.tag.as_str());
        if sc.in_content && sc.depth >= 3 && tc.len() > 0 {
            let val = string_of(&trim_exec(&sc.buf));
            let tag = sc.tag.clone();
            add_key_exec(&mut sc.keys, &tag);
            sc.cur.insert(tag, parse_xml_value(val.as_str()));
        }
        sc.depth = if sc.depth > 0 {
            sc.depth - 1
        } else {
            0
        };
        sc.in_content = false;
    } else if sc.in_content {
        push_all(&mut sc.buf, t);
    }
}

/// The XML data that the parser takes: fewer lines than `u32::MAX`, so that the
/// nesting depth it counts cannot overflow.
pub open spec fn xml_ok(data: Seq<char>) -> bool {
    lines(data).len() < u32::MAX
}

/// What parsing XML data gives.
pub open spec fn xml_outcome(r: AdatResult<ParseResult>, data: Seq<char>, source: Seq<char>) -> bool {
    &&& (match r {
            Ok(p) => {
                let st = xml_state(lines(data));
                let recs = xml_records(data);
                &&& p.records@.len() == recs.len()
                &&& forall|i: int|
                    0 <= i < recs.len() ==> record_is(
                        #[trigger] p.records@[i],
                        source,
                        source,
                        recs[i],
                    )
                &&& p.schema.name@ == source
                &&& p.schema.nodes@.len() == 1
                &&& p.schema.nodes@[0].name@ == (if st.root.len() == 0 {
                    source
                } else {
                    st.root
                })
                &&& p.schema.nodes@[0].source@ == source
                &&& fields_are(
                    p.schema.nodes@[0].fields@,
                    st.keys.map_values(|k: Seq<char>| (k, FieldType::Text, 700u32)),
                )
                &&& p.schema.nodes@[0].record_count == Some(recs.len() as u64)
                &&& p.errors == 0
                &&& p.warnings@.len() == 0
            },
            Err(_) => false,
        })
}

/// Parse an XML document: each child of the root becomes a record (named after the
/// source) of the elements read inside it; the schema lists every element name.
pub fn parse(data: &str, source_name: &str) -> (r: AdatResult<ParseResult>)
    requires
        xml_ok(data@),
    ensures
        xml_outcome(r, data@, source_name@),
{
    let ls = lines_exec(chars_of(data).as_slice());
    let ghost all = views(ls@);
    let mut sc = XmlScan {
        records: Vec::new(),
        cur: FieldMap::new(),
        keys: Vec::new(),
        depth: 0,
        tag: String::new(),
        in_content: false,
        buf: Vec::new(),
        root: String::new(),
    };
    assert(sc.keys@.map_values(|s: String| s@) =~= Seq::<Seq<char>>::empty());
    let mut i: usize = 0;
    while i < ls.len()
        invariant
            i <= ls@.len(),
            all == views(ls@),
            all == lines(data@),
            all.len() < u32::MAX,
            scan_is(sc, xml_state(all.subrange(0, i as int)), source_name@),
        decreases ls.len() - i,
    {
        proof {
            assert(all.subrange(0, i + 1).drop_last() =~= all.subrange(0, i as int));
            assert(all[i as int] == ls@[i as int]@);
            lemma_xml_depth(all.subrange(0, i as int));
        }
        let ghost st = xml_state(all.subrange(0, i as int));
        let t = trim_exec(&ls[i]);
        if t.len() == 0 || starts_with_lit(&t, "<?") {
            i = i + 1;
            continue ;
        }
        scan_tags(&mut sc, &t, source_name, Ghost(st));
        let line = string_of(&t);
        match extract_inline_tag(line.as_str()) {
            Some((tag, val)) => {
                if sc.depth >= 2 {
                    add_key_exec(&mut sc.keys, &tag);
                    sc.cur.insert(tag, parse_xml_value(val.as_str()));
                }
            },
            None => {},
        }
        i = i + 1;
    }
    assert(all.subrange(0, all.len() as int) =~= all);
    let ghost fin = xml_state(all);
    let XmlScan { records, cur, keys, depth: _, tag: _, in_content: _, buf: _, root } = sc;
    let mut records = records;
    if cur.len() > 0 {
        let ghost r0 = records@;
        records.push(DataRecord::new(source_name, source_name, cur));
        assert forall|i: int| 0 <= i < r0.len() implies records@[i] == r0[i] by {}
    }
    let mut model: Vec<(&str, FieldType, u32)> = Vec::new();
    let mut k: usize = 0;
    while k < keys.len()
        invariant
            k <= keys@.len(),
            model@.len() == k,
            forall|j: int|
                0 <= j < k ==> (#[trigger] model@[j]).0@ == keys@[j]@ && model@[j].1
                    == FieldType::Text && model@[j].2 == 700u32,
        decreases keys.len() - k,
    {
        model.push((keys[k].as_str(), FieldType::Text, 700));
        k = k + 1;
    }
    proof {
        let mv = model@.map_values(|m: (&str, FieldType, u32)| (m.0@, m.1, m.2));
        let want = fin.keys.map_values(|k: Seq<char>| (k, FieldType::Text, 700u32));
        assert(fin.keys == keys@.map_values(|s: String| s@));
        assert forall|j: int| 0 <= j < mv.len() implies mv[j] == want[j] by {
            assert(model@[j].0@ == keys@[j]@);
            assert(fin.keys[j] == keys@[j]@);
        }
        assert(mv =~= want);
    }
    let fields = inferred_fields(model);
    let rc = chars_of(root.as_str());
    let node_name = if rc.len() == 0 {
        source_name.to_owned()
    } else {
        root
    };
    let n = records.len();
    let schema = single_node(source_name, node_name.as_str(), fields, n as u64);
    Ok(ParseResult { schema, records, errors: 0, warnings: Vec::new() })
}

} // verus!
