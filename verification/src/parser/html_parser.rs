//! HTML and Markdown parsers: headings, table rows and text become records.
use vstd::prelude::*;
use crate::text::{
    chars_of, string_of, contains, contains_lit, find, find_exec, find_char, find_char_exec, trim,
    trim_exec, trim_start_char, trim_start_char_exec, slice_vec, starts_with, starts_with_lit,
    lines, lines_exec, views, push_all,
};
use crate::types::error::AdatResult;
use crate::types::json::{JsonValue, JsonView, element_views, lemma_element_views};
use crate::types::record::DataRecord;
use crate::types::schema::FieldType;
use super::{
    ParseResult, fields_of, pair_views, single_node_schema, inferred_fields, single_node,
    RecordModel, records_match, push_record,
};

verus! {

/// A text record: the collected text, trimmed.
pub open spec fn text_record(cur: Seq<char>) -> RecordModel {
    (
        "content"@,
        fields_of(seq![("type"@, JsonView::Str("text"@)), ("content"@, JsonView::Str(trim(cur)))]),
    )
}

/// A heading record.
pub open spec fn heading_record(h: Seq<char>) -> RecordModel {
    ("heading"@, fields_of(seq![("type"@, JsonView::Str("heading"@)), ("content"@, JsonView::Str(h))]))
}

/// A table-row record.
pub open spec fn table_record(cells: Seq<Seq<char>>) -> RecordModel {
    (
        "table"@,
        fields_of(
            seq![
                ("type"@, JsonView::Str("table_row"@)),
                ("cells"@, JsonView::Array(cells.map_values(|c: Seq<char>| JsonView::Str(c)))),
            ],
        ),
    )
}

/// Records and collected text after the lines of an HTML document.
pub open spec fn html_state(ls: Seq<Seq<char>>) -> (Seq<RecordModel>, Seq<char>)
    decreases ls.len(),
{
    if ls.len() == 0 {
        (Seq::empty(), Seq::empty())
    } else {
        let (recs, cur) = html_state(ls.drop_last());
        let t = trim(ls.last());
        match html_heading(t) {
            Some(h) => {
                let recs1 = if cur.len() > 0 {
                    recs.push(text_record(cur))
                } else {
                    recs
                };
                (recs1.push(heading_record(h)), Seq::empty())
            },
            None => if starts_with(t, "<tr"@) {
                match table_row(t) {
                    Some(cells) => (recs.push(table_record(cells)), cur),
                    None => (recs, cur),
                }
            } else if stripped(t).len() > 0 {
                (recs, cur + stripped(t) + seq![' '])
            } else {
                (recs, cur)
            },
        }
    }
}

/// The records of an HTML document: headings, table rows and the text between.
pub open spec fn html_records(data: Seq<char>) -> Seq<RecordModel> {
    let (recs, cur) = html_state(lines(data));
    if cur.len() > 0 {
        recs.push(text_record(cur))
    } else {
        recs
    }
}

/// Every line's heading can be cut out.
pub open spec fn html_ok(data: Seq<char>) -> bool {
    forall|i: int| 0 <= i < lines(data).len() ==> heading_ok(trim(#[trigger] lines(data)[i]))
}

/// Records and open section after the lines of a Markdown document: the records, the
/// current heading and the current content.
pub open spec fn md_state(ls: Seq<Seq<char>>) -> (Seq<RecordModel>, Seq<char>, Seq<char>)
    decreases ls.len(),
{
    if ls.len() == 0 {
        (Seq::empty(), Seq::empty(), Seq::empty())
    } else {
        let (recs, sec, content) = md_state(ls.drop_last());
        let l = ls.last();
        if starts_with(l, "#"@) {
            let recs1 = if sec.len() > 0 || content.len() > 0 {
                recs.push(section_record(sec, content))
            } else {
                recs
            };
            (recs1, trim(trim_start_char(l, '#')), Seq::empty())
        } else {
            (recs, sec, content + l + seq!['\n'])
        }
    }
}

/// A Markdown section record: its heading and its content, trimmed.
pub open spec fn section_record(sec: Seq<char>, content: Seq<char>) -> RecordModel {
    (
        "section"@,
        fields_of(
            seq![("heading"@, JsonView::Str(sec)), ("content"@, JsonView::Str(trim(content)))],
        ),
    )
}

/// The records of a Markdown document: one per section.
pub open spec fn md_records(data: Seq<char>) -> Seq<RecordModel> {
    let (recs, sec, content) = md_state(lines(data));
    if sec.len() > 0 || content.len() > 0 {
        recs.push(section_record(sec, content))
    } else {
        recs
    }
}

/// The fields of the HTML and Markdown schemas.
pub open spec fn html_schema_fields() -> Seq<(Seq<char>, FieldType, u32)> {
    seq![("type"@, FieldType::Text, 1000u32), ("content"@, FieldType::Text, 1000u32)]
}

/// The fields of the Markdown schema.
pub open spec fn md_schema_fields() -> Seq<(Seq<char>, FieldType, u32)> {
    seq![("heading"@, FieldType::Text, 1000u32), ("content"@, FieldType::Text, 1000u32)]
}

/// The opening tag prefix of heading level `k` (1 to 6): `<hk`.
pub open spec fn heading_open(k: int) -> Seq<char> {
    seq!['<', 'h', (('0' as u32) + k) as char]
}

/// The closing tag of heading level `k` (1 to 6): `</hk>`.
pub open spec fn heading_close(k: int) -> Seq<char> {
    seq!['<', '/', 'h', (('0' as u32) + k) as char, '>']
}

/// The heading found from level `k` on: the first level whose opening prefix and
/// closing tag both occur; its text runs from after the first `>` to the closing tag.
/// None when that level is found but the line has no `>`.
pub open spec fn heading_from(line: Seq<char>, k: int) -> Option<(int, int)>
    decreases 7 - k,
{
    if k < 1 || k > 6 {
        None
    } else if contains(line, heading_open(k)) && contains(line, heading_close(k)) {
        match find_char(line, '>') {
            Some(g) => Some((g + 1, find(line, heading_close(k))->0)),
            None => None,
        }
    } else {
        heading_from(line, k + 1)
    }
}

/// The text of an HTML heading on a line.
pub open spec fn html_heading(line: Seq<char>) -> Option<Seq<char>> {
    match heading_from(line, 1) {
        Some((s, e)) => Some(line.subrange(s, e)),
        None => None,
    }
}

/// The heading's text does not start after its closing tag.
pub open spec fn heading_ok(line: Seq<char>) -> bool {
    heading_from(line, 1) matches Some((s, e)) ==> s <= e
}

fn heading_lit(k: usize) -> (r: (Vec<char>, Vec<char>))
    requires
        1 <= k <= 6,
    ensures
        r.0@ == heading_open(k as int),
        r.1@ == heading_close(k as int),
{
    let d = crate::text::digit_char(k as u128);
    let open = vec!['<', 'h', d];
    let close = vec!['<', '/', 'h', d, '>'];
    assert(open@ =~= heading_open(k as int));
    assert(close@ =~= heading_close(k as int));
    (open, close)
}

/// The text of an HTML heading (`<h1>` to `<h6>`) on a line.
pub fn extract_html_heading(line: &str) -> (r: Option<String>)
    requires
        heading_ok(line@),
    ensures
        match r {
            Some(h) => html_heading(line@) == Some(h@),
            None => html_heading(line@) is None,
        },
{
    let cs = chars_of(line);
    let cl = cs.len();
    let mut k: usize = 1;
    while k <= 6
        invariant
            1 <= k <= 7,
            cs@ == line@,
            cl == cs@.len(),
            heading_from(line@, 1) == heading_from(line@, k as int),
            heading_ok(line@),
        decreases 7 - k,
    {
        let (open, close) = heading_lit(k);
        if crate::text::contains_exec(&cs, &open) && crate::text::contains_exec(&cs, &close) {
            let start = match find_char_exec(&cs, '>') {
                Some(g) => g + 1,
                None => {
                    return None;
                },
            };
            proof {
                crate::text::lemma_find_contains(cs@, close@);
            }
            let end = match find_exec(&cs, &close) {
                Some(e) => e,
                None => {
                    return None;
                },
            };
            return Some(string_of(&slice_vec(&cs, start, end)));
        }
        k = k + 1;
    }
    None
}

/// The cells of a table row: the text between each `<td...>` and the following
/// `</td>`; `None` when a cell is not closed.
pub open spec fn table_cells(rest: Seq<char>) -> Option<Seq<Seq<char>>>
    decreases rest.len(),
{
    match find(rest, "<td"@) {
        None => Some(Seq::empty()),
        Some(s) => match find_char(rest.subrange(s, rest.len() as int), '>') {
            None => None,
            Some(g) => {
                let cs = s + g + 1;
                match find(rest.subrange(cs, rest.len() as int), "</td>"@) {
                    None => None,
                    Some(e0) => {
                        let e = cs + e0;
                        if 0 <= s && 0 <= g && 0 <= e0 && e + 5 <= rest.len() {
                            match table_cells(rest.subrange(e + 5, rest.len() as int)) {
                                None => None,
                                Some(more) => Some(seq![rest.subrange(cs, e)] + more),
                            }
                        } else {
                            None
                        }
                    },
                }
            },
        },
    }
}

/// The cells of an HTML table row, when it has any.
pub open spec fn table_row(line: Seq<char>) -> Option<Seq<Seq<char>>> {
    match table_cells(line) {
        Some(cells) => if cells.len() > 0 {
            Some(cells)
        } else {
            None
        },
        None => None,
    }
}

fn find_facts(s: &Vec<char>, p: &Vec<char>) -> (r: Option<usize>)
    ensures
        r matches Some(k) ==> find(s@, p@) == Some(k as int) && k + p@.len() <= s@.len(),
        r is None ==> find(s@, p@) is None,
{
    let r = find_exec(s, p);
    proof {
        crate::text::lemma_find_contains(s@, p@);
    }
    r
}

/// The cells of an HTML table row.
pub fn extract_table_row(line: &str) -> (r: Option<Vec<String>>)
    ensures
        match r {
            Some(cells) => table_row(line@) == Some(cells@.map_values(|c: String| c@)),
            None => table_row(line@) is None,
        },
{
    let mut rest = chars_of(line);
    let td_open = chars_of("<td");
    let td_close = chars_of("</td>");
    proof {
        reveal_strlit("</td>");
    }
    let mut cells: Vec<String> = Vec::new();
    loop
        invariant
            td_open@ == "<td"@,
            td_close@ == "</td>"@,
            td_close@.len() == 5,
            table_cells(line@) == match table_cells(rest@) {
                None => None,
                Some(more) => Some(cells@.map_values(|c: String| c@) + more),
            },
        ensures
            table_cells(line@) == Some(cells@.map_values(|c: String| c@)),
        decreases rest@.len(),
    {
        let s = match find_facts(&rest, &td_open) {
            Some(s) => s,
            None => {
                assert(cells@.map_values(|c: String| c@) + Seq::<Seq<char>>::empty()
                    =~= cells@.map_values(|c: String| c@));
                break ;
            },
        };
        let n = rest.len();
        let tail = slice_vec(&rest, s, n);
        let g = match find_char_exec(&tail, '>') {
            Some(g) => g,
            None => {
                return None;
            },
        };
        let cs = s + g + 1;
        let tail2 = slice_vec(&rest, cs, n);
        let e0 = match find_facts(&tail2, &td_close) {
            Some(e0) => e0,
            None => {
                return None;
            },
        };
        let e = cs + e0;
        let ghost cell = rest@.subrange(cs as int, e as int);
        let ghost before = cells@.map_values(|c: String| c@);
        cells.push(string_of(&slice_vec(&rest, cs, e)));
        assert(cells@.map_values(|c: String| c@) =~= before.push(cell));
        let next = slice_vec(&rest, e + 5, n);
        proof {
            assert forall|more: Seq<Seq<char>>| true implies before + (seq![cell] + more)
                =~= before.push(cell) + more by {}
        }
        rest = next;
    }
    if cells.len() == 0 {
        None
    } else {
        Some(cells)
    }
}

/// Text without its tags (everything from `<` to `>`), as the scan keeps it: the
/// chars outside tags, given whether the scan starts inside a tag.
pub open spec fn untagged(s: Seq<char>) -> (Seq<char>, bool)
    decreases s.len(),
{
    if s.len() == 0 {
        (Seq::empty(), false)
    } else {
        let (t, in_tag) = untagged(s.drop_last());
        let c = s.last();
        if c == '<' {
            (t, true)
        } else if c == '>' {
            (t, false)
        } else if !in_tag {
            (t.push(c), in_tag)
        } else {
            (t, in_tag)
        }
    }
}

/// Text without HTML tags, trimmed.
pub open spec fn stripped(s: Seq<char>) -> Seq<char> {
    trim(untagged(s).0)
}

/// Remove HTML tags from a text and trim it.
pub fn strip_html_tags(text: &str) -> (r: String)
    ensures
        r@ == stripped(text@),
{
    let cs = chars_of(text);
    let mut out: Vec<char> = Vec::new();
    let mut in_tag = false;
    let mut i: usize = 0;
    while i < cs.len()
        invariant
            i <= cs@.len(),
            (out@, in_tag) == untagged(cs@.subrange(0, i as int)),
        decreases cs.len() - i,
    {
        assert(cs@.subrange(0, i + 1).drop_last() =~= cs@.subrange(0, i as int));
        let c = cs[i];
        if c == '<' {
            in_tag = true;
        } else if c == '>' {
            in_tag = false;
        } else if !in_tag {
            out.push(c);
        }
        i = i + 1;
    }
    assert(cs@.subrange(0, cs@.len() as int) =~= cs@);
    string_of(&trim_exec(&out))
}

fn text_pairs(kind: &str, key: &str, value: String) -> (r: Vec<(String, JsonValue)>)
    ensures
        pair_views(r@) == seq![("type"@, JsonView::Str(kind@)), (key@, JsonView::Str(value@))],
{
    let r = vec![("type".to_owned(), JsonValue::Str(kind.to_owned())), (key.to_owned(), JsonValue::Str(value))];
    assert(pair_views(r@) =~= seq![("type"@, JsonView::Str(kind@)), (key@, JsonView::Str(value@))]);
    r
}

/// What parsing HTML data gives.
pub open spec fn html_outcome(r: AdatResult<ParseResult>, data: Seq<char>, source: Seq<char>) -> bool {
    &&& match r {
            Ok(p) => {
                &&& records_match(p.records@, source, html_records(data))
                &&& single_node_schema(
                    p.schema,
                    source,
                    source,
                    html_schema_fields(),
                    html_records(data).len() as u64,
                )
                &&& p.errors == 0
                &&& p.warnings@.len() == 0
            },
            Err(_) => false,
        }
}

/// Parse an HTML document: a `heading` record per heading, a `table` record per table
/// row, and a `content` record for the text collected between headings.
pub fn parse(data: &str, source_name: &str) -> (r: AdatResult<ParseResult>)
    requires
        html_ok(data@),
    ensures
        html_outcome(r, data@, source_name@),
{
    let ls = lines_exec(chars_of(data).as_slice());
    let ghost all = views(ls@);
    let mut records: Vec<DataRecord> = Vec::new();
    let mut cur: Vec<char> = Vec::new();
    let mut i: usize = 0;
    while i < ls.len()
        invariant
            i <= ls@.len(),
            all == views(ls@),
            all == lines(data@),
            html_ok(data@),
            records_match(records@, source_name@, html_state(all.subrange(0, i as int)).0),
            cur@ == html_state(all.subrange(0, i as int)).1,
        decreases ls.len() - i,
    {
        assert(all.subrange(0, i + 1).drop_last() =~= all.subrange(0, i as int));
        assert(all[i as int] == ls@[i as int]@);
        let ghost st = html_state(all.subrange(0, i as int));
        let t = trim_exec(&ls[i]);
        let line = string_of(&t);
        assert(heading_ok(t@));
        match extract_html_heading(line.as_str()) {
            Some(h) => {
                if cur.len() > 0 {
                    let content = string_of(&trim_exec(&cur));
                    push_record(&mut records, source_name, "content", text_pairs("text", "content", content), Ghost(st.0));
                    cur = Vec::new();
                }
                let ghost recs1 = if st.1.len() > 0 {
                    st.0.push(text_record(st.1))
                } else {
                    st.0
                };
                push_record(&mut records, source_name, "heading", text_pairs("heading", "content", h), Ghost(recs1));
                cur = Vec::new();
            },
            None => {
                if starts_with_lit(&t, "<tr") {
                    match extract_table_row(line.as_str()) {
                        Some(cells) => {
                            let ghost cv = cells@.map_values(|c: String| c@);
                            let mut elems: Vec<JsonValue> = Vec::new();
                            let mut k: usize = 0;
                            while k < cells.len()
                                invariant
                                    k <= cells@.len(),
                                    cv == cells@.map_values(|c: String| c@),
                                    element_views(elems@) == cv.subrange(0, k as int).map_values(
                                        |c: Seq<char>| JsonView::Str(c),
                                    ),
                                decreases cells.len() - k,
                            {
                                let ghost e0 = elems@;
                                elems.push(JsonValue::Str(cells[k].clone()));
                                proof {
                                    lemma_element_views(elems@);
                                    lemma_element_views(e0);
                                    assert(cv[k as int] == cells@[k as int]@);
                                    assert(elems@[k as int]@ == JsonView::Str(cv[k as int]));
                                    assert forall|j: int| 0 <= j <= k implies #[trigger] element_views(elems@)[j] == JsonView::Str(cv[j]) by {
                                        if j < k {
                                            assert(elems@[j] == e0[j]);
                                            assert(element_views(e0)[j] == cv.subrange(0, k as int).map_values(
                                                |c: Seq<char>| JsonView::Str(c),
                                            )[j]);
                                        }
                                    }
                                    assert(element_views(elems@) =~= cv.subrange(0, k + 1).map_values(
                                        |c: Seq<char>| JsonView::Str(c),
                                    ));
                                }
                                k = k + 1;
                            }
                            assert(cv.subrange(0, cv.len() as int) =~= cv);
                            let pairs = vec![
                                ("type".to_owned(), JsonValue::Str("table_row".to_owned())),
                                ("cells".to_owned(), JsonValue::Array(elems)),
                            ];
                            assert(pair_views(pairs@) =~= seq![
                                ("type"@, JsonView::Str("table_row"@)),
                                ("cells"@, JsonView::Array(cv.map_values(|c: Seq<char>| JsonView::Str(c)))),
                            ]);
                            push_record(&mut records, source_name, "table", pairs, Ghost(st.0));
                        },
                        None => {},
                    }
                } else {
                    let x = strip_html_tags(line.as_str());
                    let xc = chars_of(x.as_str());
                    if xc.len() > 0 {
                        push_all(&mut cur, &xc);
                        cur.push(' ');
                    }
                }
            },
        }
        i = i + 1;
    }
    assert(all.subrange(0, all.len() as int) =~= all);
    if cur.len() > 0 {
        let ghost st = html_state(all);
        let content = string_of(&trim_exec(&cur));
        push_record(&mut records, source_name, "content", text_pairs("text", "content", content), Ghost(st.0));
    }
    let fields = inferred_fields(vec![("type", FieldType::Text, 1000), ("content", FieldType::Text, 1000)]);
    let n = records.len();
    let schema = single_node(source_name, source_name, fields, n as u64);
    Ok(ParseResult { schema, records, errors: 0, warnings: Vec::new() })
}

/// What parsing Markdown data gives.
pub open spec fn markdown_outcome(r: AdatResult<ParseResult>, data: Seq<char>, source: Seq<char>) -> bool {
    &&& match r {
            Ok(p) => {
                &&& records_match(p.records@, source, md_records(data))
                &&& single_node_schema(
                    p.schema,
                    source,
                    source,
                    md_schema_fields(),
                    md_records(data).len() as u64,
                )
                &&& p.errors == 0
                &&& p.warnings@.len() == 0
            },
            Err(_) => false,
        }
}

/// Parse a Markdown document: one `section` record per heading (`#` lines), with the
/// heading and the trimmed content that follows it.
pub fn parse_markdown(data: &str, source_name: &str) -> (r: AdatResult<ParseResult>)
    ensures
        markdown_outcome(r, data@, source_name@),
{
    let ls = lines_exec(chars_of(data).as_slice());
    let ghost all = views(ls@);
    let mut records: Vec<DataRecord> = Vec::new();
    let mut sec: Vec<char> = Vec::new();
    let mut content: Vec<char> = Vec::new();
    let mut i: usize = 0;
    while i < ls.len()
        invariant
            i <= ls@.len(),
            all == views(ls@),
            all == lines(data@),
            records_match(records@, source_name@, md_state(all.subrange(0, i as int)).0),
            sec@ == md_state(all.subrange(0, i as int)).1,
            content@ == md_state(all.subrange(0, i as int)).2,
        decreases ls.len() - i,
    {
        assert(all.subrange(0, i + 1).drop_last() =~= all.subrange(0, i as int));
        assert(all[i as int] == ls@[i as int]@);
        let ghost st = md_state(all.subrange(0, i as int));
        let l = &ls[i];
        if starts_with_lit(l, "#") {
            if sec.len() > 0 || content.len() > 0 {
                let pairs = vec![
                    ("heading".to_owned(), JsonValue::Str(string_of(&sec))),
                    ("content".to_owned(), JsonValue::Str(string_of(&trim_exec(&content)))),
                ];
                assert(pair_views(pairs@) =~= seq![
                    ("heading"@, JsonView::Str(sec@)),
                    ("content"@, JsonView::Str(trim(content@))),
                ]);
                push_record(&mut records, source_name, "section", pairs, Ghost(st.0));
            }
            sec = trim_exec(&trim_start_char_exec(l, '#'));
            content = Vec::new();
        } else {
            push_all(&mut content, l);
            content.push('\n');
        }
        i = i + 1;
    }
    assert(all.subrange(0, all.len() as int) =~= all);
    if sec.len() > 0 || content.len() > 0 {
        let ghost st = md_state(all);
        let pairs = vec![
            ("heading".to_owned(), JsonValue::Str(string_of(&sec))),
            ("content".to_owned(), JsonValue::Str(string_of(&trim_exec(&content)))),
        ];
        assert(pair_views(pairs@) =~= seq![
            ("heading"@, JsonView::Str(sec@)),
            ("content"@, JsonView::Str(trim(content@))),
        ]);
        push_record(&mut records, source_name, "section", pairs, Ghost(st.0));
    }
    let fields = inferred_fields(vec![("heading", FieldType::Text, 1000), ("content", FieldType::Text, 1000)]);
    let n = records.len();
    let schema = single_node(source_name, source_name, fields, n as u64);
    Ok(ParseResult { schema, records, errors: 0, warnings: Vec::new() })
}

} // verus!
