//! iCalendar parser: events and to-dos become records.
use vstd::prelude::*;
use crate::text::{
    chars_of, string_of, find_char, find_char_exec, trim, trim_exec, slice_vec, spec_to_lower,
    to_lower, lines, lines_exec, views, eq_lit, contains, contains_lit,
};
use crate::types::error::AdatResult;
use crate::types::json::{JsonValue, JsonView};
use crate::types::record::{DataRecord, FieldMap, insert_entry};
use crate::types::schema::FieldType;
use super::{ParseResult, record_is, single_node_schema, inferred_fields, single_node};

verus! {

/// The part of a text before its first `;`.
pub open spec fn before_semicolon(s: Seq<char>) -> Seq<char> {
    match find_char(s, ';') {
        Some(k) => s.subrange(0, k),
        None => s,
    }
}

/// Finished entries, whether an entry is open, and its fields, after the lines of an
/// iCalendar document.
pub open spec fn calendar_state(ls: Seq<Seq<char>>) -> (Seq<Seq<(Seq<char>, JsonView)>>, bool, Seq<(Seq<char>, JsonView)>)
    decreases ls.len(),
{
    if ls.len() == 0 {
        (Seq::empty(), false, Seq::empty())
    } else {
        let (recs, inside, cur) = calendar_state(ls.drop_last());
        let t = trim(ls.last());
        if t == "BEGIN:VEVENT"@ || t == "BEGIN:VTODO"@ {
            (
                recs,
                true,
                seq![
                    (
                        "type"@,
                        JsonView::Str(
                            if contains(t, "VEVENT"@) {
                                "event"@
                            } else {
                                "todo"@
                            },
                        ),
                    ),
                ],
            )
        } else if t == "END:VEVENT"@ || t == "END:VTODO"@ {
            (
                if inside && cur.len() > 0 {
                    recs.push(cur)
                } else {
                    recs
                },
                false,
                cur,
            )
        } else if inside {
            match find_char(t, ':') {
                Some(c) => {
                    let key = spec_to_lower(before_semicolon(t.subrange(0, c)));
                    if key.len() > 0 {
                        (
                            recs,
                            inside,
                            insert_entry(cur, key, JsonView::Str(t.subrange(c + 1, t.len() as int))),
                        )
                    } else {
                        (recs, inside, cur)
                    }
                },
                None => (recs, inside, cur),
            }
        } else {
            (recs, inside, cur)
        }
    }
}

/// The fields of the calendar schema.
pub open spec fn calendar_schema_fields() -> Seq<(Seq<char>, FieldType, u32)> {
    seq![
        ("type"@, FieldType::Text, 1000u32),
        ("summary"@, FieldType::Text, 950u32),
        ("dtstart"@, FieldType::DateTime, 900u32),
        ("dtend"@, FieldType::DateTime, 900u32),
        ("location"@, FieldType::Text, 700u32),
        ("description"@, FieldType::Text, 700u32),
    ]
}

/// What parsing iCalendar data gives.
pub open spec fn calendar_outcome(r: AdatResult<ParseResult>, data: Seq<char>, source: Seq<char>) -> bool {
    &&& (match r {
            Ok(p) => {
                let recs = calendar_state(lines(data)).0;
                &&& p.records@.len() == recs.len()
                &&& forall|i: int|
                    0 <= i < recs.len() ==> record_is(
                        #[trigger] p.records@[i],
                        source,
                        "calendar_entry"@,
                        recs[i],
                    )
                &&& single_node_schema(
                    p.schema,
                    source,
                    "calendar_entry"@,
                    calendar_schema_fields(),
                    recs.len() as u64,
                )
                &&& p.errors == 0
                &&& p.warnings@.len() == 0
            },
            Err(_) => false,
        })
}

/// Parse iCalendar data: each `VEVENT` or `VTODO` becomes a `calendar_entry` record
/// of its type and properties (names in lower case, parameters dropped).
pub fn parse(data: &str, source_name: &str) -> (r: AdatResult<ParseResult>)
    ensures
        calendar_outcome(r, data@, source_name@),
{
    let ls = lines_exec(chars_of(data).as_slice());
    let ghost all = views(ls@);
    let mut records: Vec<DataRecord> = Vec::new();
    let mut inside = false;
    let mut cur = FieldMap::new();
    let mut i: usize = 0;
    while i < ls.len()
        invariant
            i <= ls@.len(),
            all == views(ls@),
            all == lines(data@),
            ({
                let st = calendar_state(all.subrange(0, i as int));
                &&& records@.len() == st.0.len()
                &&& forall|k: int|
                    0 <= k < st.0.len() ==> record_is(
                        #[trigger] records@[k],
                        source_name@,
                        "calendar_entry"@,
                        st.0[k],
                    )
                &&& inside == st.1
                &&& cur@ == st.2
            }),
        decreases ls.len() - i,
    {
        assert(all.subrange(0, i + 1).drop_last() =~= all.subrange(0, i as int));
        assert(all[i as int] == ls@[i as int]@);
        let t = trim_exec(&ls[i]);
        if eq_lit(&t, "BEGIN:VEVENT") || eq_lit(&t, "BEGIN:VTODO") {
            inside = true;
            cur = FieldMap::new();
            let kind = if contains_lit(&t, "VEVENT") {
                "event"
            } else {
                "todo"
            };
            cur.insert("type".to_owned(), JsonValue::Str(kind.to_owned()));
        } else if eq_lit(&t, "END:VEVENT") || eq_lit(&t, "END:VTODO") {
            if inside && cur.len() > 0 {
                let ghost r0 = records@;
                records.push(DataRecord::new(source_name, "calendar_entry", cur.duplicate()));
                assert forall|k: int| 0 <= k < r0.len() implies records@[k] == r0[k] by {}
            }
            inside = false;
        } else if inside {
            match find_char_exec(&t, ':') {
                Some(c) => {
                    let tl = t.len();
                    let head = slice_vec(&t, 0, c);
                    let piece = match find_char_exec(&head, ';') {
                        Some(k) => slice_vec(&head, 0, k),
                        None => head,
                    };
                    let key = to_lower(&piece);
                    if key.len() > 0 {
                        let val = slice_vec(&t, c + 1, t.len());
                        cur.insert(string_of(&key), JsonValue::Str(string_of(&val)));
                    }
                },
                None => {},
            }
        }
        i = i + 1;
    }
    assert(all.subrange(0, all.len() as int) =~= all);
    let fields = inferred_fields(
        vec![
            ("type", FieldType::Text, 1000),
            ("summary", FieldType::Text, 950),
            ("dtstart", FieldType::DateTime, 900),
            ("dtend", FieldType::DateTime, 900),
            ("location", FieldType::Text, 700),
            ("description", FieldType::Text, 700),
        ],
    );
    let n = records.len();
    let schema = single_node(source_name, "calendar_entry", fields, n as u64);
    Ok(ParseResult { schema, records, errors: 0, warnings: Vec::new() })
}

} // verus!
