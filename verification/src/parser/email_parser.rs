//! Email parser: headers and body of a message become one record.
use vstd::prelude::*;
use crate::text::{
    chars_of, string_of, starts_with, starts_with_lit, find_char, find_char_exec, trim, trim_exec,
    slice_vec, spec_to_lower, to_lower, lines, lines_exec, views, push_all, eq_lit, contains,
    contains_lit,
};
use crate::types::error::AdatResult;
use crate::types::json::{JsonValue, JsonView};
use crate::types::record::{DataRecord, FieldMap, insert_entry};
use crate::types::schema::FieldType;
use super::{ParseResult, record_is, single_node_schema, inferred_fields, single_node};

verus! {

/// The state of the email scan.
pub struct EmailState {
    /// Headers read so far (lower-cased name, trimmed value).
    pub headers: Seq<(Seq<char>, JsonView)>,
    pub body: Seq<char>,
    pub in_body: bool,
    pub header: Seq<char>,
    pub value: Seq<char>,
}

/// The headers with the current header stored.
pub open spec fn store_header(st: EmailState) -> Seq<(Seq<char>, JsonView)> {
    insert_entry(st.headers, spec_to_lower(st.header), JsonView::Str(trim(st.value)))
}

/// The state after a line of an email.
pub open spec fn email_step(st: EmailState, line: Seq<char>) -> EmailState {
    if st.in_body {
        EmailState { body: st.body + line + seq!['\n'], ..st }
    } else if trim(line).len() == 0 && st.headers.len() > 0 {
        EmailState {
            headers: if st.header.len() > 0 {
                store_header(st)
            } else {
                st.headers
            },
            in_body: true,
            ..st
        }
    } else if starts_with(line, " "@) || starts_with(line, "\t"@) {
        EmailState { value: st.value + seq![' '] + trim(line), ..st }
    } else {
        let headers = if st.header.len() > 0 {
            store_header(st)
        } else {
            st.headers
        };
        match find_char(line, ':') {
            Some(c) => EmailState {
                headers,
                header: line.subrange(0, c),
                value: trim(line.subrange(c + 1, line.len() as int)),
                ..st
            },
            None => EmailState { headers, ..st },
        }
    }
}

/// The state after the lines of an email.
pub open spec fn email_state(ls: Seq<Seq<char>>) -> EmailState
    decreases ls.len(),
{
    if ls.len() == 0 {
        EmailState {
            headers: Seq::empty(),
            body: Seq::empty(),
            in_body: false,
            header: Seq::empty(),
            value: Seq::empty(),
        }
    } else {
        email_step(email_state(ls.drop_last()), ls.last())
    }
}

/// The fields of an email's record: its headers, then the trimmed body.
pub open spec fn email_fields(data: Seq<char>) -> Seq<(Seq<char>, JsonView)> {
    let st = email_state(lines(data));
    let headers = if st.header.len() > 0 && !st.in_body {
        store_header(st)
    } else {
        st.headers
    };
    insert_entry(headers, "body"@, JsonView::Str(trim(st.body)))
}

/// The fields of the email schema.
pub open spec fn email_schema_fields() -> Seq<(Seq<char>, FieldType, u32)> {
    seq![
        ("from"@, FieldType::Email, 950u32),
        ("to"@, FieldType::Email, 950u32),
        ("subject"@, FieldType::Text, 950u32),
        ("date"@, FieldType::DateTime, 900u32),
        ("body"@, FieldType::Text, 1000u32),
    ]
}

fn store_header_exec(headers: &mut FieldMap, header: &Vec<char>, value: &Vec<char>)
    ensures
        final(headers)@ == insert_entry(
            old(headers)@,
            spec_to_lower(header@),
            JsonView::Str(trim(value@)),
        ),
{
    headers.insert(string_of(&to_lower(header)), JsonValue::Str(string_of(&trim_exec(value))));
}

/// What parsing an e-mail message gives.
pub open spec fn email_outcome(r: AdatResult<ParseResult>, data: Seq<char>, source: Seq<char>) -> bool {
    &&& match r {
            Ok(p) => {
                &&& p.records@.len() == 1
                &&& record_is(p.records@[0], source, "email"@, email_fields(data))
                &&& single_node_schema(p.schema, source, "email"@, email_schema_fields(), 1)
                &&& p.errors == 0
                &&& p.warnings@.len() == 0
            },
            Err(_) => false,
        }
}

/// Parse an email message: one `email` record of its headers (names in lower case)
/// and its trimmed body.
pub fn parse(data: &str, source_name: &str) -> (r: AdatResult<ParseResult>)
    ensures
        email_outcome(r, data@, source_name@),
{
    let ls = lines_exec(chars_of(data).as_slice());
    let ghost all = views(ls@);
    let mut headers = FieldMap::new();
    let mut body: Vec<char> = Vec::new();
    let mut in_body = false;
    let mut header: Vec<char> = Vec::new();
    let mut value: Vec<char> = Vec::new();
    let mut i: usize = 0;
    while i < ls.len()
        invariant
            i <= ls@.len(),
            all == views(ls@),
            all == lines(data@),
            ({
                let st = email_state(all.subrange(0, i as int));
                &&& headers@ == st.headers
                &&& body@ == st.body
                &&& in_body == st.in_body
                &&& header@ == st.header
                &&& value@ == st.value
            }),
        decreases ls.len() - i,
    {
        assert(all.subrange(0, i + 1).drop_last() =~= all.subrange(0, i as int));
        assert(all[i as int] == ls@[i as int]@);
        let line = &ls[i];
        if in_body {
            push_all(&mut body, line);
            body.push('\n');
        } else if trim_exec(line).len() == 0 && headers.len() > 0 {
            if header.len() > 0 {
                store_header_exec(&mut headers, &header, &value);
            }
            in_body = true;
        } else if starts_with_lit(line, " ") || starts_with_lit(line, "\t") {
            value.push(' ');
            push_all(&mut value, &trim_exec(line));
        } else {
            if header.len() > 0 {
                store_header_exec(&mut headers, &header, &value);
            }
            match find_char_exec(line, ':') {
                Some(c) => {
                    header = slice_vec(line, 0, c);
                    value = trim_exec(&slice_vec(line, c + 1, line.len()));
                },
                None => {},
            }
        }
        i = i + 1;
    }
    assert(all.subrange(0, all.len() as int) =~= all);
    if header.len() > 0 && !in_body {
        store_header_exec(&mut headers, &header, &value);
    }
    headers.insert("body".to_owned(), JsonValue::Str(string_of(&trim_exec(&body))));
    let rec = DataRecord::new(source_name, "email", headers);
    let fields = inferred_fields(
        vec![
            ("from", FieldType::Email, 950),
            ("to", FieldType::Email, 950),
            ("subject", FieldType::Text, 950),
            ("date", FieldType::DateTime, 900),
            ("body", FieldType::Text, 1000),
        ],
    );
    let schema = single_node(source_name, "email", fields, 1);
    Ok(ParseResult { schema, records: vec![rec], errors: 0, warnings: Vec::new() })
}

} // verus!
