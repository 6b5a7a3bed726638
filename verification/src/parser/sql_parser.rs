//! SQL parser: `CREATE TABLE` statements become schema nodes and `INSERT INTO`
//! statements become records.
//!
//! Keywords are matched in the upper-cased line, and the line is cut at the byte
//! position found there, as the text is read byte-wise.
use vstd::prelude::*;
use vstd::utf8::{encode_utf8, is_char_boundary, encode_utf8_decode_utf8};
use crate::text::{
    chars_of, string_of, contains, contains_lit, find, find_exec, trim, trim_exec, slice_vec,
    starts_with, starts_with_lit, spec_to_upper, to_upper, lines, lines_exec, views, is_ws,
    char_is_ws, trim_set, trim_set_exec, trim_start_lit, trim_start_lit_exec, trim_start_char,
    trim_start_char_exec, trim_end_set, trim_end_set_exec, trim_char, trim_char_exec, split,
    split_exec, parse_i64, parse_i64_spec, eq_lit, decimal, decimal_exec, push_all,
};
use crate::types::error::AdatResult;
use crate::types::json::{JsonValue, JsonView};
use crate::types::json_io::{spec_float_value, parse_float_value};
use crate::types::record::DataRecord;
use crate::types::schema::{FieldType, SchemaField, SchemaNode, UniversalSchema};
use super::log_parser::after_bytes;
use super::{
    ParseResult, fields_of, pair_views, RecordModel, records_match, push_record, field_is, record_is,
};

verus! {

/// The byte position just after `pat` (of `n` bytes) in a line, found in the line's
/// upper-cased form.
pub open spec fn upper_cut(line: Seq<char>, pat: Seq<char>, n: int) -> Option<int> {
    let u = spec_to_upper(line);
    match find(u, pat) {
        Some(k) => Some(encode_utf8(u.subrange(0, k)).len() + n),
        None => None,
    }
}

/// A char boundary lies within the bytes.
pub proof fn lemma_boundary_within(b: Seq<u8>, i: int)
    requires
        vstd::utf8::valid_utf8(b),
        is_char_boundary(b, i),
    ensures
        0 <= i <= b.len(),
{
}

/// The part of a text before its first whitespace or `(`.
pub open spec fn before_ws_paren(s: Seq<char>) -> Seq<char>
    decreases s.len(),
{
    if s.len() == 0 {
        s
    } else if is_ws(s[0]) || s[0] == '(' {
        Seq::empty()
    } else {
        seq![s[0]] + before_ws_paren(s.drop_first())
    }
}

/// Position of the first whitespace or `(` in a text.
pub open spec fn ws_paren_pos(s: Seq<char>) -> Option<int>
    decreases s.len(),
{
    if s.len() == 0 {
        None
    } else if is_ws(s[0]) || s[0] == '(' {
        Some(0)
    } else {
        match ws_paren_pos(s.drop_first()) {
            Some(k) => Some(k + 1),
            None => None,
        }
    }
}

/// The name of the table a `CREATE TABLE` line creates, unquoted.
pub open spec fn table_name_of(line: Seq<char>) -> Option<Seq<char>> {
    match upper_cut(line, "CREATE TABLE"@, 12) {
        None => None,
        Some(pos) => {
            let rest = trim(trim_start_lit(trim(after_bytes(line, pos)), "IF NOT EXISTS"@));
            let name = trim_set(before_ws_paren(rest), seq!['`', '"', '[', ']']);
            if name.len() == 0 {
                None
            } else {
                Some(name)
            }
        },
    }
}

/// The line can be cut after `CREATE TABLE`.
pub open spec fn table_name_ok(line: Seq<char>) -> bool {
    upper_cut(line, "CREATE TABLE"@, 12) matches Some(pos) ==> is_char_boundary(
        encode_utf8(line),
        pos,
    )
}

/// The upper-cased text and the byte position after `pat` in it.
fn upper_cut_exec(line: &str, upper: &Vec<char>, pat: &str, n: usize) -> (r: Option<usize>)
    requires
        upper@ == spec_to_upper(line@),
        upper_cut(line@, pat@, n as int) matches Some(pos) ==> is_char_boundary(
            encode_utf8(line@),
            pos,
        ),
    ensures
        r matches Some(p) ==> upper_cut(line@, pat@, n as int) == Some(p as int),
        r is None ==> upper_cut(line@, pat@, n as int) is None,
{
    let p = chars_of(pat);
    let k = match find_exec(upper, &p) {
        Some(k) => k,
        None => {
            return None;
        },
    };
    proof {
        crate::text::lemma_find_contains(upper@, p@);
    }
    let prefix = string_of(&slice_vec(upper, 0, k));
    let pre_len = prefix.as_str().as_bytes().len();
    let total = line.as_bytes().len();
    // The cut lies within the line, so the sum cannot overflow.
    proof {
        vstd::utf8::encode_utf8_valid_utf8(line@);
        lemma_boundary_within(encode_utf8(line@), pre_len + n);
    }
    Some(pre_len + n)
}

fn before_ws_paren_exec(s: &[char]) -> (r: (Vec<char>, Option<usize>))
    ensures
        r.0@ == before_ws_paren(s@),
        r.1 matches Some(k) ==> ws_paren_pos(s@) == Some(k as int),
        r.1 is None ==> ws_paren_pos(s@) is None,
{
    let mut i: usize = 0;
    assert(s@.subrange(0, s@.len() as int) =~= s@);
    assert(s@.subrange(0, 0) + s@ =~= s@);
    while i < s.len() && !(char_is_ws(s[i]) || s[i] == '(')
        invariant
            i <= s@.len(),
            before_ws_paren(s@) == s@.subrange(0, i as int) + before_ws_paren(
                s@.subrange(i as int, s@.len() as int),
            ),
            ws_paren_pos(s@) == match ws_paren_pos(s@.subrange(i as int, s@.len() as int)) {
                Some(k) => Some(k + i),
                None => None,
            },
        decreases s.len() - i,
    {
        let ghost t = s@.subrange(i as int, s@.len() as int);
        assert(t.drop_first() =~= s@.subrange(i + 1, s@.len() as int));
        assert(s@.subrange(0, i as int) + seq![s@[i as int]] =~= s@.subrange(0, i + 1));
        i = i + 1;
    }
    if i < s.len() {
        assert(before_ws_paren(s@.subrange(i as int, s@.len() as int)) =~= Seq::<char>::empty());
        assert(s@.subrange(0, i as int) + Seq::<char>::empty() =~= s@.subrange(0, i as int));
        (slice_vec(s, 0, i), Some(i))
    } else {
        assert(s@.subrange(i as int, s@.len() as int) =~= Seq::<char>::empty());
        assert(s@.subrange(0, i as int) + Seq::<char>::empty() =~= s@.subrange(0, i as int));
        (slice_vec(s, 0, i), None)
    }
}

/// The line after a byte position, read as text.
fn after_cut(line: &str, pos: usize) -> (r: Vec<char>)
    requires
        is_char_boundary(encode_utf8(line@), pos as int),
    ensures
        r@ == after_bytes(line@, pos as int),
{
    let (_head, tail) = line.split_at(pos);
    proof {
        encode_utf8_decode_utf8(tail@);
    }
    chars_of(tail)
}

/// The name of the table that a `CREATE TABLE` line creates (after an optional
/// `IF NOT EXISTS`), without quotes or brackets.
pub fn extract_table_name(line: &str) -> (r: Option<String>)
    requires
        table_name_ok(line@),
    ensures
        match r {
            Some(n) => table_name_of(line@) == Some(n@),
            None => table_name_of(line@) is None,
        },
{
    let upper = to_upper(chars_of(line).as_slice());
    let pos = match upper_cut_exec(line, &upper, "CREATE TABLE", 12) {
        Some(p) => p,
        None => {
            return None;
        },
    };
    let a = trim_exec(&after_cut(line, pos));
    let b = trim_exec(&trim_start_lit_exec(&a, &chars_of("IF NOT EXISTS")));
    let (piece, _) = before_ws_paren_exec(&b);
    let quotes = vec!['`', '"', '[', ']'];
    assert(quotes@ =~= seq!['`', '"', '[', ']']);
    let name = trim_set_exec(&piece, &quotes);
    if name.len() == 0 {
        None
    } else {
        Some(string_of(&name))
    }
}

/// Position of the first whitespace char in a text.
pub open spec fn ws_pos(s: Seq<char>) -> Option<int>
    decreases s.len(),
{
    if s.len() == 0 {
        None
    } else if is_ws(s[0]) {
        Some(0)
    } else {
        match ws_pos(s.drop_first()) {
            Some(k) => Some(k + 1),
            None => None,
        }
    }
}

/// The part of a text before its first whitespace char.
pub open spec fn before_ws(s: Seq<char>) -> Seq<char> {
    match ws_pos(s) {
        Some(k) => s.subrange(0, k),
        None => s,
    }
}

proof fn lemma_ws_pos(s: Seq<char>)
    ensures
        ws_pos(s) matches Some(k) ==> 0 <= k < s.len() && is_ws(s[k]) && forall|j: int|
            0 <= j < k ==> !is_ws(s[j]),
        ws_pos(s) is None ==> forall|j: int| 0 <= j < s.len() ==> !is_ws(s[j]),
    decreases s.len(),
{
    if s.len() > 0 {
        lemma_ws_pos(s.drop_first());
        assert forall|j: int| 0 < j < s.len() implies s.drop_first()[j - 1] == s[j] by {}
    }
}

fn ws_pos_exec(s: &[char]) -> (r: Option<usize>)
    ensures
        r matches Some(k) ==> ws_pos(s@) == Some(k as int) && k < s@.len(),
        r is None ==> ws_pos(s@) is None,
{
    proof {
        lemma_ws_pos(s@);
    }
    let mut i: usize = 0;
    while i < s.len()
        invariant
            i <= s@.len(),
            forall|j: int| 0 <= j < i ==> !is_ws(s@[j]),
        decreases s.len() - i,
    {
        if char_is_ws(s[i]) {
            proof {
                lemma_ws_pos(s@);
                match ws_pos(s@) {
                    Some(k) => {
                        assert(k == i) by {
                            if k < i {
                            } else if k > i {
                            }
                        }
                    },
                    None => {},
                }
            }
            return Some(i);
        }
        i = i + 1;
    }
    None
}

/// The column that a line of a table definition declares: its name without quotes
/// and its type in upper case without parentheses, read from the first two
/// whitespace-separated pieces.
pub open spec fn column_of(t2: Seq<char>) -> Option<(Seq<char>, Seq<char>)> {
    match ws_pos(t2) {
        None => None,
        Some(k) => {
            let name = trim_set(t2.subrange(0, k), seq!['`', '"']);
            let ty = trim_set(before_ws(t2.subrange(k + 1, t2.len() as int)), seq!['(', ')']);
            Some((name, spec_to_upper(ty)))
        },
    }
}

/// A table-definition line declares a constraint, not a column.
pub open spec fn is_constraint(ut: Seq<char>) -> bool {
    starts_with(ut, "PRIMARY"@) || starts_with(ut, "FOREIGN"@) || starts_with(ut, "UNIQUE"@)
        || starts_with(ut, "INDEX"@) || starts_with(ut, "CONSTRAINT"@)
}

/// Columns found, whether the table definition has been entered, and whether it has
/// ended, after the given lines.
pub open spec fn columns_state(ls: Seq<Seq<char>>, table: Seq<char>) -> (
    Seq<(Seq<char>, Seq<char>)>,
    bool,
    bool,
)
    decreases ls.len(),
{
    if ls.len() == 0 {
        (Seq::empty(), false, false)
    } else {
        let (cols, inside, done) = columns_state(ls.drop_last(), table);
        let t = trim(ls.last());
        if done {
            (cols, inside, done)
        } else if contains(spec_to_upper(t), "CREATE TABLE"@) && contains(t, table) {
            (cols, true, false)
        } else if inside {
            if starts_with(t, ")"@) {
                (cols, inside, true)
            } else {
                let t2 = crate::text::trim_end_char(trim(trim_start_char(t, '(')), ',');
                if t2.len() == 0 || is_constraint(spec_to_upper(t2)) {
                    (cols, inside, false)
                } else {
                    match column_of(t2) {
                        Some(c) => (cols.push(c), inside, false),
                        None => (cols, inside, false),
                    }
                }
            }
        } else {
            (cols, inside, done)
        }
    }
}

/// The columns that the definition of `table` in the data declares.
pub open spec fn columns_of(data: Seq<char>, table: Seq<char>) -> Seq<(Seq<char>, Seq<char>)> {
    columns_state(lines(data), table).0
}

/// The columns of a table: from the line that creates it to the line starting with
/// `)`, each line's name and upper-cased type (constraint lines are skipped).
pub fn extract_columns(data: &str, table_name: &str) -> (r: Vec<(String, String)>)
    ensures
        r@.map_values(|c: (String, String)| (c.0@, c.1@)) == columns_of(data@, table_name@),
{
    let ls = lines_exec(chars_of(data).as_slice());
    let ghost all = views(ls@);
    let table = chars_of(table_name);
    assert(all.subrange(0, all.len() as int) =~= all);
    let mut cols: Vec<(String, String)> = Vec::new();
    let mut inside = false;
    let mut i: usize = 0;
    while i < ls.len()
        invariant
            i <= ls@.len(),
            all == views(ls@),
            all == lines(data@),
            table@ == table_name@,
            all.subrange(0, all.len() as int) == all,
            (cols@.map_values(|c: (String, String)| (c.0@, c.1@)), inside, false)
                == columns_state(all.subrange(0, i as int), table_name@),
        ensures
            cols@.map_values(|c: (String, String)| (c.0@, c.1@)) == columns_of(data@, table_name@),
        decreases ls.len() - i,
    {
        assert(all.subrange(0, i + 1).drop_last() =~= all.subrange(0, i as int));
        assert(all[i as int] == ls@[i as int]@);
        let ghost before = cols@.map_values(|c: (String, String)| (c.0@, c.1@));
        let t = trim_exec(&ls[i]);
        let ut = to_upper(&t);
        if contains_lit(&ut, "CREATE TABLE") && crate::text::contains_exec(&t, &table) {
            inside = true;
            i = i + 1;
            continue ;
        }
        if inside {
            if starts_with_lit(&t, ")") {
                proof {
                    lemma_columns_done(all, table_name@, i + 1);
                }
                break ;
            }
            let t2 = crate::text::trim_end_char_exec(&trim_exec(&trim_start_char_exec(&t, '(')), ',');
            if t2.len() > 0 {
                let ut2 = to_upper(&t2);
                if !(starts_with_lit(&ut2, "PRIMARY") || starts_with_lit(&ut2, "FOREIGN")
                    || starts_with_lit(&ut2, "UNIQUE") || starts_with_lit(&ut2, "INDEX")
                    || starts_with_lit(&ut2, "CONSTRAINT")) {
                    match ws_pos_exec(&t2) {
                        Some(k) => {
                            let bt = vec!['`', '"'];
                            assert(bt@ =~= seq!['`', '"']);
                            let pr = vec!['(', ')'];
                            assert(pr@ =~= seq!['(', ')']);
                            let name = trim_set_exec(&slice_vec(&t2, 0, k), &bt);
                            let after = slice_vec(&t2, k + 1, t2.len());
                            let piece = match ws_pos_exec(&after) {
                                Some(j) => slice_vec(&after, 0, j),
                                None => after,
                            };
                            let ty = to_upper(&trim_set_exec(&piece, &pr));
                            cols.push((string_of(&name), string_of(&ty)));
                            assert(cols@.map_values(|c: (String, String)| (c.0@, c.1@)) =~= before.push(
                                (name@, ty@),
                            ));
                        },
                        None => {},
                    }
                }
            }
        }
        i = i + 1;
    }
    proof {
        if i == ls@.len() {
            assert(all.subrange(0, all.len() as int) =~= all);
        }
    }
    cols
}

proof fn lemma_columns_done(all: Seq<Seq<char>>, table: Seq<char>, k: int)
    requires
        0 <= k <= all.len(),
        columns_state(all.subrange(0, k), table).2,
    ensures
        columns_state(all, table) == columns_state(all.subrange(0, k), table),
    decreases all.len() - k,
{
    if k < all.len() {
        assert(all.drop_last().subrange(0, k) =~= all.subrange(0, k));
        lemma_columns_done(all.drop_last(), table, k);
    } else {
        assert(all.subrange(0, k) =~= all);
    }
}

/// The field type of a SQL column type (upper-cased): integers, floating-point
/// numbers, booleans, dates and times, binary data, UUIDs, else text.
pub open spec fn sql_field_type(t: Seq<char>) -> FieldType {
    let u = spec_to_upper(t);
    if contains(u, "INT"@) {
        FieldType::Integer
    } else if contains(u, "FLOAT"@) || contains(u, "REAL"@) || contains(u, "DOUBLE"@) || contains(
        u,
        "DECIMAL"@,
    ) {
        FieldType::Float
    } else if contains(u, "BOOL"@) {
        FieldType::Boolean
    } else if contains(u, "DATE"@) || contains(u, "TIME"@) {
        FieldType::DateTime
    } else if contains(u, "BLOB"@) || contains(u, "BINARY"@) {
        FieldType::Binary
    } else if contains(u, "UUID"@) {
        FieldType::Uuid
    } else {
        FieldType::Text
    }
}

/// Map a SQL type to a field type.
pub fn sql_type_to_field(sql_type: &str) -> (r: FieldType)
    ensures
        r == sql_field_type(sql_type@),
{
    let u = to_upper(chars_of(sql_type).as_slice());
    if contains_lit(&u, "INT") {
        FieldType::Integer
    } else if contains_lit(&u, "FLOAT") || contains_lit(&u, "REAL") || contains_lit(&u, "DOUBLE")
        || contains_lit(&u, "DECIMAL") {
        FieldType::Float
    } else if contains_lit(&u, "BOOL") {
        FieldType::Boolean
    } else if contains_lit(&u, "DATE") || contains_lit(&u, "TIME") {
        FieldType::DateTime
    } else if contains_lit(&u, "BLOB") || contains_lit(&u, "BINARY") {
        FieldType::Binary
    } else if contains_lit(&u, "UUID") {
        FieldType::Uuid
    } else {
        FieldType::Text
    }
}

/// The JSON value of a SQL literal: `NULL`/`null`, an integer, a floating-point
/// number, else the text.
pub open spec fn sql_value(v: Seq<char>) -> JsonView {
    if v == "NULL"@ || v == "null"@ {
        JsonView::Null
    } else {
        match parse_i64_spec(v) {
            Some(n) => JsonView::Int(n),
            None => match spec_float_value(v) {
                Some(f) => f,
                None => JsonView::Str(v),
            },
        }
    }
}

/// Parse a SQL literal into a JSON value.
pub fn parse_sql_value(val: &str) -> (r: JsonValue)
    ensures
        r@ == sql_value(val@),
{
    let cs = chars_of(val);
    if eq_lit(&cs, "NULL") || eq_lit(&cs, "null") {
        return JsonValue::Null;
    }
    match parse_i64(&cs) {
        Some(n) => {
            return JsonValue::Int(n);
        },
        None => {},
    }
    match parse_float_value(val) {
        Some(f) => f,
        None => JsonValue::Str(val.to_owned()),
    }
}

/// Table and values of an `INSERT INTO` line: the table name without quotes, and
/// the comma-separated values between `VALUES (` and `)`, each trimmed and unquoted.
pub open spec fn insert_of(line: Seq<char>) -> Option<(Seq<char>, Seq<Seq<char>>)> {
    match upper_cut(line, "INTO"@, 4) {
        None => None,
        Some(p) => {
            let rest = trim(after_bytes(line, p));
            match ws_paren_pos(rest) {
                None => None,
                Some(te) => {
                    let table = trim_set(rest.subrange(0, te), seq!['`', '"']);
                    match upper_cut(line, "VALUES"@, 6) {
                        None => None,
                        Some(q) => {
                            let vs = trim_end_set(
                                trim_start_char(trim(after_bytes(line, q)), '('),
                                seq![')', ';'],
                            );
                            Some(
                                (
                                    table,
                                    split(vs, ',').map_values(
                                        |v: Seq<char>| trim_char(trim_char(trim(v), '\''), '"'),
                                    ),
                                ),
                            )
                        },
                    }
                },
            }
        },
    }
}

/// The line can be cut after `INTO` and after `VALUES` where it is read.
pub open spec fn insert_ok(line: Seq<char>) -> bool {
    upper_cut(line, "INTO"@, 4) matches Some(p) ==> is_char_boundary(encode_utf8(line), p) && (
    ws_paren_pos(trim(after_bytes(line, p))) is Some ==> (upper_cut(line, "VALUES"@, 6) matches Some(
        q,
    ) ==> is_char_boundary(encode_utf8(line), q)))
}

proof fn lemma_ws_paren_pos(s: Seq<char>)
    ensures
        ws_paren_pos(s) matches Some(k) ==> 0 <= k < s.len(),
    decreases s.len(),
{
    if s.len() > 0 {
        lemma_ws_paren_pos(s.drop_first());
    }
}

/// Table and values of an `INSERT INTO ... VALUES (...)` line.
pub fn extract_insert(line: &str) -> (r: Option<(String, Vec<String>)>)
    requires
        insert_ok(line@),
    ensures
        match r {
            Some((t, vs)) => insert_of(line@) == Some((t@, vs@.map_values(|v: String| v@))),
            None => insert_of(line@) is None,
        },
{
    let upper = to_upper(chars_of(line).as_slice());
    let p = match upper_cut_exec(line, &upper, "INTO", 4) {
        Some(p) => p,
        None => {
            return None;
        },
    };
    let rest = trim_exec(&after_cut(line, p));
    let (_, te) = before_ws_paren_exec(&rest);
    let te = match te {
        Some(te) => te,
        None => {
            return None;
        },
    };
    proof {
        lemma_ws_paren_pos(rest@);
    }
    let bt = vec!['`', '"'];
    assert(bt@ =~= seq!['`', '"']);
    let table = trim_set_exec(&slice_vec(&rest, 0, te), &bt);
    let q = match upper_cut_exec(line, &upper, "VALUES", 6) {
        Some(q) => q,
        None => {
            return None;
        },
    };
    let closing = vec![')', ';'];
    assert(closing@ =~= seq![')', ';']);
    let vs = trim_end_set_exec(&trim_start_char_exec(&trim_exec(&after_cut(line, q)), '('), &closing);
    let pieces = split_exec(&vs, ',');
    let ghost pv = views(pieces@);
    let mut values: Vec<String> = Vec::new();
    let mut i: usize = 0;
    while i < pieces.len()
        invariant
            i <= pieces@.len(),
            pv == views(pieces@),
            pv.len() == pieces@.len(),
            values@.len() == i,
            values@.map_values(|v: String| v@) == pv.subrange(0, i as int).map_values(
                |v: Seq<char>| trim_char(trim_char(trim(v), '\''), '"'),
            ),
        decreases pieces.len() - i,
    {
        let ghost before = values@.map_values(|v: String| v@);
        assert(pv[i as int] == pieces@[i as int]@);
        let v = trim_char_exec(&trim_char_exec(&trim_exec(&pieces[i]), '\''), '"');
        let ghost v0 = values@;
        values.push(string_of(&v));
        assert forall|j: int| 0 <= j <= i implies (#[trigger] values@[j])@ == trim_char(
            trim_char(trim(pv[j]), '\''),
            '"',
        ) by {
            if j < i {
                assert(values@[j] == v0[j]);
                assert(before[j] == v0[j]@);
                assert(before[j] == pv.subrange(0, i as int).map_values(
                    |v: Seq<char>| trim_char(trim_char(trim(v), '\''), '"'),
                )[j]);
            }
        }
        assert(values@.map_values(|v: String| v@) =~= pv.subrange(0, i + 1).map_values(
            |v: Seq<char>| trim_char(trim_char(trim(v), '\''), '"'),
        ));
        i = i + 1;
    }
    assert(pv.subrange(0, pv.len() as int) =~= pv);
    Some((string_of(&table), values))
}

/// A table as the parser builds it: its name and its columns' names and types.
pub type TableModel = (Seq<char>, Seq<(Seq<char>, FieldType)>);

/// Position of the first table named `name` at or after `i`.
pub open spec fn table_index_from(ts: Seq<TableModel>, name: Seq<char>, i: int) -> Option<int>
    decreases ts.len() - i,
{
    if i < 0 || i >= ts.len() {
        None
    } else if ts[i].0 == name {
        Some(i)
    } else {
        table_index_from(ts, name, i + 1)
    }
}

/// Position of the first table named `name`.
pub open spec fn table_index(ts: Seq<TableModel>, name: Seq<char>) -> Option<int> {
    table_index_from(ts, name, 0)
}

proof fn lemma_table_index_from(ts: Seq<TableModel>, name: Seq<char>, i: int)
    requires
        0 <= i,
    ensures
        table_index_from(ts, name, i) matches Some(k) ==> i <= k < ts.len() && ts[k].0 == name
            && forall|j: int| i <= j < k ==> ts[j].0 != name,
        table_index_from(ts, name, i) is None ==> forall|j: int| i <= j < ts.len() ==> ts[j].0 != name,
    decreases ts.len() - i,
{
    if i < ts.len() && ts[i].0 != name {
        lemma_table_index_from(ts, name, i + 1);
    }
}

/// The key of the `i`-th value of an insert: the `i`-th column of the table when
/// there is one, else `col<i>`.
pub open spec fn column_key(names: Option<Seq<Seq<char>>>, i: int) -> Seq<char> {
    match names {
        Some(ns) => if i < ns.len() {
            ns[i]
        } else {
            "col"@ + decimal(i as nat)
        },
        None => "col"@ + decimal(i as nat),
    }
}

/// The fields of an inserted row.
pub open spec fn insert_pairs(names: Option<Seq<Seq<char>>>, values: Seq<Seq<char>>) -> Seq<
    (Seq<char>, JsonView),
> {
    Seq::new(values.len(), |i: int| (column_key(names, i), sql_value(values[i])))
}

/// The tables defined and the rows inserted by the given lines of `data`.
pub open spec fn sql_state(ls: Seq<Seq<char>>, data: Seq<char>) -> (Seq<TableModel>, Seq<RecordModel>)
    decreases ls.len(),
{
    if ls.len() == 0 {
        (Seq::empty(), Seq::empty())
    } else {
        let (ts, rs) = sql_state(ls.drop_last(), data);
        let t = trim(ls.last());
        let u = spec_to_upper(t);
        let ts1 = if starts_with(u, "CREATE TABLE"@) {
            match table_name_of(t) {
                Some(n) => ts.push(
                    (
                        n,
                        columns_of(data, n).map_values(
                            |c: (Seq<char>, Seq<char>)| (c.0, sql_field_type(c.1)),
                        ),
                    ),
                ),
                None => ts,
            }
        } else {
            ts
        };
        let rs1 = if starts_with(u, "INSERT INTO"@) {
            match insert_of(t) {
                Some((tb, vs)) => {
                    let names = match table_index(ts1, tb) {
                        Some(i) => Some(ts1[i].1.map_values(|c: (Seq<char>, FieldType)| c.0)),
                        None => None,
                    };
                    rs.push((tb, fields_of(insert_pairs(names, vs))))
                },
                None => rs,
            }
        } else {
            rs
        };
        (ts1, rs1)
    }
}

/// Every statement line can be cut where it is read.
pub open spec fn sql_ok(data: Seq<char>) -> bool {
    forall|i: int|
        0 <= i < lines(data).len() ==> {
            let t = trim(#[trigger] lines(data)[i]);
            &&& starts_with(spec_to_upper(t), "CREATE TABLE"@) ==> table_name_ok(t)
            &&& starts_with(spec_to_upper(t), "INSERT INTO"@) ==> insert_ok(t)
        }
}

/// Number of records under schema node `name`.
pub open spec fn count_node(rs: Seq<RecordModel>, name: Seq<char>) -> nat
    decreases rs.len(),
{
    if rs.len() == 0 {
        0
    } else {
        count_node(rs.drop_last(), name) + if rs.last().0 == name {
            1nat
        } else {
            0nat
        }
    }
}

/// The nodes are the tables, with their columns as inferred fields (confidence 950)
/// and their record counts.
pub open spec fn nodes_are(
    nodes: Seq<SchemaNode>,
    source: Seq<char>,
    ts: Seq<TableModel>,
    rs: Seq<RecordModel>,
) -> bool {
    &&& nodes.len() == ts.len()
    &&& forall|i: int|
        0 <= i < nodes.len() ==> {
            &&& (#[trigger] nodes[i]).name@ == ts[i].0
            &&& nodes[i].source@ == source
            &&& super::fields_are(
                nodes[i].fields@,
                ts[i].1.map_values(|c: (Seq<char>, FieldType)| (c.0, c.1, 950u32)),
            )
            &&& nodes[i].record_count == Some(count_node(rs, ts[i].0) as u64)
        }
}

/// Nodes before their record counts are set.
#[verifier::opaque]
pub open spec fn nodes_built(nodes: Seq<SchemaNode>, source: Seq<char>, ts: Seq<TableModel>) -> bool {
    &&& nodes.len() == ts.len()
    &&& forall|i: int|
        0 <= i < nodes.len() ==> {
            &&& (#[trigger] nodes[i]).name@ == ts[i].0
            &&& nodes[i].source@ == source
            &&& super::fields_are(
                nodes[i].fields@,
                ts[i].1.map_values(|c: (Seq<char>, FieldType)| (c.0, c.1, 950u32)),
            )
        }
}

fn column_fields(columns: Vec<(String, String)>) -> (r: Vec<SchemaField>)
    ensures
        super::fields_are(
            r@,
            columns@.map_values(|c: (String, String)| (c.0@, sql_field_type(c.1@), 950u32)),
        ),
{
    let ghost cv = columns@.map_values(|c: (String, String)| (c.0@, sql_field_type(c.1@), 950u32));
    let mut out: Vec<SchemaField> = Vec::new();
    let mut i: usize = 0;
    while i < columns.len()
        invariant
            i <= columns@.len(),
            cv == columns@.map_values(|c: (String, String)| (c.0@, sql_field_type(c.1@), 950u32)),
            out@.len() == i,
            forall|k: int| 0 <= k < i ==> field_is(#[trigger] out@[k], cv[k].0, cv[k].1, cv[k].2),
        decreases columns.len() - i,
    {
        let t = sql_type_to_field(columns[i].1.as_str());
        out.push(SchemaField::inferred(columns[i].0.as_str(), t, 950));
        i = i + 1;
    }
    out
}

fn node_field_names(node: &SchemaNode) -> (r: Vec<String>)
    ensures
        r@.map_values(|s: String| s@) == node.fields@.map_values(|f: SchemaField| f.name@),
{
    let mut out: Vec<String> = Vec::new();
    let mut i: usize = 0;
    while i < node.fields.len()
        invariant
            i <= node.fields@.len(),
            out@.len() == i,
            forall|k: int| 0 <= k < i ==> (#[trigger] out@[k])@ == node.fields@[k].name@,
        decreases node.fields.len() - i,
    {
        out.push(node.fields[i].name.clone());
        i = i + 1;
    }
    assert(out@.map_values(|s: String| s@) =~= node.fields@.map_values(|f: SchemaField| f.name@));
    out
}

fn col_name(i: usize) -> (r: String)
    ensures
        r@ == "col"@ + decimal(i as nat),
{
    let mut c = chars_of("col");
    push_all(&mut c, &decimal_exec(i as u128));
    string_of(&c)
}

/// The tables after a `CREATE TABLE` line (unchanged for any other line).
pub open spec fn tables_after(ts: Seq<TableModel>, t: Seq<char>, data: Seq<char>) -> Seq<TableModel> {
    if starts_with(spec_to_upper(t), "CREATE TABLE"@) {
        match table_name_of(t) {
            Some(n) => ts.push(
                (n, columns_of(data, n).map_values(|c: (Seq<char>, Seq<char>)| (c.0, sql_field_type(c.1)))),
            ),
            None => ts,
        }
    } else {
        ts
    }
}

/// The records after an `INSERT INTO` line (unchanged for any other line), given the
/// tables defined so far.
pub open spec fn records_after(rs: Seq<RecordModel>, ts: Seq<TableModel>, t: Seq<char>) -> Seq<RecordModel> {
    if starts_with(spec_to_upper(t), "INSERT INTO"@) {
        match insert_of(t) {
            Some((tb, vs)) => {
                let names = match table_index(ts, tb) {
                    Some(i) => Some(ts[i].1.map_values(|c: (Seq<char>, FieldType)| c.0)),
                    None => None,
                };
                rs.push((tb, fields_of(insert_pairs(names, vs))))
            },
            None => rs,
        }
    } else {
        rs
    }
}

proof fn lemma_sql_state_step(ls: Seq<Seq<char>>, data: Seq<char>)
    requires
        ls.len() > 0,
    ensures
        sql_state(ls, data) == ({
            let st = sql_state(ls.drop_last(), data);
            let ts1 = tables_after(st.0, trim(ls.last()), data);
            (ts1, records_after(st.1, ts1, trim(ls.last())))
        }),
{
}

proof fn lemma_field_names(fs: Seq<SchemaField>, cols: Seq<(Seq<char>, FieldType)>)
    requires
        super::fields_are(fs, cols.map_values(|c: (Seq<char>, FieldType)| (c.0, c.1, 950u32))),
    ensures
        fs.map_values(|f: SchemaField| f.name@) == cols.map_values(|c: (Seq<char>, FieldType)| c.0),
{
    let cm = cols.map_values(|c: (Seq<char>, FieldType)| (c.0, c.1, 950u32));
    assert forall|j: int| 0 <= j < fs.len() implies fs[j].name@ == cols[j].0 by {
        assert(field_is(fs[j], cm[j].0, cm[j].1, cm[j].2));
    }
    assert(fs.map_values(|f: SchemaField| f.name@) =~= cols.map_values(
        |c: (Seq<char>, FieldType)| c.0,
    ));
}

/// Node names are the table names, in order.
pub open spec fn names_match(nodes: Seq<SchemaNode>, ts: Seq<TableModel>) -> bool {
    nodes.len() == ts.len() && forall|i: int| 0 <= i < nodes.len() ==> #[trigger] nodes[i].name@ == ts[i].0
}

proof fn lemma_built_names(nodes: Seq<SchemaNode>, source: Seq<char>, ts: Seq<TableModel>)
    requires
        nodes_built(nodes, source, ts),
    ensures
        names_match(nodes, ts),
        forall|i: int|
            0 <= i < nodes.len() ==> super::fields_are(
                #[trigger] nodes[i].fields@,
                ts[i].1.map_values(|c: (Seq<char>, FieldType)| (c.0, c.1, 950u32)),
            ),
{
    reveal(nodes_built);
}

proof fn lemma_table_index_nodes(nodes: Seq<SchemaNode>, ts: Seq<TableModel>, name: Seq<char>)
    requires
        names_match(nodes, ts),
    ensures
        match crate::types::schema::node_index(nodes, name) {
            Some(i) => table_index(ts, name) == Some(i) && 0 <= i < ts.len(),
            None => table_index(ts, name) is None,
        },
{
    lemma_table_index_from(ts, name, 0);
    crate::types::schema::lemma_node_index(nodes, name);
    match crate::types::schema::node_index(nodes, name) {
        Some(i) => {
            assert(nodes[i].name@ == ts[i].0);
            match table_index(ts, name) {
                Some(k) => {
                    assert(nodes[k].name@ == ts[k].0);
                    if k < i {
                        assert(nodes[k].name@ != name);
                    }
                    if i < k {
                        assert(ts[i].0 != name);
                    }
                },
                None => {
                    assert(ts[i].0 != name);
                },
            }
        },
        None => {
            match table_index(ts, name) {
                Some(k) => {
                    assert(nodes[k].name@ == ts[k].0);
                },
                None => {},
            }
        },
    }
}

fn sql_create_line(
    schema: &mut UniversalSchema,
    t: &Vec<char>,
    u: &Vec<char>,
    data: &str,
    source_name: &str,
    Ghost(ts): Ghost<Seq<TableModel>>,
)
    requires
        u@ == spec_to_upper(t@),
        nodes_built(old(schema).nodes@, source_name@, ts),
        starts_with(spec_to_upper(t@), "CREATE TABLE"@) ==> table_name_ok(t@),
    ensures
        nodes_built(final(schema).nodes@, source_name@, tables_after(ts, t@, data@)),
        final(schema).name == old(schema).name,
        final(schema).version == old(schema).version,
        final(schema).edges == old(schema).edges,
{
    if starts_with_lit(u, "CREATE TABLE") {
        let line = string_of(t);
        match extract_table_name(line.as_str()) {
            Some(name) => {
                let columns = extract_columns(data, name.as_str());
                let ghost cols = columns@.map_values(|c: (String, String)| (c.0@, c.1@));
                let fields = column_fields(columns);
                let ghost nodes0 = schema.nodes@;
                schema.nodes.push(
                    SchemaNode { name, source: source_name.to_owned(), fields, record_count: None },
                );
                proof {
                    let tm = cols.map_values(|c: (Seq<char>, Seq<char>)| (c.0, sql_field_type(c.1)));
                    assert(tm.map_values(|c: (Seq<char>, FieldType)| (c.0, c.1, 950u32))
                        =~= columns@.map_values(
                        |c: (String, String)| (c.0@, sql_field_type(c.1@), 950u32),
                    ));
                    let ts1 = tables_after(ts, t@, data@);
                    assert forall|i: int| 0 <= i < nodes0.len() implies #[trigger] schema.nodes@[i] == nodes0[i] by {}
                    reveal(nodes_built);
                    assert(nodes_built(schema.nodes@, source_name@, ts1));
                }
            },
            None => {},
        }
    }
}

fn sql_insert_line(
    records: &mut Vec<DataRecord>,
    schema: &UniversalSchema,
    t: &Vec<char>,
    u: &Vec<char>,
    source_name: &str,
    Ghost(ts): Ghost<Seq<TableModel>>,
    Ghost(rs): Ghost<Seq<RecordModel>>,
)
    requires
        u@ == spec_to_upper(t@),
        nodes_built(schema.nodes@, source_name@, ts),
        records_match(old(records)@, source_name@, rs),
        starts_with(spec_to_upper(t@), "INSERT INTO"@) ==> insert_ok(t@),
    ensures
        records_match(final(records)@, source_name@, records_after(rs, ts, t@)),
{
    if !starts_with_lit(u, "INSERT INTO") {
        return ;
    }
    let line = string_of(t);
    let (table, values) = match extract_insert(line.as_str()) {
        Some(x) => x,
        None => {
            return ;
        },
    };
    let names: Option<Vec<String>> = match schema.find_node(table.as_str()) {
        Some(n) => Some(node_field_names(n)),
        None => None,
    };
    let ghost nv = match table_index(ts, table@) {
        Some(k) => Some(ts[k].1.map_values(|c: (Seq<char>, FieldType)| c.0)),
        None => None,
    };
    proof {
        lemma_built_names(schema.nodes@, source_name@, ts);
        lemma_table_index_nodes(schema.nodes@, ts, table@);
        match crate::types::schema::node_index(schema.nodes@, table@) {
            Some(i) => {
                lemma_field_names(schema.nodes@[i].fields@, ts[i].1);
            },
            None => {},
        }
    }
    let mut pairs: Vec<(String, JsonValue)> = Vec::new();
    let mut k: usize = 0;
    while k < values.len()
        invariant
            k <= values@.len(),
            pairs@.len() == k,
            forall|m: int|
                0 <= m < k ==> (#[trigger] pairs@[m]).0@ == column_key(nv, m) && pairs@[m].1@
                    == sql_value(values@[m]@),
            names matches Some(ns) ==> nv matches Some(nn) && ns@.map_values(|s: String| s@) == nn,
            names is None ==> nv is None,
        decreases values.len() - k,
    {
        let key = match &names {
            Some(ns) => if k < ns.len() {
                ns[k].clone()
            } else {
                col_name(k)
            },
            None => col_name(k),
        };
        proof {
            match &names {
                Some(ns) => {
                    if k < ns@.len() {
                        assert(ns@.map_values(|s: String| s@)[k as int] == ns@[k as int]@);
                    }
                },
                None => {},
            }
        }
        pairs.push((key, parse_sql_value(values[k].as_str())));
        k = k + 1;
    }
    assert(pair_views(pairs@) =~= insert_pairs(nv, values@.map_values(|v: String| v@)));
    push_record(records, source_name, table.as_str(), pairs, Ghost(rs));
}

fn count_records_of(records: &Vec<DataRecord>, name: &str, Ghost(rs): Ghost<Seq<RecordModel>>, Ghost(source): Ghost<Seq<char>>) -> (r: usize)
    requires
        records_match(records@, source, rs),
    ensures
        r == count_node(rs, name@),
{
    let mut c: usize = 0;
    let mut j: usize = 0;
    while j < records.len()
        invariant
            j <= records@.len(),
            c <= j,
            records_match(records@, source, rs),
            c == count_node(rs.subrange(0, j as int), name@),
        decreases records.len() - j,
    {
        assert(rs.subrange(0, j + 1).drop_last() =~= rs.subrange(0, j as int));
        assert(record_is(records@[j as int], source, rs[j as int].0, rs[j as int].1));
        if crate::text::str_eq(records[j].schema_node.as_str(), name) {
            c = c + 1;
        }
        j = j + 1;
    }
    assert(rs.subrange(0, rs.len() as int) =~= rs);
    c
}

/// What parsing SQL data gives.
pub open spec fn sql_outcome(r: AdatResult<ParseResult>, data: Seq<char>, source: Seq<char>) -> bool {
    &&& match r {
            Ok(p) => {
                let (ts, rs) = sql_state(lines(data), data);
                &&& p.schema.name@ == source
                &&& p.schema.version == 1
                &&& p.schema.edges@.len() == 0
                &&& nodes_are(p.schema.nodes@, source, ts, rs)
                &&& records_match(p.records@, source, rs)
                &&& p.errors == 0
                &&& p.warnings@.len() == 0
            },
            Err(_) => false,
        }
}

/// Parse SQL: each `CREATE TABLE` becomes a schema node whose fields are its columns,
/// each `INSERT INTO` a record under its table, keyed by the table's columns (or
/// `col<i>`); each node counts its records.
pub fn parse(data: &str, source_name: &str) -> (r: AdatResult<ParseResult>)
    requires
        sql_ok(data@),
    ensures
        sql_outcome(r, data@, source_name@),
{
    let mut schema = UniversalSchema::new(source_name);
    let mut records: Vec<DataRecord> = Vec::new();
    let ls = lines_exec(chars_of(data).as_slice());
    let ghost all = views(ls@);
    proof {
        reveal(nodes_built);
        assert(all.subrange(0, 0) =~= Seq::<Seq<char>>::empty());
    }
    let mut i: usize = 0;
    while i < ls.len()
        invariant
            i <= ls@.len(),
            all == views(ls@),
            all == lines(data@),
            sql_ok(data@),
            schema.name@ == source_name@,
            schema.version == 1,
            schema.edges@.len() == 0,
            nodes_built(schema.nodes@, source_name@, sql_state(all.subrange(0, i as int), data@).0),
            records_match(records@, source_name@, sql_state(all.subrange(0, i as int), data@).1),
        decreases ls.len() - i,
    {
        proof {
            assert(all.subrange(0, i + 1).drop_last() =~= all.subrange(0, i as int));
            assert(all[i as int] == ls@[i as int]@);
            lemma_sql_state_step(all.subrange(0, i + 1), data@);
        }
        let ghost st = sql_state(all.subrange(0, i as int), data@);
        let t = trim_exec(&ls[i]);
        let u = to_upper(&t);
        sql_create_line(&mut schema, &t, &u, data, source_name, Ghost(st.0));
        let ghost ts1 = tables_after(st.0, t@, data@);
        sql_insert_line(&mut records, &schema, &t, &u, source_name, Ghost(ts1), Ghost(st.1));
        i = i + 1;
    }
    assert(all.subrange(0, all.len() as int) =~= all);
    let ghost fin = sql_state(all, data@);
    let mut n: usize = 0;
    while n < schema.nodes.len()
        invariant
            n <= schema.nodes@.len(),
            schema.name@ == source_name@,
            schema.version == 1,
            schema.edges@.len() == 0,
            records_match(records@, source_name@, fin.1),
            nodes_built(schema.nodes@, source_name@, fin.0),
            forall|m: int|
                0 <= m < n ==> (#[trigger] schema.nodes@[m]).record_count == Some(
                    count_node(fin.1, fin.0[m].0) as u64,
                ),
        decreases schema.nodes.len() - n,
    {
        proof {
            reveal(nodes_built);
        }
        let c = count_records_of(&records, schema.nodes[n].name.as_str(), Ghost(fin.1), Ghost(source_name@));
        let ghost before = schema.nodes@;
        let mut node = schema.nodes.remove(n);
        node.record_count = Some(c as u64);
        schema.nodes.insert(n, node);
        assert forall|m: int| 0 <= m < schema.nodes@.len() && m != n implies #[trigger] schema.nodes@[m] == before[m] by {}
        n = n + 1;
    }
    proof {
        reveal(nodes_built);
    }
    Ok(ParseResult { schema, records, errors: 0, warnings: Vec::new() })
}

/// SQL column types: a type whose upper-case text names a date or a time (`DATE`,
/// `DATETIME`, `TIMESTAMP`, `TIME`) and no integer, float or boolean is a `DateTime`;
/// and a `DateTime` always comes from such a type.
pub proof fn law_sql_date_types(t: Seq<char>)
    ensures
        ({
            let u = spec_to_upper(t);
            &&& (contains(u, "DATE"@) || contains(u, "TIME"@))
            &&& !contains(u, "INT"@)
            &&& !contains(u, "FLOAT"@)
            &&& !contains(u, "REAL"@)
            &&& !contains(u, "DOUBLE"@)
            &&& !contains(u, "DECIMAL"@)
            &&& !contains(u, "BOOL"@)
        }) <==> sql_field_type(t) == FieldType::DateTime,
{
}

/// SQL column types: a type that names an integer (`INT`, `INTEGER`, `BIGINT`) is an
/// `Integer`; one that names a float and no integer is a `Float`; one that names a
/// boolean and neither is a `Boolean`.
pub proof fn law_sql_number_types(t: Seq<char>)
    ensures
        contains(spec_to_upper(t), "INT"@) <==> sql_field_type(t) == FieldType::Integer,
        !contains(spec_to_upper(t), "INT"@) && (contains(spec_to_upper(t), "FLOAT"@) || contains(
            spec_to_upper(t),
            "REAL"@,
        ) || contains(spec_to_upper(t), "DOUBLE"@) || contains(spec_to_upper(t), "DECIMAL"@))
            <==> sql_field_type(t) == FieldType::Float,
        !contains(spec_to_upper(t), "INT"@) && !contains(spec_to_upper(t), "FLOAT"@) && !contains(
            spec_to_upper(t),
            "REAL"@,
        ) && !contains(spec_to_upper(t), "DOUBLE"@) && !contains(spec_to_upper(t), "DECIMAL"@)
            && contains(spec_to_upper(t), "BOOL"@) <==> sql_field_type(t) == FieldType::Boolean,
{
}

/// SQL column types: a type that names binary data (`BLOB`, `BINARY`) and no number,
/// boolean, date or time is `Binary`; one that names `UUID` and none of these is a
/// `Uuid`; a type that names none of them at all is `Text`.
pub proof fn law_sql_other_types(t: Seq<char>)
    ensures
        ({
            let u = spec_to_upper(t);
            let plain = !contains(u, "INT"@) && !contains(u, "FLOAT"@) && !contains(u, "REAL"@)
                && !contains(u, "DOUBLE"@) && !contains(u, "DECIMAL"@) && !contains(u, "BOOL"@)
                && !contains(u, "DATE"@) && !contains(u, "TIME"@);
            &&& (plain && (contains(u, "BLOB"@) || contains(u, "BINARY"@)) <==> sql_field_type(t)
                == FieldType::Binary)
            &&& (plain && !contains(u, "BLOB"@) && !contains(u, "BINARY"@) && contains(u, "UUID"@)
                <==> sql_field_type(t) == FieldType::Uuid)
            &&& (plain && !contains(u, "BLOB"@) && !contains(u, "BINARY"@) && !contains(u, "UUID"@)
                <==> sql_field_type(t) == FieldType::Text)
        }),
{
}

} // verus!
