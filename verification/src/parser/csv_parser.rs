//! CSV/TSV parser: comma- and tab-delimited data with schema inference.
use vstd::prelude::*;
use vstd::utf8::encode_utf8;
use crate::text::{
    chars_of, string_of, string_views, views, trim, trim_exec, trim_char, trim_char_exec, split,
    split_exec, lines, lines_exec, parse_i64, parse_i64_spec, eq_lit, starts_with, starts_with_lit,
    contains_char, decimal, decimal_exec, push_all, is_digit,
};
use crate::types::error::{AdatError, AdatResult};
use crate::types::json::{JsonValue, JsonView};
use crate::types::json_io::{spec_float_value, parse_float_value};
use crate::types::record::DataRecord;
use crate::types::schema::{FieldType, FieldStats, SchemaField};
use super::{ParseResult, fields_of, pair_views, record_is, field_map_of};
use super::json_parser::{first_five, lemma_first_five_push, copy_strings};

verus! {

// ---------------------------------------------------------------------------
// Type inference over sample values
// ---------------------------------------------------------------------------
/// Number of ASCII digits in a text.
pub open spec fn digit_count(s: Seq<char>) -> nat
    decreases s.len(),
{
    if s.len() == 0 {
        0
    } else {
        digit_count(s.drop_last()) + if is_digit(s.last()) {
            1nat
        } else {
            0nat
        }
    }
}

/// A text that looks like a date: at least eight bytes long, with a `-` or `/`, and
/// at least four ASCII digits.
pub open spec fn date_like(s: Seq<char>) -> bool {
    &&& encode_utf8(s).len() >= 8
    &&& (s.contains('-') || s.contains('/'))
    &&& digit_count(s) >= 4
}

/// A text that looks like an e-mail address: it holds `@` and `.`.
pub open spec fn email_like(s: Seq<char>) -> bool {
    s.contains('@') && s.contains('.')
}

/// A text that looks like a URL: it starts with `http://` or `https://`.
pub open spec fn url_like(s: Seq<char>) -> bool {
    starts_with(s, "http://"@) || starts_with(s, "https://"@)
}

/// The field type that sample values suggest: the first of integer, float, boolean,
/// date, e-mail and URL that every sample fits, else text (`Unknown` without
/// samples). A float is what `str::parse::<f64>` accepts.
pub open spec fn csv_field_type(samples: Seq<Seq<char>>) -> FieldType {
    if samples.len() == 0 {
        FieldType::Unknown
    } else if all_fit_spec(0, samples) {
        FieldType::Integer
    } else if all_fit_spec(1, samples) {
        FieldType::Float
    } else if all_fit_spec(2, samples) {
        FieldType::Boolean
    } else if all_fit_spec(3, samples) {
        FieldType::DateTime
    } else if all_fit_spec(4, samples) {
        FieldType::Email
    } else if all_fit_spec(5, samples) {
        FieldType::Url
    } else {
        FieldType::Text
    }
}

/// Every sample passes the test of the given kind.
pub open spec fn all_fit_spec(kind: u8, samples: Seq<Seq<char>>) -> bool {
    forall|k: int| 0 <= k < samples.len() ==> #[trigger] sample_fits(kind, samples[k])
}

fn digit_count_exec(s: &[char]) -> (r: usize)
    ensures
        r == digit_count(s@),
{
    let mut n: usize = 0;
    let mut i: usize = 0;
    while i < s.len()
        invariant
            i <= s@.len(),
            n <= i,
            n == digit_count(s@.subrange(0, i as int)),
        decreases s.len() - i,
    {
        assert(s@.subrange(0, i + 1).drop_last() =~= s@.subrange(0, i as int));
        if '0' <= s[i] && s[i] <= '9' {
            n = n + 1;
        }
        i = i + 1;
    }
    assert(s@.subrange(0, s@.len() as int) =~= s@);
    n
}

fn is_date_like(s: &String) -> (r: bool)
    ensures
        r == date_like(s@),
{
    let cs = chars_of(s.as_str());
    s.as_str().as_bytes().len() >= 8 && (contains_char(&cs, '-') || contains_char(&cs, '/'))
        && digit_count_exec(&cs) >= 4
}

fn is_email_like(s: &String) -> (r: bool)
    ensures
        r == email_like(s@),
{
    let cs = chars_of(s.as_str());
    contains_char(&cs, '@') && contains_char(&cs, '.')
}

fn is_url_like(s: &String) -> (r: bool)
    ensures
        r == url_like(s@),
{
    let cs = chars_of(s.as_str());
    starts_with_lit(&cs, "http://") || starts_with_lit(&cs, "https://")
}

/// The sample test that type inference applies, one kind at a time.
pub open spec fn sample_fits(kind: u8, s: Seq<char>) -> bool {
    if kind == 0 {
        parse_i64_spec(s) is Some
    } else if kind == 1 {
        spec_float_value(s) is Some
    } else if kind == 2 {
        s == "true"@ || s == "false"@
    } else if kind == 3 {
        date_like(s)
    } else if kind == 4 {
        email_like(s)
    } else {
        url_like(s)
    }
}

fn sample_fits_exec(kind: u8, s: &String) -> (r: bool)
    ensures
        r == sample_fits(kind, s@),
{
    if kind == 0 {
        parse_i64(&chars_of(s.as_str())).is_some()
    } else if kind == 1 {
        parse_float_value(s.as_str()).is_some()
    } else if kind == 2 {
        let cs = chars_of(s.as_str());
        eq_lit(&cs, "true") || eq_lit(&cs, "false")
    } else if kind == 3 {
        is_date_like(s)
    } else if kind == 4 {
        is_email_like(s)
    } else {
        is_url_like(s)
    }
}

fn all_fit(kind: u8, samples: &Vec<String>) -> (r: bool)
    ensures
        r == all_fit_spec(kind, string_views(samples@)),
{
    let ghost sv = string_views(samples@);
    assert(forall|k: int| 0 <= k < sv.len() ==> #[trigger] sv[k] == samples@[k]@);
    let mut i: usize = 0;
    while i < samples.len()
        invariant
            i <= samples@.len(),
            sv == string_views(samples@),
            forall|k: int| 0 <= k < i ==> #[trigger] sample_fits(kind, sv[k]),
        decreases samples.len() - i,
    {
        assert(sv[i as int] == samples@[i as int]@);
        if !sample_fits_exec(kind, &samples[i]) {
            return false;
        }
        i = i + 1;
    }
    true
}

/// Infer a field type from sample values.
pub fn infer_type(samples: &Vec<String>) -> (r: FieldType)
    ensures
        r == csv_field_type(string_views(samples@)),
{
    if samples.len() == 0 {
        return FieldType::Unknown;
    }
    if all_fit(0, samples) {
        return FieldType::Integer;
    }
    if all_fit(1, samples) {
        return FieldType::Float;
    }
    if all_fit(2, samples) {
        return FieldType::Boolean;
    }
    if all_fit(3, samples) {
        return FieldType::DateTime;
    }
    if all_fit(4, samples) {
        return FieldType::Email;
    }
    if all_fit(5, samples) {
        return FieldType::Url;
    }
    FieldType::Text
}

// ---------------------------------------------------------------------------
// Rows and cells
// ---------------------------------------------------------------------------
/// A cell: the piece between delimiters, trimmed, then stripped of quotes.
pub open spec fn cell(piece: Seq<char>) -> Seq<char> {
    trim_char(trim(piece), '"')
}

/// The cells of a line.
pub open spec fn cells(line: Seq<char>, d: char) -> Seq<Seq<char>> {
    split(line, d).map_values(|p: Seq<char>| cell(p))
}

/// The JSON value of a cell: null when empty, then an `i64`, then a float as
/// `str::parse::<f64>` reads it, then `true` or `false`, else the text.
pub open spec fn csv_value(v: Seq<char>) -> JsonView {
    if v.len() == 0 {
        JsonView::Null
    } else {
        match parse_i64_spec(v) {
            Some(n) => JsonView::Int(n),
            None => match spec_float_value(v) {
                Some(f) => f,
                None => if v == "true"@ {
                    JsonView::Bool(true)
                } else if v == "false"@ {
                    JsonView::Bool(false)
                } else {
                    JsonView::Str(v)
                },
            },
        }
    }
}

/// The header-value pairs of a row, in column order.
pub open spec fn row_pairs(hs: Seq<Seq<char>>, vs: Seq<Seq<char>>) -> Seq<(Seq<char>, JsonView)> {
    Seq::new(hs.len(), |i: int| (hs[i], csv_value(vs[i])))
}

/// A line with nothing but white space.
pub open spec fn blank(line: Seq<char>) -> bool {
    trim(line).len() == 0
}

/// A data line that becomes a record: not blank, with one cell per header.
pub open spec fn row_fits(line: Seq<char>, d: char, n: nat) -> bool {
    !blank(line) && cells(line, d).len() == n
}

/// The fields of the records of the data lines, in order.
pub open spec fn csv_rows(rows: Seq<Seq<char>>, hs: Seq<Seq<char>>, d: char) -> Seq<Seq<(Seq<char>, JsonView)>>
    decreases rows.len(),
{
    if rows.len() == 0 {
        Seq::empty()
    } else {
        csv_rows(rows.drop_last(), hs, d) + if row_fits(rows.last(), d, hs.len()) {
            seq![fields_of(row_pairs(hs, cells(rows.last(), d)))]
        } else {
            Seq::empty()
        }
    }
}

/// A warning for each data line whose cells do not match the header; data lines are
/// numbered from 2.
pub open spec fn csv_warnings(rows: Seq<Seq<char>>, n: nat, d: char) -> Seq<Seq<char>>
    decreases rows.len(),
{
    if rows.len() == 0 {
        Seq::empty()
    } else {
        let l = rows.last();
        csv_warnings(rows.drop_last(), n, d) + if !blank(l) && cells(l, d).len() != n {
            seq![
                "Line "@ + decimal(rows.len() + 1) + ": expected "@ + decimal(n) + " columns, got "@
                    + decimal(cells(l, d).len()),
            ]
        } else {
            Seq::empty()
        }
    }
}

/// The values of column `c` in the records, in order.
pub open spec fn column_values(rows: Seq<Seq<char>>, n: nat, d: char, c: int) -> Seq<Seq<char>>
    decreases rows.len(),
{
    if rows.len() == 0 {
        Seq::empty()
    } else {
        column_values(rows.drop_last(), n, d, c) + if row_fits(rows.last(), d, n) {
            seq![cells(rows.last(), d)[c]]
        } else {
            Seq::empty()
        }
    }
}

/// The number of empty cells of column `c` in the records.
pub open spec fn column_nulls(rows: Seq<Seq<char>>, n: nat, d: char, c: int) -> nat
    decreases rows.len(),
{
    if rows.len() == 0 {
        0
    } else {
        column_nulls(rows.drop_last(), n, d, c) + if row_fits(rows.last(), d, n) && cells(
            rows.last(),
            d,
        )[c].len() == 0 {
            1nat
        } else {
            0nat
        }
    }
}

/// The schema field of column `c`: the header's name, the type its first five
/// values suggest, nullable when a value is empty, confidence 850, the first five
/// values as samples, and (when there are records) counts of nulls and rows.
pub open spec fn column_field(f: SchemaField, rows: Seq<Seq<char>>, hs: Seq<Seq<char>>, d: char, c: int) -> bool {
    let samples = first_five(column_values(rows, hs.len(), d, c));
    let nulls = column_nulls(rows, hs.len(), d, c);
    let total = csv_rows(rows, hs, d).len();
    &&& f.name@ == hs[c]
    &&& f.field_type == csv_field_type(samples)
    &&& f.nullable == (nulls > 0)
    &&& f.description is None
    &&& f.confidence == 850
    &&& string_views(f.sample_values@) == samples
    &&& if total > 0 {
        f.stats == Some(
            FieldStats {
                min: 0,
                max: 0,
                mean: 0,
                null_count: nulls as u64,
                distinct_count: 0,
                total_count: total as u64,
            },
        )
    } else {
        f.stats is None
    }
}

/// The result of parsing CSV data whose first line holds the headers `hs` and whose
/// data lines are `rows`.
pub open spec fn csv_result(p: ParseResult, rows: Seq<Seq<char>>, hs: Seq<Seq<char>>, d: char, source: Seq<char>) -> bool {
    let recs = csv_rows(rows, hs, d);
    let warns = csv_warnings(rows, hs.len(), d);
    &&& p.records@.len() == recs.len()
    &&& forall|k: int|
        0 <= k < recs.len() ==> record_is(#[trigger] p.records@[k], source, source, recs[k])
    &&& p.errors == warns.len()
    &&& string_views(p.warnings@) == warns
    &&& p.schema.name@ == source
    &&& p.schema.version == 1
    &&& p.schema.edges@.len() == 0
    &&& p.schema.nodes@.len() == 1
    &&& p.schema.nodes@[0].name@ == source
    &&& p.schema.nodes@[0].source@ == source
    &&& p.schema.nodes@[0].record_count == Some(recs.len() as u64)
    &&& p.schema.nodes@[0].fields@.len() == hs.len()
    &&& forall|c: int|
        0 <= c < hs.len() ==> column_field(#[trigger] p.schema.nodes@[0].fields@[c], rows, hs, d, c)
}

/// The cells of a line.
fn cells_exec(line: &[char], d: char) -> (r: Vec<Vec<char>>)
    ensures
        views(r@) == cells(line@, d),
{
    let pieces = split_exec(line, d);
    let ghost pv = views(pieces@);
    let mut out: Vec<Vec<char>> = Vec::new();
    let mut i: usize = 0;
    while i < pieces.len()
        invariant
            i <= pieces@.len(),
            pv == views(pieces@),
            pv == split(line@, d),
            out@.len() == i,
            forall|k: int| 0 <= k < i ==> #[trigger] out@[k]@ == cell(pv[k]),
        decreases pieces.len() - i,
    {
        assert(pv[i as int] == pieces@[i as int]@);
        let t = trim_exec(&pieces[i]);
        out.push(trim_char_exec(&t, '"'));
        i = i + 1;
    }
    assert(views(out@) =~= cells(line@, d));
    out
}

/// The JSON value of a cell.
fn csv_value_exec(v: &[char]) -> (r: JsonValue)
    ensures
        r@ == csv_value(v@),
{
    if v.len() == 0 {
        return JsonValue::Null;
    }
    match parse_i64(v) {
        Some(n) => JsonValue::Int(n),
        None => {
            let text = string_of(v);
            match parse_float_value(text.as_str()) {
                Some(f) => f,
                None => if eq_lit(v, "true") {
                    JsonValue::Bool(true)
                } else if eq_lit(v, "false") {
                    JsonValue::Bool(false)
                } else {
                    JsonValue::Str(text)
                },
            }
        },
    }
}

proof fn lemma_csv_counts(rows: Seq<Seq<char>>, hs: Seq<Seq<char>>, d: char, c: int)
    ensures
        csv_warnings(rows, hs.len(), d).len() <= rows.len(),
        csv_rows(rows, hs, d).len() <= rows.len(),
        column_nulls(rows, hs.len(), d, c) <= rows.len(),
    decreases rows.len(),
{
    if rows.len() > 0 {
        lemma_csv_counts(rows.drop_last(), hs, d, c);
    }
}

/// A warning text `Line {line}: expected {n} columns, got {got}`.
fn mismatch_warning(line: usize, n: usize, got: usize) -> (r: String)
    ensures
        r@ == "Line "@ + decimal(line as nat) + ": expected "@ + decimal(n as nat) + " columns, got "@
            + decimal(got as nat),
{
    let mut w = chars_of("Line ");
    push_all(&mut w, &decimal_exec(line as u128));
    push_all(&mut w, &chars_of(": expected "));
    push_all(&mut w, &decimal_exec(n as u128));
    push_all(&mut w, &chars_of(" columns, got "));
    push_all(&mut w, &decimal_exec(got as u128));
    string_of(&w)
}

/// What parsing delimited data gives.
pub open spec fn csv_outcome(r: AdatResult<ParseResult>, data: Seq<char>, source: Seq<char>, delimiter: u8) -> bool {
    &&& (lines(data).len() == 0 ==> (r matches Err(AdatError::Parse(m)) && m@ == "Empty CSV data"@))
    &&& (lines(data).len() > 0 ==> {
            let hs = cells(lines(data)[0], delimiter as char);
            &&& hs.len() == 0 ==> (r matches Err(AdatError::Parse(m)) && m@
                == "No columns in CSV header"@)
            &&& hs.len() > 0 ==> (r matches Ok(p) && csv_result(
                p,
                lines(data).drop_first(),
                hs,
                delimiter as char,
                source,
            ))
        })
}

/// Parse CSV or TSV data: the first line names the columns; each later line that is
/// not blank and has one cell per column becomes a record, and each other non-blank
/// line gives a warning and counts as an error.
pub fn parse(data: &str, source_name: &str, delimiter: u8) -> (r: AdatResult<ParseResult>)
    ensures
        csv_outcome(r, data@, source_name@, delimiter),
{
    let ls = lines_exec(&chars_of(data));
    let ghost lv = views(ls@);
    if ls.len() == 0 {
        return Err(AdatError::Parse("Empty CSV data".to_owned()));
    }
    let d = delimiter as char;
    let headers = cells_exec(&ls[0], d);
    let ghost hv = views(headers@);
    assert(lv[0] == ls@[0]@);
    if headers.len() == 0 {
        return Err(AdatError::Parse("No columns in CSV header".to_owned()));
    }
    let n = headers.len();
    let mut names: Vec<String> = Vec::new();
    let mut samples: Vec<Vec<String>> = Vec::new();
    let mut nulls: Vec<u64> = Vec::new();
    let mut k: usize = 0;
    while k < n
        invariant
            k <= n,
            n == headers@.len(),
            hv == views(headers@),
            names@.len() == k,
            samples@.len() == k,
            nulls@.len() == k,
            forall|c: int| 0 <= c < k ==> #[trigger] names@[c]@ == hv[c],
            forall|c: int| 0 <= c < k ==> (#[trigger] samples@[c])@.len() == 0,
            forall|c: int| 0 <= c < k ==> #[trigger] nulls@[c] == 0,
        decreases n - k,
    {
        names.push(string_of(&headers[k]));
        samples.push(Vec::new());
        nulls.push(0);
        k = k + 1;
    }
    let mut records: Vec<DataRecord> = Vec::new();
    let mut warnings: Vec<String> = Vec::new();
    let mut errors: usize = 0;
    let mut j: usize = 1;
    assert(lv.subrange(1, 1) =~= Seq::<Seq<char>>::empty());
    assert forall|c: int| 0 <= c < n implies string_views((#[trigger] samples@[c])@) == first_five(
        column_values(lv.subrange(1, 1), n as nat, d, c),
    ) by {
        assert(string_views(samples@[c]@) =~= Seq::<Seq<char>>::empty());
    }
    while j < ls.len()
        invariant
            1 <= j <= ls@.len(),
            lv == views(ls@),
            lv == lines(data@),
            hv == views(headers@),
            hv == cells(lv[0], d),
            n == hv.len(),
            n > 0,
            names@.len() == n,
            forall|c: int| 0 <= c < n ==> #[trigger] names@[c]@ == hv[c],
            records@.len() == csv_rows(lv.subrange(1, j as int), hv, d).len(),
            forall|r: int|
                0 <= r < records@.len() ==> record_is(
                    #[trigger] records@[r],
                    source_name@,
                    source_name@,
                    csv_rows(lv.subrange(1, j as int), hv, d)[r],
                ),
            errors == csv_warnings(lv.subrange(1, j as int), n as nat, d).len(),
            string_views(warnings@) == csv_warnings(lv.subrange(1, j as int), n as nat, d),
            samples@.len() == n,
            nulls@.len() == n,
            forall|c: int|
                0 <= c < n ==> string_views((#[trigger] samples@[c])@) == first_five(
                    column_values(lv.subrange(1, j as int), n as nat, d, c),
                ),
            forall|c: int|
                0 <= c < n ==> #[trigger] nulls@[c] == column_nulls(lv.subrange(1, j as int), n as nat, d, c),
        decreases ls.len() - j,
    {
        let ghost sub = lv.subrange(1, j as int);
        let ghost sub1 = lv.subrange(1, j + 1);
        assert(sub1.drop_last() =~= sub);
        assert(sub1.last() == ls@[j as int]@);
        assert(sub1.len() == j);
        proof {
            lemma_csv_counts(sub, hv, d, 0);
        }
        let line = &ls[j];
        let t = trim_exec(line);
        if t.len() == 0 {
            proof {
                assert(csv_rows(sub1, hv, d) =~= csv_rows(sub, hv, d));
                assert(csv_warnings(sub1, n as nat, d) =~= csv_warnings(sub, n as nat, d));
                assert forall|c: int| 0 <= c < n implies string_views((#[trigger] samples@[c])@)
                    == first_five(column_values(sub1, n as nat, d, c)) by {
                    assert(column_values(sub1, n as nat, d, c) =~= column_values(sub, n as nat, d, c));
                }
                assert forall|c: int| 0 <= c < n implies #[trigger] nulls@[c] == column_nulls(sub1, n as nat, d, c) by {
                    assert(column_nulls(sub1, n as nat, d, c) == column_nulls(sub, n as nat, d, c));
                }
            }
            j = j + 1;
            continue;
        }
        let vals = cells_exec(line, d);
        let ghost vv = views(vals@);
        if vals.len() != n {
            let w = mismatch_warning(j + 1, n, vals.len());
            let ghost w0 = warnings@;
            warnings.push(w);
            errors = errors + 1;
            proof {
                assert(string_views(warnings@) =~= string_views(w0).push(w@));
                assert(csv_rows(sub1, hv, d) =~= csv_rows(sub, hv, d));
                assert forall|c: int| 0 <= c < n implies string_views((#[trigger] samples@[c])@)
                    == first_five(column_values(sub1, n as nat, d, c)) by {
                    assert(column_values(sub1, n as nat, d, c) =~= column_values(sub, n as nat, d, c));
                }
                assert forall|c: int| 0 <= c < n implies #[trigger] nulls@[c] == column_nulls(sub1, n as nat, d, c) by {
                    assert(column_nulls(sub1, n as nat, d, c) == column_nulls(sub, n as nat, d, c));
                }
            }
            j = j + 1;
            continue;
        }
        assert(row_fits(sub1.last(), d, n as nat));
        assert forall|c: int| 0 <= c < n implies column_nulls(sub, n as nat, d, c) <= sub.len() by {
            lemma_csv_counts(sub, hv, d, c);
        }
        let ghost rp = row_pairs(hv, vv);
        let mut pairs: Vec<(String, JsonValue)> = Vec::new();
        let mut i: usize = 0;
        while i < n
            invariant
                i <= n,
                n == vals@.len(),
                vv == views(vals@),
                vv == cells(sub1.last(), d),
                n == hv.len(),
                rp == row_pairs(hv, vv),
                row_fits(sub1.last(), d, n as nat),
                sub1.drop_last() == sub,
                sub1.len() > 0,
                names@.len() == n,
                forall|c: int| 0 <= c < n ==> #[trigger] names@[c]@ == hv[c],
                pair_views(pairs@) == rp.subrange(0, i as int),
                samples@.len() == n,
                nulls@.len() == n,
                forall|c: int|
                    0 <= c < n ==> column_nulls(sub, n as nat, d, c) <= sub.len(),
                sub.len() < usize::MAX,
                forall|c: int|
                    0 <= c < i ==> string_views((#[trigger] samples@[c])@) == first_five(
                        column_values(sub1, n as nat, d, c),
                    ),
                forall|c: int|
                    i <= c < n ==> string_views((#[trigger] samples@[c])@) == first_five(
                        column_values(sub, n as nat, d, c),
                    ),
                forall|c: int|
                    0 <= c < i ==> #[trigger] nulls@[c] == column_nulls(sub1, n as nat, d, c),
                forall|c: int|
                    i <= c < n ==> #[trigger] nulls@[c] == column_nulls(sub, n as nat, d, c),
            decreases n - i,
        {
            let val = &vals[i];
            assert(vv[i as int] == val@);
            let ghost cv = column_values(sub, n as nat, d, i as int);
            assert(column_values(sub1, n as nat, d, i as int) =~= cv.push(val@));
            let value = csv_value_exec(val);
            if val.len() == 0 {
                let x = nulls[i] + 1;
                nulls.set(i, x);
            }
            assert(nulls@[i as int] == column_nulls(sub1, n as nat, d, i as int));
            let ghost p0 = pairs@;
            pairs.push((names[i].clone(), value));
            assert(pair_views(pairs@) =~= rp.subrange(0, i + 1)) by {
                assert(pair_views(pairs@) =~= pair_views(p0).push((names@[i as int]@, value@)));
            }
            let ghost s0 = samples@;
            if samples[i].len() < 5 {
                let mut list = samples.remove(i);
                list.push(string_of(val));
                samples.insert(i, list);
            }
            proof {
                lemma_first_five_push(cv, val@);
                if s0[i as int]@.len() < 5 {
                    assert(string_views(samples@[i as int]@) =~= string_views(s0[i as int]@).push(val@));
                }
                assert forall|c: int| 0 <= c < n && c != i implies #[trigger] samples@[c] == s0[c] by {}
            }
            i = i + 1;
        }
        let fields = field_map_of(pairs);
        let rec = DataRecord::new(source_name, source_name, fields);
        let ghost r0 = records@;
        records.push(rec);
        proof {
            assert(rp.subrange(0, n as int) =~= rp);
            let fv = fields_of(rp);
            assert(csv_rows(sub1, hv, d) =~= csv_rows(sub, hv, d).push(fv));
            assert(csv_warnings(sub1, n as nat, d) =~= csv_warnings(sub, n as nat, d));
            assert forall|r: int| 0 <= r < records@.len() implies record_is(
                #[trigger] records@[r],
                source_name@,
                source_name@,
                csv_rows(sub1, hv, d)[r],
            ) by {
                if r < r0.len() {
                    assert(records@[r] == r0[r]);
                }
            }
        }
        j = j + 1;
    }
    assert(lv.subrange(1, lv.len() as int) =~= lv.drop_first());
    let ghost rows = lv.drop_first();
    let total = records.len() as u64;
    let mut fields: Vec<SchemaField> = Vec::new();
    let mut c: usize = 0;
    while c < n
        invariant
            c <= n,
            n == hv.len(),
            names@.len() == n,
            forall|q: int| 0 <= q < n ==> #[trigger] names@[q]@ == hv[q],
            samples@.len() == n,
            nulls@.len() == n,
            total == csv_rows(rows, hv, d).len(),
            forall|q: int|
                0 <= q < n ==> string_views((#[trigger] samples@[q])@) == first_five(
                    column_values(rows, n as nat, d, q),
                ),
            forall|q: int| 0 <= q < n ==> #[trigger] nulls@[q] == column_nulls(rows, n as nat, d, q),
            fields@.len() == c,
            forall|q: int| 0 <= q < c ==> column_field(#[trigger] fields@[q], rows, hv, d, q),
        decreases n - c,
    {
        let stats = if total > 0 {
            Some(
                FieldStats {
                    min: 0,
                    max: 0,
                    mean: 0,
                    null_count: nulls[c],
                    distinct_count: 0,
                    total_count: total,
                },
            )
        } else {
            None
        };
        let f = SchemaField {
            name: names[c].clone(),
            field_type: infer_type(&samples[c]),
            nullable: nulls[c] > 0,
            description: None,
            confidence: 850,
            sample_values: copy_strings(&samples[c]),
            stats,
        };
        fields.push(f);
        c = c + 1;
    }
    let schema = super::single_node(source_name, source_name, fields, total);
    Ok(ParseResult { schema, records, errors, warnings })
}

/// The ASCII digits of a text are its chars between `0` and `9`.
proof fn lemma_digit_count_filter(s: Seq<char>)
    ensures
        digit_count(s) == s.filter(|c: char| '0' <= c && c <= '9').len(),
    decreases s.len(),
{
    reveal(Seq::filter);
    if s.len() > 0 {
        lemma_digit_count_filter(s.drop_last());
    }
}

/// A text that could be a date: at least 8 bytes long, with a `-` or a `/`, and at
/// least four ASCII digits (`2024-01-15`, `01/15/2024`).
pub open spec fn date_shaped(s: Seq<char>) -> bool {
    &&& encode_utf8(s).len() >= 8
    &&& (exists|i: int| 0 <= i < s.len() && (s[i] == '-' || s[i] == '/'))
    &&& s.filter(|c: char| '0' <= c && c <= '9').len() >= 4
}

/// Dates: when some sample is no integer, some is no float, and some is neither
/// `true` nor `false`, a column whose samples are all date-shaped is inferred as
/// `DateTime`, whether its dates are written with `-` or with `/`; and a column is
/// inferred as `DateTime` only when all its samples are date-shaped.
pub proof fn law_date_columns(samples: Seq<Seq<char>>)
    ensures
        (samples.len() > 0 && (exists|k: int| 0 <= k < samples.len() && #[trigger] parse_i64_spec(samples[k]) is None)
            && (exists|k: int| 0 <= k < samples.len() && #[trigger] spec_float_value(samples[k]) is None)
            && (exists|k: int| 0 <= k < samples.len() && #[trigger] samples[k] != "true"@ && samples[k] != "false"@)
            && (forall|k: int| 0 <= k < samples.len() ==> #[trigger] date_shaped(samples[k])))
            ==> csv_field_type(samples) == FieldType::DateTime,
        csv_field_type(samples) == FieldType::DateTime ==> forall|k: int|
            0 <= k < samples.len() ==> #[trigger] date_shaped(samples[k]),
{
    assert forall|k: int| 0 <= k < samples.len() implies #[trigger] date_shaped(samples[k]) == date_like(samples[k]) by {
        let t = samples[k];
        lemma_digit_count_filter(t);
        if exists|i: int| 0 <= i < t.len() && (t[i] == '-' || t[i] == '/') {
            let i = choose|i: int| 0 <= i < t.len() && (t[i] == '-' || t[i] == '/');
            if t[i] == '-' {
                assert(t.contains('-'));
            } else {
                assert(t.contains('/'));
            }
        }
        if t.contains('-') {
            let i = choose|i: int| 0 <= i < t.len() && t[i] == '-';
            assert(0 <= i < t.len() && (t[i] == '-' || t[i] == '/'));
        }
        if t.contains('/') {
            let i = choose|i: int| 0 <= i < t.len() && t[i] == '/';
            assert(0 <= i < t.len() && (t[i] == '-' || t[i] == '/'));
        }
    }
    if samples.len() > 0 && (exists|k: int| 0 <= k < samples.len() && #[trigger] parse_i64_spec(samples[k]) is None)
        && (exists|k: int| 0 <= k < samples.len() && #[trigger] spec_float_value(samples[k]) is None)
        && (exists|k: int| 0 <= k < samples.len() && #[trigger] samples[k] != "true"@ && samples[k] != "false"@)
        && (forall|k: int| 0 <= k < samples.len() ==> #[trigger] date_shaped(samples[k])) {
        let k0 = choose|k: int| 0 <= k < samples.len() && #[trigger] parse_i64_spec(samples[k]) is None;
        let k1 = choose|k: int| 0 <= k < samples.len() && #[trigger] spec_float_value(samples[k]) is None;
        let k2 = choose|k: int| 0 <= k < samples.len() && #[trigger] samples[k] != "true"@ && samples[k] != "false"@;
        assert(!sample_fits(0, samples[k0]));
        assert(!sample_fits(1, samples[k1]));
        assert(!sample_fits(2, samples[k2]));
        assert forall|k: int| 0 <= k < samples.len() implies #[trigger] sample_fits(3, samples[k]) by {
            assert(date_shaped(samples[k]));
        }
    }
    if csv_field_type(samples) == FieldType::DateTime {
        assert(all_fit_spec(3, samples));
        assert forall|k: int| 0 <= k < samples.len() implies #[trigger] date_shaped(samples[k]) by {
            assert(sample_fits(3, samples[k]));
        }
    }
}

/// A text that could be an e-mail address: it holds an `@` and a `.`.
pub open spec fn email_shaped(s: Seq<char>) -> bool {
    (exists|i: int| 0 <= i < s.len() && s[i] == '@') && (exists|i: int| 0 <= i < s.len() && s[i] == '.')
}

/// A text that could be a URL: it starts with `http://` or `https://`.
pub open spec fn url_shaped(s: Seq<char>) -> bool {
    (s.len() >= 7 && s.subrange(0, 7) == "http://"@) || (s.len() >= 8 && s.subrange(0, 8) == "https://"@)
}

proof fn lemma_shapes(s: Seq<char>)
    ensures
        date_shaped(s) == date_like(s),
        email_shaped(s) == email_like(s),
        url_shaped(s) == url_like(s),
{
    reveal_strlit("http://");
    reveal_strlit("https://");
    lemma_digit_count_filter(s);
    if s.contains('-') {
        let i = choose|i: int| 0 <= i < s.len() && s[i] == '-';
        assert(0 <= i < s.len() && (s[i] == '-' || s[i] == '/'));
    }
    if s.contains('/') {
        let i = choose|i: int| 0 <= i < s.len() && s[i] == '/';
        assert(0 <= i < s.len() && (s[i] == '-' || s[i] == '/'));
    }
    if exists|i: int| 0 <= i < s.len() && (s[i] == '-' || s[i] == '/') {
        let i = choose|i: int| 0 <= i < s.len() && (s[i] == '-' || s[i] == '/');
        if s[i] == '-' {
            assert(s.contains('-'));
        } else {
            assert(s.contains('/'));
        }
    }
    if exists|i: int| 0 <= i < s.len() && s[i] == '@' {
        let i = choose|i: int| 0 <= i < s.len() && s[i] == '@';
        assert(s.contains('@'));
    }
    if exists|i: int| 0 <= i < s.len() && s[i] == '.' {
        let i = choose|i: int| 0 <= i < s.len() && s[i] == '.';
        assert(s.contains('.'));
    }
}

/// Column type inference over sample values: no samples give `Unknown`; otherwise the
/// type is the first of these that every sample fits: integers (as `i64` parses
/// them), floats (as `f64` parses them), `true`/`false`, date-shaped texts, texts
/// with an `@` and a `.`, texts starting with `http://` or `https://`; else `Text`.
pub proof fn law_csv_type_inference(samples: Seq<Seq<char>>)
    ensures
        (csv_field_type(samples) == FieldType::Unknown) == (samples.len() == 0),
        (csv_field_type(samples) == FieldType::Integer) == (samples.len() > 0 && forall|k: int|
            0 <= k < samples.len() ==> #[trigger] parse_i64_spec(samples[k]) is Some),
        csv_field_type(samples) == FieldType::Float ==> forall|k: int|
            0 <= k < samples.len() ==> #[trigger] spec_float_value(samples[k]) is Some,
        csv_field_type(samples) == FieldType::Boolean ==> forall|k: int|
            0 <= k < samples.len() ==> #[trigger] samples[k] == "true"@ || samples[k] == "false"@,
        csv_field_type(samples) == FieldType::Email ==> forall|k: int|
            0 <= k < samples.len() ==> #[trigger] email_shaped(samples[k]),
        csv_field_type(samples) == FieldType::Url ==> forall|k: int|
            0 <= k < samples.len() ==> #[trigger] url_shaped(samples[k]),
        (samples.len() > 0 && (exists|k: int| 0 <= k < samples.len() && #[trigger] parse_i64_spec(samples[k]) is None)
            && (exists|k: int| 0 <= k < samples.len() && #[trigger] spec_float_value(samples[k]) is None)
            && (exists|k: int| 0 <= k < samples.len() && #[trigger] samples[k] != "true"@ && samples[k] != "false"@)
            && (exists|k: int| 0 <= k < samples.len() && !#[trigger] date_shaped(samples[k])))
            ==> (csv_field_type(samples) == FieldType::Email <==> forall|k: int|
            0 <= k < samples.len() ==> #[trigger] email_shaped(samples[k])),
        (samples.len() > 0 && (exists|k: int| 0 <= k < samples.len() && #[trigger] parse_i64_spec(samples[k]) is None)
            && (exists|k: int| 0 <= k < samples.len() && #[trigger] spec_float_value(samples[k]) is None)
            && (exists|k: int| 0 <= k < samples.len() && #[trigger] samples[k] != "true"@ && samples[k] != "false"@)
            && (exists|k: int| 0 <= k < samples.len() && !#[trigger] date_shaped(samples[k]))
            && (exists|k: int| 0 <= k < samples.len() && !#[trigger] email_shaped(samples[k])))
            ==> (csv_field_type(samples) == FieldType::Url <==> forall|k: int|
            0 <= k < samples.len() ==> #[trigger] url_shaped(samples[k])),
        (samples.len() > 0 && (exists|k: int| 0 <= k < samples.len() && #[trigger] parse_i64_spec(samples[k]) is None)
            && (exists|k: int| 0 <= k < samples.len() && #[trigger] spec_float_value(samples[k]) is None)
            && (exists|k: int| 0 <= k < samples.len() && #[trigger] samples[k] != "true"@ && samples[k] != "false"@)
            && (exists|k: int| 0 <= k < samples.len() && !#[trigger] date_shaped(samples[k]))
            && (exists|k: int| 0 <= k < samples.len() && !#[trigger] email_shaped(samples[k]))
            && (exists|k: int| 0 <= k < samples.len() && !#[trigger] url_shaped(samples[k])))
            ==> csv_field_type(samples) == FieldType::Text,
{
    assert forall|k: int| 0 <= k < samples.len() implies {
        &&& sample_fits(3, #[trigger] samples[k]) == date_shaped(samples[k])
        &&& sample_fits(4, samples[k]) == email_shaped(samples[k])
        &&& sample_fits(5, samples[k]) == url_shaped(samples[k])
        &&& sample_fits(0, samples[k]) == (parse_i64_spec(samples[k]) is Some)
        &&& sample_fits(1, samples[k]) == (spec_float_value(samples[k]) is Some)
        &&& sample_fits(2, samples[k]) == (samples[k] == "true"@ || samples[k] == "false"@)
    } by {
        lemma_shapes(samples[k]);
    }
    assert(all_fit_spec(0, samples) == forall|k: int| 0 <= k < samples.len() ==> #[trigger] parse_i64_spec(samples[k]) is Some) by {
        if all_fit_spec(0, samples) {
            assert forall|k: int| 0 <= k < samples.len() implies #[trigger] parse_i64_spec(samples[k]) is Some by {
                assert(sample_fits(0, samples[k]));
            }
        }
    }
    assert(all_fit_spec(1, samples) == forall|k: int| 0 <= k < samples.len() ==> #[trigger] spec_float_value(samples[k]) is Some) by {
        if all_fit_spec(1, samples) {
            assert forall|k: int| 0 <= k < samples.len() implies #[trigger] spec_float_value(samples[k]) is Some by {
                assert(sample_fits(1, samples[k]));
            }
        }
    }
    assert(all_fit_spec(2, samples) == forall|k: int| 0 <= k < samples.len() ==> #[trigger] samples[k] == "true"@ || samples[k] == "false"@) by {
        if all_fit_spec(2, samples) {
            assert forall|k: int| 0 <= k < samples.len() implies #[trigger] samples[k] == "true"@ || samples[k] == "false"@ by {
                assert(sample_fits(2, samples[k]));
            }
        }
    }
    assert(all_fit_spec(3, samples) == forall|k: int| 0 <= k < samples.len() ==> #[trigger] date_shaped(samples[k])) by {
        if all_fit_spec(3, samples) {
            assert forall|k: int| 0 <= k < samples.len() implies #[trigger] date_shaped(samples[k]) by {
                assert(sample_fits(3, samples[k]));
            }
        }
    }
    assert(all_fit_spec(4, samples) == forall|k: int| 0 <= k < samples.len() ==> #[trigger] email_shaped(samples[k])) by {
        if all_fit_spec(4, samples) {
            assert forall|k: int| 0 <= k < samples.len() implies #[trigger] email_shaped(samples[k]) by {
                assert(sample_fits(4, samples[k]));
            }
        }
    }
    assert(all_fit_spec(5, samples) == forall|k: int| 0 <= k < samples.len() ==> #[trigger] url_shaped(samples[k])) by {
        if all_fit_spec(5, samples) {
            assert forall|k: int| 0 <= k < samples.len() implies #[trigger] url_shaped(samples[k]) by {
                assert(sample_fits(5, samples[k]));
            }
        }
    }
    law_date_columns(samples);
}

} // verus!
