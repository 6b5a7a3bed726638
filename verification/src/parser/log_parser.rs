//! Log parser: timestamped log lines become records.
use vstd::prelude::*;
use vstd::utf8::{encode_utf8, decode_utf8, is_char_boundary, encode_utf8_decode_utf8};
use crate::types::error::AdatResult;
use crate::types::json::{JsonValue, JsonView};
use crate::types::record::DataRecord;
use crate::types::schema::FieldType;
use super::{ParseResult, record_of, fields_of, pair_views, record_is, single_node_schema, inferred_fields, single_node};
use crate::text::{
    chars_of, string_of, starts_with, starts_with_lit, find_char, find_char_exec, trim, trim_exec,
    trim_start_char, trim_start_char_exec, slice_vec, spec_to_upper, to_upper, lines, lines_exec,
    views,
};

verus! {

/// A parsed log line.
#[derive(Debug)]
pub struct LogEntry {
    pub timestamp: String,
    pub level: String,
    pub message: String,
    pub source: Option<String>,
}

/// The levels that are recognised, in the order in which they are tried.
pub open spec fn log_levels() -> Seq<Seq<char>> {
    seq![
        "ERROR"@,
        "WARN"@,
        "WARNING"@,
        "INFO"@,
        "DEBUG"@,
        "TRACE"@,
        "FATAL"@,
        "CRITICAL"@,
    ]
}

/// The first level, from position `k` of the list on, that `upper` starts with.
pub open spec fn first_level_from(upper: Seq<char>, k: int) -> Option<Seq<char>>
    decreases 8 - k,
{
    if k < 0 || k >= 8 {
        None
    } else if starts_with(upper, log_levels()[k]) {
        Some(log_levels()[k])
    } else {
        first_level_from(upper, k + 1)
    }
}

/// The first level that the upper-cased text starts with.
pub open spec fn first_level(text: Seq<char>) -> Option<Seq<char>> {
    first_level_from(spec_to_upper(text), 0)
}

/// The text after its first `n` UTF-8 bytes.
pub open spec fn after_bytes(text: Seq<char>, n: int) -> Seq<char> {
    decode_utf8(encode_utf8(text).subrange(n, encode_utf8(text).len() as int))
}

/// The text's first `n` UTF-8 bytes.
pub open spec fn before_bytes(text: Seq<char>, n: int) -> Seq<char> {
    decode_utf8(encode_utf8(text).subrange(0, n))
}

/// The message may be cut after the level: the level's length in bytes ends a char.
pub open spec fn level_cut_ok(text: Seq<char>) -> bool {
    first_level(text) matches Some(l) ==> is_char_boundary(
        encode_utf8(text),
        encode_utf8(l).len() as int,
    )
}

/// Level and message of a text: the first level its upper-cased form starts with and
/// the rest, trimmed, without leading colons, trimmed again; else `UNKNOWN` and the
/// whole text.
pub open spec fn level_message(text: Seq<char>) -> (Seq<char>, Seq<char>) {
    match first_level(text) {
        Some(l) => (
            l,
            trim(trim_start_char(trim(after_bytes(text, encode_utf8(l).len() as int)), ':')),
        ),
        None => ("UNKNOWN"@, text),
    }
}

/// Split the level off a text: the first recognised level (compared in upper case)
/// and the rest as the message, else `UNKNOWN` and the whole text.
pub fn extract_level_message(text: &str) -> (r: (String, String))
    requires
        level_cut_ok(text@),
    ensures
        (r.0@, r.1@) == level_message(text@),
{
    let upper = to_upper(chars_of(text).as_slice());
    let levels: [&str; 8] = ["ERROR", "WARN", "WARNING", "INFO", "DEBUG", "TRACE", "FATAL", "CRITICAL"];
    let mut k: usize = 0;
    while k < 8
        invariant
            k <= 8,
            upper@ == spec_to_upper(text@),
            levels@.map_values(|l: &str| l@) == log_levels(),
            first_level(text@) == first_level_from(upper@, k as int),
            level_cut_ok(text@),
        decreases 8 - k,
    {
        let level = levels[k];
        assert(level@ == log_levels()[k as int]);
        if starts_with_lit(&upper, level) {
            let n = level.as_bytes().len();
            assert(first_level(text@) == Some(level@));
            let (_head, rest) = text.split_at(n);
            proof {
                encode_utf8_decode_utf8(rest@);
                assert(encode_utf8(rest@) =~= encode_utf8(text@).subrange(
                    encode_utf8(level@).len() as int,
                    encode_utf8(text@).len() as int,
                ));
            }
            let a = trim_exec(chars_of(rest).as_slice());
            let b = trim_start_char_exec(&a, ':');
            let c = trim_exec(&b);
            return (level.to_owned(), string_of(&c));
        }
        k = k + 1;
    }
    ("UNKNOWN".to_owned(), text.to_owned())
}

/// First position at or after `i` of a space or tab byte.
pub open spec fn first_blank_from(b: Seq<u8>, i: int) -> Option<int>
    decreases b.len() - i,
{
    if i < 0 || i >= b.len() {
        None
    } else if b[i] == 32 || b[i] == 9 {
        Some(i)
    } else {
        first_blank_from(b, i + 1)
    }
}

/// Where the timestamp of an ISO-style line ends, in bytes: at the first space or
/// tab, but no earlier than byte 19.
pub open spec fn iso_ts_end(b: Seq<u8>) -> int {
    match first_blank_from(b, 0) {
        Some(k) => if k < 19 {
            19
        } else {
            k
        },
        None => 19,
    }
}

/// A line starting with `[` and holding a `]`.
pub open spec fn bracketed(line: Seq<char>) -> bool {
    line.len() > 0 && line[0] == '[' && find_char(line, ']') is Some
}

/// A line longer than 19 bytes whose fifth byte is `-` or `/`.
pub open spec fn iso_like(line: Seq<char>) -> bool {
    let b = encode_utf8(line);
    b.len() > 19 && (b[4] == 45 || b[4] == 47)
}

/// Timestamp, level and message of a log line.
pub open spec fn log_entry(line: Seq<char>) -> (Seq<char>, Seq<char>, Seq<char>) {
    if bracketed(line) {
        let k = find_char(line, ']')->0;
        let lm = level_message(trim(line.subrange(k + 1, line.len() as int)));
        (line.subrange(1, k), lm.0, lm.1)
    } else if iso_like(line) {
        let e = iso_ts_end(encode_utf8(line));
        let lm = level_message(trim(after_bytes(line, e)));
        (before_bytes(line, e), lm.0, lm.1)
    } else {
        let lm = level_message(line);
        (Seq::empty(), lm.0, lm.1)
    }
}

/// A log line can be parsed without cutting a char in two.
pub open spec fn log_line_ok(line: Seq<char>) -> bool {
    if bracketed(line) {
        level_cut_ok(trim(line.subrange(find_char(line, ']')->0 + 1, line.len() as int)))
    } else if iso_like(line) {
        let e = iso_ts_end(encode_utf8(line));
        is_char_boundary(encode_utf8(line), e) && level_cut_ok(trim(after_bytes(line, e)))
    } else {
        level_cut_ok(line)
    }
}

fn iso_ts_end_exec(line: &str) -> (r: usize)
    requires
        encode_utf8(line@).len() > 19,
    ensures
        r == iso_ts_end(encode_utf8(line@)),
{
    let b = line.as_bytes();
    let ghost bs = encode_utf8(line@);
    let mut i: usize = 0;
    while i < b.len()
        invariant
            i <= b@.len(),
            b@ == bs,
            bs == encode_utf8(line@),
            first_blank_from(bs, 0) == first_blank_from(bs, i as int),
        decreases b.len() - i,
    {
        if b[i] == 32 || b[i] == 9 {
            assert(bs[i as int] == 32 || bs[i as int] == 9);
            assert(first_blank_from(bs, i as int) == Some(i as int));
            assert(first_blank_from(bs, 0) == Some(i as int));
            let r: usize = if i < 19 {
                19
            } else {
                i
            };
            assert(r == iso_ts_end(bs));
            return r;
        }
        i = i + 1;
    }
    19
}

/// Parse one log line: `[timestamp] LEVEL message`, `timestamp LEVEL message` (an
/// ISO-style timestamp) or `LEVEL message`.
pub fn parse_log_line(line: &str) -> (r: LogEntry)
    requires
        log_line_ok(line@),
    ensures
        (r.timestamp@, r.level@, r.message@) == log_entry(line@),
        r.source is None,
{
    let cs = chars_of(line);
    if cs.len() > 0 && cs[0] == '[' {
        match find_char_exec(&cs, ']') {
            Some(k) => {
                let ts = string_of(&slice_vec(&cs, 1, k));
                let rest = string_of(&trim_exec(&slice_vec(&cs, k + 1, cs.len())));
                let (level, message) = extract_level_message(rest.as_str());
                return LogEntry { timestamp: ts, level, message, source: None };
            },
            None => {},
        }
    }
    let b = line.as_bytes();
    if b.len() > 19 && (b[4] == 45 || b[4] == 47) {
        let e = iso_ts_end_exec(line);
        let (head, tail) = line.split_at(e);
        proof {
            encode_utf8_decode_utf8(head@);
            encode_utf8_decode_utf8(tail@);
        }
        let rest = string_of(&trim_exec(chars_of(tail).as_slice()));
        let (level, message) = extract_level_message(rest.as_str());
        return LogEntry { timestamp: head.to_owned(), level, message, source: None };
    }
    let (level, message) = extract_level_message(line);
    LogEntry { timestamp: String::new(), level, message, source: None }
}

/// The trimmed lines that hold something, in order.
pub open spec fn nonblank_lines(ls: Seq<Seq<char>>) -> Seq<Seq<char>>
    decreases ls.len(),
{
    if ls.len() == 0 {
        Seq::empty()
    } else {
        nonblank_lines(ls.drop_last()) + if trim(ls.last()).len() > 0 {
            seq![trim(ls.last())]
        } else {
            Seq::<Seq<char>>::empty()
        }
    }
}

/// The fields of the record of a log line.
pub open spec fn log_pairs(t: Seq<char>) -> Seq<(Seq<char>, JsonView)> {
    let e = log_entry(t);
    seq![
        ("timestamp"@, JsonView::Str(e.0)),
        ("level"@, JsonView::Str(e.1)),
        ("message"@, JsonView::Str(e.2)),
        ("raw"@, JsonView::Str(t)),
    ]
}

/// The fields of the log schema.
pub open spec fn log_schema_fields() -> Seq<(Seq<char>, FieldType, u32)> {
    seq![
        ("timestamp"@, FieldType::DateTime, 800u32),
        ("level"@, FieldType::Text, 900u32),
        ("message"@, FieldType::Text, 1000u32),
        ("source"@, FieldType::Text, 600u32),
        ("raw"@, FieldType::Text, 1000u32),
    ]
}

/// Every line with content can be parsed.
pub open spec fn log_data_ok(data: Seq<char>) -> bool {
    forall|i: int|
        0 <= i < nonblank_lines(lines(data)).len() ==> log_line_ok(
            #[trigger] nonblank_lines(lines(data))[i],
        )
}

/// What parsing log data gives.
pub open spec fn log_outcome(r: AdatResult<ParseResult>, data: Seq<char>, source: Seq<char>) -> bool {
    &&& (match r {
            Ok(p) => {
                let ls = nonblank_lines(lines(data));
                &&& p.records@.len() == ls.len()
                &&& forall|i: int|
                    0 <= i < ls.len() ==> record_is(
                        #[trigger] p.records@[i],
                        source,
                        "log_entry"@,
                        fields_of(log_pairs(ls[i])),
                    )
                &&& single_node_schema(
                    p.schema,
                    source,
                    "log_entry"@,
                    log_schema_fields(),
                    ls.len() as u64,
                )
                &&& p.errors == 0
                &&& p.warnings@.len() == 0
            },
            Err(_) => false,
        })
}

/// Parse log data: one `log_entry` record per line with content, holding the
/// timestamp, level, message and the raw (trimmed) line.
pub fn parse(data: &str, source_name: &str) -> (r: AdatResult<ParseResult>)
    requires
        log_data_ok(data@),
    ensures
        log_outcome(r, data@, source_name@),
{
    let ls = lines_exec(chars_of(data).as_slice());
    let ghost all = views(ls@);
    let ghost model = nonblank_lines(all);
    let mut records: Vec<DataRecord> = Vec::new();
    let mut i: usize = 0;
    while i < ls.len()
        invariant
            i <= ls@.len(),
            all == views(ls@),
            all == lines(data@),
            model == nonblank_lines(all),
            log_data_ok(data@),
            records@.len() == nonblank_lines(all.subrange(0, i as int)).len(),
            forall|k: int|
                0 <= k < records@.len() ==> record_is(
                    #[trigger] records@[k],
                    source_name@,
                    "log_entry"@,
                    fields_of(log_pairs(nonblank_lines(all.subrange(0, i as int))[k])),
                ),
        decreases ls.len() - i,
    {
        let ghost pre = nonblank_lines(all.subrange(0, i as int));
        assert(all.subrange(0, i + 1).drop_last() =~= all.subrange(0, i as int));
        assert(all[i as int] == ls@[i as int]@);
        let t = trim_exec(&ls[i]);
        if t.len() > 0 {
            proof {
                lemma_nonblank_prefix(all, i + 1);
                assert(nonblank_lines(all.subrange(0, i + 1)) == pre.push(t@));
                assert(model[pre.len() as int] == t@);
            }
            let line = string_of(&t);
            let e = parse_log_line(line.as_str());
            let mut pairs: Vec<(String, JsonValue)> = Vec::new();
            pairs.push(("timestamp".to_owned(), JsonValue::Str(e.timestamp)));
            pairs.push(("level".to_owned(), JsonValue::Str(e.level)));
            pairs.push(("message".to_owned(), JsonValue::Str(e.message)));
            pairs.push(("raw".to_owned(), JsonValue::Str(line)));
            assert(pair_views(pairs@) =~= log_pairs(t@));
            let rec = record_of(source_name, "log_entry", pairs);
            records.push(rec);
        } else {
            assert(nonblank_lines(all.subrange(0, i + 1)) =~= pre);
        }
        i = i + 1;
    }
    assert(all.subrange(0, all.len() as int) =~= all);
    let fields = inferred_fields(
        vec![
            ("timestamp", FieldType::DateTime, 800),
            ("level", FieldType::Text, 900),
            ("message", FieldType::Text, 1000),
            ("source", FieldType::Text, 600),
            ("raw", FieldType::Text, 1000),
        ],
    );
    let n = records.len();
    let schema = single_node(source_name, "log_entry", fields, n as u64);
    Ok(ParseResult { schema, records, errors: 0, warnings: Vec::new() })
}

proof fn lemma_nonblank_prefix(all: Seq<Seq<char>>, k: int)
    requires
        0 <= k <= all.len(),
    ensures
        nonblank_lines(all.subrange(0, k)).len() <= nonblank_lines(all).len(),
        forall|j: int|
            0 <= j < nonblank_lines(all.subrange(0, k)).len() ==> nonblank_lines(
                all.subrange(0, k),
            )[j] == nonblank_lines(all)[j],
    decreases all.len() - k,
{
    if k < all.len() {
        lemma_nonblank_prefix(all.drop_last(), k);
        assert(all.drop_last().subrange(0, k) =~= all.subrange(0, k));
    } else {
        assert(all.subrange(0, k) =~= all);
    }
}

} // verus!
