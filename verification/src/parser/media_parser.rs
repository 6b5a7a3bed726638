//! Media metadata parser: the kind of media named by a text, and `key: value`
//! metadata lines.
use vstd::prelude::*;
use vstd::utf8::encode_utf8;
use crate::text::{
    chars_of, string_of, contains, contains_lit, find_char, find_char_exec, trim, trim_exec,
    slice_vec, spec_to_lower, to_lower, lines, lines_exec, views,
};
use crate::types::error::AdatResult;
use crate::types::json::{JsonValue, JsonView};
use crate::types::schema::FieldType;
use super::{ParseResult, record_of, fields_of, pair_views, record_is, single_node_schema, inferred_fields, single_node};

verus! {

/// The kind of media that a lower-cased text names by a file extension.
pub open spec fn media_kind(lower: Seq<char>) -> Seq<char> {
    if contains(lower, ".jpg"@) || contains(lower, ".jpeg"@) || contains(lower, ".png"@)
        || contains(lower, ".gif"@) || contains(lower, ".webp"@) || contains(lower, ".svg"@) {
        "image"@
    } else if contains(lower, ".mp4"@) || contains(lower, ".avi"@) || contains(lower, ".mkv"@)
        || contains(lower, ".mov"@) || contains(lower, ".webm"@) {
        "video"@
    } else if contains(lower, ".mp3"@) || contains(lower, ".wav"@) || contains(lower, ".flac"@)
        || contains(lower, ".ogg"@) || contains(lower, ".aac"@) {
        "audio"@
    } else {
        "unknown"@
    }
}

/// The kind of media a text names: `image`, `video`, `audio` or `unknown`, by the
/// file extensions it holds (compared in lower case).
pub fn detect_media_type(data: &str) -> (r: &'static str)
    ensures
        r@ == media_kind(spec_to_lower(data@)),
{
    let lower = to_lower(chars_of(data).as_slice());
    if contains_lit(&lower, ".jpg") || contains_lit(&lower, ".jpeg") || contains_lit(&lower, ".png")
        || contains_lit(&lower, ".gif") || contains_lit(&lower, ".webp") || contains_lit(
        &lower,
        ".svg",
    ) {
        "image"
    } else if contains_lit(&lower, ".mp4") || contains_lit(&lower, ".avi") || contains_lit(
        &lower,
        ".mkv",
    ) || contains_lit(&lower, ".mov") || contains_lit(&lower, ".webm") {
        "video"
    } else if contains_lit(&lower, ".mp3") || contains_lit(&lower, ".wav") || contains_lit(
        &lower,
        ".flac",
    ) || contains_lit(&lower, ".ogg") || contains_lit(&lower, ".aac") {
        "audio"
    } else {
        "unknown"
    }
}

/// The chars with every space replaced by `_`.
pub open spec fn spaces_to_underscores(s: Seq<char>) -> Seq<char> {
    s.map_values(|c: char| if c == ' ' {
        '_'
    } else {
        c
    })
}

fn spaces_to_underscores_exec(s: &[char]) -> (r: Vec<char>)
    ensures
        r@ == spaces_to_underscores(s@),
{
    let mut out: Vec<char> = Vec::new();
    let mut i: usize = 0;
    while i < s.len()
        invariant
            i <= s@.len(),
            out@ == spaces_to_underscores(s@.subrange(0, i as int)),
        decreases s.len() - i,
    {
        out.push(if s[i] == ' ' {
            '_'
        } else {
            s[i]
        });
        i = i + 1;
        assert(out@ =~= spaces_to_underscores(s@.subrange(0, i as int)));
    }
    assert(s@.subrange(0, s@.len() as int) =~= s@);
    out
}

/// The metadata pair of a line `key: value`: the key trimmed, lower-cased, with
/// spaces as `_`, the value trimmed; none when either is empty or the key has 50
/// bytes or more.
pub open spec fn metadata_pair(line: Seq<char>) -> Option<(Seq<char>, JsonView)> {
    let t = trim(line);
    match find_char(t, ':') {
        Some(c) => {
            let key = spaces_to_underscores(spec_to_lower(trim(t.subrange(0, c))));
            let val = trim(t.subrange(c + 1, t.len() as int));
            if key.len() > 0 && val.len() > 0 && encode_utf8(key).len() < 50 {
                Some((key, JsonView::Str(val)))
            } else {
                None
            }
        },
        None => None,
    }
}

/// The metadata pairs of lines, in order.
pub open spec fn metadata_pairs(ls: Seq<Seq<char>>) -> Seq<(Seq<char>, JsonView)>
    decreases ls.len(),
{
    if ls.len() == 0 {
        Seq::empty()
    } else {
        metadata_pairs(ls.drop_last()) + match metadata_pair(ls.last()) {
            Some(p) => seq![p],
            None => Seq::empty(),
        }
    }
}

/// The media kind of a data text, or of the source name when the text names none.
pub open spec fn media_of(data: Seq<char>, source: Seq<char>) -> Seq<char> {
    if media_kind(spec_to_lower(data)) == "unknown"@ {
        media_kind(spec_to_lower(source))
    } else {
        media_kind(spec_to_lower(data))
    }
}

/// The fields of the media schema.
pub open spec fn media_schema_fields() -> Seq<(Seq<char>, FieldType, u32)> {
    seq![
        ("media_type"@, FieldType::Text, 900u32),
        ("source"@, FieldType::Text, 1000u32),
        ("width"@, FieldType::Integer, 500u32),
        ("height"@, FieldType::Integer, 500u32),
        ("duration"@, FieldType::Duration, 500u32),
        ("codec"@, FieldType::Text, 500u32),
    ]
}

fn metadata_pair_exec(line: &[char]) -> (r: Option<(String, JsonValue)>)
    ensures
        match r {
            Some(p) => metadata_pair(line@) == Some((p.0@, p.1@)),
            None => metadata_pair(line@) is None,
        },
{
    let t = trim_exec(line);
    let c = match find_char_exec(&t, ':') {
        Some(c) => c,
        None => {
            return None;
        },
    };
    let tl = t.len();
    let key = spaces_to_underscores_exec(&to_lower(&trim_exec(&slice_vec(&t, 0, c))));
    let val = trim_exec(&slice_vec(&t, c + 1, t.len()));
    let key_s = string_of(&key);
    if key.len() > 0 && val.len() > 0 && key_s.as_str().as_bytes().len() < 50 {
        Some((key_s, JsonValue::Str(string_of(&val))))
    } else {
        None
    }
}

/// What parsing media metadata gives.
pub open spec fn media_outcome(r: AdatResult<ParseResult>, data: Seq<char>, source: Seq<char>) -> bool {
    &&& match r {
            Ok(p) => {
                &&& p.records@.len() == 1
                &&& record_is(
                    p.records@[0],
                    source,
                    "media"@,
                    fields_of(
                        seq![
                            ("media_type"@, JsonView::Str(media_of(data, source))),
                            ("source"@, JsonView::Str(source)),
                        ] + metadata_pairs(lines(data)),
                    ),
                )
                &&& single_node_schema(p.schema, source, "media"@, media_schema_fields(), 1)
                &&& p.errors == 0
                &&& p.warnings@.len() == 0
            },
            Err(_) => false,
        }
}

/// Parse media metadata: one `media` record with the media kind (from the data, else
/// from the source name), the source name, and the `key: value` pairs of the lines.
pub fn parse(data: &str, source_name: &str) -> (r: AdatResult<ParseResult>)
    ensures
        media_outcome(r, data@, source_name@),
{
    let from_data = detect_media_type(data);
    let media_type = if crate::text::str_eq(from_data, "unknown") {
        detect_media_type(source_name)
    } else {
        from_data
    };
    let mut pairs: Vec<(String, JsonValue)> = Vec::new();
    pairs.push(("media_type".to_owned(), JsonValue::Str(media_type.to_owned())));
    pairs.push(("source".to_owned(), JsonValue::Str(source_name.to_owned())));
    let ghost head = pair_views(pairs@);
    assert(head =~= seq![
        ("media_type"@, JsonView::Str(media_of(data@, source_name@))),
        ("source"@, JsonView::Str(source_name@)),
    ]);
    let ls = lines_exec(chars_of(data).as_slice());
    let ghost all = views(ls@);
    let mut i: usize = 0;
    while i < ls.len()
        invariant
            i <= ls@.len(),
            all == views(ls@),
            pair_views(pairs@) == head + metadata_pairs(all.subrange(0, i as int)),
        decreases ls.len() - i,
    {
        assert(all.subrange(0, i + 1).drop_last() =~= all.subrange(0, i as int));
        assert(all[i as int] == ls@[i as int]@);
        let ghost before = pair_views(pairs@);
        match metadata_pair_exec(&ls[i]) {
            Some(p) => {
                pairs.push(p);
                assert(pair_views(pairs@) =~= before.push((p.0@, p.1@)));
            },
            None => {},
        }
        i = i + 1;
        assert(pair_views(pairs@) =~= head + metadata_pairs(all.subrange(0, i as int)));
    }
    assert(all.subrange(0, all.len() as int) =~= all);
    let rec = record_of(source_name, "media", pairs);
    let fields = inferred_fields(
        vec![
            ("media_type", FieldType::Text, 900),
            ("source", FieldType::Text, 1000),
            ("width", FieldType::Integer, 500),
            ("height", FieldType::Integer, 500),
            ("duration", FieldType::Duration, 500),
            ("codec", FieldType::Text, 500),
        ],
    );
    let schema = single_node(source_name, "media", fields, 1);
    Ok(ParseResult { schema, records: vec![rec], errors: 0, warnings: Vec::new() })
}

} // verus!
