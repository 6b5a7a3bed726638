//! Parser registry — format detection and the parsers of each format.
pub mod detect;
pub mod log_parser;
pub mod media_parser;
pub mod html_parser;
pub mod sql_parser;
pub mod xml_parser;
pub mod geo_parser;
pub mod email_parser;
pub mod calendar_parser;
pub mod yaml_parser;
pub mod json_parser;
pub mod csv_parser;

use vstd::prelude::*;
use crate::types::json::{JsonValue, JsonView, lemma_member_views};
use crate::types::record::{DataRecord, FieldMap, RecordStatus, insert_entry, fields_checksum};
use crate::types::json_io::spec_object_json;
use crate::types::schema::{UniversalSchema, SchemaNode, SchemaField, FieldType};
use crate::types::error::{AdatError, AdatResult};

verus! {

/// All supported data formats.
#[derive(Debug, Clone, Copy, PartialEq, Eq, Hash, Structural)]
pub enum DataFormat {
    Csv,
    Tsv,
    Json,
    JsonLines,
    Xml,
    Yaml,
    Toml,
    Html,
    Sql,
    Log,
    Email,
    Calendar,
    GeoJson,
    Kml,
    Gpx,
    Markdown,
    Unknown,
}

/// Detected format with confidence (in thousandths) and a description.
#[derive(Debug, Clone)]
pub struct FormatDetection {
    pub format: DataFormat,
    /// Confidence in thousandths (950 stands for 0.95).
    pub confidence: u32,
    pub details: String,
}

/// Human-readable name of a format.
pub open spec fn format_name(f: DataFormat) -> Seq<char> {
    match f {
        DataFormat::Csv => "CSV"@,
        DataFormat::Tsv => "TSV"@,
        DataFormat::Json => "JSON"@,
        DataFormat::JsonLines => "JSON Lines"@,
        DataFormat::Xml => "XML"@,
        DataFormat::Yaml => "YAML"@,
        DataFormat::Toml => "TOML"@,
        DataFormat::Html => "HTML"@,
        DataFormat::Sql => "SQL"@,
        DataFormat::Log => "Log"@,
        DataFormat::Email => "Email (EML)"@,
        DataFormat::Calendar => "Calendar (ICS)"@,
        DataFormat::GeoJson => "GeoJSON"@,
        DataFormat::Kml => "KML"@,
        DataFormat::Gpx => "GPX"@,
        DataFormat::Markdown => "Markdown"@,
        DataFormat::Unknown => "Unknown"@,
    }
}

/// Common file extensions of a format.
pub open spec fn format_extensions(f: DataFormat) -> Seq<Seq<char>> {
    match f {
        DataFormat::Csv => seq!["csv"@],
        DataFormat::Tsv => seq!["tsv"@, "tab"@],
        DataFormat::Json => seq!["json"@],
        DataFormat::JsonLines => seq!["jsonl"@, "ndjson"@],
        DataFormat::Xml => seq!["xml"@],
        DataFormat::Yaml => seq!["yaml"@, "yml"@],
        DataFormat::Toml => seq!["toml"@],
        DataFormat::Html => seq!["html"@, "htm"@],
        DataFormat::Sql => seq!["sql"@],
        DataFormat::Log => seq!["log"@],
        DataFormat::Email => seq!["eml"@],
        DataFormat::Calendar => seq!["ics"@, "ical"@],
        DataFormat::GeoJson => seq!["geojson"@],
        DataFormat::Kml => seq!["kml"@],
        DataFormat::Gpx => seq!["gpx"@],
        DataFormat::Markdown => seq!["md"@, "markdown"@],
        DataFormat::Unknown => seq![],
    }
}

impl DataFormat {
    /// Human-readable name.
    pub fn name(&self) -> (r: &'static str)
        ensures
            r@ == format_name(*self),
    {
        match self {
            DataFormat::Csv => "CSV",
            DataFormat::Tsv => "TSV",
            DataFormat::Json => "JSON",
            DataFormat::JsonLines => "JSON Lines",
            DataFormat::Xml => "XML",
            DataFormat::Yaml => "YAML",
            DataFormat::Toml => "TOML",
            DataFormat::Html => "HTML",
            DataFormat::Sql => "SQL",
            DataFormat::Log => "Log",
            DataFormat::Email => "Email (EML)",
            DataFormat::Calendar => "Calendar (ICS)",
            DataFormat::GeoJson => "GeoJSON",
            DataFormat::Kml => "KML",
            DataFormat::Gpx => "GPX",
            DataFormat::Markdown => "Markdown",
            DataFormat::Unknown => "Unknown",
        }
    }

    /// Common file extensions for this format.
    pub fn extensions(&self) -> (r: Vec<&'static str>)
        ensures
            r@.map_values(|s: &str| s@) == format_extensions(*self),
    {
        let r: Vec<&'static str> = match self {
            DataFormat::Csv => vec!["csv"],
            DataFormat::Tsv => vec!["tsv", "tab"],
            DataFormat::Json => vec!["json"],
            DataFormat::JsonLines => vec!["jsonl", "ndjson"],
            DataFormat::Xml => vec!["xml"],
            DataFormat::Yaml => vec!["yaml", "yml"],
            DataFormat::Toml => vec!["toml"],
            DataFormat::Html => vec!["html", "htm"],
            DataFormat::Sql => vec!["sql"],
            DataFormat::Log => vec!["log"],
            DataFormat::Email => vec!["eml"],
            DataFormat::Calendar => vec!["ics", "ical"],
            DataFormat::GeoJson => vec!["geojson"],
            DataFormat::Kml => vec!["kml"],
            DataFormat::Gpx => vec!["gpx"],
            DataFormat::Markdown => vec!["md", "markdown"],
            DataFormat::Unknown => vec![],
        };
        assert(r@.map_values(|s: &str| s@) =~= format_extensions(*self));
        r
    }
}

/// The sixteen formats that can be parsed (every format but `Unknown`), in order.
pub open spec fn supported_format_list() -> Seq<DataFormat> {
    seq![
        DataFormat::Csv,
        DataFormat::Tsv,
        DataFormat::Json,
        DataFormat::JsonLines,
        DataFormat::Xml,
        DataFormat::Yaml,
        DataFormat::Toml,
        DataFormat::Html,
        DataFormat::Sql,
        DataFormat::Log,
        DataFormat::Email,
        DataFormat::Calendar,
        DataFormat::GeoJson,
        DataFormat::Kml,
        DataFormat::Gpx,
        DataFormat::Markdown,
    ]
}

/// List all supported formats.
pub fn supported_formats() -> (r: Vec<DataFormat>)
    ensures
        r@ == supported_format_list(),
{
    let r = vec![
        DataFormat::Csv,
        DataFormat::Tsv,
        DataFormat::Json,
        DataFormat::JsonLines,
        DataFormat::Xml,
        DataFormat::Yaml,
        DataFormat::Toml,
        DataFormat::Html,
        DataFormat::Sql,
        DataFormat::Log,
        DataFormat::Email,
        DataFormat::Calendar,
        DataFormat::GeoJson,
        DataFormat::Kml,
        DataFormat::Gpx,
        DataFormat::Markdown,
    ];
    assert(r@ =~= supported_format_list());
    r
}

/// Every supported format has a name of its own, and none of them is `Unknown`.
pub proof fn lemma_supported_formats_distinct_names()
    ensures
        supported_format_list().len() == 16,
        forall|i: int, j: int|
            0 <= i < j < 16 ==> format_name(supported_format_list()[i]) != format_name(
                supported_format_list()[j],
            ),
        forall|i: int| 0 <= i < 16 ==> supported_format_list()[i] != DataFormat::Unknown,
{
    reveal_strlit("CSV");
    reveal_strlit("TSV");
    reveal_strlit("JSON");
    reveal_strlit("JSON Lines");
    reveal_strlit("XML");
    reveal_strlit("YAML");
    reveal_strlit("TOML");
    reveal_strlit("HTML");
    reveal_strlit("SQL");
    reveal_strlit("Log");
    reveal_strlit("Email (EML)");
    reveal_strlit("Calendar (ICS)");
    reveal_strlit("GeoJSON");
    reveal_strlit("KML");
    reveal_strlit("GPX");
    reveal_strlit("Markdown");
    assert forall|i: int, j: int|
        0 <= i < j < 16 implies format_name(supported_format_list()[i]) != format_name(
            supported_format_list()[j],
        ) by {
        let a = format_name(supported_format_list()[i]);
        let b = format_name(supported_format_list()[j]);
        if a == b {
            assert(a.len() == b.len());
            assert(a[0] == b[0]);
            assert(a[a.len() - 1] == b[b.len() - 1]);
            assert(a[1] == b[1]);
        }
    }
}

/// Result of parsing a data source.
#[derive(Debug)]
pub struct ParseResult {
    /// Inferred schema.
    pub schema: UniversalSchema,
    /// Parsed records.
    pub records: Vec<DataRecord>,
    /// Number of records that failed to parse.
    pub errors: usize,
    /// Warnings during parsing.
    pub warnings: Vec<String>,
}

/// The fields after inserting the pairs in order (a later pair replaces an earlier
/// one with the same key).
pub open spec fn fields_of(pairs: Seq<(Seq<char>, JsonView)>) -> Seq<(Seq<char>, JsonView)>
    decreases pairs.len(),
{
    if pairs.len() == 0 {
        Seq::empty()
    } else {
        insert_entry(fields_of(pairs.drop_last()), pairs.last().0, pairs.last().1)
    }
}

/// Views of key-value pairs.
pub open spec fn pair_views(pairs: Seq<(String, JsonValue)>) -> Seq<(Seq<char>, JsonView)> {
    pairs.map_values(|p: (String, JsonValue)| (p.0@, p.1@))
}

/// A field map holding the pairs, inserted in order.
pub fn field_map_of(pairs: Vec<(String, JsonValue)>) -> (r: FieldMap)
    ensures
        r@ == fields_of(pair_views(pairs@)),
{
    let ghost pv = pair_views(pairs@);
    let mut m = FieldMap::new();
    let mut pairs = pairs;
    let mut rest: Vec<(String, JsonValue)> = Vec::new();
    // Reverse, so that pairs can be taken from the end in their given order.
    while pairs.len() > 0
        invariant
            pv == pair_views(pairs@) + pair_views(rest@).reverse(),
        decreases pairs.len(),
    {
        let ghost p0 = pairs@;
        let ghost r0 = rest@;
        let x = pairs.pop().unwrap();
        rest.push(x);
        assert(pair_views(pairs@) + pair_views(rest@).reverse() =~= pair_views(p0) + pair_views(r0).reverse());
    }
    assert(pair_views(pairs@) =~= Seq::<(Seq<char>, JsonView)>::empty());
    assert(m@ =~= fields_of(Seq::<(Seq<char>, JsonView)>::empty()));
    let ghost mut done: Seq<(Seq<char>, JsonView)> = Seq::empty();
    while rest.len() > 0
        invariant
            pv == done + pair_views(rest@).reverse(),
            m@ == fields_of(done),
        decreases rest.len(),
    {
        let ghost r0 = rest@;
        let (k, v) = rest.pop().unwrap();
        let ghost kv = (k@, v@);
        m.insert(k, v);
        proof {
            assert(pair_views(r0).reverse() =~= seq![kv] + pair_views(rest@).reverse());
            assert((done + seq![kv]).drop_last() =~= done);
            done = done + seq![kv];
        }
    }
    assert(pv =~= done);
    m
}

/// A record of `source` under schema node `node` with the given fields.
pub fn record_of(source: &str, node: &str, pairs: Vec<(String, JsonValue)>) -> (r: DataRecord)
    ensures
        record_is(r, source@, node@, fields_of(pair_views(pairs@))),
{
    DataRecord::new(source, node, field_map_of(pairs))
}

/// A record as the parsers make it: a new record of the source, under the schema node,
/// with the fields: a fresh id, active, at version 1, created when last updated, with
/// the checksum and size of the fields' JSON bytes.
pub open spec fn record_is(r: DataRecord, source: Seq<char>, node: Seq<char>, fields: Seq<(Seq<char>, JsonView)>) -> bool {
    &&& r.id@.len() == 36
    &&& r.source_id@ == source
    &&& r.schema_node@ == node
    &&& r.fields@ == fields
    &&& r.status == RecordStatus::Active
    &&& r.version == 1
    &&& r.created_at == r.updated_at
    &&& r.checksum@ == fields_checksum(fields)
    &&& r.compressed_size == 0
    &&& r.raw_size == spec_object_json(fields).len() as u32
}

/// A field inferred with the given name, type and confidence, as the parsers list
/// them.
pub open spec fn field_is(f: SchemaField, name: Seq<char>, t: FieldType, confidence: u32) -> bool {
    &&& f.name@ == name
    &&& f.field_type == t
    &&& !f.nullable
    &&& f.description is None
    &&& f.confidence == confidence
    &&& f.sample_values@.len() == 0
    &&& f.stats is None
}

/// The fields are the inferred fields of the list, in order.
pub open spec fn fields_are(fs: Seq<SchemaField>, model: Seq<(Seq<char>, FieldType, u32)>) -> bool {
    &&& fs.len() == model.len()
    &&& forall|i: int|
        0 <= i < fs.len() ==> field_is(#[trigger] fs[i], model[i].0, model[i].1, model[i].2)
}

/// A schema named after the source with one node.
pub open spec fn single_node_schema(
    s: UniversalSchema,
    source: Seq<char>,
    node: Seq<char>,
    fields: Seq<(Seq<char>, FieldType, u32)>,
    count: u64,
) -> bool {
    &&& s.name@ == source
    &&& s.version == 1
    &&& s.edges@.len() == 0
    &&& s.nodes@.len() == 1
    &&& s.nodes@[0].name@ == node
    &&& s.nodes@[0].source@ == source
    &&& fields_are(s.nodes@[0].fields@, fields)
    &&& s.nodes@[0].record_count == Some(count)
}

/// The inferred fields of a list of names, types and confidences.
pub fn inferred_fields(model: Vec<(&str, FieldType, u32)>) -> (r: Vec<SchemaField>)
    ensures
        fields_are(r@, model@.map_values(|m: (&str, FieldType, u32)| (m.0@, m.1, m.2))),
{
    let ghost mv = model@.map_values(|m: (&str, FieldType, u32)| (m.0@, m.1, m.2));
    let mut model = model;
    let mut out: Vec<SchemaField> = Vec::new();
    while model.len() > 0
        invariant
            out@.len() + model@.len() == mv.len(),
            forall|k: int| 0 <= k < model@.len() ==> #[trigger] mv[out@.len() + k] == (
                model@[k].0@,
                model@[k].1,
                model@[k].2,
            ),
            forall|k: int|
                0 <= k < out@.len() ==> field_is(#[trigger] out@[k], mv[k].0, mv[k].1, mv[k].2),
        decreases model.len(),
    {
        let ghost m0 = model@;
        let (name, t, c) = model.remove(0);
        assert(mv[out@.len() as int] == (name@, t, c)) by {
            assert(mv[out@.len() + 0int] == (m0[0].0@, m0[0].1, m0[0].2));
        }
        out.push(SchemaField::inferred(name, t, c));
        assert forall|k: int| 0 <= k < model@.len() implies #[trigger] mv[out@.len() + k] == (
            model@[k].0@,
            model@[k].1,
            model@[k].2,
        ) by {
            assert(mv[(out@.len() - 1) + (k + 1)] == (m0[k + 1].0@, m0[k + 1].1, m0[k + 1].2));
        }
    }
    out
}

/// A schema named after the source with one node holding the given fields.
pub fn single_node(source: &str, node: &str, fields: Vec<SchemaField>, count: u64) -> (r: UniversalSchema)
    ensures
        r.name@ == source@,
        r.version == 1,
        r.edges@.len() == 0,
        r.nodes@.len() == 1,
        r.nodes@[0].name@ == node@,
        r.nodes@[0].source@ == source@,
        r.nodes@[0].fields@ == fields@,
        r.nodes@[0].record_count == Some(count),
{
    let mut schema = UniversalSchema::new(source);
    schema.nodes.push(
        SchemaNode {
            name: node.to_owned(),
            source: source.to_owned(),
            fields,
            record_count: Some(count),
        },
    );
    schema
}

/// A record as a parser describes it: its schema node and its fields.
pub type RecordModel = (Seq<char>, Seq<(Seq<char>, JsonView)>);

/// The records are those of the model, in order.
pub open spec fn records_match(rs: Seq<DataRecord>, source: Seq<char>, model: Seq<RecordModel>) -> bool {
    &&& rs.len() == model.len()
    &&& forall|i: int|
        0 <= i < rs.len() ==> record_is(#[trigger] rs[i], source, model[i].0, model[i].1)
}

/// Append a record of `source` under `node` with the given fields.
pub(crate) fn push_record(
    records: &mut Vec<DataRecord>,
    source: &str,
    node: &str,
    pairs: Vec<(String, JsonValue)>,
    Ghost(model): Ghost<Seq<RecordModel>>,
)
    requires
        records_match(old(records)@, source@, model),
    ensures
        records_match(
            final(records)@,
            source@,
            model.push((node@, fields_of(pair_views(pairs@)))),
        ),
{
    let ghost pv = pair_views(pairs@);
    let rec = record_of(source, node, pairs);
    records.push(rec);
    assert(records_match(records@, source@, model.push((node@, fields_of(pv)))));
}

/// The inputs on which the parser of a format runs to completion.
pub open spec fn parse_ok(data: Seq<char>, format: DataFormat) -> bool {
    match format {
        DataFormat::Xml => xml_parser::xml_ok(data),
        DataFormat::Html => html_parser::html_ok(data),
        DataFormat::Sql => sql_parser::sql_ok(data),
        DataFormat::Log => log_parser::log_data_ok(data),
        DataFormat::Kml => geo_parser::kml_ok(data),
        _ => true,
    }
}

/// What parsing data as a format gives: the outcome of that format's parser (commas
/// for CSV, tabs for TSV), and an error for `Unknown`.
pub open spec fn parse_outcome(r: AdatResult<ParseResult>, data: Seq<char>, source: Seq<char>, format: DataFormat) -> bool {
    match format {
        DataFormat::Csv => csv_parser::csv_outcome(r, data, source, 44u8),
        DataFormat::Tsv => csv_parser::csv_outcome(r, data, source, 9u8),
        DataFormat::Json => json_parser::json_outcome(r, data, source),
        DataFormat::JsonLines => json_parser::json_lines_outcome(r, data, source),
        DataFormat::Xml => xml_parser::xml_outcome(r, data, source),
        DataFormat::Yaml => yaml_parser::yaml_outcome(r, data, source),
        DataFormat::Toml => yaml_parser::toml_outcome(r, data, source),
        DataFormat::Html => html_parser::html_outcome(r, data, source),
        DataFormat::Sql => sql_parser::sql_outcome(r, data, source),
        DataFormat::Log => log_parser::log_outcome(r, data, source),
        DataFormat::Email => email_parser::email_outcome(r, data, source),
        DataFormat::Calendar => calendar_parser::calendar_outcome(r, data, source),
        DataFormat::GeoJson => geo_parser::geojson_outcome(r, data, source),
        DataFormat::Kml => geo_parser::kml_outcome(r, data, source),
        DataFormat::Gpx => geo_parser::gpx_outcome(r, data, source),
        DataFormat::Markdown => html_parser::markdown_outcome(r, data, source),
        DataFormat::Unknown => r matches Err(AdatError::FormatDetection(m)) && m@
            == "Cannot parse unknown format"@,
    }
}

/// Parse data as a specific format.
pub fn parse_as(data: &str, source_name: &str, format: DataFormat) -> (r: AdatResult<ParseResult>)
    requires
        parse_ok(data@, format),
    ensures
        parse_outcome(r, data@, source_name@, format),
{
    match format {
        DataFormat::Csv => csv_parser::parse(data, source_name, 44u8),
        DataFormat::Tsv => csv_parser::parse(data, source_name, 9u8),
        DataFormat::Json => json_parser::parse(data, source_name),
        DataFormat::JsonLines => json_parser::parse_lines(data, source_name),
        DataFormat::Xml => xml_parser::parse(data, source_name),
        DataFormat::Yaml => yaml_parser::parse_yaml(data, source_name),
        DataFormat::Toml => yaml_parser::parse_toml(data, source_name),
        DataFormat::Html => html_parser::parse(data, source_name),
        DataFormat::Sql => sql_parser::parse(data, source_name),
        DataFormat::Log => log_parser::parse(data, source_name),
        DataFormat::Email => email_parser::parse(data, source_name),
        DataFormat::Calendar => calendar_parser::parse(data, source_name),
        DataFormat::GeoJson => geo_parser::parse_geojson(data, source_name),
        DataFormat::Kml => geo_parser::parse_kml(data, source_name),
        DataFormat::Gpx => geo_parser::parse_gpx(data, source_name),
        DataFormat::Markdown => html_parser::parse_markdown(data, source_name),
        DataFormat::Unknown => Err(
            AdatError::FormatDetection("Cannot parse unknown format".to_owned()),
        ),
    }
}

/// Parse data from a string, detecting its format first.
pub fn parse_auto(data: &str, source_name: &str) -> (r: AdatResult<ParseResult>)
    requires
        parse_ok(data@, detect::detect_spec(data@, None).0),
    ensures
        parse_outcome(r, data@, source_name@, detect::detect_spec(data@, None).0),
{
    let detection = detect::detect_format(data, None);
    parse_as(data, source_name, detection.format)
}

} // verus!
