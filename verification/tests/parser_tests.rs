use agentic_data::parser::csv_parser;
use agentic_data::parser::detect::{detect_by_extension, detect_format};
use agentic_data::parser::geo_parser::{kml_coord_values, parse_geojson, parse_gpx, parse_kml};
use agentic_data::parser::html_parser::{parse as parse_html, parse_markdown, strip_html_tags};
use agentic_data::parser::json_parser::{parse as parse_json, parse_lines};
use agentic_data::parser::log_parser::{extract_level_message, parse as parse_log};
use agentic_data::parser::media_parser::{detect_media_type, parse as parse_media};
use agentic_data::parser::sql_parser::{extract_table_name, parse as parse_sql, sql_type_to_field};
use agentic_data::parser::xml_parser::{extract_inline_tag, parse as parse_xml};
use agentic_data::parser::yaml_parser::{parse_toml, parse_yaml};
use agentic_data::parser::{calendar_parser, email_parser, supported_formats, DataFormat};
use agentic_data::types::{FieldType, JsonValue};

fn float_of(v: &JsonValue) -> f64 {
    match v {
        JsonValue::Float(t) => t.parse().unwrap(),
        JsonValue::Int(n) => *n as f64,
        other => panic!("not a number: {:?}", other),
    }
}

// ── calendar ──

#[test]
fn test_parse_ics() {
    let ics = "BEGIN:VCALENDAR\nBEGIN:VEVENT\nSUMMARY:Meeting\nDTSTART:20260313T100000Z\nDTEND:20260313T110000Z\nLOCATION:Room A\nEND:VEVENT\nBEGIN:VEVENT\nSUMMARY:Lunch\nDTSTART:20260313T120000Z\nEND:VEVENT\nEND:VCALENDAR\n";
    let result = calendar_parser::parse(ics, "test").unwrap();
    assert_eq!(result.records.len(), 2);
    assert_eq!(result.records[0].get_str("summary"), Some("Meeting"));
    assert_eq!(result.records[0].get_str("location"), Some("Room A"));
}

#[test]
fn test_parse_todo() {
    let ics = "BEGIN:VCALENDAR\nBEGIN:VTODO\nSUMMARY:Buy groceries\nEND:VTODO\nEND:VCALENDAR\n";
    let result = calendar_parser::parse(ics, "test").unwrap();
    assert_eq!(result.records.len(), 1);
    assert_eq!(result.records[0].get_str("type"), Some("todo"));
}

#[test]
fn calendar_event_fields() {
    let ics = "BEGIN:VEVENT\nSUMMARY:Meeting\nDTSTART:20260313T100000Z\nEND:VEVENT\n";
    let result = calendar_parser::parse(ics, "test").unwrap();
    assert_eq!(result.records[0].get_str("type"), Some("event"));
    assert_eq!(result.records[0].get_str("dtstart"), Some("20260313T100000Z"));
    assert_eq!(result.records[0].schema_node, "calendar_entry");
}

// ── CSV ──

#[test]
fn test_parse_csv() {
    let data = "name,age,city\nAlice,30,NYC\nBob,25,LA\n";
    let result = csv_parser::parse(data, "test", b',').unwrap();
    assert_eq!(result.records.len(), 2);
    assert_eq!(result.schema.nodes[0].fields.len(), 3);
    assert_eq!(result.errors, 0);
}

#[test]
fn test_parse_tsv() {
    let data = "name\tage\nAlice\t30\n";
    let result = csv_parser::parse(data, "test", b'\t').unwrap();
    assert_eq!(result.records.len(), 1);
}

#[test]
fn csv_parser_test_type_inference() {
    let data = "id,name,active,email\n1,Alice,true,alice@test.com\n2,Bob,false,bob@test.com\n";
    let result = csv_parser::parse(data, "test", b',').unwrap();
    let fields = &result.schema.nodes[0].fields;
    assert_eq!(fields[0].field_type, FieldType::Integer);
    assert_eq!(fields[1].field_type, FieldType::Text);
    assert_eq!(fields[2].field_type, FieldType::Boolean);
    assert_eq!(fields[3].field_type, FieldType::Email);
}

#[test]
fn test_column_mismatch() {
    let data = "a,b,c\n1,2\n3,4,5\n";
    let result = csv_parser::parse(data, "test", b',').unwrap();
    assert_eq!(result.records.len(), 1);
    assert_eq!(result.errors, 1);
}

#[test]
fn test_empty_csv() {
    let result = csv_parser::parse("", "test", b',');
    assert!(result.is_err());
}

#[test]
fn csv_values_typed() {
    let data = "id,price,flag,name\n7,2.5,true,Zed\n";
    let result = csv_parser::parse(data, "src", b',').unwrap();
    let r = &result.records[0];
    assert_eq!(r.get_i64("id"), Some(7));
    assert_eq!(float_of(r.get("price").unwrap()), 2.5);
    assert!(matches!(r.get("flag"), Some(JsonValue::Bool(true))));
    assert_eq!(r.get_str("name"), Some("Zed"));
    assert_eq!(r.source_id, "src");
    assert_eq!(result.schema.nodes[0].record_count, Some(1));
}

// ── detection ──

#[test]
fn test_detect_json() {
    let d = detect_format(r#"{"key": "value"}"#, None);
    assert_eq!(d.format, DataFormat::Json);
    assert!(d.confidence >= 900);
}

#[test]
fn test_detect_csv() {
    let d = detect_format("name,age,city\nAlice,30,NYC\nBob,25,LA\n", None);
    assert_eq!(d.format, DataFormat::Csv);
}

#[test]
fn detect_test_detect_xml() {
    let d = detect_format("<?xml version=\"1.0\"?><root><item/></root>", None);
    assert_eq!(d.format, DataFormat::Xml);
}

#[test]
fn detect_test_detect_sql() {
    let d = detect_format("CREATE TABLE users (id INT, name TEXT);", None);
    assert_eq!(d.format, DataFormat::Sql);
}

#[test]
fn detect_test_detect_email() {
    let d = detect_format("From: alice@example.com\nTo: bob@example.com\nSubject: Hello\n\nBody", None);
    assert_eq!(d.format, DataFormat::Email);
}

#[test]
fn detect_test_detect_calendar() {
    let d = detect_format("BEGIN:VCALENDAR\nBEGIN:VEVENT\nSUMMARY:Meeting\nEND:VEVENT\nEND:VCALENDAR", None);
    assert_eq!(d.format, DataFormat::Calendar);
}

#[test]
fn test_detect_by_extension() {
    let d = detect_format("anything", Some("csv"));
    assert_eq!(d.format, DataFormat::Csv);
    assert!(d.confidence >= 900);
}

#[test]
fn detect_test_detect_jsonl() {
    let d = detect_format("{\"a\":1}\n{\"a\":2}\n{\"a\":3}\n", None);
    assert_eq!(d.format, DataFormat::JsonLines);
}

#[test]
fn detect_test_detect_yaml() {
    let d = detect_format("---\nname: test\nversion: 1\nitems:\n  - one\n  - two\n", None);
    assert_eq!(d.format, DataFormat::Yaml);
}

#[test]
fn detect_test_detect_log() {
    let d = detect_format("[2026-03-13 10:00] INFO Starting\n[2026-03-13 10:01] ERROR Failed\n[2026-03-13 10:02] WARN Retry\n[2026-03-13 10:03] INFO Done\n", None);
    assert_eq!(d.format, DataFormat::Log);
}

#[test]
fn test_detect_unknown() {
    let d = detect_format("", None);
    assert_eq!(d.format, DataFormat::Unknown);
}

#[test]
fn detect_extension_table() {
    assert_eq!(detect_by_extension("CSV"), Some(DataFormat::Csv));
    assert_eq!(detect_by_extension("ndjson"), Some(DataFormat::JsonLines));
    assert_eq!(detect_by_extension("htm"), Some(DataFormat::Html));
    assert_eq!(detect_by_extension("ical"), Some(DataFormat::Calendar));
    assert_eq!(detect_by_extension("markdown"), Some(DataFormat::Markdown));
    assert_eq!(detect_by_extension("exe"), None);
    let d = detect_format("{\"a\":1}", Some("exe"));
    assert_eq!(d.format, DataFormat::Json);
    let e = detect_format("x", Some("md"));
    assert_eq!(e.confidence, 900);
}

// ── e-mail ──

#[test]
fn test_parse_email() {
    let eml = "From: alice@example.com\nTo: bob@example.com\nSubject: Hello\nDate: Mon, 13 Mar 2026 10:00:00 +0000\n\nHi Bob,\nHow are you?\n";
    let result = email_parser::parse(eml, "test").unwrap();
    assert_eq!(result.records.len(), 1);
    assert_eq!(result.records[0].get_str("subject"), Some("Hello"));
    assert_eq!(result.records[0].get_str("from"), Some("alice@example.com"));
}

#[test]
fn test_multiline_header() {
    let eml = "From: alice@example.com\nSubject: A very long\n subject line\n\nBody\n";
    let result = email_parser::parse(eml, "test").unwrap();
    assert!(result.records[0].get_str("subject").unwrap().contains("long"));
}

#[test]
fn email_body_kept() {
    let eml = "From: a@b.com\nSubject: Hi\n\nline one\nline two\n";
    let result = email_parser::parse(eml, "test").unwrap();
    assert_eq!(result.records[0].get_str("body"), Some("line one\nline two"));
}

// ── geo ──

#[test]
fn test_parse_geojson() {
    let data = r#"{"type":"FeatureCollection","features":[{"type":"Feature","geometry":{"type":"Point","coordinates":[-74.006,40.7128]},"properties":{"name":"NYC"}}]}"#;
    let result = parse_geojson(data, "test").unwrap();
    assert_eq!(result.records.len(), 1);
    assert_eq!(result.records[0].get_str("name"), Some("NYC"));
}

#[test]
fn test_parse_gpx() {
    let data = r#"<?xml version="1.0"?><gpx><trk><trkseg><trkpt lat="40.7128" lon="-74.006"></trkpt></trkseg></trk></gpx>"#;
    let result = parse_gpx(data, "test").unwrap();
    assert_eq!(result.records.len(), 1);
}

#[test]
fn test_kml_coords() {
    let (lng, lat) = kml_coord_values("-74.006,40.7128,0").unwrap();
    assert_eq!(float_of(&lng), -74.006);
    assert_eq!(float_of(&lat), 40.7128);
}

#[test]
fn geo_details() {
    assert!(kml_coord_values("abc").is_none());
    let kml = "<kml>\n<Placemark>\n<name>Home</name>\n<coordinates>-1.5,2.25,0</coordinates>\n</Placemark>\n</kml>\n";
    let result = parse_kml(kml, "test").unwrap();
    assert_eq!(result.records.len(), 1);
    assert_eq!(result.records[0].get_str("name"), Some("Home"));
    assert_eq!(float_of(result.records[0].get("lat").unwrap()), 2.25);
    assert!(parse_geojson("not json", "t").is_err());
}

#[test]
fn kml_tags_outside_placemarks_are_not_read() {
    let result = parse_kml("<name>A</name>\n</name>x<name>", "t").unwrap();
    assert_eq!(result.records.len(), 0);
    let kml = "</name>x<name>\n<Placemark>\n<name>P</name>\n</Placemark>\n<description>z</description>";
    let result = parse_kml(kml, "t").unwrap();
    assert_eq!(result.records.len(), 1);
    assert_eq!(result.records[0].get_str("name"), Some("P"));
    assert!(result.records[0].get("description").is_none());
}

// ── HTML / Markdown ──

#[test]
fn test_parse_html_headings() {
    let html = "<html>\n<body>\n<h1>Title</h1>\n<p>Content here</p>\n</body>\n</html>";
    let result = parse_html(html, "test").unwrap();
    assert!(result.records.iter().any(|r| r.get_str("content") == Some("Title")));
}

#[test]
fn test_parse_markdown() {
    let md = "# Hello\nWorld\n## Sub\nContent\n";
    let result = parse_markdown(md, "test").unwrap();
    assert_eq!(result.records.len(), 2);
}

#[test]
fn test_strip_tags() {
    assert_eq!(strip_html_tags("<b>bold</b>"), "bold");
    assert_eq!(strip_html_tags("no tags"), "no tags");
}

#[test]
fn markdown_sections_exact() {
    let result = parse_markdown("# Hello\nWorld\n## Sub\nContent\n", "t").unwrap();
    assert_eq!(result.records[0].get_str("heading"), Some("Hello"));
    assert_eq!(result.records[0].get_str("content"), Some("World"));
    assert_eq!(result.records[1].get_str("heading"), Some("Sub"));
    assert_eq!(result.records[1].get_str("content"), Some("Content"));
    assert_eq!(strip_html_tags("a<br/>b<i>c</i>"), "abc");
}

// ── JSON ──

#[test]
fn test_parse_object() {
    let result = parse_json(r#"{"name":"Alice","age":30}"#, "test").unwrap();
    assert_eq!(result.records.len(), 1);
    assert_eq!(result.schema.nodes[0].fields.len(), 2);
}

#[test]
fn test_parse_array() {
    let result = parse_json(r#"[{"a":1},{"a":2,"b":"x"}]"#, "test").unwrap();
    assert_eq!(result.records.len(), 2);
    assert_eq!(result.schema.nodes[0].fields.len(), 2);
}

#[test]
fn test_parse_jsonl() {
    let data = "{\"a\":1}\n{\"a\":2}\n{\"a\":3}\n";
    let result = parse_lines(data, "test").unwrap();
    assert_eq!(result.records.len(), 3);
}

#[test]
fn json_parser_test_type_inference() {
    let result = parse_json(r#"[{"n":1,"s":"hi","b":true,"f":1.5}]"#, "test").unwrap();
    let fields = &result.schema.nodes[0].fields;
    let find = |name: &str| fields.iter().find(|f| f.name == name).unwrap();
    assert_eq!(find("n").field_type, FieldType::Integer);
    assert_eq!(find("s").field_type, FieldType::Text);
    assert_eq!(find("b").field_type, FieldType::Boolean);
    assert_eq!(find("f").field_type, FieldType::Float);
}

#[test]
fn test_invalid_json() {
    assert!(parse_json("not json", "test").is_err());
}

#[test]
fn json_lines_count_errors() {
    let result = parse_lines("{\"a\":1}\nbroken\n[1]\n\n{\"a\":2}\n", "t").unwrap();
    assert_eq!(result.records.len(), 2);
    assert_eq!(result.errors, 1);
    assert_eq!(result.warnings.len(), 1);
    assert_eq!(result.records[1].get_i64("a"), Some(2));
}

// ── logs ──

#[test]
fn test_parse_bracketed_log() {
    let data = "[2026-03-13 10:00] INFO Starting\n[2026-03-13 10:01] ERROR Failed\n";
    let result = parse_log(data, "test").unwrap();
    assert_eq!(result.records.len(), 2);
    assert_eq!(result.records[0].get_str("level"), Some("INFO"));
    assert_eq!(result.records[1].get_str("level"), Some("ERROR"));
}

#[test]
fn test_parse_iso_timestamp() {
    let data = "2026-03-13T10:00:00Z INFO Started\n";
    let result = parse_log(data, "test").unwrap();
    assert_eq!(result.records.len(), 1);
}

#[test]
fn test_extract_level() {
    let (level, msg) = extract_level_message("ERROR connection refused");
    assert_eq!(level, "ERROR");
    assert_eq!(msg, "connection refused");
}

#[test]
fn log_line_parts() {
    let result = parse_log("[2026-03-13 10:00] WARN disk low\n", "t").unwrap();
    let r = &result.records[0];
    assert_eq!(r.get_str("timestamp"), Some("2026-03-13 10:00"));
    assert_eq!(r.get_str("level"), Some("WARN"));
    assert_eq!(r.get_str("message"), Some("disk low"));
    let (level, msg) = extract_level_message("just text");
    assert_eq!(level, "UNKNOWN");
    assert_eq!(msg, "just text");
}

// ── media ──

#[test]
fn test_detect_image() {
    assert_eq!(detect_media_type("photo.jpg"), "image");
    assert_eq!(detect_media_type("icon.png"), "image");
}

#[test]
fn test_detect_video() {
    assert_eq!(detect_media_type("clip.mp4"), "video");
}

#[test]
fn test_detect_audio() {
    assert_eq!(detect_media_type("song.mp3"), "audio");
}

#[test]
fn test_parse_media_metadata() {
    let data = "Width: 1920\nHeight: 1080\nCodec: H.264\n";
    let result = parse_media(data, "test.mp4").unwrap();
    assert_eq!(result.records.len(), 1);
    assert_eq!(result.records[0].get_str("media_type"), Some("video"));
}

#[test]
fn media_other_types() {
    assert_eq!(detect_media_type("notes.txt"), "unknown");
    assert_eq!(detect_media_type("PHOTO.JPG"), "image");
    assert_eq!(detect_media_type("clip.MKV"), "video");
    assert_eq!(detect_media_type("a.flac"), "audio");
}

// ── format list ──

#[test]
fn test_supported_formats_count() {
    assert!(supported_formats().len() >= 16);
}

#[test]
fn test_format_names() {
    assert_eq!(DataFormat::Csv.name(), "CSV");
    assert_eq!(DataFormat::GeoJson.name(), "GeoJSON");
}

#[test]
fn test_format_extensions() {
    assert!(DataFormat::Json.extensions().contains(&"json"));
    assert!(DataFormat::Yaml.extensions().contains(&"yml"));
}

// ── SQL ──

#[test]
fn test_parse_sql() {
    let sql = "CREATE TABLE users (\n  id INTEGER,\n  name TEXT\n);\nINSERT INTO users VALUES (1, 'Alice');\nINSERT INTO users VALUES (2, 'Bob');\n";
    let result = parse_sql(sql, "test").unwrap();
    assert_eq!(result.records.len(), 2);
    assert_eq!(result.schema.nodes.len(), 1);
    assert_eq!(result.schema.nodes[0].name, "users");
}

#[test]
fn test_extract_table_name() {
    assert_eq!(extract_table_name("CREATE TABLE users ("), Some("users".into()));
    assert_eq!(extract_table_name("CREATE TABLE IF NOT EXISTS `orders` ("), Some("orders".into()));
}

#[test]
fn test_sql_type_mapping() {
    assert_eq!(sql_type_to_field("INTEGER"), FieldType::Integer);
    assert_eq!(sql_type_to_field("TEXT"), FieldType::Text);
    assert_eq!(sql_type_to_field("REAL"), FieldType::Float);
    assert_eq!(sql_type_to_field("BOOLEAN"), FieldType::Boolean);
}

#[test]
fn sql_insert_values() {
    let sql = "CREATE TABLE users (\n  id INTEGER,\n  name TEXT\n);\nINSERT INTO users VALUES (1, 'Alice');\n";
    let result = parse_sql(sql, "test").unwrap();
    let r = &result.records[0];
    assert_eq!(r.get_i64("id"), Some(1));
    assert_eq!(r.get_str("name"), Some("Alice"));
    assert_eq!(r.schema_node, "users");
    assert_eq!(sql_type_to_field("varchar(20)"), FieldType::Text);
    assert_eq!(sql_type_to_field("TIMESTAMP"), FieldType::DateTime);
}

// ── XML ──

#[test]
fn test_parse_simple_xml() {
    let xml = "<root>\n<item>\n<name>Alice</name>\n<age>30</age>\n</item>\n<item>\n<name>Bob</name>\n<age>25</age>\n</item>\n</root>";
    let result = parse_xml(xml, "test").unwrap();
    assert!(result.records.len() >= 1);
    assert!(!result.schema.nodes.is_empty());
}

#[test]
fn test_inline_tags() {
    let (tag, val) = extract_inline_tag("<name>Alice</name>").unwrap();
    assert_eq!(tag, "name");
    assert_eq!(val, "Alice");
}

#[test]
fn test_empty_xml() {
    let result = parse_xml("<root></root>", "test").unwrap();
    assert!(result.records.is_empty());
}

// ── YAML / TOML ──

#[test]
fn test_parse_yaml() {
    let data = "name: test\nversion: 1\nenabled: true\n";
    let result = parse_yaml(data, "test").unwrap();
    assert_eq!(result.records.len(), 1);
    assert_eq!(result.records[0].get_str("name"), Some("test"));
}

#[test]
fn test_parse_toml() {
    let data = "[package]\nname = \"my-app\"\nversion = \"0.1.0\"\n";
    let result = parse_toml(data, "test").unwrap();
    assert_eq!(result.records.len(), 1);
}

#[test]
fn test_yaml_with_frontmatter() {
    let data = "---\ntitle: My Doc\nauthor: Alice\n---\n";
    let result = parse_yaml(data, "test").unwrap();
    assert_eq!(result.records.len(), 1);
}

#[test]
fn yaml_toml_values() {
    let y = parse_yaml("count: 3\nok: true\nname: 'x'\n", "t").unwrap();
    assert_eq!(y.records[0].get_i64("count"), Some(3));
    assert!(matches!(y.records[0].get("ok"), Some(JsonValue::Bool(true))));
    let t = parse_toml("[package]\nname = \"my-app\"\n", "t").unwrap();
    assert_eq!(t.records[0].get_str("package.name"), Some("my-app"));
}

#[test]
fn extensions_agree_with_detection() {
    assert!(DataFormat::Unknown.extensions().is_empty());
    let formats = supported_formats();
    for f in &formats {
        let exts = f.extensions();
        assert!(!exts.is_empty());
        for e in exts {
            assert!(e.chars().all(|c| c.is_ascii_lowercase()));
            assert_eq!(detect_by_extension(e), Some(*f));
            assert_eq!(detect_by_extension(&e.to_uppercase()), Some(*f));
            for g in &formats {
                if g != f {
                    assert!(!g.extensions().contains(&e));
                }
            }
        }
    }
    assert_eq!(detect_by_extension("exe"), None);
}

#[test]
fn parsed_records_are_new_records() {
    let result = csv_parser::parse("a,b\n1,x\n2,y\n", "src", b',').unwrap();
    assert_eq!(result.records.len(), 2);
    for r in &result.records {
        assert_eq!(r.status, agentic_data::types::RecordStatus::Active);
        assert_eq!(r.version, 1);
        assert_eq!(r.created_at, r.updated_at);
        assert_eq!(r.id.len(), 36);
        assert_eq!(r.checksum.len(), 64);
        assert_eq!(r.compressed_size, 0);
        assert!(r.raw_size > 0);
    }
}
