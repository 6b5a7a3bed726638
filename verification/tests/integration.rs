use agentic_data::crypto::redaction::PiiType;
use agentic_data::engine::transform::{FieldTransform, TransformOp};
use agentic_data::engine::{FilterOp, QueryFilter, TransformPipeline, TransformStep};
use agentic_data::parser::detect::detect_format;
use agentic_data::parser::{parse_auto, supported_formats, DataFormat};
use agentic_data::{
    AdatReader, AdatWriter, DataRecord, DataSource, DataStore, FieldEncryptor, FieldMap,
    FieldType, IngestEngine, JsonValue, LineageAction, QualityEngine, QueryEngine, RedactionEngine,
    RedactionPolicy, SchemaField, SchemaNode, TransformEngine, UniversalSchema,
};

fn record_with(field: &str, value: &str) -> DataRecord {
    let mut f = FieldMap::new();
    f.insert(field.to_string(), JsonValue::Str(value.to_string()));
    DataRecord::new("s", "n", f)
}

// ── format detection ──

#[test]
fn test_detect_csv_accuracy() {
    let data = "name,age,email\nAlice,30,alice@test.com\nBob,25,bob@test.com\nCharlie,35,charlie@test.com\n";
    let d = detect_format(data, None);
    assert_eq!(d.format, DataFormat::Csv, "CSV not detected");
    assert!(d.confidence >= 700, "CSV confidence too low: {}", d.confidence);
}

#[test]
fn test_detect_tsv_accuracy() {
    let data = "name\tage\tcity\nAlice\t30\tNYC\nBob\t25\tLA\nCharlie\t35\tSF\n";
    let d = detect_format(data, None);
    assert_eq!(d.format, DataFormat::Tsv, "TSV not detected");
}

#[test]
fn test_detect_json_object() {
    let d = detect_format(r#"{"users": [{"name": "Alice", "age": 30}]}"#, None);
    assert_eq!(d.format, DataFormat::Json);
    assert!(d.confidence >= 900);
}

#[test]
fn test_detect_json_array() {
    let d = detect_format(r#"[{"a":1},{"a":2}]"#, None);
    assert_eq!(d.format, DataFormat::Json);
}

#[test]
fn integration_test_detect_jsonl() {
    let data = "{\"id\":1,\"name\":\"a\"}\n{\"id\":2,\"name\":\"b\"}\n{\"id\":3,\"name\":\"c\"}\n";
    let d = detect_format(data, None);
    assert_eq!(d.format, DataFormat::JsonLines);
}

#[test]
fn integration_test_detect_xml() {
    let data = "<?xml version=\"1.0\"?>\n<catalog>\n  <book><title>Rust</title></book>\n</catalog>";
    let d = detect_format(data, None);
    assert_eq!(d.format, DataFormat::Xml);
    assert!(d.confidence >= 900);
}

#[test]
fn integration_test_detect_yaml() {
    let data = "---\nname: test\nversion: 1\nauthor: alice\ndescription: a test project\n";
    let d = detect_format(data, None);
    assert_eq!(d.format, DataFormat::Yaml);
}

#[test]
fn test_detect_html() {
    let data = "<!DOCTYPE html>\n<html><head><title>Test</title></head><body><p>Hello</p></body></html>";
    let d = detect_format(data, None);
    assert_eq!(d.format, DataFormat::Html);
}

#[test]
fn integration_test_detect_sql() {
    let data = "CREATE TABLE users (\n  id INTEGER PRIMARY KEY,\n  name TEXT NOT NULL\n);\nINSERT INTO users VALUES (1, 'Alice');\n";
    let d = detect_format(data, None);
    assert_eq!(d.format, DataFormat::Sql);
}

#[test]
fn integration_test_detect_log() {
    let data = "[2026-03-13 10:00:00] INFO Server starting\n[2026-03-13 10:00:01] INFO Listening on port 8080\n[2026-03-13 10:00:02] WARN High memory usage\n[2026-03-13 10:00:03] ERROR Connection refused\n";
    let d = detect_format(data, None);
    assert_eq!(d.format, DataFormat::Log);
}

#[test]
fn integration_test_detect_email() {
    let data = "From: sender@example.com\nTo: recipient@example.com\nSubject: Test Email\nDate: Thu, 13 Mar 2026 10:00:00 +0000\nMIME-Version: 1.0\n\nThis is the email body.\n";
    let d = detect_format(data, None);
    assert_eq!(d.format, DataFormat::Email);
}

#[test]
fn integration_test_detect_calendar() {
    let data = "BEGIN:VCALENDAR\nVERSION:2.0\nBEGIN:VEVENT\nSUMMARY:Team Meeting\nDTSTART:20260313T100000Z\nDTEND:20260313T110000Z\nEND:VEVENT\nEND:VCALENDAR\n";
    let d = detect_format(data, None);
    assert_eq!(d.format, DataFormat::Calendar);
    assert!(d.confidence >= 900);
}

#[test]
fn test_detect_geojson() {
    let data = r#"{"type":"FeatureCollection","features":[{"type":"Feature","geometry":{"type":"Point","coordinates":[-74.006,40.7128]},"properties":{"name":"NYC"}}]}"#;
    let d = detect_format(data, None);
    assert_eq!(d.format, DataFormat::GeoJson);
}

#[test]
fn test_detect_by_extension_all() {
    let formats = vec![
        ("csv", DataFormat::Csv),
        ("tsv", DataFormat::Tsv),
        ("json", DataFormat::Json),
        ("jsonl", DataFormat::JsonLines),
        ("xml", DataFormat::Xml),
        ("yaml", DataFormat::Yaml),
        ("yml", DataFormat::Yaml),
        ("toml", DataFormat::Toml),
        ("html", DataFormat::Html),
        ("sql", DataFormat::Sql),
        ("log", DataFormat::Log),
        ("eml", DataFormat::Email),
        ("ics", DataFormat::Calendar),
        ("geojson", DataFormat::GeoJson),
        ("kml", DataFormat::Kml),
        ("gpx", DataFormat::Gpx),
        ("md", DataFormat::Markdown),
    ];
    for (ext, expected) in &formats {
        let d = detect_format("any content", Some(ext));
        assert_eq!(d.format, *expected, "Extension .{} detected as {:?}, expected {:?}", ext, d.format, expected);
    }
}

// ── schema inference ──

#[test]
fn test_schema_infer_integers() {
    let result = parse_auto("id,count\n1,100\n2,200\n3,300\n4,400\n5,500\n", "test").unwrap();
    let fields = &result.schema.nodes[0].fields;
    assert_eq!(fields[0].field_type, FieldType::Integer, "id should be Integer");
    assert_eq!(fields[1].field_type, FieldType::Integer, "count should be Integer");
}

#[test]
fn test_schema_infer_floats() {
    let result = parse_auto("price,weight\n9.99,1.5\n19.99,2.3\n29.99,0.8\n", "test").unwrap();
    let fields = &result.schema.nodes[0].fields;
    assert_eq!(fields[0].field_type, FieldType::Float, "price should be Float");
    assert_eq!(fields[1].field_type, FieldType::Float, "weight should be Float");
}

#[test]
fn test_schema_infer_booleans() {
    let result = parse_auto("active,verified\ntrue,false\nfalse,true\ntrue,true\n", "test").unwrap();
    let fields = &result.schema.nodes[0].fields;
    assert_eq!(fields[0].field_type, FieldType::Boolean, "active should be Boolean");
}

#[test]
fn test_schema_infer_emails() {
    let data = "email,name\nalice@test.com,Alice\nbob@example.org,Bob\ncharlie@mail.io,Charlie\n";
    let result = parse_auto(data, "test").unwrap();
    let fields = &result.schema.nodes[0].fields;
    assert_eq!(fields[0].field_type, FieldType::Email, "email should be Email");
    assert_eq!(fields[1].field_type, FieldType::Text, "name should be Text");
}

#[test]
fn test_schema_infer_urls() {
    let data = "website,name\nhttps://example.com,Example\nhttps://test.org,Test\nhttps://rust-lang.org,Rust\n";
    let result = parse_auto(data, "test").unwrap();
    assert_eq!(result.schema.nodes[0].fields[0].field_type, FieldType::Url);
}

#[test]
fn test_schema_infer_mixed_json() {
    let data = r#"[{"id":1,"name":"Alice","score":95.5,"active":true},{"id":2,"name":"Bob","score":87.3,"active":false}]"#;
    let result = parse_auto(data, "test").unwrap();
    let fields = &result.schema.nodes[0].fields;
    let find = |n: &str| fields.iter().find(|f| f.name == n).unwrap();
    assert_eq!(find("id").field_type, FieldType::Integer);
    assert_eq!(find("name").field_type, FieldType::Text);
    assert_eq!(find("score").field_type, FieldType::Float);
    assert_eq!(find("active").field_type, FieldType::Boolean);
}

// ── ingest and query ──

#[test]
fn test_ingest_and_query_csv() {
    let mut store = DataStore::new();
    let mut engine = IngestEngine::new(&mut store);
    let csv = "name,age,city\nAlice,30,NYC\nBob,25,LA\nCharlie,35,SF\nDiana,28,CHI\n";
    let result = engine.ingest_string(csv, "people").unwrap();
    assert_eq!(result.records_added, 4);

    let qe = QueryEngine::new(&store);
    let all = qe.query("people", &[], None, 0);
    assert_eq!(all.total_matched, 4);

    let filtered = qe.query(
        "people",
        &[QueryFilter { field: "city".into(), op: FilterOp::Eq, value: JsonValue::Str("NYC".into()) }],
        None,
        0,
    );
    assert_eq!(filtered.total_matched, 1);

    let search = qe.search("alice", None);
    assert_eq!(search.total_matched, 1);
}

#[test]
fn test_ingest_and_query_json() {
    let mut store = DataStore::new();
    let mut engine = IngestEngine::new(&mut store);
    let json = r#"[{"product":"Widget","price":9.99,"in_stock":true},{"product":"Gadget","price":24.99,"in_stock":false}]"#;
    engine.ingest_string(json, "products").unwrap();

    let qe = QueryEngine::new(&store);
    let results = qe.query(
        "products",
        &[QueryFilter { field: "in_stock".into(), op: FilterOp::Eq, value: JsonValue::Bool(true) }],
        None,
        0,
    );
    assert_eq!(results.total_matched, 1);
}

// ── quality scoring ──

#[test]
fn test_quality_complete_data() {
    let mut store = DataStore::new();
    for i in 0..20 {
        let mut f = FieldMap::new();
        f.insert("id".into(), JsonValue::Int(i));
        f.insert("name".into(), JsonValue::Str(format!("user_{}", i)));
        f.insert("score".into(), JsonValue::Int(50 + i));
        store.add_record(DataRecord::new("s", "users", f));
    }
    let score = QualityEngine::score(&store, "users");
    assert!(score.completeness >= 990, "Completeness should be near 1.0, got {}", score.completeness);
    assert!(score.score >= 80, "Quality should be high for complete data, got {}", score.score);
}

#[test]
fn test_quality_null_heavy_data() {
    let mut store = DataStore::new();
    for i in 0..20 {
        let mut f = FieldMap::new();
        f.insert("id".into(), JsonValue::Int(i));
        f.insert("optional".into(), if i < 15 { JsonValue::Null } else { JsonValue::Str("value".into()) });
        store.add_record(DataRecord::new("s", "data", f));
    }
    let score = QualityEngine::score(&store, "data");
    assert!(score.completeness < 800, "Completeness should be low with 75% nulls, got {}", score.completeness);
}

#[test]
fn test_anomaly_detection_null_spike() {
    let mut store = DataStore::new();
    for i in 0..10 {
        let mut f = FieldMap::new();
        f.insert("data".into(), if i < 8 { JsonValue::Null } else { JsonValue::Int(i) });
        store.add_record(DataRecord::new("s", "nulls", f));
    }
    let spikes = agentic_data::engine::quality::null_spikes(&store, "nulls");
    assert!(spikes.iter().any(|(f, _)| f == "data"), "Should detect null spike at 80%");
}

// ── lineage ──

#[test]
fn test_lineage_through_ingest() {
    let mut store = DataStore::new();
    let mut engine = IngestEngine::new(&mut store);
    engine.ingest_string("a,b\n1,2\n", "source.csv").unwrap();

    let records = store.active_records();
    assert!(!records.is_empty());
    let rec = &records[0];
    let lineage = store.get_lineage(&rec.id);
    assert!(lineage.is_some(), "Ingested record should have lineage");
    assert_eq!(lineage.unwrap().depth(), 1);
    assert_eq!(lineage.unwrap().entries[0].action, LineageAction::Ingested);
}

// ── PII ──

#[test]
fn test_pii_detect_email() {
    let detections = RedactionEngine::detect(&record_with("contact", "alice@example.com"));
    assert!(detections.iter().any(|d| d.pii_type == PiiType::Email), "Should detect email");
}

#[test]
fn test_pii_detect_ssn() {
    let detections = RedactionEngine::detect(&record_with("ssn", "123-45-6789"));
    assert!(detections.iter().any(|d| d.pii_type == PiiType::Ssn), "Should detect SSN");
}

#[test]
fn test_pii_detect_ip() {
    let detections = RedactionEngine::detect(&record_with("server", "192.168.1.100"));
    assert!(detections.iter().any(|d| d.pii_type == PiiType::IpAddress), "Should detect IP");
}

#[test]
fn test_pii_no_false_positive() {
    let mut f = FieldMap::new();
    f.insert("note".into(), JsonValue::Str("Meeting at 3pm in room 401".into()));
    f.insert("status".into(), JsonValue::Str("active".into()));
    let rec = DataRecord::new("s", "n", f);
    let detections = RedactionEngine::detect(&rec);
    assert!(detections.is_empty(), "Should not detect PII in normal text, got {:?}", detections.iter().map(|d| format!("{:?}", d.pii_type)).collect::<Vec<_>>());
}

#[test]
fn test_pii_redaction_mask() {
    let mut f = FieldMap::new();
    f.insert("email".into(), JsonValue::Str("secret@company.com".into()));
    f.insert("name".into(), JsonValue::Str("Public Name".into()));
    let rec = DataRecord::new("s", "n", f);
    let policy = RedactionPolicy::default();
    let redacted = RedactionEngine::redact(&rec, &policy);
    assert_eq!(redacted.get_str("email"), Some("[REDACTED]"), "Email should be masked");
    assert_eq!(redacted.get_str("name"), Some("Public Name"), "Name should be untouched");
}

// ── .adat file roundtrip ──

#[test]
fn test_adat_roundtrip_with_data() {
    let mut writer = AdatWriter::new();
    let mut schema = UniversalSchema::new("test_schema");
    schema.nodes.push(SchemaNode {
        name: "items".into(),
        source: "test".into(),
        fields: vec![
            SchemaField::inferred("id", FieldType::Integer, 1000),
            SchemaField::inferred("name", FieldType::Text, 1000),
            SchemaField::inferred("price", FieldType::Float, 950),
        ],
        record_count: Some(3),
    });
    assert_eq!(schema.total_fields(), 3);
    writer.add_schema(schema);
    writer.add_source(DataSource::file("test_src", "/data/items.csv"));
    for (id, name, price) in [(1, "Widget", "9.99"), (2, "Gadget", "24.99"), (3, "Doohickey", "4.99")] {
        let mut f = FieldMap::new();
        f.insert("id".into(), JsonValue::Int(id));
        f.insert("name".into(), JsonValue::Str(name.into()));
        f.insert("price".into(), JsonValue::Float(price.into()));
        writer.add_record(DataRecord::new("test_src", "items", f));
    }
    let records_json = br#"[{"name":"Widget"},{"name":"Gadget"},{"name":"Doohickey","price":4.99}]"#;
    let buf = writer.finish(br#"[{"name":"test_schema"}]"#, b"[{}]", records_json);

    let reader = AdatReader::open(buf).unwrap();
    assert_eq!(reader.header().schema_count, 1);
    assert_eq!(reader.header().source_count, 1);
    assert_eq!(reader.header().record_count, 3);

    let schemas: serde_json::Value = serde_json::from_slice(&reader.schema_section().unwrap().unwrap()).unwrap();
    assert_eq!(schemas[0]["name"], "test_schema");

    let records: serde_json::Value = serde_json::from_slice(&reader.record_section().unwrap().unwrap()).unwrap();
    assert_eq!(records.as_array().unwrap().len(), 3);
    assert_eq!(records[0]["name"], "Widget");
    assert_eq!(records[2]["price"].as_f64(), Some(4.99));
}

// ── encryption ──

#[test]
fn test_encryption_roundtrip() {
    let enc = FieldEncryptor::new("test-master-key");
    let original = "sensitive-data-12345";
    let encrypted = enc.encrypt_field("ssn", original);
    assert!(FieldEncryptor::is_encrypted(&encrypted));
    assert_ne!(encrypted, original);
    let decrypted = enc.decrypt_field("ssn", &encrypted).unwrap();
    assert_eq!(decrypted, original);
}

#[test]
fn test_encryption_different_fields_different_ciphertext() {
    let enc = FieldEncryptor::new("key");
    let enc_a = enc.encrypt_field("field_a", "hello");
    let enc_b = enc.encrypt_field("field_b", "hello");
    assert_ne!(enc_a, enc_b, "Same value encrypted under different field names should differ");
}

// ── transform pipeline ──

#[test]
fn test_transform_pipeline_audit_trail() {
    let mut store = DataStore::new();
    let mut ingest = IngestEngine::new(&mut store);
    ingest.ingest_string("name,email\nAlice,ALICE@TEST.COM\nBob,BOB@TEST.COM\n", "src").unwrap();

    let mut pipeline = TransformPipeline::new("normalize");
    pipeline.add(TransformStep {
        name: "lowercase_email".into(),
        operation: TransformOp::MapField { field: "email".into(), transform: FieldTransform::Lowercase },
    });

    let records: Vec<DataRecord> = store.records_for_node("src").into_iter().map(|r| r.duplicate()).collect();
    let result = TransformEngine::apply(&records, &pipeline);
    assert_eq!(result.records_out, 2);
    assert_eq!(result.receipts.len(), 1);
    assert_eq!(result.receipts[0].transform, "lowercase_email");
    assert_eq!(result.receipts[0].input_count, 2);
    assert_eq!(result.receipts[0].output_count, 2);
}

// ── format registry ──

#[test]
fn test_mcp_tool_count() {
    let formats = supported_formats();
    assert!(formats.len() >= 16, "Should support 16+ formats, got {}", formats.len());
}

#[test]
fn test_format_names_unique() {
    let formats = supported_formats();
    let mut names: Vec<&str> = formats.iter().map(|f| f.name()).collect();
    let original_len = names.len();
    names.sort();
    names.dedup();
    assert_eq!(names.len(), original_len, "Format names should be unique");
}
