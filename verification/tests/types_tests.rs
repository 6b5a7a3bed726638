use agentic_data::types::schema::SchemaEdgeType;
use agentic_data::types::{
    AdatError, DataRecord, DataSource, FieldMap, FieldType, FileHeader, JsonValue, LineageAction,
    LineageChain, LineageEntry, QualityScore, RecordStatus, SchemaField, SchemaNode, SourceType,
    SpatialRef, UniversalSchema, ADAT_MAGIC, FORMAT_VERSION, HEADER_SIZE,
};

fn fields(pairs: Vec<(&str, JsonValue)>) -> FieldMap {
    let mut m = FieldMap::new();
    for (k, v) in pairs {
        m.insert(k.to_string(), v);
    }
    m
}

fn text(s: &str) -> JsonValue {
    JsonValue::Str(s.to_string())
}

fn entry(action: LineageAction, source: &str, ts: u64) -> LineageEntry {
    LineageEntry {
        action,
        source: source.to_string(),
        timestamp: ts,
        input_hash: "a".to_string(),
        output_hash: "b".to_string(),
        description: "step".to_string(),
    }
}

// ── error ──

#[test]
fn test_error_display() {
    let e = AdatError::InvalidMagic;
    assert!(e.message().contains("magic"));
}

#[test]
fn test_content_too_large() {
    let e = AdatError::ContentTooLarge { size: 2_000_000, max: 1_048_576 };
    assert!(e.message().contains("2000000"));
}

#[test]
fn error_messages_exact() {
    assert_eq!(AdatError::Parse("bad".to_string()).message(), "Parse error: bad");
    assert_eq!(AdatError::UnsupportedVersion(7).message(), "Unsupported format version: 7");
    assert_eq!(
        AdatError::ContentTooLarge { size: 10, max: 5 }.message(),
        "Content too large: 10 bytes (max 5)"
    );
    assert_eq!(
        AdatError::ChecksumMismatch { expected: "a".to_string(), actual: "b".to_string() }.message(),
        "Checksum mismatch: expected a, got b"
    );
}

// ── header ──

#[test]
fn test_header_roundtrip() {
    let mut h = FileHeader::new();
    h.schema_count = 3;
    h.source_count = 2;
    h.record_count = 1000;
    h.content_offset = 8192;

    let bytes = h.to_bytes();
    let back = FileHeader::from_bytes(&bytes).unwrap();

    assert_eq!(back.magic, ADAT_MAGIC);
    assert_eq!(back.version, FORMAT_VERSION);
    assert_eq!(back.schema_count, 3);
    assert_eq!(back.source_count, 2);
    assert_eq!(back.record_count, 1000);
    assert_eq!(back.content_offset, 8192);
}

#[test]
fn test_invalid_magic() {
    let mut buf = [0u8; HEADER_SIZE];
    buf[0..4].copy_from_slice(b"NOPE");
    let result = FileHeader::from_bytes(&buf);
    assert!(result.is_err());
}

#[test]
fn test_header_size() {
    assert_eq!(HEADER_SIZE, 64);
    let h = FileHeader::new();
    assert_eq!(h.to_bytes().len(), HEADER_SIZE);
}

#[test]
fn header_bytes_little_endian() {
    let mut h = FileHeader::new();
    h.schema_count = 0x0102_0304;
    let b = h.to_bytes();
    assert_eq!(&b[0..4], b"ADAT");
    assert_eq!(&b[4..8], &[1, 0, 0, 0]);
    assert_eq!(&b[8..12], &[4, 3, 2, 1]);
    assert_eq!(&b[24..32], &[64, 0, 0, 0, 0, 0, 0, 0]);
    assert_eq!(&b[56..64], &[0u8; 8]);
}

#[test]
fn header_future_version_refused() {
    let mut h = FileHeader::new();
    h.version = 2;
    let b = h.to_bytes();
    assert!(matches!(FileHeader::from_bytes(&b), Err(AdatError::UnsupportedVersion(2))));
}

// ── lineage ──

#[test]
fn test_lineage_chain() {
    let mut chain = LineageChain::new("users.email");
    assert_eq!(chain.depth(), 0);
    assert_eq!(chain.trust_score, 1000);

    chain.add(LineageEntry {
        action: LineageAction::Ingested,
        source: "csv".into(),
        timestamp: 1000,
        input_hash: "a".into(),
        output_hash: "b".into(),
        description: "Imported from CSV".into(),
    });
    assert_eq!(chain.depth(), 1);
    assert_eq!(chain.trust_score, 1000);

    chain.add(LineageEntry {
        action: LineageAction::Transformed,
        source: "normalize".into(),
        timestamp: 2000,
        input_hash: "b".into(),
        output_hash: "c".into(),
        description: "Lowercased email".into(),
    });
    assert_eq!(chain.depth(), 2);
    assert!(chain.trust_score < 1000);
}

#[test]
fn lineage_trust_decay_exact() {
    let mut chain = LineageChain::new("f");
    chain.add(entry(LineageAction::Ingested, "csv", 1));
    for i in 1..=20u32 {
        chain.add(entry(LineageAction::Transformed, "t", 1 + i as u64));
        let expected = if 1000 > 50 * i && 1000 - 50 * i > 100 { 1000 - 50 * i } else { 100 };
        assert_eq!(chain.trust_score, expected);
    }
    // Other actions do not change the score.
    let before = chain.trust_score;
    chain.add(entry(LineageAction::Merged, "m", 100));
    assert_eq!(chain.trust_score, before);
}

// ── quality ──

#[test]
fn test_quality_score() {
    let q = QualityScore::compute("users", 950, 800, 900, 1000, 850);
    assert!(q.score >= 85);
    assert!(!q.is_degraded(80));
    assert!(q.is_degraded(95));
}

#[test]
fn test_perfect_quality() {
    let q = QualityScore::compute("test", 1000, 1000, 1000, 1000, 1000);
    assert_eq!(q.score, 100);
}

#[test]
fn quality_score_exact() {
    let q = QualityScore::compute("t", 950, 800, 900, 1000, 850);
    assert_eq!(q.score, 90);
    let z = QualityScore::compute("t", 0, 0, 0, 0, 0);
    assert_eq!(z.score, 0);
    assert_eq!(z.completeness, 0);
}

// ── record ──

#[test]
fn test_new_record() {
    let f = fields(vec![("name", text("Alice")), ("age", JsonValue::Int(30))]);
    let rec = DataRecord::new("src-1", "users", f);
    assert!(rec.is_active());
    assert_eq!(rec.field_count(), 2);
    assert_eq!(rec.get_str("name"), Some("Alice"));
    assert_eq!(rec.get_i64("age"), Some(30));
    assert!(!rec.checksum.is_empty());
    assert_eq!(rec.version, 1);
}

#[test]
fn record_metadata() {
    let rec = DataRecord::new("s", "n", fields(vec![("x", JsonValue::Int(1))]));
    assert_eq!(rec.id.len(), 36);
    assert_eq!(rec.source_id, "s");
    assert_eq!(rec.schema_node, "n");
    assert_eq!(rec.status, RecordStatus::Active);
    assert_eq!(rec.created_at, rec.updated_at);
    assert_eq!(rec.checksum.len(), 64);
    assert_eq!(rec.get_str("x"), None);
    assert_eq!(rec.get_i64("missing"), None);
}

#[test]
fn record_checksum_follows_content() {
    let a = DataRecord::new("s", "n", fields(vec![("x", JsonValue::Int(1))]));
    let b = DataRecord::new("s2", "n2", fields(vec![("x", JsonValue::Int(1))]));
    let c = DataRecord::new("s", "n", fields(vec![("x", JsonValue::Int(2))]));
    assert_eq!(a.checksum, b.checksum);
    assert_ne!(a.checksum, c.checksum);
    assert_ne!(a.id, b.id);
}

#[test]
fn field_map_insert_replaces() {
    let mut m = FieldMap::new();
    assert!(m.is_empty());
    m.insert("a".to_string(), JsonValue::Int(1));
    m.insert("b".to_string(), JsonValue::Int(2));
    m.insert("a".to_string(), JsonValue::Int(3));
    assert_eq!(m.len(), 2);
    assert_eq!(m.get("a").and_then(|v| v.as_i64()), Some(3));
    assert_eq!(m.remove("a").and_then(|v| v.as_i64()), Some(3));
    assert_eq!(m.len(), 1);
    assert!(m.get("a").is_none());
}

// ── schema ──

#[test]
fn test_new_schema() {
    let s = UniversalSchema::new("test");
    assert_eq!(s.name, "test");
    assert_eq!(s.version, 1);
    assert!(s.nodes.is_empty());
}

#[test]
fn test_total_fields() {
    let mut s = UniversalSchema::new("test");
    s.nodes.push(SchemaNode {
        name: "users".into(),
        source: "db".into(),
        fields: vec![
            SchemaField::inferred("id", FieldType::Integer, 1000),
            SchemaField::inferred("name", FieldType::Text, 1000),
        ],
        record_count: Some(100),
    });
    assert_eq!(s.total_fields(), 2);
}

#[test]
fn test_find_field() {
    let mut s = UniversalSchema::new("test");
    s.nodes.push(SchemaNode {
        name: "orders".into(),
        source: "db".into(),
        fields: vec![SchemaField::inferred("total", FieldType::Float, 950)],
        record_count: None,
    });
    assert!(s.find_field("orders.total").is_some());
    assert!(s.find_field("orders.missing").is_none());
    assert!(s.find_field("missing.total").is_none());
}

#[test]
fn test_nested_type() {
    let inner = UniversalSchema::new("address");
    let field_type = FieldType::Object(Box::new(inner));
    let f = SchemaField::inferred("address", field_type, 800);
    assert_eq!(f.confidence, 800);
}

#[test]
fn schema_find_node_and_field_without_dot() {
    let mut s = UniversalSchema::new("test");
    s.nodes.push(SchemaNode { name: "a".into(), source: "s".into(), fields: vec![], record_count: None });
    assert_eq!(s.find_node("a").map(|n| n.name.as_str()), Some("a"));
    assert!(s.find_node("b").is_none());
    assert!(s.find_field("a").is_none());
    let e = agentic_data::types::SchemaEdge {
        from: "a.id".into(),
        to: "b.id".into(),
        edge_type: SchemaEdgeType::References,
        confidence: 900,
    };
    s.edges.push(e);
    assert_eq!(s.edges.len(), 1);
}

// ── source ──

#[test]
fn test_new_source() {
    let s = DataSource::file("my_csv", "/data/test.csv");
    assert_eq!(s.source_type, SourceType::File);
    assert!(s.healthy);
    assert_eq!(s.record_count, 0);
}

#[test]
fn source_constructors() {
    let s = DataSource::sqlite("db", "/tmp/test.db");
    assert_eq!(s.source_type, SourceType::Sqlite);
    assert_eq!(s.name, "db");
    assert_eq!(s.connection, "/tmp/test.db");
    assert!(s.schema_id.is_none());
    assert!(s.last_fetched.is_none());
    let d = s.duplicate();
    assert_eq!(d.id, s.id);
}

// ── spatial ──

#[test]
fn spatial_ref_default() {
    let r = SpatialRef::default();
    assert_eq!(r.epsg, 4326);
    assert_eq!(r.name, "WGS 84");
}
