use agentic_data::format::{has_ff_run_exec, AdatReader, AdatWriter};
use agentic_data::types::{
    AdatError, DataRecord, DataSource, FieldMap, JsonValue, UniversalSchema, ADAT_MAGIC, HEADER_SIZE,
};

fn one_field(k: &str, v: JsonValue) -> FieldMap {
    let mut m = FieldMap::new();
    m.insert(k.to_string(), v);
    m
}

const SCHEMAS: &[u8] = br#"[{"name":"test"}]"#;
const SOURCES: &[u8] = br#"[{"name":"f"}]"#;
const RECORDS: &[u8] = br#"[{"fields":{"val":42}}]"#;

#[test]
fn test_roundtrip() {
    let mut writer = AdatWriter::new();
    writer.add_schema(UniversalSchema::new("test"));
    writer.add_source(DataSource::file("f", "/tmp/x.csv"));
    writer.add_record(DataRecord::new("s", "n", one_field("val", JsonValue::Int(42))));
    let buf = writer.finish(SCHEMAS, SOURCES, RECORDS);

    let reader = AdatReader::open(buf).unwrap();
    assert_eq!(reader.header().schema_count, 1);
    assert_eq!(reader.header().source_count, 1);
    assert_eq!(reader.header().record_count, 1);

    let schemas = reader.schema_section().unwrap().unwrap();
    assert_eq!(schemas, SCHEMAS);
    let parsed: serde_json::Value = serde_json::from_slice(&schemas).unwrap();
    assert_eq!(parsed[0]["name"], "test");

    assert_eq!(reader.source_section().unwrap().unwrap(), SOURCES);

    let records = reader.record_section().unwrap().unwrap();
    let parsed: serde_json::Value = serde_json::from_slice(&records).unwrap();
    assert_eq!(parsed.as_array().unwrap().len(), 1);
    assert_eq!(parsed[0]["fields"]["val"], 42);
}

#[test]
fn test_empty_file() {
    let writer = AdatWriter::new();
    let buf = writer.finish(b"[]", b"[]", b"[]");
    let reader = AdatReader::open(buf).unwrap();
    assert_eq!(reader.header().record_count, 0);
    assert!(reader.summary().contains("0 records"));
}

#[test]
fn test_invalid_file() {
    let buf = vec![0u8; 64];
    let result = AdatReader::open(buf);
    assert!(result.is_err());
}

#[test]
fn test_write_empty() {
    let writer = AdatWriter::new();
    let buf = writer.finish(b"[]", b"[]", b"[]");
    assert!(buf.len() >= HEADER_SIZE);
    assert_eq!(&buf[0..4], &ADAT_MAGIC);
}

#[test]
fn test_write_with_data() {
    let mut writer = AdatWriter::new();
    writer.add_schema(UniversalSchema::new("test_schema"));
    writer.add_source(DataSource::file("csv", "/tmp/test.csv"));
    writer.add_record(DataRecord::new("src-1", "users", one_field("name", JsonValue::Str("Alice".into()))));

    let (s, src, r) = writer.counts();
    assert_eq!(s, 1);
    assert_eq!(src, 1);
    assert_eq!(r, 1);

    let buf = writer.finish(SCHEMAS, SOURCES, RECORDS);
    assert!(buf.len() > HEADER_SIZE);
}

#[test]
fn reader_summary_and_offsets() {
    let writer = AdatWriter::new();
    let buf = writer.finish(b"[]", b"[]", b"[]");
    let total = buf.len() as u64;
    let reader = AdatReader::open(buf).unwrap();
    assert_eq!(reader.summary(), "AgenticData v1: 0 schemas, 0 sources, 0 records");
    let h = reader.header();
    assert_eq!(h.schema_offset, 64);
    assert!(h.schema_offset < h.source_offset);
    assert!(h.source_offset < h.record_offset);
    assert_eq!(h.content_offset, total);
    assert!(reader.read_section(0, 10).unwrap().is_none());
    assert!(reader.read_section(10, 10).unwrap().is_none());
    assert!(matches!(reader.read_section(64, total + 1), Err(AdatError::Io(_))));
}

#[test]
fn reader_short_and_corrupt() {
    match AdatReader::open(vec![0x41, 0x44, 0x41, 0x54]) {
        Err(AdatError::Io(m)) => assert_eq!(m, "failed to fill whole buffer"),
        other => panic!("unexpected: {:?}", other.is_ok()),
    }
    let writer = AdatWriter::new();
    let mut buf = writer.finish(b"[1,2,3]", b"[]", b"[]");
    // Replace the compressed bytes after the first length prefix with garbage.
    for k in 68..buf.len() {
        buf[k] = 0xff;
    }
    let reader = AdatReader::open(buf).unwrap();
    assert!(matches!(reader.schema_section(), Err(AdatError::Compression(_))));
}

#[test]
fn section_with_endless_length_field_is_refused() {
    let writer = AdatWriter::new();
    let mut buf = writer.finish(b"[]", b"[]", b"[]");
    let start = buf.len() as u64;
    // Size prefix 0, a token asking for a longer literal, then a length field made of
    // 0xFF bytes that no u32 can sum, and a last non-zero byte.
    buf.extend_from_slice(&[0, 0, 0, 0, 0xF0]);
    buf.extend(std::iter::repeat(0xFFu8).take(16_843_009));
    buf.push(1);
    let end = buf.len() as u64;
    let reader = AdatReader::open(buf).unwrap();
    match reader.read_section(start, end) {
        Err(AdatError::Compression(m)) => assert_eq!(m, "LZ4 length field too long"),
        other => panic!("unexpected: {:?}", other.is_ok()),
    }
    // With one 0xFF fewer the field fits in a u32: lz4_flex reads it and reports
    // that the literal runs past the end.
    let mut short = vec![0u8, 0, 0, 0, 0xF0];
    short.extend(std::iter::repeat(0xFFu8).take(16_843_008));
    short.push(1);
    assert!(!has_ff_run_exec(&short));
    let mut long = short.clone();
    long.insert(5, 0xFF);
    assert!(has_ff_run_exec(&long));
    let mut buf = writer.finish(b"[]", b"[]", b"[]");
    let start = buf.len() as u64;
    buf.extend_from_slice(&short);
    let end = buf.len() as u64;
    let reader = AdatReader::open(buf).unwrap();
    match reader.read_section(start, end) {
        Err(AdatError::Compression(m)) => assert_ne!(m, "LZ4 length field too long"),
        other => panic!("unexpected: {:?}", other.is_ok()),
    }
}
