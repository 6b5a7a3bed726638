use agentic_data::crypto::redaction::PiiType;
use agentic_data::parser::detect::detect_format;
use agentic_data::parser::{csv_parser, json_parser, parse_as, parse_auto, DataFormat};
use agentic_data::{
    AdatReader, AdatWriter, DataRecord, DataStore, FieldEncryptor, FieldMap, JsonValue,
    QualityEngine, QueryEngine, RedactionEngine,
};

fn record_with(field: &str, value: &str) -> DataRecord {
    let mut f = FieldMap::new();
    f.insert(field.to_string(), JsonValue::Str(value.to_string()));
    DataRecord::new("s", "n", f)
}

// ── empty / minimal input ──

#[test]
fn test_empty_string_detection() {
    let d = detect_format("", None);
    assert_eq!(d.format, DataFormat::Unknown);
    assert_eq!(d.confidence, 0);
}

#[test]
fn test_whitespace_only_detection() {
    let d = detect_format("   \n\n  \t  \n", None);
    assert_eq!(d.format, DataFormat::Unknown);
}

#[test]
fn test_single_char_detection() {
    let d = detect_format("x", None);
    assert!(d.confidence <= 1000);
}

#[test]
fn test_csv_header_only() {
    let result = parse_auto("name,age,city\n", "test");
    assert!(result.is_ok());
    assert_eq!(result.unwrap().records.len(), 0);
}

#[test]
fn test_csv_single_column() {
    let result = parse_as("value\n1\n2\n3\n", "test", DataFormat::Csv);
    assert!(result.is_ok());
    assert_eq!(result.unwrap().records.len(), 3);
}

#[test]
fn test_json_empty_array() {
    let result = parse_auto("[]", "test");
    assert!(result.is_ok());
    assert_eq!(result.unwrap().records.len(), 0);
}

#[test]
fn test_json_empty_object() {
    let result = parse_auto("{}", "test");
    assert!(result.is_ok());
}

#[test]
fn test_json_nested_deeply() {
    let data = r#"[{"a":{"b":{"c":{"d":"deep"}}}}]"#;
    let result = parse_auto(data, "test");
    assert!(result.is_ok());
}

// ── malformed input ──

#[test]
fn test_csv_inconsistent_columns() {
    let data = "a,b,c\n1,2,3\n4,5\n6,7,8,9\n";
    let result = csv_parser::parse(data, "test", b',').unwrap();
    assert!(result.errors > 0, "Should report errors for inconsistent columns");
    assert!(result.records.len() < 3, "Should not parse all rows");
}

#[test]
fn test_json_invalid() {
    let result = json_parser::parse("{broken json", "test");
    assert!(result.is_err());
}

#[test]
fn test_json_non_object_array() {
    let result = json_parser::parse("[1, 2, 3]", "test");
    assert!(result.is_ok());
    assert_eq!(result.unwrap().errors, 3);
}

#[test]
fn test_csv_with_quotes_and_commas() {
    let data = "name,description\nAlice,\"Has a cat, dog\"\nBob,\"No pets\"\n";
    let result = csv_parser::parse(data, "test", b',');
    assert!(result.is_ok());
}

#[test]
fn test_unicode_content() {
    let data = "name,city\nSakura,東京\nMüller,München\nO'Brien,Zürich\n";
    let result = parse_auto(data, "test");
    assert!(result.is_ok());
    let records = result.unwrap().records;
    assert_eq!(records.len(), 3);
}

// ── large data ──

#[test]
fn test_large_csv_1000_rows() {
    let mut data = String::from("id,value,label\n");
    for i in 0..1000 {
        data.push_str(&format!("{},{},{}\n", i, i * 10, format!("item_{}", i)));
    }
    let result = parse_auto(&data, "large").unwrap();
    assert_eq!(result.records.len(), 1000);
    assert_eq!(result.errors, 0);
}

#[test]
fn test_large_json_array() {
    let items: Vec<String> = (0..500)
        .map(|i| format!(r#"{{"id":{},"name":"item_{}","value":{}}}"#, i, i, i * 3))
        .collect();
    let data = format!("[{}]", items.join(","));
    let result = parse_auto(&data, "large").unwrap();
    assert_eq!(result.records.len(), 500);
}

#[test]
fn test_quality_score_large_dataset() {
    let mut store = DataStore::new();
    for i in 0..500 {
        let mut f = FieldMap::new();
        f.insert("id".into(), JsonValue::Int(i));
        f.insert("value".into(), JsonValue::Float(format!("{:?}", i as f64 * 1.1)));
        f.insert("name".into(), JsonValue::Str(format!("item_{}", i)));
        store.add_record(DataRecord::new("s", "big", f));
    }
    let score = QualityEngine::score(&store, "big");
    assert!(score.score >= 80, "Large clean dataset should score high: {}", score.score);
    assert!(score.completeness >= 990);
}

// ── PII ──

#[test]
fn test_pii_partial_email() {
    let rec = record_with("data", "not@email");
    let detections = RedactionEngine::detect(&rec);
    assert!(!detections.iter().any(|d| d.pii_type == PiiType::Email), "Should not detect 'not@email' as email");
}

#[test]
fn test_pii_credit_card_luhn() {
    let rec = record_with("card", "4111111111111111");
    let detections = RedactionEngine::detect(&rec);
    assert!(detections.iter().any(|d| d.pii_type == PiiType::CreditCard), "Should detect valid Luhn credit card");
}

#[test]
fn test_pii_invalid_credit_card() {
    let rec = record_with("data", "1234567890123456");
    let detections = RedactionEngine::detect(&rec);
    assert!(!detections.iter().any(|d| d.pii_type == PiiType::CreditCard), "Should not detect invalid Luhn number as credit card");
}

#[test]
fn test_pii_number_not_phone() {
    let rec = record_with("amount", "$1,234,567.89");
    let detections = RedactionEngine::detect(&rec);
    assert!(!detections.iter().any(|d| d.pii_type == PiiType::Phone), "Currency amounts should not be detected as phone numbers");
}

// ── encryption ──

#[test]
fn test_encrypt_empty_string() {
    let enc = FieldEncryptor::new("key");
    let encrypted = enc.encrypt_field("f", "");
    let decrypted = enc.decrypt_field("f", &encrypted).unwrap();
    assert_eq!(decrypted, "");
}

#[test]
fn test_encrypt_unicode() {
    let enc = FieldEncryptor::new("key");
    let original = "こんにちは世界";
    let encrypted = enc.encrypt_field("f", original);
    let decrypted = enc.decrypt_field("f", &encrypted).unwrap();
    assert_eq!(decrypted, original);
}

#[test]
fn test_decrypt_non_encrypted() {
    let enc = FieldEncryptor::new("key");
    let result = enc.decrypt_field("f", "plain text");
    assert!(result.is_err(), "Should fail on non-encrypted value");
}

// ── file format ──

#[test]
fn test_adat_empty_file_roundtrip() {
    let writer = AdatWriter::new();
    let buf = writer.finish(b"[]", b"[]", b"[]");
    let reader = AdatReader::open(buf).unwrap();
    assert_eq!(reader.header().record_count, 0);
    assert_eq!(reader.header().schema_count, 0);
}

#[test]
fn test_adat_invalid_magic() {
    let buf = vec![0xFF; 64];
    let result = AdatReader::open(buf);
    assert!(result.is_err());
}

#[test]
fn test_adat_truncated_file() {
    let buf = vec![0x41, 0x44, 0x41, 0x54];
    let result = AdatReader::open(buf);
    assert!(result.is_err(), "Truncated file should fail");
}

// ── store ──

#[test]
fn test_query_empty_store() {
    let store = DataStore::new();
    let qe = QueryEngine::new(&store);
    let result = qe.query("nonexistent", &[], None, 0);
    assert_eq!(result.total_matched, 0);
    assert_eq!(result.total_scanned, 0);
}

#[test]
fn test_quality_empty_node() {
    let store = DataStore::new();
    let score = QualityEngine::score(&store, "empty");
    assert_eq!(score.score, 0);
}

#[test]
fn test_search_no_matches() {
    let mut store = DataStore::new();
    store.add_record(record_with("name", "Alice"));
    let qe = QueryEngine::new(&store);
    let result = qe.search("zzzznonexistentzzzz", None);
    assert_eq!(result.total_matched, 0);
}
