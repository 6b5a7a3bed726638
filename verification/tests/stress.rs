use agentic_data::engine::{FilterOp, QueryFilter};
use agentic_data::{
    AdatReader, AdatWriter, DataRecord, DataStore, FieldEncryptor, FieldMap, IngestEngine,
    JsonValue, QualityEngine, QueryEngine, RedactionEngine, UniversalSchema,
};
use std::time::Instant;

#[test]
fn stress_ingest_10k_csv_records() {
    let mut data = String::from("id,name,value,category,score\n");
    for i in 0..10_000 {
        data.push_str(&format!("{},item_{},{},cat_{},{:.2}\n", i, i, i * 7, i % 10, i as f64 * 0.01));
    }
    let mut store = DataStore::new();
    let mut engine = IngestEngine::new(&mut store);
    let start = Instant::now();
    let result = engine.ingest_string(&data, "stress_csv").unwrap();
    let elapsed = start.elapsed();
    assert_eq!(result.records_added, 10_000);
    assert_eq!(result.parse_errors, 0);
    println!("[stress] Ingested 10K CSV records in {:?}", elapsed);
    assert!(elapsed.as_secs() < 5, "10K ingest should complete in <5s, took {:?}", elapsed);
}

#[test]
fn stress_ingest_5k_json_records() {
    let items: Vec<String> = (0..5_000)
        .map(|i| format!(r#"{{"id":{},"name":"item_{}","price":{:.2},"active":{}}}"#,
            i, i, i as f64 * 1.5, if i % 2 == 0 { "true" } else { "false" }))
        .collect();
    let data = format!("[{}]", items.join(","));
    let mut store = DataStore::new();
    let mut engine = IngestEngine::new(&mut store);
    let start = Instant::now();
    let result = engine.ingest_string(&data, "stress_json").unwrap();
    let elapsed = start.elapsed();
    assert_eq!(result.records_added, 5_000);
    println!("[stress] Ingested 5K JSON records in {:?}", elapsed);
    assert!(elapsed.as_secs() < 5, "5K JSON ingest should complete in <5s");
}

#[test]
fn stress_query_filter_10k() {
    let mut store = DataStore::new();
    for i in 0..10_000 {
        let mut f = FieldMap::new();
        f.insert("id".into(), JsonValue::Int(i));
        f.insert("category".into(), JsonValue::Str(format!("cat_{}", i % 50)));
        f.insert("value".into(), JsonValue::Float(format!("{:?}", i as f64 * 0.5)));
        store.add_record(DataRecord::new("s", "items", f));
    }
    let qe = QueryEngine::new(&store);
    let start = Instant::now();
    let result = qe.query(
        "items",
        &[QueryFilter { field: "category".into(), op: FilterOp::Eq, value: JsonValue::Str("cat_7".into()) }],
        None,
        0,
    );
    let elapsed = start.elapsed();
    assert_eq!(result.total_matched, 200);
    assert_eq!(result.total_scanned, 10_000);
    println!("[stress] Filtered 10K records in {:?} ({} matches)", elapsed, result.total_matched);
    assert!(elapsed.as_millis() < 500, "Filter should complete in <500ms");
}

#[test]
fn stress_search_10k() {
    let mut store = DataStore::new();
    for i in 0..10_000 {
        let mut f = FieldMap::new();
        f.insert("name".into(), JsonValue::Str(format!("product_{}", i)));
        let desc = if i == 4242 { "the special unicorn item" } else { "regular item" };
        f.insert("desc".into(), JsonValue::Str(desc.into()));
        store.add_record(DataRecord::new("s", "products", f));
    }
    let qe = QueryEngine::new(&store);
    let start = Instant::now();
    let result = qe.search("unicorn", None);
    let elapsed = start.elapsed();
    assert_eq!(result.total_matched, 1);
    println!("[stress] Full-text search 10K records in {:?}", elapsed);
    assert!(elapsed.as_millis() < 500, "Search should complete in <500ms");
}

#[test]
fn stress_quality_5k_records() {
    let mut store = DataStore::new();
    for i in 0..5_000 {
        let mut f = FieldMap::new();
        f.insert("id".into(), JsonValue::Int(i));
        f.insert("value".into(), JsonValue::Float(format!("{:?}", i as f64 * 0.1)));
        f.insert("optional".into(), if i % 5 == 0 { JsonValue::Null } else { JsonValue::Str("data".into()) });
        store.add_record(DataRecord::new("s", "quality_test", f));
    }
    let start = Instant::now();
    let score = QualityEngine::score(&store, "quality_test");
    let elapsed = start.elapsed();
    println!("[stress] Quality score for 5K records: {}/100 in {:?}", score.score, elapsed);
    assert!(score.score > 50);
    assert!(elapsed.as_millis() < 500, "Quality scoring should complete in <500ms");
}

#[test]
fn stress_adat_roundtrip_1k_records() {
    let mut writer = AdatWriter::new();
    writer.add_schema(UniversalSchema::new("stress_schema"));
    let mut json = String::from("[");
    for i in 0..1_000 {
        let mut f = FieldMap::new();
        f.insert("id".into(), JsonValue::Int(i));
        f.insert("data".into(), JsonValue::Str(format!("record_{}_with_some_content", i)));
        writer.add_record(DataRecord::new("s", "stress", f));
        if i > 0 {
            json.push(',');
        }
        json.push_str(&format!(r#"{{"id":{},"data":"record_{}_with_some_content"}}"#, i, i));
    }
    json.push(']');

    let start = Instant::now();
    let buf = writer.finish(b"[]", b"[]", json.as_bytes());
    let write_elapsed = start.elapsed();

    let size = buf.len();
    let start = Instant::now();
    let reader = AdatReader::open(buf).unwrap();
    let bytes = reader.record_section().unwrap().unwrap();
    let records: serde_json::Value = serde_json::from_slice(&bytes).unwrap();
    let read_elapsed = start.elapsed();

    assert_eq!(records.as_array().unwrap().len(), 1_000);
    println!("[stress] .adat write: {:?}, read: {:?}, size: {} bytes", write_elapsed, read_elapsed, size);
    assert!(write_elapsed.as_secs() < 2);
    assert!(read_elapsed.as_secs() < 2);
}

#[test]
fn stress_pii_scan_1k_records() {
    let mut store = DataStore::new();
    for i in 0..1_000 {
        let mut f = FieldMap::new();
        f.insert("name".into(), JsonValue::Str(format!("User {}", i)));
        f.insert("email".into(), JsonValue::Str(format!("user{}@company.com", i)));
        f.insert("notes".into(), JsonValue::Str("Normal business notes".into()));
        store.add_record(DataRecord::new("s", "pii_test", f));
    }
    let start = Instant::now();
    let mut total_pii = 0;
    for rec in store.active_records() {
        total_pii += RedactionEngine::detect(rec).len();
    }
    let elapsed = start.elapsed();
    println!("[stress] PII scan 1K records: {} detections in {:?}", total_pii, elapsed);
    assert_eq!(total_pii, 1_000, "Should detect 1000 emails");
    assert!(elapsed.as_millis() < 500, "PII scan should complete in <500ms");
}

#[test]
fn stress_encrypt_decrypt_1k() {
    let enc = FieldEncryptor::new("stress-test-key");
    let start = Instant::now();
    for i in 0..1_000 {
        let value = format!("sensitive-data-{}-with-extra-content", i);
        let encrypted = enc.encrypt_field("field", &value);
        let decrypted = enc.decrypt_field("field", &encrypted).unwrap();
        assert_eq!(decrypted, value);
    }
    let elapsed = start.elapsed();
    println!("[stress] 1K encrypt+decrypt cycles in {:?}", elapsed);
    assert!(elapsed.as_secs() < 2);
}
