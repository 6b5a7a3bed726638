use agentic_data::index::{LineageIndex, QualityIndex, SchemaIndex, TemporalIndex};
use agentic_data::index::lineage_index::entries_debug;
use agentic_data::types::{
    AnomalyRecord, AnomalyType, DataRecord, FieldMap, FieldType, LineageAction, LineageChain,
    LineageEntry, QualityScore, SchemaField, SchemaNode, Trend, UniversalSchema,
};

fn entry(action: LineageAction, source: &str, ts: u64, description: &str) -> LineageEntry {
    LineageEntry {
        action,
        source: source.into(),
        timestamp: ts,
        input_hash: "".into(),
        output_hash: "".into(),
        description: description.into(),
    }
}

fn users_schema() -> UniversalSchema {
    let mut s = UniversalSchema::new("test");
    s.nodes.push(SchemaNode {
        name: "users".into(),
        source: "db".into(),
        fields: vec![
            SchemaField::inferred("id", FieldType::Integer, 1000),
            SchemaField::inferred("email", FieldType::Email, 950),
            SchemaField::inferred("name", FieldType::Text, 1000),
        ],
        record_count: Some(100),
    });
    s
}

fn record_at(ts: u64) -> DataRecord {
    let mut r = DataRecord::new("s", "n", FieldMap::new());
    r.created_at = ts;
    r.updated_at = ts;
    r
}

fn anomaly(id: &str, target: &str, reviewed: bool) -> AnomalyRecord {
    AnomalyRecord {
        id: id.into(),
        anomaly_type: AnomalyType::Outlier,
        severity: 800,
        target: target.into(),
        description: "Outlier".into(),
        values: vec!["1000".into()],
        detected_at: 0,
        reviewed,
    }
}

// ── lineage index ──

#[test]
fn test_add_and_trace() {
    let mut idx = LineageIndex::new();
    idx.add_entry("users.email", LineageEntry {
        action: LineageAction::Ingested,
        source: "csv_import".into(),
        timestamp: 1000,
        input_hash: "a".into(),
        output_hash: "b".into(),
        description: "Imported".into(),
    });
    let chain = idx.trace("users.email").unwrap();
    assert_eq!(chain.depth(), 1);
}

#[test]
fn test_impact_analysis() {
    let mut idx = LineageIndex::new();
    idx.add_entry("orders.total", entry(LineageAction::Derived, "orders.quantity", 1000, "Computed"));
    idx.add_entry("reports.revenue", entry(LineageAction::Derived, "orders.total", 2000, "Aggregated"));
    let impact = idx.impact_of("orders.quantity");
    assert!(impact.contains(&"orders.total"));
}

#[test]
fn test_sources_of() {
    let mut idx = LineageIndex::new();
    idx.add_entry("target", entry(LineageAction::Merged, "source_a", 1000, "Merged"));
    idx.add_entry("target", entry(LineageAction::Merged, "source_b", 2000, "Merged"));
    let sources = idx.sources_of("target");
    assert_eq!(sources.len(), 2);
}

#[test]
fn test_trust_score() {
    let mut idx = LineageIndex::new();
    idx.add_entry("x", entry(LineageAction::Transformed, "a", 1000, ""));
    assert!(idx.trust_score("x") < 1000);
    assert_eq!(idx.trust_score("missing"), 0);
}

#[test]
fn test_fingerprint() {
    let mut idx = LineageIndex::new();
    idx.add_entry("x", LineageEntry {
        action: LineageAction::Ingested,
        source: "csv".into(),
        timestamp: 1000,
        input_hash: "a".into(),
        output_hash: "b".into(),
        description: "Import".into(),
    });
    let fp = idx.fingerprint("x");
    assert!(fp.is_some());
    assert_eq!(fp.unwrap().len(), 16);
}

#[test]
fn lineage_index_details() {
    let mut idx = LineageIndex::new();
    idx.add_entry("x", entry(LineageAction::Transformed, "a", 1, ""));
    assert_eq!(idx.trust_score("x"), 950);
    let fp1 = idx.fingerprint("x").unwrap();
    assert!(fp1.chars().all(|c| c.is_ascii_hexdigit()));
    idx.add_entry("x", entry(LineageAction::Transformed, "a", 2, ""));
    assert_eq!(idx.trust_score("x"), 900);
    assert_ne!(idx.fingerprint("x").unwrap(), fp1);
    assert!(idx.fingerprint("missing").is_none());
    // Each entry adds its source again.
    assert_eq!(idx.sources_of("x"), vec!["a", "a"]);
    let low = idx.low_trust_targets(950);
    assert_eq!(low, vec![("x", 900)]);
    assert!(idx.low_trust_targets(900).is_empty());
    let mut chain = LineageChain::new("y");
    chain.add(entry(LineageAction::Derived, "x", 3, ""));
    idx.add_chain(&chain);
    assert_eq!(idx.chain_count(), 2);
    assert_eq!(idx.impact_of("x"), vec!["y"]);
    assert_eq!(idx.impact_of("a"), vec!["x", "x"]);
}

// ── quality index ──

#[test]
fn test_score_timeline() {
    let mut idx = QualityIndex::new();
    idx.add_score(QualityScore::compute("users", 900, 800, 900, 1000, 850));
    idx.add_score(QualityScore::compute("users", 950, 850, 920, 1000, 900));
    assert_eq!(idx.timeline("users").len(), 2);
    assert!(idx.latest_score("users").is_some());
}

#[test]
fn test_trend_improving() {
    let mut idx = QualityIndex::new();
    idx.add_score(QualityScore::compute("x", 500, 500, 500, 500, 500));
    idx.add_score(QualityScore::compute("x", 900, 900, 900, 900, 900));
    assert_eq!(idx.trend("x"), Trend::Improving);
}

#[test]
fn test_quarantine() {
    let mut idx = QualityIndex::new();
    idx.quarantine("rec-1");
    assert!(idx.is_quarantined("rec-1"));
    assert!(!idx.is_quarantined("rec-2"));
    assert_eq!(idx.quarantined_count(), 1);
}

#[test]
fn test_anomaly_tracking() {
    let mut idx = QualityIndex::new();
    idx.add_anomaly(anomaly("a1", "data.val", false));
    assert_eq!(idx.anomaly_count(), 1);
    assert_eq!(idx.unreviewed_anomalies().len(), 1);
}

#[test]
fn quality_index_details() {
    let mut idx = QualityIndex::new();
    assert_eq!(idx.trend("x"), Trend::Unknown);
    idx.add_score(QualityScore::compute("x", 900, 900, 900, 900, 900));
    assert_eq!(idx.trend("x"), Trend::Unknown);
    idx.add_score(QualityScore::compute("x", 880, 880, 880, 880, 880));
    assert_eq!(idx.trend("x"), Trend::Stable);
    idx.add_score(QualityScore::compute("x", 500, 500, 500, 500, 500));
    assert_eq!(idx.trend("x"), Trend::Degrading);
    assert_eq!(idx.latest_score("x").map(|s| s.score), Some(50));
    assert!(idx.latest_score("y").is_none());
    idx.quarantine("r");
    idx.quarantine("r");
    assert_eq!(idx.quarantined_count(), 1);
    idx.add_anomaly(anomaly("a1", "t", true));
    idx.add_anomaly(anomaly("a2", "t", false));
    idx.add_anomaly(anomaly("a3", "u", false));
    assert_eq!(idx.anomaly_count(), 3);
    assert_eq!(idx.anomalies_for("t").len(), 2);
    let open: Vec<&str> = idx.unreviewed_anomalies().iter().map(|a| a.id.as_str()).collect();
    assert_eq!(open, vec!["a2", "a3"]);
}

// ── schema index ──

#[test]
fn test_add_and_find() {
    let mut idx = SchemaIndex::new();
    idx.add(&users_schema());
    assert_eq!(idx.schema_count(), 1);
    assert_eq!(idx.field_count(), 3);
    let f = idx.find_field("users.email").unwrap();
    assert_eq!(f.field_type, FieldType::Email);
}

#[test]
fn test_fields_of_type() {
    let mut idx = SchemaIndex::new();
    idx.add(&users_schema());
    let emails = idx.fields_of_type(&FieldType::Email);
    assert_eq!(emails.len(), 1);
    assert_eq!(emails[0].0, "users.email");
}

#[test]
fn test_search_fields() {
    let mut idx = SchemaIndex::new();
    idx.add(&users_schema());
    let results = idx.search_fields("mail");
    assert_eq!(results.len(), 1);
}

#[test]
fn test_schemas_for_node() {
    let mut idx = SchemaIndex::new();
    idx.add(&users_schema());
    assert_eq!(idx.schemas_for_node("users").len(), 1);
    assert_eq!(idx.schemas_for_node("missing").len(), 0);
}

#[test]
fn schema_index_details() {
    let mut idx = SchemaIndex::new();
    idx.add(&users_schema());
    idx.add(&users_schema());
    assert_eq!(idx.schema_count(), 2);
    assert_eq!(idx.schemas_for_node("users").len(), 2);
    assert_eq!(idx.field_count(), 3);
    assert!(idx.find_field("users.nope").is_none());
    assert_eq!(idx.search_fields("NAME").len(), 1);
    assert_eq!(idx.fields_of_type(&FieldType::Float).len(), 0);
}

// ── temporal index ──

#[test]
fn test_range_query() {
    let mut idx = TemporalIndex::new();
    idx.add(&record_at(100));
    idx.add(&record_at(200));
    idx.add(&record_at(300));
    assert_eq!(idx.range(100, 200).len(), 2);
    assert_eq!(idx.range(150, 250).len(), 1);
    assert_eq!(idx.range(400, 500).len(), 0);
}

#[test]
fn test_latest() {
    let mut idx = TemporalIndex::new();
    idx.add(&record_at(100));
    idx.add(&record_at(200));
    idx.add(&record_at(300));
    let latest = idx.latest(2);
    assert_eq!(latest.len(), 2);
}

#[test]
fn test_version_history() {
    let mut idx = TemporalIndex::new();
    let mut r = record_at(100);
    let id = r.id.clone();
    idx.add(&r);
    r.version = 2;
    r.updated_at = 200;
    idx.add(&r);
    let hist = idx.history(&id);
    assert_eq!(hist.len(), 2);
}

#[test]
fn test_earliest_latest() {
    let mut idx = TemporalIndex::new();
    idx.add(&record_at(100));
    idx.add(&record_at(300));
    assert_eq!(idx.earliest(), Some(100));
    assert_eq!(idx.most_recent(), Some(300));
}

#[test]
fn test_empty() {
    let idx = TemporalIndex::new();
    assert!(idx.is_empty());
    assert_eq!(idx.earliest(), None);
}

#[test]
fn temporal_index_details() {
    let mut idx = TemporalIndex::new();
    let a = record_at(300);
    let b = record_at(100);
    let c = record_at(200);
    idx.add(&a);
    idx.add(&b);
    idx.add(&c);
    assert_eq!(idx.len(), 3);
    assert_eq!(idx.range(0, 1000), vec![b.id.as_str(), c.id.as_str(), a.id.as_str()]);
    assert_eq!(idx.latest(1), vec![a.id.as_str()]);
    assert_eq!(idx.count_range(100, 200), 2);
    assert_eq!(idx.history(&b.id), vec![(100, 1)]);
    assert!(idx.history("none").is_empty());
}

#[test]
fn entries_debug_matches_derived_debug() {
    let entries = vec![
        entry(LineageAction::Ingested, "csv", 1000, "Import"),
        entry(LineageAction::Migrated, "a\"b\\c", 0, "line\nnext\ttab\r\u{1}\u{1b}\u{7f}'"),
        entry(LineageAction::Redacted, "", u64::MAX, ""),
    ];
    assert_eq!(entries_debug(&entries), format!("{:?}", entries));
    assert_eq!(entries_debug(&Vec::new()), "[]");
    assert_eq!(
        entries_debug(&entries[..1].iter().map(|e| e.duplicate()).collect::<Vec<_>>()),
        "[LineageEntry { action: Ingested, source: \"csv\", timestamp: 1000, input_hash: \"\", output_hash: \"\", description: \"Import\" }]"
    );
}

#[test]
fn fingerprint_is_blake3_of_debug_text() {
    let mut idx = LineageIndex::new();
    let e = entry(LineageAction::Transformed, "src", 42, "step \"one\"");
    let expected_text = format!("{:?}", vec![e.duplicate()]);
    idx.add_entry("t", e);
    let digest = blake3::hash(expected_text.as_bytes()).to_hex().to_string();
    assert_eq!(idx.fingerprint("t").unwrap(), digest[..16].to_string());
}

#[test]
fn temporal_index_law_over_adds() {
    let mut idx = TemporalIndex::new();
    assert!(idx.is_empty());
    assert_eq!(idx.most_recent(), None);
    let a = record_at(300);
    let b = record_at(100);
    let c = record_at(300);
    let d = record_at(200);
    idx.add(&a);
    idx.add(&b);
    idx.add(&c);
    idx.add(&d);
    assert_eq!(idx.len(), 4);
    assert_eq!(idx.earliest(), Some(100));
    assert_eq!(idx.most_recent(), Some(300));
    // The ids at one time come in the order in which they were added.
    assert_eq!(idx.range(300, 300), vec![a.id.as_str(), c.id.as_str()]);
    assert_eq!(idx.count_range(150, 300), 3);
    assert_eq!(idx.range(150, 300).len(), 3);
    assert_eq!(idx.count_range(301, 1000), 0);
}

#[test]
fn entries_debug_escapes_like_debug_below_u0100() {
    for code in 0u32..0x100 {
        let c = char::from_u32(code).unwrap();
        let text: String = vec!['a', c, 'z'].into_iter().collect();
        let entries = vec![entry(LineageAction::Derived, &text, code as u64, &text)];
        assert_eq!(entries_debug(&entries), format!("{:?}", entries), "char {:#x}", code);
    }
    let entries = vec![entry(LineageAction::Corrected, "\u{e9} \u{fc} \u{4e2d}\u{6587}", 5, "ok")];
    assert_eq!(entries_debug(&entries), format!("{:?}", entries));
}
