use agentic_data::engine::transform::{FieldTransform, TransformOp};
use agentic_data::engine::{
    ConsolidationEngine, GraphEngine, OpType, SessionManager, TransformPipeline, TransformStep,
    TraversalDirection,
};
use agentic_data::types::{SchemaEdgeType, Trend};
use agentic_data::{
    DataRecord, DataStore, FieldEncryptor, FieldMap, FieldType, JsonValue, KeyManager,
    LineageAction, LineageEntry, LineageIndex, QualityIndex, QualityScore, SchemaEdge, SchemaField,
    SchemaIndex, SchemaNode, TransformEngine, UniversalSchema,
};

fn bare_node(name: &str) -> SchemaNode {
    SchemaNode { name: name.into(), source: "s".into(), fields: vec![], record_count: None }
}

fn refs(from: &str, to: &str) -> SchemaEdge {
    SchemaEdge { from: from.into(), to: to.into(), edge_type: SchemaEdgeType::References, confidence: 900 }
}

fn one(k: &str, v: JsonValue) -> FieldMap {
    let mut m = FieldMap::new();
    m.insert(k.to_string(), v);
    m
}

// ── graph ──

#[test]
fn test_graph_traversal_depth_limit() {
    let mut s = UniversalSchema::new("chain");
    s.nodes.push(bare_node("a"));
    s.nodes.push(bare_node("b"));
    s.nodes.push(bare_node("c"));
    s.edges.push(refs("a.id", "b.id"));
    s.edges.push(refs("b.id", "c.id"));

    let r0 = GraphEngine::traverse_schema(&s, "a", TraversalDirection::Forward, 0);
    assert_eq!(r0.visited.len(), 1);

    let r1 = GraphEngine::traverse_schema(&s, "a", TraversalDirection::Forward, 1);
    assert!(r1.visited.contains(&"b".to_string()));

    let r2 = GraphEngine::traverse_schema(&s, "a", TraversalDirection::Forward, 5);
    assert!(r2.visited.contains(&"c".to_string()));
}

#[test]
fn test_graph_relationship_discovery_fk() {
    let mut store = DataStore::new();
    let mut s = UniversalSchema::new("fk_test");
    s.nodes.push(SchemaNode {
        name: "users".into(),
        source: "db".into(),
        fields: vec![SchemaField::inferred("id", FieldType::Integer, 1000)],
        record_count: None,
    });
    s.nodes.push(SchemaNode {
        name: "orders".into(),
        source: "db".into(),
        fields: vec![
            SchemaField::inferred("id", FieldType::Integer, 1000),
            SchemaField::inferred("user_id", FieldType::Integer, 1000),
        ],
        record_count: None,
    });
    store.add_schema(s);

    let candidates = GraphEngine::discover_relationships(&store);
    assert!(!candidates.is_empty());
    assert!(candidates.iter().any(|c| c.from_field == "user_id" && c.to_field == "id" && c.confidence >= 800));
}

#[test]
fn test_graph_disconnected_components() {
    let mut s = UniversalSchema::new("disjoint");
    s.nodes.push(bare_node("island_a"));
    s.nodes.push(bare_node("island_b"));
    let components = GraphEngine::connected_components(&s);
    assert_eq!(components.len(), 2, "Two disconnected nodes should form 2 components");
}

// ── sessions ──

#[test]
fn test_session_operation_tracking() {
    let mut mgr = SessionManager::new();
    let sid = mgr.start("analyst");
    mgr.record_op(&sid, OpType::Ingest, "sales.csv", "Loaded 1000 rows");
    mgr.record_op(&sid, OpType::Query, "sales.csv", "Filtered by region");
    mgr.record_op(&sid, OpType::QualityCheck, "sales.csv", "Score: 92");

    let session = mgr.get_active(&sid).unwrap();
    assert_eq!(session.operations.len(), 3);
    assert_eq!(session.records_created, 1);
    assert_eq!(session.queries_executed, 1);
    assert_eq!(session.sources_touched.len(), 1);
}

#[test]
fn test_session_multiple_users() {
    let mut mgr = SessionManager::new();
    let s1 = mgr.start("alice");
    let s2 = mgr.start("bob");
    assert_eq!(mgr.active_count(), 2);
    mgr.end(&s1);
    assert_eq!(mgr.active_count(), 1);
    assert_eq!(mgr.completed_count(), 1);
    mgr.end(&s2);
    assert_eq!(mgr.active_count(), 0);
    assert_eq!(mgr.completed_count(), 2);
}

#[test]
fn test_session_resume_empty() {
    let mgr = SessionManager::new();
    assert!(mgr.resume_context("nobody").is_none());
}

// ── consolidation ──

#[test]
fn test_consolidation_no_dups() {
    let mut store = DataStore::new();
    let mut s = UniversalSchema::new("test");
    s.nodes.push(bare_node("t"));
    store.add_schema(s);
    for i in 0..5 {
        store.add_record(DataRecord::new("s", "t", one("id", JsonValue::Int(i))));
    }
    let report = ConsolidationEngine::consolidate(&mut store);
    assert_eq!(report.duplicates_removed, 0);
    assert_eq!(store.record_count(), 5);
}

#[test]
fn test_consolidation_full_report() {
    let mut store = DataStore::new();
    let mut s = UniversalSchema::new("valid");
    s.nodes.push(bare_node("data"));
    store.add_schema(s);
    for i in 0..10 {
        store.add_record(DataRecord::new("s", "data", one("v", JsonValue::Int(i))));
    }
    let report = ConsolidationEngine::consolidate(&mut store);
    assert!(report.quality_refreshed > 0);
}

// ── transforms ──

#[test]
fn test_transform_dedup() {
    let mut records = Vec::new();
    for _ in 0..3 {
        records.push(DataRecord::new("s", "n", one("name", JsonValue::Str("Alice".into()))));
    }
    records.push(DataRecord::new("s", "n", one("name", JsonValue::Str("Bob".into()))));

    let mut pipeline = TransformPipeline::new("dedup_test");
    pipeline.add(TransformStep { name: "dedup".into(), operation: TransformOp::Dedup { field: "name".into() } });
    let result = TransformEngine::apply(&records, &pipeline);
    assert_eq!(result.records_out, 2);
    assert_eq!(result.records_dropped, 2);
}

#[test]
fn test_transform_sort() {
    let mut records = Vec::new();
    for val in [30, 10, 20] {
        records.push(DataRecord::new("s", "n", one("score", JsonValue::Int(val))));
    }
    let mut pipeline = TransformPipeline::new("sort_test");
    pipeline.add(TransformStep {
        name: "sort_asc".into(),
        operation: TransformOp::Sort { field: "score".into(), ascending: true },
    });
    let result = TransformEngine::apply(&records, &pipeline);
    assert_eq!(result.records_out, 3);
}

#[test]
fn test_transform_multi_step_pipeline() {
    let mut records = Vec::new();
    for (name, age) in [("alice", 30), ("bob", 25), ("alice", 30)] {
        let mut f = one("name", JsonValue::Str(name.into()));
        f.insert("age".into(), JsonValue::Int(age));
        records.push(DataRecord::new("s", "n", f));
    }
    let mut pipeline = TransformPipeline::new("multi");
    pipeline.add(TransformStep {
        name: "upper".into(),
        operation: TransformOp::MapField { field: "name".into(), transform: FieldTransform::Uppercase },
    });
    pipeline.add(TransformStep { name: "dedup".into(), operation: TransformOp::Dedup { field: "name".into() } });
    pipeline.add(TransformStep { name: "drop_age".into(), operation: TransformOp::DropField { field: "age".into() } });

    let result = TransformEngine::apply(&records, &pipeline);
    assert_eq!(result.receipts.len(), 3);
    assert_eq!(result.records_out, 2);
}

// ── indexes ──

#[test]
fn test_lineage_index_chain() {
    let mut idx = LineageIndex::new();
    idx.add_entry("field_a", LineageEntry {
        action: LineageAction::Ingested, source: "csv".into(), timestamp: 100,
        input_hash: "".into(), output_hash: "h1".into(), description: "".into(),
    });
    idx.add_entry("field_b", LineageEntry {
        action: LineageAction::Derived, source: "field_a".into(), timestamp: 200,
        input_hash: "".into(), output_hash: "h2".into(), description: "".into(),
    });

    let impact = idx.impact_of("field_a");
    assert!(impact.contains(&"field_b"));

    let sources = idx.sources_of("field_b");
    assert!(sources.contains(&"field_a"));
}

#[test]
fn test_schema_index_search_case_insensitive() {
    let mut idx = SchemaIndex::new();
    let mut s = UniversalSchema::new("test");
    s.nodes.push(SchemaNode {
        name: "users".into(),
        source: "db".into(),
        fields: vec![SchemaField::inferred("Email_Address", FieldType::Email, 950)],
        record_count: None,
    });
    idx.add(&s);
    let results = idx.search_fields("email");
    assert_eq!(results.len(), 1);
}

#[test]
fn test_quality_index_trend() {
    let mut idx = QualityIndex::new();
    idx.add_score(QualityScore::compute("data", 500, 500, 500, 500, 500));
    idx.add_score(QualityScore::compute("data", 900, 900, 900, 900, 900));
    assert_eq!(idx.trend("data"), Trend::Improving);
}

// ── encryption ──

#[test]
fn test_key_manager_full_lifecycle() {
    let mut km = KeyManager::new();
    let _k1 = km.create_key("prod", "strong-passphrase-123");
    assert!(km.is_active("prod"));
    let _k2 = km.rotate_key("prod", "even-stronger-456").unwrap();
    let keys = km.list_keys();
    assert_eq!(keys[0].2, 2);
    km.deactivate_key("prod").unwrap();
    assert!(!km.is_active("prod"));
    assert_eq!(km.audit_log().len(), 3);
}

#[test]
fn test_encrypt_record_selective() {
    let enc = FieldEncryptor::new("test-key");
    let mut fields = one("ssn", JsonValue::Str("123-45-6789".into()));
    fields.insert("name".into(), JsonValue::Str("Alice".into()));
    fields.insert("city".into(), JsonValue::Str("NYC".into()));
    let mut record = DataRecord::new("s", "n", fields);

    enc.encrypt_record(&mut record, &["ssn"]);
    assert!(FieldEncryptor::is_encrypted(record.get_str("ssn").unwrap()));
    assert_eq!(record.get_str("name"), Some("Alice"));
    assert_eq!(record.get_str("city"), Some("NYC"));

    enc.decrypt_record(&mut record, &["ssn"]).unwrap();
    assert_eq!(record.get_str("ssn"), Some("123-45-6789"));
}
