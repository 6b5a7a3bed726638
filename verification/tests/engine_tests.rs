use agentic_data::engine::quality::null_spikes;
use agentic_data::engine::transform::{apply_step, FieldTransform, TransformOp};
use agentic_data::engine::{
    ConsolidationEngine, DataStore, FilterOp, GraphEngine, IngestEngine, OpType, QualityEngine, QueryEngine,
    QueryFilter, SessionManager, TransformEngine, TransformPipeline, TransformStep,
    TraversalDirection,
};
use agentic_data::types::{
    DataRecord, DataSource, FieldMap, FieldType, JsonValue, LineageAction, LineageEntry,
    SchemaEdge, SchemaEdgeType, SchemaField, SchemaNode, UniversalSchema,
};

fn fields(pairs: Vec<(&str, JsonValue)>) -> FieldMap {
    let mut m = FieldMap::new();
    for (k, v) in pairs {
        m.insert(k.to_string(), v);
    }
    m
}

fn text(s: &str) -> JsonValue {
    JsonValue::Str(s.to_string())
}

fn node(name: &str, fields: Vec<SchemaField>, count: Option<u64>) -> SchemaNode {
    SchemaNode { name: name.into(), source: "db".into(), fields, record_count: count }
}

fn graph_schema() -> UniversalSchema {
    let mut s = UniversalSchema::new("test");
    s.nodes.push(node(
        "users",
        vec![SchemaField::inferred("id", FieldType::Integer, 1000), SchemaField::inferred("name", FieldType::Text, 1000)],
        Some(100),
    ));
    s.nodes.push(node(
        "orders",
        vec![SchemaField::inferred("id", FieldType::Integer, 1000), SchemaField::inferred("user_id", FieldType::Integer, 1000)],
        Some(500),
    ));
    s.edges.push(SchemaEdge {
        from: "orders.user_id".into(),
        to: "users.id".into(),
        edge_type: SchemaEdgeType::References,
        confidence: 950,
    });
    s
}

fn user_store() -> DataStore {
    let mut store = DataStore::new();
    for (name, age) in [("Alice", 30), ("Bob", 25), ("Charlie", 35)] {
        let f = fields(vec![("name", text(name)), ("age", JsonValue::Int(age))]);
        store.add_record(DataRecord::new("s", "users", f));
    }
    store
}

fn two_users() -> Vec<DataRecord> {
    vec![
        DataRecord::new("s", "users", fields(vec![("name", text("Alice")), ("age", JsonValue::Int(30))])),
        DataRecord::new("s", "users", fields(vec![("name", text("Bob")), ("age", JsonValue::Int(25))])),
    ]
}

// ── consolidation ──

#[test]
fn test_dedup() {
    let mut store = DataStore::new();
    let r1 = DataRecord::new("s", "n", fields(vec![("x", JsonValue::Int(1))]));
    let checksum = r1.checksum.clone();
    store.add_record(r1);
    let mut r2 = DataRecord::new("s", "n", fields(vec![("x", JsonValue::Int(1))]));
    r2.checksum = checksum;
    store.add_record(r2);

    assert_eq!(store.record_count(), 2);
    let removed = ConsolidationEngine::dedup_records(&mut store);
    assert_eq!(removed, 1);
    assert_eq!(store.record_count(), 1);
}

#[test]
fn test_consolidate_clean_data() {
    let mut store = DataStore::new();
    store.add_schema(UniversalSchema::new("test"));
    store.add_record(DataRecord::new("s", "test", fields(vec![("a", JsonValue::Int(1))])));
    let report = ConsolidationEngine::consolidate(&mut store);
    assert_eq!(report.duplicates_removed, 0);
}

#[test]
fn test_prune_orphans() {
    let mut store = DataStore::new();
    let mut s = UniversalSchema::new("test");
    s.nodes.push(SchemaNode { name: "valid".into(), source: "s".into(), fields: vec![], record_count: None });
    store.add_schema(s);
    store.add_record(DataRecord::new("s", "valid", fields(vec![("x", JsonValue::Int(1))])));
    store.add_record(DataRecord::new("s", "orphaned_node", fields(vec![("x", JsonValue::Int(1))])));

    assert_eq!(store.record_count(), 2);
    let pruned = ConsolidationEngine::prune_orphans(&mut store);
    assert_eq!(pruned, 1);
    assert_eq!(store.record_count(), 1);
}

#[test]
fn test_report() {
    let mut store = DataStore::new();
    let report = ConsolidationEngine::consolidate(&mut store);
    assert_eq!(report.total_actions, 0);
}

#[test]
fn consolidation_details() {
    let mut store = DataStore::new();
    // No schema at all: every active record is an orphan.
    store.add_record(DataRecord::new("s", "n", fields(vec![])));
    assert_eq!(ConsolidationEngine::refresh_quality(&store), 1);
    assert_eq!(ConsolidationEngine::prune_orphans(&mut store), 1);
    assert_eq!(store.record_count(), 0);
    store.add_record(DataRecord::new("s", "n", fields(vec![])));
    assert_eq!(ConsolidationEngine::merge_duplicate_schemas(&mut store), 0);
    // Records older than the cut-off are archived, then no longer active.
    let archived = ConsolidationEngine::compact(&mut store, 0);
    assert!(archived <= 1);
    let mut fresh = DataStore::new();
    fresh.add_record(DataRecord::new("s", "n", fields(vec![])));
    assert_eq!(ConsolidationEngine::compact(&mut fresh, u64::MAX), 0);
    assert_eq!(fresh.active_records().len(), 1);
}

// ── graph ──

#[test]
fn test_bfs_traversal() {
    let schema = graph_schema();
    let result = GraphEngine::traverse_schema(&schema, "users", TraversalDirection::Both, 3);
    assert!(result.visited.contains(&"users".to_string()));
    assert!(result.visited.contains(&"orders".to_string()));
}

#[test]
fn test_connected_components() {
    let schema = graph_schema();
    let components = GraphEngine::connected_components(&schema);
    assert_eq!(components.len(), 1);
}

#[test]
fn test_discover_relationships() {
    let mut store = DataStore::new();
    store.add_schema(graph_schema());
    let candidates = GraphEngine::discover_relationships(&store);
    assert!(!candidates.is_empty());
    assert!(candidates.iter().any(|c| c.from_field == "user_id" && c.to_field == "id"));
}

#[test]
fn graph_directions() {
    let schema = graph_schema();
    let fwd = GraphEngine::traverse_schema(&schema, "users", TraversalDirection::Forward, 3);
    assert_eq!(fwd.visited, vec!["users".to_string()]);
    let back = GraphEngine::traverse_schema(&schema, "users", TraversalDirection::Backward, 3);
    assert_eq!(back.visited, vec!["users".to_string(), "orders".to_string()]);
    assert_eq!(back.edges_followed, 1);
    let from_orders = GraphEngine::traverse_schema(&schema, "orders", TraversalDirection::Forward, 3);
    assert_eq!(from_orders.visited, vec!["orders".to_string(), "users".to_string()]);
}

#[test]
fn graph_impact_analysis() {
    let mut store = DataStore::new();
    store.add_lineage("b", LineageEntry {
        action: LineageAction::Derived, source: "a".into(), timestamp: 1,
        input_hash: "".into(), output_hash: "".into(), description: "".into(),
    });
    store.add_lineage("c", LineageEntry {
        action: LineageAction::Derived, source: "b".into(), timestamp: 2,
        input_hash: "".into(), output_hash: "".into(), description: "".into(),
    });
    // The walk follows each target's chain to the sources it came from.
    let impact = GraphEngine::impact_analysis(&store, "c");
    assert_eq!(impact.affected, vec!["b".to_string(), "a".to_string()]);
    assert_eq!(impact.total_downstream, 2);
    assert_eq!(impact.depth, 2);
    let none = GraphEngine::impact_analysis(&store, "z");
    assert!(none.affected.is_empty());
}

// ── ingest ──

#[test]
fn test_ingest_csv() {
    let mut store = DataStore::new();
    let mut engine = IngestEngine::new(&mut store);
    let result = engine.ingest_string("name,age\nAlice,30\nBob,25\n", "test.csv").unwrap();
    assert_eq!(result.records_added, 2);
    assert_eq!(result.parse_errors, 0);
    assert_eq!(store.record_count(), 2);
    assert_eq!(store.schema_count(), 1);
    assert_eq!(store.source_count(), 1);
}

#[test]
fn test_ingest_json() {
    let mut store = DataStore::new();
    let mut engine = IngestEngine::new(&mut store);
    let result = engine.ingest_string(r#"[{"x":1},{"x":2}]"#, "test.json").unwrap();
    assert_eq!(result.records_added, 2);
}

#[test]
fn test_ingest_records_lineage() {
    let mut store = DataStore::new();
    let mut engine = IngestEngine::new(&mut store);
    engine.ingest_string("a,b\n1,2\n", "test").unwrap();
    let rec = &store.active_records()[0];
    let lineage = store.get_lineage(&rec.id);
    assert!(lineage.is_some());
    assert_eq!(lineage.unwrap().depth(), 1);
}

#[test]
fn test_ingest_auto_detect() {
    let mut store = DataStore::new();
    let mut engine = IngestEngine::new(&mut store);
    let result = engine.ingest_string(r#"{"key":"val"}"#, "data").unwrap();
    assert_eq!(result.records_added, 1);
}

#[test]
fn ingest_errors_leave_store() {
    let mut store = DataStore::new();
    let mut engine = IngestEngine::new(&mut store);
    assert!(engine.ingest_string("", "empty").is_err());
    assert_eq!(store.record_count(), 0);
    assert_eq!(store.source_count(), 0);
}

// ── query ──

#[test]
fn test_query_all() {
    let store = user_store();
    let engine = QueryEngine::new(&store);
    let result = engine.query("users", &[], None, 0);
    assert_eq!(result.total_matched, 3);
}

#[test]
fn test_query_eq() {
    let store = user_store();
    let engine = QueryEngine::new(&store);
    let result = engine.query(
        "users",
        &[QueryFilter { field: "name".into(), op: FilterOp::Eq, value: text("Alice") }],
        None,
        0,
    );
    assert_eq!(result.total_matched, 1);
}

#[test]
fn test_query_gt() {
    let store = user_store();
    let engine = QueryEngine::new(&store);
    let result = engine.query(
        "users",
        &[QueryFilter { field: "age".into(), op: FilterOp::Gt, value: JsonValue::Int(28) }],
        None,
        0,
    );
    assert_eq!(result.total_matched, 2);
}

#[test]
fn test_search() {
    let store = user_store();
    let engine = QueryEngine::new(&store);
    let result = engine.search("bob", None);
    assert_eq!(result.total_matched, 1);
}

#[test]
fn test_count() {
    let store = user_store();
    let engine = QueryEngine::new(&store);
    assert_eq!(engine.count("users", &[]), 3);
}

#[test]
fn test_distinct() {
    let store = user_store();
    let engine = QueryEngine::new(&store);
    let names = engine.distinct("users", "name");
    assert_eq!(names.len(), 3);
}

#[test]
fn test_limit_offset() {
    let store = user_store();
    let engine = QueryEngine::new(&store);
    let result = engine.query("users", &[], Some(2), 0);
    assert_eq!(result.total_matched, 2);
    let result2 = engine.query("users", &[], Some(2), 2);
    assert_eq!(result2.total_matched, 1);
}

#[test]
fn test_contains_filter() {
    let store = user_store();
    let engine = QueryEngine::new(&store);
    let result = engine.query(
        "users",
        &[QueryFilter { field: "name".into(), op: FilterOp::Contains, value: text("li") }],
        None,
        0,
    );
    assert_eq!(result.total_matched, 2);
}

#[test]
fn query_filter_ops() {
    let store = user_store();
    let engine = QueryEngine::new(&store);
    let q = |field: &str, op: FilterOp, value: JsonValue| {
        engine.query("users", &[QueryFilter { field: field.into(), op, value }], None, 0).total_matched
    };
    assert_eq!(q("age", FilterOp::Gte, JsonValue::Int(30)), 2);
    assert_eq!(q("age", FilterOp::Lt, JsonValue::Int(30)), 1);
    assert_eq!(q("age", FilterOp::Lte, JsonValue::Int(25)), 1);
    assert_eq!(q("name", FilterOp::Ne, text("Bob")), 2);
    assert_eq!(q("name", FilterOp::StartsWith, text("Ch")), 1);
    assert_eq!(q("missing", FilterOp::IsNull, JsonValue::Null), 3);
    assert_eq!(q("age", FilterOp::IsNotNull, JsonValue::Null), 3);
    assert_eq!(q("age", FilterOp::Gt, text("x")), 0);
    let r = engine.query("users", &[], Some(1), 1);
    assert_eq!(r.total_scanned, 3);
    assert_eq!(r.records[0].get_str("name"), Some("Bob"));
    assert_eq!(engine.query_all(&[], None).total_matched, 3);
    assert_eq!(engine.search("ALICE", Some(5)).total_matched, 1);
}

// ── session ──

#[test]
fn test_session_lifecycle() {
    let mut mgr = SessionManager::new();
    let sid = mgr.start("alice");
    assert_eq!(mgr.active_count(), 1);

    mgr.record_op(&sid, OpType::Ingest, "data.csv", "Ingested 100 records");
    mgr.record_op(&sid, OpType::Query, "data.csv", "Filtered by name");
    mgr.record_op(&sid, OpType::QualityCheck, "data.csv", "Score: 85");

    let session = mgr.get_active(&sid).unwrap();
    assert_eq!(session.operations.len(), 3);
    assert_eq!(session.records_created, 1);
    assert_eq!(session.queries_executed, 1);

    mgr.end(&sid);
    assert_eq!(mgr.active_count(), 0);
    assert_eq!(mgr.completed_count(), 1);
}

#[test]
fn session_duration_zero_while_active() {
    let mut mgr = SessionManager::new();
    let sid = mgr.start("dora");
    assert_eq!(mgr.get_active(&sid).unwrap().duration_ms(), 0);
    let mut ended = mgr.end(&sid).unwrap().clone();
    ended.ended_at = Some(ended.started_at + 5_000_000);
    assert_eq!(ended.duration_ms(), 5_000);
    ended.ended_at = Some(ended.started_at.saturating_sub(1));
    if ended.started_at > 0 {
        assert_eq!(ended.duration_ms(), 0);
    }
}

#[test]
fn test_resume_context() {
    let mut mgr = SessionManager::new();
    let sid = mgr.start("bob");
    mgr.record_op(&sid, OpType::Ingest, "sales.csv", "Loaded");
    mgr.record_op(&sid, OpType::PiiScan, "sales.csv", "3 PII found");
    mgr.end(&sid);

    let ctx = mgr.resume_context("bob").unwrap();
    assert!(ctx.contains("2 operations"));
    assert!(ctx.contains("sales.csv"));
}

#[test]
fn test_user_history() {
    let mut mgr = SessionManager::new();
    let s1 = mgr.start("alice");
    mgr.end(&s1);
    let s2 = mgr.start("alice");
    mgr.end(&s2);
    let s3 = mgr.start("bob");
    mgr.end(&s3);

    assert_eq!(mgr.user_history("alice").len(), 2);
    assert_eq!(mgr.user_history("bob").len(), 1);
}

#[test]
fn test_session_summary() {
    let mut mgr = SessionManager::new();
    let sid = mgr.start("test");
    mgr.record_op(&sid, OpType::Ingest, "x", "");
    let session = mgr.get_active(&sid).unwrap();
    assert!(session.summary().contains("test"));
}

#[test]
fn session_details() {
    let mut mgr = SessionManager::new();
    let sid = mgr.start("carol");
    mgr.record_op(&sid, OpType::Ingest, "a.csv", "");
    mgr.record_op(&sid, OpType::Transform, "a.csv", "");
    mgr.record_op(&sid, OpType::Export, "b.csv", "");
    let s = mgr.get_active(&sid).unwrap();
    assert_eq!(s.sources_touched, vec!["a.csv".to_string(), "b.csv".to_string()]);
    assert_eq!(s.records_modified, 0);
    assert_eq!(s.summary(), "carol: 3 ops, 2 sources, 1 records created, 0 queries");
    assert_eq!(mgr.active_sessions(), vec![sid.as_str()]);
    // Ops on an unknown session are ignored; ending it twice gives nothing the second time.
    mgr.record_op("nope", OpType::Query, "x", "");
    assert!(mgr.end(&sid).is_some());
    assert!(mgr.end(&sid).is_none());
    assert!(mgr.get_active(&sid).is_none());
}

// ── store ──

#[test]
fn test_store_basics() {
    let mut store = DataStore::new();
    assert_eq!(store.record_count(), 0);

    let schema = UniversalSchema::new("test");
    let schema_id = schema.id.clone();
    store.add_schema(schema);
    assert_eq!(store.schema_count(), 1);
    assert!(store.get_schema(&schema_id).is_some());

    let source = DataSource::file("csv", "/tmp/test.csv");
    let source_id = source.id.clone();
    store.add_source(source);
    assert_eq!(store.source_count(), 1);

    store.add_record(DataRecord::new(&source_id, "test", fields(vec![("x", JsonValue::Int(1))])));
    assert_eq!(store.record_count(), 1);
    assert_eq!(store.records_for_source(&source_id).len(), 1);
}

#[test]
fn test_store_lineage() {
    let mut store = DataStore::new();
    store.add_lineage("users.email", LineageEntry {
        action: LineageAction::Ingested,
        source: "csv".into(),
        timestamp: 1000,
        input_hash: "a".into(),
        output_hash: "b".into(),
        description: "Imported".into(),
    });
    let chain = store.get_lineage("users.email").unwrap();
    assert_eq!(chain.depth(), 1);
}

#[test]
fn test_store_clear() {
    let mut store = DataStore::new();
    store.add_schema(UniversalSchema::new("s"));
    store.clear();
    assert_eq!(store.schema_count(), 0);
}

#[test]
fn test_summary() {
    let store = DataStore::new();
    assert!(store.summary().contains("0 schemas"));
}

#[test]
fn store_details() {
    let mut store = DataStore::new();
    let s = UniversalSchema::new("named");
    let id = s.id.clone();
    store.add_schema(s);
    assert_eq!(store.find_schema_by_name("named").map(|s| s.id.clone()), Some(id.clone()));
    assert!(store.find_schema_by_name("other").is_none());
    let r = DataRecord::new("s", "n", fields(vec![]));
    let rid = r.id.clone();
    store.add_records(vec![r, DataRecord::new("s", "m", fields(vec![]))]);
    assert_eq!(store.get_record(&rid).map(|r| r.schema_node.as_str()), Some("n"));
    assert_eq!(store.records_for_node("m").len(), 1);
    let removed = store.remove_records(|r: &DataRecord| r.schema_node == "m");
    assert_eq!(removed, 1);
    assert_eq!(store.summary(), "1 schemas, 0 sources, 1 records, 0 lineage chains");
    let mut again = UniversalSchema::new("again");
    again.id = id.clone();
    store.add_schema(again);
    assert_eq!(store.schema_count(), 1);
    assert_eq!(store.get_schema(&id).map(|s| s.name.as_str()), Some("again"));
}

// ── transform ──

#[test]
fn test_rename() {
    let mut pipeline = TransformPipeline::new("test");
    pipeline.add(TransformStep {
        name: "rename".into(),
        operation: TransformOp::RenameField { from: "name".into(), to: "full_name".into() },
    });
    let result = TransformEngine::apply(&two_users(), &pipeline);
    assert_eq!(result.records_out, 2);
    assert_eq!(result.receipts.len(), 1);
}

#[test]
fn test_drop_field() {
    let mut pipeline = TransformPipeline::new("test");
    pipeline.add(TransformStep { name: "drop".into(), operation: TransformOp::DropField { field: "age".into() } });
    let result = TransformEngine::apply(&two_users(), &pipeline);
    assert_eq!(result.records_out, 2);
}

#[test]
fn test_uppercase() {
    let mut pipeline = TransformPipeline::new("test");
    pipeline.add(TransformStep {
        name: "upper".into(),
        operation: TransformOp::MapField { field: "name".into(), transform: FieldTransform::Uppercase },
    });
    let result = TransformEngine::apply(&two_users(), &pipeline);
    assert_eq!(result.records_out, 2);
}

#[test]
fn test_receipt_audit() {
    let mut pipeline = TransformPipeline::new("audit_test");
    pipeline.add(TransformStep { name: "step1".into(), operation: TransformOp::AddField { name: "x".into(), value: JsonValue::Int(1) } });
    pipeline.add(TransformStep { name: "step2".into(), operation: TransformOp::DropField { field: "age".into() } });
    let result = TransformEngine::apply(&two_users(), &pipeline);
    assert_eq!(result.receipts.len(), 2);
    assert_eq!(result.receipts[0].transform, "step1");
    assert!(result.receipts[0].reversible);
}

#[test]
fn transform_step_effects() {
    let recs = two_users();
    let renamed = apply_step(&recs, &TransformOp::RenameField { from: "name".into(), to: "full".into() });
    assert_eq!(renamed[0].get_str("full"), Some("Alice"));
    assert!(renamed[0].get("name").is_none());
    let upper = apply_step(&recs, &TransformOp::MapField { field: "name".into(), transform: FieldTransform::Uppercase });
    assert_eq!(upper[1].get_str("name"), Some("BOB"));
    let replaced = apply_step(&recs, &TransformOp::MapField {
        field: "name".into(),
        transform: FieldTransform::Replace { from: "li".into(), to: "LI".into() },
    });
    assert_eq!(replaced[0].get_str("name"), Some("ALIce"));
    let filtered = apply_step(&recs, &TransformOp::Filter { field: "age".into(), op: FilterOp::Gt, value: JsonValue::Int(26) });
    assert_eq!(filtered.len(), 1);
    let sorted = apply_step(&recs, &TransformOp::Sort { field: "age".into(), ascending: true });
    assert_eq!(sorted[0].get_str("name"), Some("Bob"));
    // Text values compare equal, so the sort keeps their order.
    let desc = apply_step(&recs, &TransformOp::Sort { field: "name".into(), ascending: false });
    assert_eq!(desc[0].get_str("name"), Some("Alice"));
    let by_age_desc = apply_step(&recs, &TransformOp::Sort { field: "age".into(), ascending: false });
    assert_eq!(by_age_desc[0].get_str("name"), Some("Alice"));
    let dropped = apply_step(&recs, &TransformOp::DropField { field: "age".into() });
    assert_eq!(dropped[0].field_count(), 1);
}

#[test]
fn transform_receipt_counts() {
    let mut pipeline = TransformPipeline::new("p");
    pipeline.add(TransformStep {
        name: "keep_old".into(),
        operation: TransformOp::Filter { field: "age".into(), op: FilterOp::Gte, value: JsonValue::Int(30) },
    });
    let result = TransformEngine::apply(&two_users(), &pipeline);
    assert_eq!(result.records_in, 2);
    assert_eq!(result.records_out, 1);
    assert_eq!(result.records_dropped, 1);
    let r = &result.receipts[0];
    assert_eq!((r.input_count, r.output_count, r.dropped_count), (2, 1, 1));
    assert!(!r.reversible);
}

#[test]
fn transform_to_store_adds_lineage() {
    let mut store = DataStore::new();
    for r in two_users() {
        store.add_record(r);
    }
    let mut pipeline = TransformPipeline::new("p");
    pipeline.add(TransformStep { name: "drop".into(), operation: TransformOp::DropField { field: "age".into() } });
    let result = TransformEngine::apply_to_store(&mut store, "users", &pipeline);
    assert_eq!(result.records_out, 2);
    assert!(store.get_lineage("users").is_some());
}

// ── quality ──

fn populated_store() -> DataStore {
    let mut store = DataStore::new();
    for i in 0..10 {
        let f = fields(vec![("value", JsonValue::Int(i * 10)), ("name", text(&format!("item_{}", i)))]);
        store.add_record(DataRecord::new("s", "items", f));
    }
    store
}

#[test]
fn quality_test_quality_score() {
    let store = populated_store();
    let score = QualityEngine::score(&store, "items");
    assert!(score.score > 50);
    assert!(score.completeness > 900);
}

#[test]
fn test_null_spike_detection() {
    let mut store = DataStore::new();
    for i in 0..10 {
        let v = if i < 7 { JsonValue::Null } else { JsonValue::Int(i) };
        store.add_record(DataRecord::new("s", "data", fields(vec![("a", v)])));
    }
    let spikes = null_spikes(&store, "data");
    assert!(spikes.iter().any(|(f, _)| f == "a"));
}

#[test]
fn null_spikes_exact() {
    let mut store = DataStore::new();
    for i in 0..4 {
        let a = if i < 3 { JsonValue::Null } else { JsonValue::Int(1) };
        let b = if i < 2 { JsonValue::Null } else { JsonValue::Int(1) };
        store.add_record(DataRecord::new("s", "d", fields(vec![("a", a), ("b", b), ("c", JsonValue::Int(i))])));
    }
    store.add_record(DataRecord::new("s", "other", fields(vec![("a", JsonValue::Null)])));
    // "a" is null in 3 of 4 records; "b" in exactly half, which is not a spike.
    assert_eq!(null_spikes(&store, "d"), vec![("a".to_string(), 3)]);
    assert_eq!(null_spikes(&store, "other"), vec![("a".to_string(), 1)]);
    assert!(null_spikes(&store, "none").is_empty());
}

#[test]
fn test_health_report() {
    let store = populated_store();
    let report = QualityEngine::health_report(&store);
    assert_eq!(report.len(), 1);
}

#[test]
fn test_empty_store() {
    let store = DataStore::new();
    let score = QualityEngine::score(&store, "nothing");
    assert_eq!(score.score, 0);
}

#[test]
fn quality_dimensions_exact() {
    let mut store = DataStore::new();
    // Three records: one with a null, one duplicate of the first's content, one with
    // fewer fields.
    store.add_record(DataRecord::new("s", "d", fields(vec![("a", JsonValue::Int(1)), ("b", JsonValue::Null)])));
    store.add_record(DataRecord::new("s", "d", fields(vec![("a", JsonValue::Int(1)), ("b", JsonValue::Null)])));
    store.add_record(DataRecord::new("s", "d", fields(vec![("a", JsonValue::Int(2))])));
    let q = QualityEngine::score_at(&store, "d", store.active_records()[2].updated_at);
    assert_eq!(q.completeness, 600); // 3 of 5 values
    assert_eq!(q.uniqueness, 666); // 2 distinct checksums of 3
    assert_eq!(q.consistency, 666); // 2 of 3 records have the most fields
    assert_eq!(q.freshness, 1000);
    assert_eq!(q.accuracy, 850);
    assert_eq!(q.score as u32, (600 + 666 + 666 + 1000 + 850) / 50);
    assert!(q.score <= 100);
    assert_eq!(q.target, "d");
    // One microsecond later a thousandth is lost; thirty days later all of it.
    let t = store.active_records()[2].updated_at;
    assert_eq!(QualityEngine::score_at(&store, "d", t + 1).freshness, 999);
    assert_eq!(QualityEngine::score_at(&store, "d", t + 2_592_000_000 * 1000).freshness, 0);
}

#[test]
fn health_report_sorted_nodes() {
    let mut store = DataStore::new();
    for node in ["zeta", "alpha", "mid", "alpha"] {
        store.add_record(DataRecord::new("s", node, fields(vec![("x", JsonValue::Int(1))])));
    }
    let report = QualityEngine::health_report(&store);
    let names: Vec<&str> = report.iter().map(|q| q.target.as_str()).collect();
    assert_eq!(names, vec!["alpha", "mid", "zeta"]);
}

#[test]
fn count_agrees_with_query() {
    let store = user_store();
    let engine = QueryEngine::new(&store);
    let filters = [QueryFilter { field: "age".into(), op: FilterOp::Gte, value: JsonValue::Int(30) }];
    assert_eq!(engine.count("users", &filters), engine.query("users", &filters, None, 0).total_matched);
    assert_eq!(engine.count("users", &filters), 2);
}

#[test]
fn dedup_leaves_distinct_checksums() {
    let mut store = DataStore::new();
    for v in [1, 2, 1, 3, 2, 1] {
        store.add_record(DataRecord::new("s", "n", fields(vec![("x", JsonValue::Int(v))])));
    }
    assert_eq!(ConsolidationEngine::dedup_records(&mut store), 3);
    let mut sums: Vec<String> = store.active_records().iter().map(|r| r.checksum.clone()).collect();
    assert_eq!(sums.len(), 3);
    sums.sort();
    sums.dedup();
    assert_eq!(sums.len(), 3);
    // The first record of each content is the one kept.
    let kept: Vec<i64> = store.active_records().iter().map(|r| r.get_i64("x").unwrap()).collect();
    assert_eq!(kept, vec![1, 2, 3]);
}

#[test]
fn session_counts_follow_starts_and_ends() {
    let mut mgr = SessionManager::new();
    let a = mgr.start("u1");
    let b = mgr.start("u2");
    let c = mgr.start("u3");
    assert_eq!(mgr.active_count() + mgr.completed_count(), 3);
    assert!(mgr.end(&b).is_some());
    assert!(mgr.end(&b).is_none());
    assert!(mgr.end("unknown").is_none());
    assert_eq!(mgr.completed_count(), 1);
    assert_eq!(mgr.active_count() + mgr.completed_count(), 3);
    mgr.end(&a);
    mgr.end(&c);
    assert_eq!(mgr.active_count(), 0);
    assert_eq!(mgr.completed_count(), 3);
}

#[test]
fn float_zero_equals_negative_zero() {
    let pos = JsonValue::Float("0.0".into());
    let neg = JsonValue::Float("-0.0".into());
    assert!(pos.equals(&neg));
    assert!(neg.equals(&pos));
    assert!(!pos.equals(&JsonValue::Float("1.0".into())));
    assert!(!pos.equals(&JsonValue::Int(0)));
    assert!(JsonValue::Array(vec![neg.clone()]).equals(&JsonValue::Array(vec![pos.clone()])));
    let recs = vec![
        DataRecord::new("s", "n", fields(vec![("x", neg.clone())])),
        DataRecord::new("s", "n", fields(vec![("x", pos.clone())])),
        DataRecord::new("s", "n", fields(vec![("x", JsonValue::Float("2.5".into()))])),
    ];
    let kept = apply_step(&recs, &TransformOp::Dedup { field: "x".into() });
    assert_eq!(kept.len(), 2);
    assert_eq!(kept[0].id, recs[0].id);
    assert_eq!(kept[1].id, recs[2].id);
    let eq = TransformOp::Filter { field: "x".into(), op: FilterOp::Eq, value: pos.clone() };
    assert_eq!(apply_step(&recs, &eq).len(), 2);
    let ne = TransformOp::Filter { field: "x".into(), op: FilterOp::Ne, value: neg };
    assert_eq!(apply_step(&recs, &ne).len(), 1);
}

#[test]
fn sort_step_orders_numbers() {
    let recs = vec![
        DataRecord::new("s", "n", fields(vec![("x", JsonValue::Int(3))])),
        DataRecord::new("s", "n", fields(vec![("x", JsonValue::Float("1.5".into()))])),
        DataRecord::new("s", "n", fields(vec![("x", JsonValue::Int(2))])),
        DataRecord::new("s", "n", fields(vec![("x", JsonValue::Int(-7))])),
    ];
    let asc = apply_step(&recs, &TransformOp::Sort { field: "x".into(), ascending: true });
    let ids: Vec<&str> = asc.iter().map(|r| r.id.as_str()).collect();
    assert_eq!(ids, vec![recs[3].id.as_str(), recs[1].id.as_str(), recs[2].id.as_str(), recs[0].id.as_str()]);
    let desc = apply_step(&recs, &TransformOp::Sort { field: "x".into(), ascending: false });
    let ids: Vec<&str> = desc.iter().map(|r| r.id.as_str()).collect();
    assert_eq!(ids, vec![recs[0].id.as_str(), recs[2].id.as_str(), recs[1].id.as_str(), recs[3].id.as_str()]);
}

#[test]
fn int_equals_uint_of_same_value() {
    assert!(JsonValue::Int(5).equals(&JsonValue::UInt(5)));
    assert!(JsonValue::UInt(5).equals(&JsonValue::Int(5)));
    assert!(!JsonValue::Int(-1).equals(&JsonValue::UInt(u64::MAX)));
    assert!(!JsonValue::UInt(5).equals(&JsonValue::Int(6)));
    assert!(!JsonValue::UInt(5).equals(&JsonValue::Float("5.0".into())));
}

#[test]
fn edge_end_counts_per_node() {
    let mut s = UniversalSchema::new("t");
    s.nodes.push(node("users", vec![], None));
    s.nodes.push(node("orders", vec![], None));
    s.nodes.push(node("users", vec![], None));
    for (from, to) in [("orders.user_id", "users.id"), ("orders.item", "items.id"), ("solo", "users.id")] {
        s.edges.push(SchemaEdge {
            from: from.into(),
            to: to.into(),
            edge_type: SchemaEdgeType::References,
            confidence: 900,
        });
    }
    let counts = GraphEngine::edge_end_counts(&s);
    let expect: Vec<(String, usize)> = vec![
        ("users".into(), 2),
        ("orders".into(), 2),
        ("items".into(), 1),
        ("solo".into(), 1),
    ];
    assert_eq!(counts, expect);
}
