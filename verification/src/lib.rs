//! AgenticData — universal data comprehension engine, with its contracts proved.
pub mod text;
pub mod hash;
pub mod types;
pub mod parser;
pub mod format;
pub mod crypto;
pub mod engine;
pub mod index;

pub use types::{
    AdatError, AdatResult,
    UniversalSchema, SchemaNode, SchemaField, SchemaEdge, FieldType,
    DataRecord, RecordId, RecordStatus, FieldMap, JsonValue,
    DataSource, SourceId, SourceType,
    LineageChain, LineageEntry, LineageAction, TransformReceipt,
    QualityScore, AnomalyRecord, AnomalyType, HealthMetric,
    SpatialRef,
    FileHeader, HEADER_SIZE,
    ADAT_MAGIC, FORMAT_VERSION, MAX_CONTENT_SIZE,
};
pub use format::{AdatWriter, AdatReader};
pub use engine::{DataStore, IngestEngine, QueryEngine, QueryResult, TransformEngine, QualityEngine};
pub use index::{SchemaIndex, TemporalIndex, QualityIndex, LineageIndex};
pub use crypto::{FieldEncryptor, KeyManager, RedactionEngine, PiiDetection, RedactionPolicy};
