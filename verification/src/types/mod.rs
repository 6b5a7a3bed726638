//! All data types for the AgenticData library.
pub mod error;
pub mod header;
pub mod json;
pub mod record;
pub mod json_io;
pub mod schema;
pub mod schema_eq;
pub mod source;
pub mod lineage;
pub mod quality;
pub mod spatial;

pub use error::{AdatError, AdatResult};
pub use header::{FileHeader, HEADER_SIZE};
pub use schema::{SchemaNode, SchemaEdge, SchemaEdgeType, SchemaField, FieldType, FieldStats, UniversalSchema};
pub use record::{DataRecord, RecordId, RecordStatus, FieldMap};
pub use json::JsonValue;
pub use source::{DataSource, SourceId, SourceType};
pub use lineage::{LineageEntry, LineageChain, LineageAction, TransformReceipt};
pub use quality::{QualityScore, AnomalyRecord, AnomalyType, HealthMetric, Trend};
pub use spatial::SpatialRef;

use vstd::prelude::*;

verus! {

/// Magic bytes at the start of every .adat file ("ADAT").
pub const ADAT_MAGIC: [u8; 4] = [0x41, 0x44, 0x41, 0x54];

/// Current format version.
pub const FORMAT_VERSION: u32 = 1;

/// Maximum content size per record (before compression): 1MB.
pub const MAX_CONTENT_SIZE: usize = 1_048_576;

/// Maximum fields per schema.
pub const MAX_FIELDS_PER_SCHEMA: u16 = 4096;

/// The current time as Unix epoch microseconds (`chrono::Utc::now`). Nothing is
/// promised of the value: it depends on the clock.
#[verifier::external_body]
pub fn now_micros() -> u64 {
    chrono::Utc::now().timestamp_micros() as u64
}

} // verus!
