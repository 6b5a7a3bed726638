//! Indexes for fast lookups.
pub mod temporal_index;
pub mod schema_index;
pub mod lineage_index;
pub mod quality_index;

pub use schema_index::SchemaIndex;
pub use temporal_index::TemporalIndex;
pub use quality_index::QualityIndex;
pub use lineage_index::LineageIndex;
