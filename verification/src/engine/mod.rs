//! Engines over the library's data: sessions, queries, transforms and more.
pub mod session;
pub mod store;
pub mod query;
pub mod transform;
pub mod graph;
pub mod ingest;
pub mod consolidation;
pub mod quality;

pub use ingest::{IngestEngine, IngestResult};
pub use query::{QueryEngine, QueryResult, QueryFilter, FilterOp};
pub use transform::{TransformEngine, TransformStep, TransformPipeline};
pub use store::DataStore;
pub use quality::QualityEngine;
pub use graph::{GraphEngine, TraversalDirection, TraversalResult, ImpactResult};
pub use session::{SessionManager, DataSession, OpType};
pub use consolidation::{ConsolidationEngine, ConsolidationReport};
