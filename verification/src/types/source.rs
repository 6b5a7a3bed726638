//! Data sources: the registered origins of data.
use vstd::prelude::*;
use super::record::new_uuid;
use super::now_micros;

verus! {

/// Unique source identifier.
pub type SourceId = String;

/// Type of data source.
#[derive(Debug, Clone, PartialEq, Eq)]
pub enum SourceType {
    /// Local file (CSV, JSON, Excel, etc).
    File,
    /// SQLite database.
    Sqlite,
    /// PostgreSQL database.
    Postgres,
    /// MySQL database.
    Mysql,
    /// REST API endpoint.
    RestApi,
    /// In-memory data.
    Memory,
    /// Another AgenticData instance (federation).
    Federation,
    /// Stream/real-time source.
    Stream,
    /// Unknown/custom source.
    Custom(String),
}

/// A registered data source.
#[derive(Debug)]
pub struct DataSource {
    /// Unique identifier.
    pub id: SourceId,
    /// Human-readable name.
    pub name: String,
    /// Source type.
    pub source_type: SourceType,
    /// Connection string or file path.
    pub connection: String,
    /// Associated schema ID.
    pub schema_id: Option<String>,
    /// When this source was registered.
    pub registered_at: u64,
    /// When data was last fetched from this source.
    pub last_fetched: Option<u64>,
    /// Whether this source is currently reachable.
    pub healthy: bool,
    /// Record count from this source.
    pub record_count: u64,
}

/// A freshly registered source: a random id, no schema, never fetched, healthy, no
/// records.
pub open spec fn fresh_source(s: DataSource, name: Seq<char>, t: SourceType, connection: Seq<char>) -> bool {
    &&& s.id@.len() == 36
    &&& s.name@ == name
    &&& s.source_type == t
    &&& s.connection@ == connection
    &&& s.schema_id is None
    &&& s.last_fetched is None
    &&& s.healthy
    &&& s.record_count == 0
}

impl DataSource {
    /// Register a new source.
    pub fn new(name: &str, source_type: SourceType, connection: &str) -> (r: DataSource)
        ensures
            fresh_source(r, name@, source_type, connection@),
    {
        DataSource {
            id: new_uuid(),
            name: name.to_owned(),
            source_type,
            connection: connection.to_owned(),
            schema_id: None,
            registered_at: now_micros(),
            last_fetched: None,
            healthy: true,
            record_count: 0,
        }
    }

    /// Register a file source.
    pub fn file(name: &str, path: &str) -> (r: DataSource)
        ensures
            fresh_source(r, name@, SourceType::File, path@),
    {
        Self::new(name, SourceType::File, path)
    }

    /// Register a SQLite source.
    pub fn sqlite(name: &str, path: &str) -> (r: DataSource)
        ensures
            fresh_source(r, name@, SourceType::Sqlite, path@),
    {
        Self::new(name, SourceType::Sqlite, path)
    }

    /// A copy of the source.
    pub fn duplicate(&self) -> (r: DataSource)
        ensures
            r.id@ == self.id@,
            r.name@ == self.name@,
            r.source_type == self.source_type,
            r.connection@ == self.connection@,
            r.registered_at == self.registered_at,
            r.last_fetched == self.last_fetched,
            r.healthy == self.healthy,
            r.record_count == self.record_count,
            r.schema_id matches Some(x) ==> self.schema_id matches Some(y) && x@ == y@,
            r.schema_id is None <==> self.schema_id is None,
    {
        DataSource {
            id: self.id.clone(),
            name: self.name.clone(),
            source_type: match &self.source_type {
                SourceType::File => SourceType::File,
                SourceType::Sqlite => SourceType::Sqlite,
                SourceType::Postgres => SourceType::Postgres,
                SourceType::Mysql => SourceType::Mysql,
                SourceType::RestApi => SourceType::RestApi,
                SourceType::Memory => SourceType::Memory,
                SourceType::Federation => SourceType::Federation,
                SourceType::Stream => SourceType::Stream,
                SourceType::Custom(s) => SourceType::Custom(s.clone()),
            },
            connection: self.connection.clone(),
            schema_id: match &self.schema_id {
                Some(s) => Some(s.clone()),
                None => None,
            },
            registered_at: self.registered_at,
            last_fetched: self.last_fetched,
            healthy: self.healthy,
            record_count: self.record_count,
        }
    }
}

} // verus!
