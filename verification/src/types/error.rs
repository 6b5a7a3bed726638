//! Error types for AgenticData.
use vstd::prelude::*;
use crate::text::{chars_of, string_of, push_all, decimal, decimal_exec};

verus! {

/// All possible errors from AgenticData operations.
#[derive(Debug, Clone)]
pub enum AdatError {
    /// An I/O failure, with the message of the underlying error.
    Io(String),
    InvalidMagic,
    UnsupportedVersion(u32),
    Schema(String),
    Parse(String),
    FormatDetection(String),
    RecordNotFound(String),
    SourceNotFound(String),
    Compression(String),
    Encryption(String),
    Query(String),
    Transform(String),
    Lineage(String),
    ContentTooLarge { size: usize, max: usize },
    Serialization(String),
    ChecksumMismatch { expected: String, actual: String },
    Spatial(String),
    Redaction(String),
}

/// The text that describes an error.
pub open spec fn error_message(e: AdatError) -> Seq<char> {
    match e {
        AdatError::Io(m) => "IO error: "@ + m@,
        AdatError::InvalidMagic => "Invalid magic bytes \u{2014} not an .adat file"@,
        AdatError::UnsupportedVersion(v) => "Unsupported format version: "@ + decimal(v as nat),
        AdatError::Schema(m) => "Schema error: "@ + m@,
        AdatError::Parse(m) => "Parse error: "@ + m@,
        AdatError::FormatDetection(m) => "Format detection failed: "@ + m@,
        AdatError::RecordNotFound(m) => "Record not found: "@ + m@,
        AdatError::SourceNotFound(m) => "Source not found: "@ + m@,
        AdatError::Compression(m) => "Compression error: "@ + m@,
        AdatError::Encryption(m) => "Encryption error: "@ + m@,
        AdatError::Query(m) => "Query error: "@ + m@,
        AdatError::Transform(m) => "Transform error: "@ + m@,
        AdatError::Lineage(m) => "Lineage error: "@ + m@,
        AdatError::ContentTooLarge { size, max } => "Content too large: "@ + decimal(size as nat)
            + " bytes (max "@ + decimal(max as nat) + ")"@,
        AdatError::Serialization(m) => "Serialization error: "@ + m@,
        AdatError::ChecksumMismatch { expected, actual } => "Checksum mismatch: expected "@
            + expected@ + ", got "@ + actual@,
        AdatError::Spatial(m) => "Spatial error: "@ + m@,
        AdatError::Redaction(m) => "Redaction error: "@ + m@,
    }
}

/// `prefix` followed by `m`.
fn prefixed(prefix: &str, m: &String) -> (r: String)
    ensures
        r@ == prefix@ + m@,
{
    let mut t = chars_of(prefix);
    push_all(&mut t, &chars_of(m.as_str()));
    string_of(&t)
}

impl AdatError {
    /// The text that describes the error.
    pub fn message(&self) -> (r: String)
        ensures
            r@ == error_message(*self),
    {
        match self {
            AdatError::Io(m) => prefixed("IO error: ", m),
            AdatError::InvalidMagic => "Invalid magic bytes \u{2014} not an .adat file".to_owned(),
            AdatError::UnsupportedVersion(v) => {
                let mut t = chars_of("Unsupported format version: ");
                push_all(&mut t, &decimal_exec(*v as u128));
                string_of(&t)
            },
            AdatError::Schema(m) => prefixed("Schema error: ", m),
            AdatError::Parse(m) => prefixed("Parse error: ", m),
            AdatError::FormatDetection(m) => prefixed("Format detection failed: ", m),
            AdatError::RecordNotFound(m) => prefixed("Record not found: ", m),
            AdatError::SourceNotFound(m) => prefixed("Source not found: ", m),
            AdatError::Compression(m) => prefixed("Compression error: ", m),
            AdatError::Encryption(m) => prefixed("Encryption error: ", m),
            AdatError::Query(m) => prefixed("Query error: ", m),
            AdatError::Transform(m) => prefixed("Transform error: ", m),
            AdatError::Lineage(m) => prefixed("Lineage error: ", m),
            AdatError::ContentTooLarge { size, max } => {
                let mut t = chars_of("Content too large: ");
                push_all(&mut t, &decimal_exec(*size as u128));
                push_all(&mut t, &chars_of(" bytes (max "));
                push_all(&mut t, &decimal_exec(*max as u128));
                push_all(&mut t, &chars_of(")"));
                string_of(&t)
            },
            AdatError::Serialization(m) => prefixed("Serialization error: ", m),
            AdatError::ChecksumMismatch { expected, actual } => {
                let mut t = chars_of("Checksum mismatch: expected ");
                push_all(&mut t, &chars_of(expected.as_str()));
                push_all(&mut t, &chars_of(", got "));
                push_all(&mut t, &chars_of(actual.as_str()));
                string_of(&t)
            },
            AdatError::Spatial(m) => prefixed("Spatial error: ", m),
            AdatError::Redaction(m) => prefixed("Redaction error: ", m),
        }
    }
}

/// Convenience Result type.
pub type AdatResult<T> = Result<T, AdatError>;

} // verus!
