# agentic-data

A data comprehension library: format detection and parsing of many text
formats into records and an inferred schema, an in-memory store with lineage,
queries, transform pipelines, schema-graph analysis, quality scoring,
consolidation, indexes, PII detection and redaction, field encryption, key
management, sessions, and the `.adat` file format.

The library under `src/` is written in Verus: every function carries a
contract and is verified. Calls into `blake3`, `chrono`, `lz4_flex`,
`serde_json` and `uuid` stand behind small trusted wrappers whose contracts say
what the library relies on.

Layout:

- `src/types`: records, schemas, sources, lineage, quality scores, the file
  header, JSON values.
- `src/parser`: format detection and the parsers.
- `src/engine`: store, ingestion, queries, transforms, graph, quality,
  consolidation, sessions.
- `src/index`: schema, temporal, lineage and quality indexes.
- `src/crypto`: base64, field encryption, key management, redaction.
- `src/format`: the `.adat` reader and writer over bytes.
- `app/`: plain Rust around the library: file I/O, serde copies of the stored
  types, and the floating-point parts (spatial index, anomaly outliers,
  centrality).
- `tests/`: the test suite.

Scores, confidences, trust and severities are integers in thousandths.
