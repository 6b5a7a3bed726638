//! Ingestion engine: detects the format, parses, registers the source and schema,
//! records lineage and stores the records.
use vstd::prelude::*;
use crate::text::{chars_of, string_of, push_all, string_views, lemma_first_index};
use crate::parser::{DataFormat, ParseResult, parse_ok, parse_outcome, parse_as};
use crate::parser::detect::{detect_spec, detect_format};
use crate::types::error::AdatResult;
use crate::types::record::DataRecord;
use crate::types::source::{DataSource, SourceType, fresh_source};
use crate::types::lineage::{LineageAction, LineageEntry, LineageChain};
use crate::types::now_micros;
use super::store::{DataStore, upsert, schema_ids, source_ids, lineage_added};

verus! {

/// Result of an ingestion operation.
#[derive(Debug)]
pub struct IngestResult {
    pub source_id: String,
    pub schema_id: String,
    pub records_added: usize,
    pub parse_errors: usize,
    pub warnings: Vec<String>,
}

/// The name of a format as `Debug` writes it (the variant's name).
pub open spec fn format_variant(f: DataFormat) -> Seq<char> {
    match f {
        DataFormat::Csv => "Csv"@,
        DataFormat::Tsv => "Tsv"@,
        DataFormat::Json => "Json"@,
        DataFormat::JsonLines => "JsonLines"@,
        DataFormat::Xml => "Xml"@,
        DataFormat::Yaml => "Yaml"@,
        DataFormat::Toml => "Toml"@,
        DataFormat::Html => "Html"@,
        DataFormat::Sql => "Sql"@,
        DataFormat::Log => "Log"@,
        DataFormat::Email => "Email"@,
        DataFormat::Calendar => "Calendar"@,
        DataFormat::GeoJson => "GeoJson"@,
        DataFormat::Kml => "Kml"@,
        DataFormat::Gpx => "Gpx"@,
        DataFormat::Markdown => "Markdown"@,
        DataFormat::Unknown => "Unknown"@,
    }
}

fn format_variant_exec(f: DataFormat) -> (r: &'static str)
    ensures
        r@ == format_variant(f),
{
    match f {
        DataFormat::Csv => "Csv",
        DataFormat::Tsv => "Tsv",
        DataFormat::Json => "Json",
        DataFormat::JsonLines => "JsonLines",
        DataFormat::Xml => "Xml",
        DataFormat::Yaml => "Yaml",
        DataFormat::Toml => "Toml",
        DataFormat::Html => "Html",
        DataFormat::Sql => "Sql",
        DataFormat::Log => "Log",
        DataFormat::Email => "Email",
        DataFormat::Calendar => "Calendar",
        DataFormat::GeoJson => "GeoJson",
        DataFormat::Kml => "Kml",
        DataFormat::Gpx => "Gpx",
        DataFormat::Markdown => "Markdown",
        DataFormat::Unknown => "Unknown",
    }
}

/// The lineage entry of an ingested record: `Ingested` from `name`, with no input
/// hash, the record's checksum as output hash, and the description
/// `Ingested from {name} as {format}`.
pub open spec fn ingest_entry(e: LineageEntry, rec: DataRecord, name: Seq<char>, format: DataFormat) -> bool {
    &&& e.action == LineageAction::Ingested
    &&& e.source@ == name
    &&& e.input_hash@.len() == 0
    &&& e.output_hash@ == rec.checksum@
    &&& e.description@ == "Ingested from "@ + name + " as "@ + format_variant(format)
}

/// The chains after logging an ingestion entry for each record, in order.
pub open spec fn ingest_lineage(
    cs: Seq<Seq<LineageChain>>,
    es: Seq<LineageEntry>,
    recs: Seq<DataRecord>,
    name: Seq<char>,
    format: DataFormat,
) -> bool {
    &&& cs.len() == recs.len() + 1
    &&& es.len() == recs.len()
    &&& forall|k: int|
        0 <= k < recs.len() ==> ingest_entry(#[trigger] es[k], recs[k], name, format)
            && lineage_added(cs[k], cs[k + 1], recs[k].id@, es[k])
}

/// What ingesting a parse result does: a fresh in-memory source named after the data
/// is registered, the schema stored, a lineage entry logged per record, and the
/// records added at the end.
pub open spec fn ingested(old: DataStore, new: DataStore, p: ParseResult, r: IngestResult, name: Seq<char>, format: DataFormat) -> bool {
    &&& exists|src: DataSource|
        #[trigger] fresh_source(src, name, SourceType::Memory, name) && r.source_id@ == src.id@
            && new.sources() == upsert(old.sources(), source_ids(old.sources()), src.id@, src)
    &&& new.schemas() == upsert(old.schemas(), schema_ids(old.schemas()), p.schema.id@, p.schema)
    &&& new.records() == old.records() + p.records@
    &&& exists|cs: Seq<Seq<LineageChain>>, es: Seq<LineageEntry>|
        #[trigger] ingest_lineage(cs, es, p.records@, name, format) && cs[0] == old.chains()
            && cs.last() == new.chains()
    &&& r.schema_id@ == p.schema.id@
    &&& r.records_added == p.records@.len()
    &&& r.parse_errors == p.errors
    &&& string_views(r.warnings@) == string_views(p.warnings@)
}

/// Engine for ingesting data into a store.
pub struct IngestEngine<'a> {
    store: &'a mut DataStore,
}

impl<'a> IngestEngine<'a> {
    /// The store the engine fills.
    pub closed spec fn store(&self) -> DataStore {
        *self.store
    }

    /// An engine over the store.
    pub fn new(store: &'a mut DataStore) -> (r: IngestEngine<'a>)
        ensures
            r.store() == *old(store),
    {
        IngestEngine { store }
    }

    /// Ingest data as a specific format: when the parser fails, its error is returned
    /// and the store is left as it was.
    pub fn ingest_as(&mut self, data: &str, name: &str, format: DataFormat) -> (r: AdatResult<IngestResult>)
        requires
            parse_ok(data@, format),
        ensures
            r matches Err(e) ==> parse_outcome(Err(e), data@, name@, format) && final(self).store()
                == old(self).store(),
            r matches Ok(res) ==> exists|p: ParseResult|
                #[trigger] parse_outcome(Ok(p), data@, name@, format) && ingested(
                    old(self).store(),
                    final(self).store(),
                    p,
                    res,
                    name@,
                    format,
                ),
    {
        let parsed = parse_as(data, name, format);
        let ghost parsed_g = parsed;
        let p = match parsed {
            Err(e) => {
                return Err(e);
            },
            Ok(p) => p,
        };
        let ghost pg = p;
        let ghost s0 = self.store();
        let source = DataSource::new(name, SourceType::Memory, name);
        let ghost srcg = source;
        let source_id = source.id.clone();
        self.store.add_source(source);
        let ParseResult { schema, records, errors, warnings } = p;
        let schema_id = schema.id.clone();
        self.store.add_schema(schema);
        let ghost s2 = self.store();
        let records_added = records.len();
        let fv = format_variant_exec(format);
        let ghost mut cs: Seq<Seq<LineageChain>> = seq![s2.chains()];
        let ghost mut es: Seq<LineageEntry> = Seq::empty();
        let mut k: usize = 0;
        while k < records.len()
            invariant
                k <= records@.len(),
                records@ == pg.records@,
                fv@ == format_variant(format),
                cs.len() == k + 1,
                es.len() == k,
                cs[0] == s2.chains(),
                cs[k as int] == self.store().chains(),
                forall|q: int|
                    0 <= q < k ==> ingest_entry(#[trigger] es[q], records@[q], name@, format)
                        && lineage_added(cs[q], cs[q + 1], records@[q].id@, es[q]),
                self.store().schemas() == s2.schemas(),
                self.store().sources() == s2.sources(),
                self.store().records() == s2.records(),
            decreases records.len() - k,
        {
            let mut d = chars_of("Ingested from ");
            push_all(&mut d, &chars_of(name));
            push_all(&mut d, &chars_of(" as "));
            push_all(&mut d, &chars_of(fv));
            let entry = LineageEntry {
                action: LineageAction::Ingested,
                source: name.to_owned(),
                timestamp: now_micros(),
                input_hash: String::new(),
                output_hash: records[k].checksum.clone(),
                description: string_of(&d),
            };
            let ghost e = entry;
            assert(entry.input_hash@ =~= Seq::<char>::empty());
            self.store.add_lineage(records[k].id.as_str(), entry);
            proof {
                let c1 = cs;
                let e1 = es;
                cs = cs.push(self.store().chains());
                es = es.push(e);
                assert forall|q: int| 0 <= q < k + 1 implies ingest_entry(#[trigger] es[q], records@[q], name@, format)
                    && lineage_added(cs[q], cs[q + 1], records@[q].id@, es[q]) by {
                    if q < k {
                        assert(es[q] == e1[q]);
                        assert(cs[q] == c1[q]);
                        assert(cs[q + 1] == c1[q + 1]);
                    }
                }
            }
            k = k + 1;
        }
        let ghost s3 = self.store();
        self.store.add_records(records);
        let res = IngestResult {
            source_id,
            schema_id,
            records_added,
            parse_errors: errors,
            warnings,
        };
        proof {
            assert(fresh_source(srcg, name@, SourceType::Memory, name@));
            assert(ingest_lineage(cs, es, pg.records@, name@, format));
            assert(ingested(s0, self.store(), pg, res, name@, format));
            assert(parsed_g == Ok::<ParseResult, crate::types::error::AdatError>(pg));
            assert(parse_outcome(Ok(pg), data@, name@, format));
            assert(s0 == old(self).store());
            assert(ingested(old(self).store(), self.store(), pg, res, name@, format));
        }
        Ok(res)
    }

    /// Ingest data whose format is detected.
    pub fn ingest_string(&mut self, data: &str, name: &str) -> (r: AdatResult<IngestResult>)
        requires
            parse_ok(data@, detect_spec(data@, None).0),
        ensures
            match r {
                Err(e) => parse_outcome(Err(e), data@, name@, detect_spec(data@, None).0)
                    && final(self).store() == old(self).store(),
                Ok(res) => exists|p: ParseResult|
                    #[trigger] parse_outcome(Ok(p), data@, name@, detect_spec(data@, None).0)
                        && ingested(
                        old(self).store(),
                        final(self).store(),
                        p,
                        res,
                        name@,
                        detect_spec(data@, None).0,
                    ),
            },
    {
        let detection = detect_format(data, None);
        self.ingest_as(data, name, detection.format)
    }
}

} // verus!
