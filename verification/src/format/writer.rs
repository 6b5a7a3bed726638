//! .adat file writer: the header and the compressed sections of a file.
use vstd::prelude::*;
use crate::types::header::{FileHeader, HEADER_SIZE, header_image, magic_bytes};
use crate::types::record::DataRecord;
use crate::types::schema::UniversalSchema;
use crate::types::source::DataSource;
use crate::types::FORMAT_VERSION;
use super::{spec_lz4_compress, lz4_compress, roundtrips};

verus! {

/// Writer that collects the schemas, sources and records of an .adat file.
pub struct AdatWriter {
    schemas: Vec<UniversalSchema>,
    sources: Vec<DataSource>,
    records: Vec<DataRecord>,
}

/// The header of a file with the given counts and compressed sections.
pub open spec fn file_header(h: FileHeader, counts: (nat, nat, nat), c1: Seq<u8>, c2: Seq<u8>, c3: Seq<u8>) -> bool {
    &&& h.magic@ == magic_bytes()
    &&& h.version == FORMAT_VERSION
    &&& h.schema_count == counts.0 as u32
    &&& h.source_count == counts.1 as u32
    &&& h.record_count == counts.2 as u64
    &&& h.schema_offset == HEADER_SIZE
    &&& h.source_offset == HEADER_SIZE + c1.len()
    &&& h.record_offset == HEADER_SIZE + c1.len() + c2.len()
    &&& h.content_offset == HEADER_SIZE + c1.len() + c2.len() + c3.len()
}

/// `r` is the file written from the JSON `j1`, `j2`, `j3` of the schema, source and
/// record lists, with the given counts: the header, then the three compressed
/// sections; each section has its 4-byte length prefix and reads back its JSON
/// where that length fits in a `u32`.
pub open spec fn written_file(r: Seq<u8>, counts: (nat, nat, nat), j1: Seq<u8>, j2: Seq<u8>, j3: Seq<u8>) -> bool {
    let c1 = spec_lz4_compress(j1);
    let c2 = spec_lz4_compress(j2);
    let c3 = spec_lz4_compress(j3);
    &&& exists|h: FileHeader| #[trigger] file_header(h, counts, c1, c2, c3) && r == header_image(h) + c1 + c2 + c3
    &&& c1.len() >= 4 && c2.len() >= 4 && c3.len() >= 4
    &&& (j1.len() <= u32::MAX ==> roundtrips(c1, j1))
    &&& (j2.len() <= u32::MAX ==> roundtrips(c2, j2))
    &&& (j3.len() <= u32::MAX ==> roundtrips(c3, j3))
}

impl AdatWriter {
    /// The schemas added, in order.
    pub closed spec fn schemas(&self) -> Seq<UniversalSchema> {
        self.schemas@
    }

    /// The sources added, in order.
    pub closed spec fn sources(&self) -> Seq<DataSource> {
        self.sources@
    }

    /// The records added, in order.
    pub closed spec fn records(&self) -> Seq<DataRecord> {
        self.records@
    }

    /// An empty writer.
    pub fn new() -> (r: AdatWriter)
        ensures
            r.schemas().len() == 0,
            r.sources().len() == 0,
            r.records().len() == 0,
    {
        AdatWriter { schemas: Vec::new(), sources: Vec::new(), records: Vec::new() }
    }

    /// Add a schema.
    pub fn add_schema(&mut self, schema: UniversalSchema)
        ensures
            final(self).schemas() == old(self).schemas().push(schema),
            final(self).sources() == old(self).sources(),
            final(self).records() == old(self).records(),
    {
        self.schemas.push(schema);
    }

    /// Add a data source.
    pub fn add_source(&mut self, source: DataSource)
        ensures
            final(self).sources() == old(self).sources().push(source),
            final(self).schemas() == old(self).schemas(),
            final(self).records() == old(self).records(),
    {
        self.sources.push(source);
    }

    /// Add a record.
    pub fn add_record(&mut self, record: DataRecord)
        ensures
            final(self).records() == old(self).records().push(record),
            final(self).schemas() == old(self).schemas(),
            final(self).sources() == old(self).sources(),
    {
        self.records.push(record);
    }

    /// Counts of schemas, sources and records, for progress reporting.
    pub fn counts(&self) -> (r: (usize, usize, usize))
        ensures
            r == (self.schemas().len() as usize, self.sources().len() as usize, self.records().len() as usize),
    {
        (self.schemas.len(), self.sources.len(), self.records.len())
    }

    /// The schemas, sources and records, for the caller to encode as JSON.
    pub fn parts(&self) -> (r: (&Vec<UniversalSchema>, &Vec<DataSource>, &Vec<DataRecord>))
        ensures
            r.0@ == self.schemas(),
            r.1@ == self.sources(),
            r.2@ == self.records(),
    {
        (&self.schemas, &self.sources, &self.records)
    }

    /// The bytes of the file, given the JSON of the schema, source and record lists:
    /// the 64-byte header, then each section LZ4-compressed, in that order.
    pub fn finish(&self, schema_json: &[u8], source_json: &[u8], record_json: &[u8]) -> (r: Vec<u8>)
        requires
            schema_json@.len() <= usize::MAX / 110,
            source_json@.len() <= usize::MAX / 110,
            record_json@.len() <= usize::MAX / 110,
        ensures
            written_file(
                r@,
                (self.schemas().len(), self.sources().len(), self.records().len()),
                schema_json@,
                source_json@,
                record_json@,
            ),
    {
        let c1 = lz4_compress(schema_json);
        let c2 = lz4_compress(source_json);
        let c3 = lz4_compress(record_json);
        let mut header = FileHeader::new();
        let schema_offset: u64 = 64;
        let source_offset = schema_offset + c1.len() as u64;
        let record_offset = source_offset + c2.len() as u64;
        header.schema_count = self.schemas.len() as u32;
        header.source_count = self.sources.len() as u32;
        header.record_count = self.records.len() as u64;
        header.schema_offset = schema_offset;
        header.source_offset = source_offset;
        header.record_offset = record_offset;
        header.content_offset = record_offset + c3.len() as u64;
        let head = header.to_bytes();
        let mut out: Vec<u8> = Vec::new();
        let mut i: usize = 0;
        while i < 64
            invariant
                i <= 64,
                head@.len() == 64,
                out@ == head@.subrange(0, i as int),
            decreases 64 - i,
        {
            out.push(head[i]);
            i = i + 1;
            assert(out@ =~= head@.subrange(0, i as int));
        }
        assert(head@.subrange(0, 64) =~= head@);
        append_bytes(&mut out, &c1);
        append_bytes(&mut out, &c2);
        append_bytes(&mut out, &c3);
        assert(file_header(
            header,
            (self.schemas().len(), self.sources().len(), self.records().len()),
            spec_lz4_compress(schema_json@),
            spec_lz4_compress(source_json@),
            spec_lz4_compress(record_json@),
        ));
        assert(out@ == header_image(header) + spec_lz4_compress(schema_json@) + spec_lz4_compress(
            source_json@,
        ) + spec_lz4_compress(record_json@));
        assert(written_file(
            out@,
            (self.schemas().len(), self.sources().len(), self.records().len()),
            schema_json@,
            source_json@,
            record_json@,
        ));
        out
    }
}

/// Appends the bytes of `b` at the end of `a`.
fn append_bytes(a: &mut Vec<u8>, b: &Vec<u8>)
    ensures
        final(a)@ == old(a)@ + b@,
{
    let ghost a0 = a@;
    let mut i: usize = 0;
    while i < b.len()
        invariant
            i <= b@.len(),
            a@ == a0 + b@.subrange(0, i as int),
        decreases b.len() - i,
    {
        a.push(b[i]);
        i = i + 1;
        assert(a@ =~= a0 + b@.subrange(0, i as int));
    }
    assert(b@.subrange(0, b@.len() as int) =~= b@);
}

} // verus!
