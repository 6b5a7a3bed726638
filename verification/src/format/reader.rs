//! .adat file reader: the header and the sections of the bytes of a file.
use vstd::prelude::*;
use crate::text::{chars_of, string_of, push_all, decimal, decimal_exec};
use crate::types::error::{AdatError, AdatResult};
use crate::types::header::{FileHeader, HEADER_SIZE, magic_bytes, read_u32_le, header_accepts, header_decodes_to};
use crate::types::FORMAT_VERSION;
use super::{spec_lz4_decompress, lz4_decompress, spec_lz4_compress, has_ff_run, has_ff_run_exec, ff_run_at, FF_RUN_LIMIT};
use super::writer::{written_file, file_header};
use crate::types::header::{lemma_header_roundtrip, header_image, same_header};

verus! {

/// The message of a read past the end of the data (`read_exact`).
pub open spec fn short_read() -> Seq<char> {
    "failed to fill whole buffer"@
}

/// The message of a section read on a target whose `usize` is not 64 bits wide.
pub open spec fn needs_64_bit() -> Seq<char> {
    "LZ4 sections are read on 64-bit targets"@
}

/// The message of a section that holds a length field too long to read.
pub open spec fn length_field_too_long() -> Seq<char> {
    "LZ4 length field too long"@
}

/// What reading a section gives: nothing for an empty or unset section, an I/O
/// error past the end of the data, a compression error for a section with a run of
/// `FF_RUN_LIMIT` bytes 0xFF (a length field that cannot be read), else the
/// decompressed bytes or a compression error.
pub open spec fn section_outcome(data: Seq<u8>, start: u64, end: u64, r: AdatResult<Option<Vec<u8>>>) -> bool {
    if start == 0 || end == 0 || end <= start {
        r matches Ok(None)
    } else if end > data.len() {
        r matches Err(AdatError::Io(m)) && m@ == short_read()
    } else if usize::BITS != 64 {
        r matches Err(AdatError::Compression(m)) && m@ == needs_64_bit()
    } else if has_ff_run(data.subrange(start as int, end as int)) {
        r matches Err(AdatError::Compression(m)) && m@ == length_field_too_long()
    } else {
        match spec_lz4_decompress(data.subrange(start as int, end as int)) {
            Ok(b) => r matches Ok(Some(v)) && v@ == b,
            Err(e) => r matches Err(AdatError::Compression(m)) && m@ == e,
        }
    }
}

/// Reader over the bytes of an .adat file.
pub struct AdatReader {
    data: Vec<u8>,
    header: FileHeader,
}

impl AdatReader {
    /// The bytes of the file.
    pub closed spec fn data(&self) -> Seq<u8> {
        self.data@
    }

    /// The header read from the file.
    pub closed spec fn head(&self) -> FileHeader {
        self.header
    }

    /// Open the bytes of an .adat file: fewer than 64 bytes is an I/O error, a header
    /// that is refused gives its error.
    pub fn open(data: Vec<u8>) -> (r: AdatResult<AdatReader>)
        ensures
            data@.len() < HEADER_SIZE ==> (r matches Err(AdatError::Io(m)) && m@ == short_read()),
            data@.len() >= HEADER_SIZE ==> {
                let b = data@.subrange(0, 64);
                &&& (b.subrange(0, 4) != magic_bytes() ==> r matches Err(AdatError::InvalidMagic))
                &&& (b.subrange(0, 4) == magic_bytes() && read_u32_le(b, 4) > FORMAT_VERSION ==> (r matches Err(
                    AdatError::UnsupportedVersion(v),
                ) && v == read_u32_le(b, 4)))
                &&& (r is Ok <==> header_accepts(b))
                &&& (r matches Ok(rd) ==> header_decodes_to(b, rd.head()) && rd.data() == data@)
            },
    {
        if data.len() < 64 {
            return Err(AdatError::Io("failed to fill whole buffer".to_owned()));
        }
        let mut buf = [0u8; 64];
        let mut i: usize = 0;
        while i < 64
            invariant
                i <= 64,
                data@.len() >= 64,
                buf@.len() == 64,
                forall|k: int| 0 <= k < i ==> buf@[k] == data@[k],
            decreases 64 - i,
        {
            buf[i] = data[i];
            i = i + 1;
        }
        assert(buf@ =~= data@.subrange(0, 64));
        let header = FileHeader::from_bytes(&buf)?;
        Ok(AdatReader { data, header })
    }

    /// The file header.
    pub fn header(&self) -> (r: &FileHeader)
        ensures
            *r == self.head(),
    {
        &self.header
    }

    /// The decompressed bytes of the section between two offsets (`None` when the
    /// section is empty or unset).
    pub fn read_section(&self, start: u64, end: u64) -> (r: AdatResult<Option<Vec<u8>>>)
        ensures
            section_outcome(self.data(), start, end, r),
    {
        if start == 0 || end == 0 || end <= start {
            return Ok(None);
        }
        if end > self.data.len() as u64 {
            return Err(AdatError::Io("failed to fill whole buffer".to_owned()));
        }
        let s = start as usize;
        let e = end as usize;
        let mut part: Vec<u8> = Vec::new();
        let mut i: usize = s;
        while i < e
            invariant
                s <= i <= e,
                e <= self.data@.len(),
                part@ == self.data@.subrange(s as int, i as int),
            decreases e - i,
        {
            part.push(self.data[i]);
            i = i + 1;
            assert(part@ =~= self.data@.subrange(s as int, i as int));
        }
        if usize::BITS != 64 {
            return Err(AdatError::Compression("LZ4 sections are read on 64-bit targets".to_owned()));
        }
        if has_ff_run_exec(&part) {
            return Err(AdatError::Compression("LZ4 length field too long".to_owned()));
        }
        match lz4_decompress(&part) {
            Ok(v) => Ok(Some(v)),
            Err(m) => Err(AdatError::Compression(m)),
        }
    }

    /// The bytes of the schema section.
    pub fn schema_section(&self) -> (r: AdatResult<Option<Vec<u8>>>)
        ensures
            section_outcome(self.data(), self.head().schema_offset, self.head().source_offset, r),
    {
        self.read_section(self.header.schema_offset, self.header.source_offset)
    }

    /// The bytes of the source section.
    pub fn source_section(&self) -> (r: AdatResult<Option<Vec<u8>>>)
        ensures
            section_outcome(self.data(), self.head().source_offset, self.head().record_offset, r),
    {
        self.read_section(self.header.source_offset, self.header.record_offset)
    }

    /// The bytes of the record section.
    pub fn record_section(&self) -> (r: AdatResult<Option<Vec<u8>>>)
        ensures
            section_outcome(self.data(), self.head().record_offset, self.head().content_offset, r),
    {
        self.read_section(self.header.record_offset, self.header.content_offset)
    }

    /// Summary of the file contents:
    /// `AgenticData v{version}: {n} schemas, {n} sources, {n} records`.
    pub fn summary(&self) -> (r: String)
        ensures
            r@ == "AgenticData v"@ + decimal(self.head().version as nat) + ": "@ + decimal(
                self.head().schema_count as nat,
            ) + " schemas, "@ + decimal(self.head().source_count as nat) + " sources, "@ + decimal(
                self.head().record_count as nat,
            ) + " records"@,
    {
        let mut t = chars_of("AgenticData v");
        push_all(&mut t, &decimal_exec(self.header.version as u128));
        push_all(&mut t, &chars_of(": "));
        push_all(&mut t, &decimal_exec(self.header.schema_count as u128));
        push_all(&mut t, &chars_of(" schemas, "));
        push_all(&mut t, &decimal_exec(self.header.source_count as u128));
        push_all(&mut t, &chars_of(" sources, "));
        push_all(&mut t, &decimal_exec(self.header.record_count as u128));
        push_all(&mut t, &chars_of(" records"));
        string_of(&t)
    }
}

/// The section `start..end` of `data` is present, holds no run of `FF_RUN_LIMIT`
/// bytes 0xFF, and decompresses to `j`, so that reading it (on a 64-bit target) gives
/// `Ok(Some(j))`.
pub open spec fn section_holds(data: Seq<u8>, start: u64, end: u64, j: Seq<u8>) -> bool {
    &&& 0 < start < end <= data.len()
    &&& !has_ff_run(data.subrange(start as int, end as int))
    &&& spec_lz4_decompress(data.subrange(start as int, end as int)) == Ok::<Seq<u8>, Seq<char>>(j)
}

/// A part of bytes without a long run of 0xFF has none either.
proof fn lemma_no_ff_run_in_part(d: Seq<u8>, a: int, b: int)
    requires
        0 <= a <= b <= d.len(),
        !has_ff_run(d),
    ensures
        !has_ff_run(d.subrange(a, b)),
{
    if has_ff_run(d.subrange(a, b)) {
        let i = choose|i: int| ff_run_at(d.subrange(a, b), i);
        assert forall|k: int| a + i <= k < a + i + FF_RUN_LIMIT implies d[k] == 0xFFu8 by {
            assert(d.subrange(a, b)[k - a] == d[k]);
        }
        assert(ff_run_at(d, a + i));
    }
}

/// A file that the writer wrote reads back: it is long enough to hold a header, its
/// header is accepted, the header read from it holds the counts written, and each of
/// the three sections gives back the JSON it was written from (where each JSON is at
/// most `u32::MAX` bytes long, the most that the length prefix can hold, and the file
/// holds no run of `FF_RUN_LIMIT` bytes 0xFF, which reading refuses).
pub proof fn lemma_written_file_reads_back(
    file: Seq<u8>,
    counts: (nat, nat, nat),
    j1: Seq<u8>,
    j2: Seq<u8>,
    j3: Seq<u8>,
)
    requires
        written_file(file, counts, j1, j2, j3),
        j1.len() <= u32::MAX,
        j2.len() <= u32::MAX,
        j3.len() <= u32::MAX,
        !has_ff_run(file),
    ensures
        file.len() >= HEADER_SIZE,
        header_accepts(file.subrange(0, 64)),
        forall|h: FileHeader| #[trigger] header_decodes_to(file.subrange(0, 64), h) ==> {
            &&& h.schema_count == counts.0 as u32
            &&& h.source_count == counts.1 as u32
            &&& h.record_count == counts.2 as u64
            &&& section_holds(file, h.schema_offset, h.source_offset, j1)
            &&& section_holds(file, h.source_offset, h.record_offset, j2)
            &&& section_holds(file, h.record_offset, h.content_offset, j3)
        },
{
    let c1 = spec_lz4_compress(j1);
    let c2 = spec_lz4_compress(j2);
    let c3 = spec_lz4_compress(j3);
    let h0 = choose|h: FileHeader| #[trigger] file_header(h, counts, c1, c2, c3) && file == header_image(h) + c1 + c2 + c3;
    lemma_header_roundtrip(h0);
    let img = header_image(h0);
    assert(file.subrange(0, 64) =~= img);
    let (a, b, c, d) = (64int, 64 + c1.len() as int, 64 + c1.len() + c2.len() as int, 64 + c1.len() + c2.len() + c3.len() as int);
    assert(file.subrange(a, b) =~= c1);
    assert(file.subrange(b, c) =~= c2);
    assert(file.subrange(c, d) =~= c3);
    lemma_no_ff_run_in_part(file, a, b);
    lemma_no_ff_run_in_part(file, b, c);
    lemma_no_ff_run_in_part(file, c, d);
    assert forall|h: FileHeader| #[trigger] header_decodes_to(file.subrange(0, 64), h) implies {
        &&& h.schema_count == counts.0 as u32
        &&& h.source_count == counts.1 as u32
        &&& h.record_count == counts.2 as u64
        &&& section_holds(file, h.schema_offset, h.source_offset, j1)
        &&& section_holds(file, h.source_offset, h.record_offset, j2)
        &&& section_holds(file, h.record_offset, h.content_offset, j3)
    } by {
        assert(header_decodes_to(img, h));
        assert(same_header(h0, h));
    }
}

} // verus!
