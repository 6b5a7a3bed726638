//! .adat file header — the fixed 64-byte binary header of AgenticData files.
use vstd::prelude::*;
use super::error::{AdatError, AdatResult};
use super::{ADAT_MAGIC, FORMAT_VERSION};

verus! {

/// Fixed header size in bytes.
pub const HEADER_SIZE: usize = 64;

/// Binary file header for .adat files.
#[derive(Debug, Clone)]
pub struct FileHeader {
    /// Magic bytes (must be ADAT_MAGIC).
    pub magic: [u8; 4],
    /// Format version.
    pub version: u32,
    /// Number of schemas in this file.
    pub schema_count: u32,
    /// Number of sources registered.
    pub source_count: u32,
    /// Number of records.
    pub record_count: u64,
    /// Offset to schema registry section.
    pub schema_offset: u64,
    /// Offset to source table section.
    pub source_offset: u64,
    /// Offset to record table section.
    pub record_offset: u64,
    /// Offset to content block.
    pub content_offset: u64,
}

/// The four magic bytes "ADAT".
pub open spec fn magic_bytes() -> Seq<u8> {
    seq![0x41u8, 0x44u8, 0x41u8, 0x54u8]
}

/// Little-endian bytes of a `u32`.
pub open spec fn u32_le(x: u32) -> Seq<u8> {
    seq![
        (x & 0xff) as u8,
        ((x >> 8u32) & 0xff) as u8,
        ((x >> 16u32) & 0xff) as u8,
        ((x >> 24u32) & 0xff) as u8,
    ]
}

/// Little-endian bytes of a `u64`.
pub open spec fn u64_le(x: u64) -> Seq<u8> {
    seq![
        (x & 0xff) as u8,
        ((x >> 8u64) & 0xff) as u8,
        ((x >> 16u64) & 0xff) as u8,
        ((x >> 24u64) & 0xff) as u8,
        ((x >> 32u64) & 0xff) as u8,
        ((x >> 40u64) & 0xff) as u8,
        ((x >> 48u64) & 0xff) as u8,
        ((x >> 56u64) & 0xff) as u8,
    ]
}

/// The `u32` whose little-endian bytes are `b[off..off + 4]`.
pub open spec fn read_u32_le(b: Seq<u8>, off: int) -> u32 {
    (b[off] as u32) | ((b[off + 1] as u32) << 8u32) | ((b[off + 2] as u32) << 16u32) | ((b[off
        + 3] as u32) << 24u32)
}

/// The `u64` whose little-endian bytes are `b[off..off + 8]`.
pub open spec fn read_u64_le(b: Seq<u8>, off: int) -> u64 {
    (b[off] as u64) | ((b[off + 1] as u64) << 8u64) | ((b[off + 2] as u64) << 16u64) | ((b[off
        + 3] as u64) << 24u64) | ((b[off + 4] as u64) << 32u64) | ((b[off + 5] as u64) << 40u64)
        | ((b[off + 6] as u64) << 48u64) | ((b[off + 7] as u64) << 56u64)
}

/// The 64 bytes that encode a header: magic, version, the three counts and the four
/// offsets, little-endian, then eight reserved zero bytes.
pub open spec fn header_image(h: FileHeader) -> Seq<u8> {
    h.magic@ + u32_le(h.version) + u32_le(h.schema_count) + u32_le(h.source_count) + u64_le(
        h.record_count,
    ) + u64_le(h.schema_offset) + u64_le(h.source_offset) + u64_le(h.record_offset) + u64_le(
        h.content_offset,
    ) + Seq::new(8, |i: int| 0u8)
}

/// `b` is a well-formed header image: the magic matches and the version is supported.
pub open spec fn header_accepts(b: Seq<u8>) -> bool {
    b.subrange(0, 4) == magic_bytes() && read_u32_le(b, 4) <= FORMAT_VERSION
}

/// `h` holds the fields that the bytes `b` encode.
pub open spec fn header_decodes_to(b: Seq<u8>, h: FileHeader) -> bool {
    &&& h.magic@ == b.subrange(0, 4)
    &&& h.version == read_u32_le(b, 4)
    &&& h.schema_count == read_u32_le(b, 8)
    &&& h.source_count == read_u32_le(b, 12)
    &&& h.record_count == read_u64_le(b, 16)
    &&& h.schema_offset == read_u64_le(b, 24)
    &&& h.source_offset == read_u64_le(b, 32)
    &&& h.record_offset == read_u64_le(b, 40)
    &&& h.content_offset == read_u64_le(b, 48)
}

/// Two headers hold the same fields.
pub open spec fn same_header(a: FileHeader, b: FileHeader) -> bool {
    &&& a.magic@ == b.magic@
    &&& a.version == b.version
    &&& a.schema_count == b.schema_count
    &&& a.source_count == b.source_count
    &&& a.record_count == b.record_count
    &&& a.schema_offset == b.schema_offset
    &&& a.source_offset == b.source_offset
    &&& a.record_offset == b.record_offset
    &&& a.content_offset == b.content_offset
}

proof fn lemma_u32_roundtrip(x: u32)
    ensures
        ((x & 0xff) as u8 as u32) | ((((x >> 8u32) & 0xff) as u8 as u32) << 8u32) | ((((x
            >> 16u32) & 0xff) as u8 as u32) << 16u32) | ((((x >> 24u32) & 0xff) as u8 as u32)
            << 24u32) == x,
{
    assert(((x & 0xff) as u8 as u32) | ((((x >> 8u32) & 0xff) as u8 as u32) << 8u32) | ((((x
        >> 16u32) & 0xff) as u8 as u32) << 16u32) | ((((x >> 24u32) & 0xff) as u8 as u32)
        << 24u32) == x) by (bit_vector);
}

proof fn lemma_u64_roundtrip(x: u64)
    ensures
        ((x & 0xff) as u8 as u64) | ((((x >> 8u64) & 0xff) as u8 as u64) << 8u64) | ((((x
            >> 16u64) & 0xff) as u8 as u64) << 16u64) | ((((x >> 24u64) & 0xff) as u8 as u64)
            << 24u64) | ((((x >> 32u64) & 0xff) as u8 as u64) << 32u64) | ((((x >> 40u64)
            & 0xff) as u8 as u64) << 40u64) | ((((x >> 48u64) & 0xff) as u8 as u64) << 48u64)
            | ((((x >> 56u64) & 0xff) as u8 as u64) << 56u64) == x,
{
    assert(((x & 0xff) as u8 as u64) | ((((x >> 8u64) & 0xff) as u8 as u64) << 8u64) | ((((x
        >> 16u64) & 0xff) as u8 as u64) << 16u64) | ((((x >> 24u64) & 0xff) as u8 as u64)
        << 24u64) | ((((x >> 32u64) & 0xff) as u8 as u64) << 32u64) | ((((x >> 40u64) & 0xff)
        as u8 as u64) << 40u64) | ((((x >> 48u64) & 0xff) as u8 as u64) << 48u64) | ((((x
        >> 56u64) & 0xff) as u8 as u64) << 56u64) == x) by (bit_vector);
}

/// Header round trip: the bytes that `to_bytes` writes for a header with the ADAT
/// magic and a supported version are accepted by `from_bytes`, and decode to a header
/// with exactly the same fields.
pub proof fn lemma_header_roundtrip(h: FileHeader)
    requires
        h.magic@ == magic_bytes(),
        h.version <= FORMAT_VERSION,
    ensures
        header_image(h).len() == HEADER_SIZE,
        header_accepts(header_image(h)),
        header_decodes_to(header_image(h), h),
        forall|h2: FileHeader| #[trigger]
            header_decodes_to(header_image(h), h2) ==> same_header(h, h2),
{
    let b = header_image(h);
    lemma_u32_roundtrip(h.version);
    lemma_u32_roundtrip(h.schema_count);
    lemma_u32_roundtrip(h.source_count);
    lemma_u64_roundtrip(h.record_count);
    lemma_u64_roundtrip(h.schema_offset);
    lemma_u64_roundtrip(h.source_offset);
    lemma_u64_roundtrip(h.record_offset);
    lemma_u64_roundtrip(h.content_offset);
    assert(b.subrange(0, 4) =~= h.magic@);
}

proof fn lemma_u32_bytes(b0: u8, b1: u8, b2: u8, b3: u8)
    ensures
        ({
            let v = (b0 as u32) | ((b1 as u32) << 8u32) | ((b2 as u32) << 16u32) | ((b3 as u32)
                << 24u32);
            &&& (v & 0xff) as u8 == b0
            &&& ((v >> 8u32) & 0xff) as u8 == b1
            &&& ((v >> 16u32) & 0xff) as u8 == b2
            &&& ((v >> 24u32) & 0xff) as u8 == b3
        }),
{
    let v = (b0 as u32) | ((b1 as u32) << 8u32) | ((b2 as u32) << 16u32) | ((b3 as u32)
        << 24u32);
    assert((v & 0xff) as u8 == b0 && ((v >> 8u32) & 0xff) as u8 == b1 && ((v >> 16u32) & 0xff)
        as u8 == b2 && ((v >> 24u32) & 0xff) as u8 == b3) by (bit_vector)
        requires
            v == (b0 as u32) | ((b1 as u32) << 8u32) | ((b2 as u32) << 16u32) | ((b3 as u32)
                << 24u32),
    ;
}

proof fn lemma_u64_bytes(b0: u8, b1: u8, b2: u8, b3: u8, b4: u8, b5: u8, b6: u8, b7: u8)
    ensures
        ({
            let v = (b0 as u64) | ((b1 as u64) << 8u64) | ((b2 as u64) << 16u64) | ((b3 as u64)
                << 24u64) | ((b4 as u64) << 32u64) | ((b5 as u64) << 40u64) | ((b6 as u64)
                << 48u64) | ((b7 as u64) << 56u64);
            &&& (v & 0xff) as u8 == b0
            &&& ((v >> 8u64) & 0xff) as u8 == b1
            &&& ((v >> 16u64) & 0xff) as u8 == b2
            &&& ((v >> 24u64) & 0xff) as u8 == b3
            &&& ((v >> 32u64) & 0xff) as u8 == b4
            &&& ((v >> 40u64) & 0xff) as u8 == b5
            &&& ((v >> 48u64) & 0xff) as u8 == b6
            &&& ((v >> 56u64) & 0xff) as u8 == b7
        }),
{
    let v = (b0 as u64) | ((b1 as u64) << 8u64) | ((b2 as u64) << 16u64) | ((b3 as u64)
        << 24u64) | ((b4 as u64) << 32u64) | ((b5 as u64) << 40u64) | ((b6 as u64) << 48u64)
        | ((b7 as u64) << 56u64);
    assert((v & 0xff) as u8 == b0 && ((v >> 8u64) & 0xff) as u8 == b1 && ((v >> 16u64) & 0xff)
        as u8 == b2 && ((v >> 24u64) & 0xff) as u8 == b3 && ((v >> 32u64) & 0xff) as u8 == b4
        && ((v >> 40u64) & 0xff) as u8 == b5 && ((v >> 48u64) & 0xff) as u8 == b6 && ((v
        >> 56u64) & 0xff) as u8 == b7) by (bit_vector)
        requires
            v == (b0 as u64) | ((b1 as u64) << 8u64) | ((b2 as u64) << 16u64) | ((b3 as u64)
                << 24u64) | ((b4 as u64) << 32u64) | ((b5 as u64) << 40u64) | ((b6 as u64)
                << 48u64) | ((b7 as u64) << 56u64),
    ;
}

/// Reverse round trip: every accepted 64-byte image decodes to a header whose own
/// image is the same bytes, except that the eight reserved bytes become zero.
pub proof fn lemma_header_image_of_decoded(b: Seq<u8>, h: FileHeader)
    requires
        b.len() == HEADER_SIZE,
        header_decodes_to(b, h),
    ensures
        header_image(h) == b.subrange(0, 56) + Seq::new(8, |i: int| 0u8),
{
    lemma_u32_bytes(b[4], b[5], b[6], b[7]);
    lemma_u32_bytes(b[8], b[9], b[10], b[11]);
    lemma_u32_bytes(b[12], b[13], b[14], b[15]);
    lemma_u64_bytes(b[16], b[17], b[18], b[19], b[20], b[21], b[22], b[23]);
    lemma_u64_bytes(b[24], b[25], b[26], b[27], b[28], b[29], b[30], b[31]);
    lemma_u64_bytes(b[32], b[33], b[34], b[35], b[36], b[37], b[38], b[39]);
    lemma_u64_bytes(b[40], b[41], b[42], b[43], b[44], b[45], b[46], b[47]);
    lemma_u64_bytes(b[48], b[49], b[50], b[51], b[52], b[53], b[54], b[55]);
    let x = b;
    assert(header_image(h) =~= x.subrange(0, 56) + Seq::new(8, |i: int| 0u8));
}

fn put_u32(buf: &mut [u8; 64], off: usize, x: u32)
    requires
        off + 4 <= 64,
    ensures
        final(buf)@ == old(buf)@.subrange(0, off as int) + u32_le(x) + old(buf)@.subrange(
            off + 4,
            64,
        ),
{
    buf[off] = (x & 0xff) as u8;
    buf[off + 1] = ((x >> 8u32) & 0xff) as u8;
    buf[off + 2] = ((x >> 16u32) & 0xff) as u8;
    buf[off + 3] = ((x >> 24u32) & 0xff) as u8;
    assert(buf@ =~= old(buf)@.subrange(0, off as int) + u32_le(x) + old(buf)@.subrange(
        off + 4,
        64,
    ));
}

fn put_u64(buf: &mut [u8; 64], off: usize, x: u64)
    requires
        off + 8 <= 64,
    ensures
        final(buf)@ == old(buf)@.subrange(0, off as int) + u64_le(x) + old(buf)@.subrange(
            off + 8,
            64,
        ),
{
    buf[off] = (x & 0xff) as u8;
    buf[off + 1] = ((x >> 8u64) & 0xff) as u8;
    buf[off + 2] = ((x >> 16u64) & 0xff) as u8;
    buf[off + 3] = ((x >> 24u64) & 0xff) as u8;
    buf[off + 4] = ((x >> 32u64) & 0xff) as u8;
    buf[off + 5] = ((x >> 40u64) & 0xff) as u8;
    buf[off + 6] = ((x >> 48u64) & 0xff) as u8;
    buf[off + 7] = ((x >> 56u64) & 0xff) as u8;
    assert(buf@ =~= old(buf)@.subrange(0, off as int) + u64_le(x) + old(buf)@.subrange(
        off + 8,
        64,
    ));
}

fn get_u32(buf: &[u8; 64], off: usize) -> (r: u32)
    requires
        off + 4 <= 64,
    ensures
        r == read_u32_le(buf@, off as int),
{
    (buf[off] as u32) | ((buf[off + 1] as u32) << 8u32) | ((buf[off + 2] as u32) << 16u32) | ((
    buf[off + 3] as u32) << 24u32)
}

fn get_u64(buf: &[u8; 64], off: usize) -> (r: u64)
    requires
        off + 8 <= 64,
    ensures
        r == read_u64_le(buf@, off as int),
{
    (buf[off] as u64) | ((buf[off + 1] as u64) << 8u64) | ((buf[off + 2] as u64) << 16u64) | ((
    buf[off + 3] as u64) << 24u64) | ((buf[off + 4] as u64) << 32u64) | ((buf[off + 5] as u64)
        << 40u64) | ((buf[off + 6] as u64) << 48u64) | ((buf[off + 7] as u64) << 56u64)
}

impl FileHeader {
    /// Create a new header with default offsets: the ADAT magic, the current
    /// format version, zero counts, the schema section right after the header,
    /// and the other offsets zero.
    pub fn new() -> (h: FileHeader)
        ensures
            h.magic@ == magic_bytes(),
            h.version == FORMAT_VERSION,
            h.schema_count == 0,
            h.source_count == 0,
            h.record_count == 0,
            h.schema_offset == HEADER_SIZE,
            h.source_offset == 0,
            h.record_offset == 0,
            h.content_offset == 0,
    {
        let h = FileHeader {
            magic: ADAT_MAGIC,
            version: FORMAT_VERSION,
            schema_count: 0,
            source_count: 0,
            record_count: 0,
            schema_offset: HEADER_SIZE as u64,
            source_offset: 0,
            record_offset: 0,
            content_offset: 0,
        };
        assert(h.magic@ =~= magic_bytes());
        h
    }

    /// Serialize the header to its 64 bytes (little-endian, reserved bytes zero).
    pub fn to_bytes(&self) -> (r: [u8; 64])
        ensures
            r@ == header_image(*self),
    {
        let mut buf = [0u8; 64];
        buf[0] = self.magic[0];
        buf[1] = self.magic[1];
        buf[2] = self.magic[2];
        buf[3] = self.magic[3];
        let ghost zeros = buf@;
        assert(buf@.subrange(0, 4) =~= self.magic@);
        put_u32(&mut buf, 4, self.version);
        put_u32(&mut buf, 8, self.schema_count);
        put_u32(&mut buf, 12, self.source_count);
        put_u64(&mut buf, 16, self.record_count);
        put_u64(&mut buf, 24, self.schema_offset);
        put_u64(&mut buf, 32, self.source_offset);
        put_u64(&mut buf, 40, self.record_offset);
        put_u64(&mut buf, 48, self.content_offset);
        assert(buf@ =~= header_image(*self));
        buf
    }

    /// Deserialize a header from its 64 bytes. Fails with `InvalidMagic` when the
    /// first four bytes are not "ADAT", and with `UnsupportedVersion(v)` when the
    /// stored version `v` is newer than `FORMAT_VERSION`.
    pub fn from_bytes(buf: &[u8; 64]) -> (r: AdatResult<FileHeader>)
        ensures
            buf@.subrange(0, 4) != magic_bytes() ==> r matches Err(AdatError::InvalidMagic),
            buf@.subrange(0, 4) == magic_bytes() && read_u32_le(buf@, 4) > FORMAT_VERSION
                ==> (r matches Err(AdatError::UnsupportedVersion(v)) && v == read_u32_le(buf@, 4)),
            r is Ok <==> header_accepts(buf@),
            r matches Ok(h) ==> header_decodes_to(buf@, h),
    {
        let magic: [u8; 4] = [buf[0], buf[1], buf[2], buf[3]];
        assert(magic@ =~= buf@.subrange(0, 4));
        if !(buf[0] == 0x41 && buf[1] == 0x44 && buf[2] == 0x41 && buf[3] == 0x54) {
            assert(buf@.subrange(0, 4) != magic_bytes()) by {
                if buf@.subrange(0, 4) == magic_bytes() {
                    assert(buf@.subrange(0, 4)[0] == buf@[0]);
                }
            }
            return Err(AdatError::InvalidMagic);
        }
        assert(buf@.subrange(0, 4) =~= magic_bytes());
        let version = get_u32(buf, 4);
        if version > FORMAT_VERSION {
            return Err(AdatError::UnsupportedVersion(version));
        }
        Ok(
            FileHeader {
                magic,
                version,
                schema_count: get_u32(buf, 8),
                source_count: get_u32(buf, 12),
                record_count: get_u64(buf, 16),
                schema_offset: get_u64(buf, 24),
                source_offset: get_u64(buf, 32),
                record_offset: get_u64(buf, 40),
                content_offset: get_u64(buf, 48),
            },
        )
    }
}

impl Default for FileHeader {
    fn default() -> (h: FileHeader)
        ensures
            h.magic@ == magic_bytes(),
            h.version == FORMAT_VERSION,
            h.schema_count == 0,
            h.source_count == 0,
            h.record_count == 0,
            h.schema_offset == HEADER_SIZE,
            h.source_offset == 0,
            h.record_offset == 0,
            h.content_offset == 0,
    {
        FileHeader::new()
    }
}

} // verus!
