//! .adat file format: the binary layout of AgenticData files, and LZ4 sections.
pub mod reader;
pub mod writer;

pub use reader::AdatReader;
pub use writer::AdatWriter;

use vstd::prelude::*;

verus! {

/// The bytes that `lz4_flex::compress_prepend_size` writes for the input.
pub uninterp spec fn spec_lz4_compress(data: Seq<u8>) -> Seq<u8>;

/// What `lz4_flex::decompress_size_prepended` reads from the input: the bytes, or
/// the message of its error.
pub uninterp spec fn spec_lz4_decompress(data: Seq<u8>) -> Result<Seq<u8>, Seq<char>>;

/// `decompress_size_prepended` reads `data` back from `compressed`.
pub open spec fn roundtrips(compressed: Seq<u8>, data: Seq<u8>) -> bool {
    spec_lz4_decompress(compressed) == Ok::<Seq<u8>, Seq<char>>(data)
}

/// `lz4_flex::compress_prepend_size`: the LZ4 block of the input, after its length
/// as a little-endian `u32`. The bytes are named, not stated; the source shows that
/// they begin with those 4 bytes and are at most 24 bytes more than 110% of the input, and the documentation that
/// `decompress_size_prepended` reads back the input (whose length the `u32` holds).
#[verifier::external_body]
pub(crate) fn lz4_compress(data: &[u8]) -> (r: Vec<u8>)
    requires
        data@.len() <= usize::MAX / 110,
    ensures
        r@ == spec_lz4_compress(data@),
        r@.len() >= 4,
        r@.len() <= 24 + data@.len() * 110 / 100,
        data@.len() <= u32::MAX ==> roundtrips(r@, data@),
{
    lz4_flex::compress_prepend_size(data)
}

/// The length of a run of 0xFF bytes at which a length field of an LZ4 block can no
/// longer be read: each 0xFF adds 255 to a `u32`, and 16,843,009 of them reach
/// `u32::MAX`.
pub const FF_RUN_LIMIT: usize = 16_843_009;

/// `d` holds `FF_RUN_LIMIT` bytes 0xFF in a row from `i` on.
pub open spec fn ff_run_at(d: Seq<u8>, i: int) -> bool {
    &&& 0 <= i
    &&& i + FF_RUN_LIMIT <= d.len()
    &&& forall|k: int| i <= k < i + FF_RUN_LIMIT ==> d[k] == 0xFFu8
}

/// `d` holds a run of at least `FF_RUN_LIMIT` bytes 0xFF.
pub open spec fn has_ff_run(d: Seq<u8>) -> bool {
    exists|i: int| ff_run_at(d, i)
}

/// Whether `d` holds a run of at least `FF_RUN_LIMIT` bytes 0xFF.
pub fn has_ff_run_exec(d: &[u8]) -> (r: bool)
    ensures
        r == has_ff_run(d@),
{
    let mut run: usize = 0;
    let mut i: usize = 0;
    while i < d.len()
        invariant
            i <= d@.len(),
            run <= i,
            run < FF_RUN_LIMIT,
            forall|k: int| i - run <= k < i ==> d@[k] == 0xFFu8,
            run < i ==> d@[i - run - 1] != 0xFFu8,
            forall|j: int| 0 <= j && j + FF_RUN_LIMIT <= i ==> !#[trigger] ff_run_at(d@, j),
        decreases d.len() - i,
    {
        if d[i] == 0xFFu8 {
            run = run + 1;
            if run == FF_RUN_LIMIT {
                assert(ff_run_at(d@, i + 1 - FF_RUN_LIMIT));
                return true;
            }
        } else {
            run = 0;
        }
        proof {
            let n = i + 1;
            assert forall|j: int| 0 <= j && j + FF_RUN_LIMIT <= n implies !#[trigger] ff_run_at(d@, j) by {
                if j + FF_RUN_LIMIT == n && ff_run_at(d@, j) {
                    if d@[i as int] != 0xFFu8 {
                        assert(d@[i as int] == 0xFFu8);
                    } else {
                        assert(d@[n - run - 1] != 0xFFu8);
                        assert(d@[n - run - 1] == 0xFFu8);
                    }
                }
            }
        }
        i = i + 1;
    }
    false
}

/// `lz4_flex::decompress_size_prepended`, with the error as its message. The
/// outcome is named, not stated. The input holds no run of `FF_RUN_LIMIT` bytes 0xFF:
/// reading a length field over such a run overflows the `u32` that sums it, which
/// panics where overflow is checked. The target is 64-bit: on a 32-bit one, the
/// output buffer of a size prefix above `isize::MAX`, and the sum of a long length
/// and the output position, do not fit in a `usize`.
#[verifier::external_body]
pub(crate) fn lz4_decompress(data: &[u8]) -> (r: Result<Vec<u8>, String>)
    requires
        !has_ff_run(data@),
        usize::BITS == 64,
    ensures
        match r {
            Ok(v) => spec_lz4_decompress(data@) == Ok::<Seq<u8>, Seq<char>>(v@),
            Err(m) => spec_lz4_decompress(data@) == Err::<Seq<u8>, Seq<char>>(m@),
        },
{
    lz4_flex::decompress_size_prepended(data).map_err(|e| e.to_string())
}

} // verus!
