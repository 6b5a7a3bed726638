//! BLAKE3 hashing (through the `blake3` crate) and lower-case hex encoding.
use vstd::prelude::*;

verus! {

/// The 32-byte BLAKE3 digest of `data` (what `blake3::hash` returns).
pub uninterp spec fn spec_blake3(data: Seq<u8>) -> Seq<u8>;

/// The 32-byte keyed BLAKE3 digest of `data` under `key` (what `blake3::keyed_hash`
/// returns).
pub uninterp spec fn spec_blake3_keyed(key: Seq<u8>, data: Seq<u8>) -> Seq<u8>;

/// `blake3::hash(data)`: the digest as 32 bytes. The digest is named, not stated.
#[verifier::external_body]
pub fn blake3_hash(data: &[u8]) -> (r: [u8; 32])
    ensures
        r@ == spec_blake3(data@),
{
    *blake3::hash(data).as_bytes()
}

/// `blake3::keyed_hash(key, data)`: the keyed digest as 32 bytes. The digest is
/// named, not stated.
#[verifier::external_body]
pub fn blake3_keyed_hash(key: &[u8; 32], data: &[u8]) -> (r: [u8; 32])
    ensures
        r@ == spec_blake3_keyed(key@, data@),
{
    *blake3::keyed_hash(key, data).as_bytes()
}

/// Lower-case hex digit of `d < 16`.
pub open spec fn hex_digit(d: u8) -> char {
    if d < 10 {
        (('0' as u8) + d) as char
    } else {
        (('a' as u8) + (d - 10)) as char
    }
}

/// Lower-case hex text of bytes, two digits per byte (what blake3's `to_hex` writes).
pub open spec fn hex(b: Seq<u8>) -> Seq<char>
    decreases b.len(),
{
    if b.len() == 0 {
        Seq::empty()
    } else {
        hex(b.drop_last()) + seq![hex_digit(b.last() >> 4u8), hex_digit(b.last() & 0xfu8)]
    }
}

proof fn lemma_hex_len(b: Seq<u8>)
    ensures
        hex(b).len() == 2 * b.len(),
    decreases b.len(),
{
    if b.len() > 0 {
        lemma_hex_len(b.drop_last());
    }
}

/// The lower-case hex digit of `d < 16`.
pub fn hex_digit_exec(d: u8) -> (c: char)
    requires
        d < 16,
    ensures
        c == hex_digit(d),
{
    match d {
        0 => '0',
        1 => '1',
        2 => '2',
        3 => '3',
        4 => '4',
        5 => '5',
        6 => '6',
        7 => '7',
        8 => '8',
        9 => '9',
        10 => 'a',
        11 => 'b',
        12 => 'c',
        13 => 'd',
        14 => 'e',
        _ => 'f',
    }
}

/// Lower-case hex text of bytes.
pub fn hex_exec(b: &[u8]) -> (r: Vec<char>)
    ensures
        r@ == hex(b@),
        r@.len() == 2 * b@.len(),
{
    let mut r: Vec<char> = Vec::new();
    let mut i: usize = 0;
    while i < b.len()
        invariant
            i <= b@.len(),
            r@ == hex(b@.subrange(0, i as int)),
        decreases b.len() - i,
    {
        let x = b[i];
        assert(x >> 4u8 < 16) by (bit_vector);
        assert(x & 0xfu8 < 16) by (bit_vector);
        r.push(hex_digit_exec(x >> 4u8));
        r.push(hex_digit_exec(x & 0xfu8));
        assert(b@.subrange(0, i + 1).drop_last() =~= b@.subrange(0, i as int));
        i = i + 1;
    }
    assert(b@.subrange(0, b@.len() as int) =~= b@);
    proof {
        lemma_hex_len(b@);
    }
    r
}

/// The first 16 hex digits of the BLAKE3 digest of `data`.
pub open spec fn short_digest(data: Seq<u8>) -> Seq<char> {
    hex(spec_blake3(data)).subrange(0, 16)
}

/// The first 16 hex digits of the BLAKE3 digest of `data`
/// (`blake3::hash(data).to_hex()[..16]`).
pub fn short_digest_exec(data: &[u8]) -> (r: Vec<char>)
    ensures
        r@ == short_digest(data@),
        r@.len() == 16,
{
    let h = blake3_hash(data);
    let x = hex_exec(&h);
    crate::text::slice_vec(&x, 0, 16)
}

} // verus!
