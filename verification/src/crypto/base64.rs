//! Base64 (standard alphabet, `=` padding) as the field encryptor writes and reads it.
use vstd::prelude::*;
use vstd::utf8::{encode_utf8, is_ascii_chars, is_ascii_chars_encode_utf8};

verus! {

/// The base64 alphabet: `A-Z`, `a-z`, `0-9`, `+`, `/`.
pub open spec fn b64_char(i: u32) -> char {
    if i < 26 {
        (65 + i) as char
    } else if i < 52 {
        (97 + (i - 26)) as char
    } else if i < 62 {
        (48 + (i - 52)) as char
    } else if i == 62 {
        '+'
    } else {
        '/'
    }
}

/// The decoding table: the index of an alphabet byte, 255 for any other byte below 128.
pub open spec fn b64_index(b: u8) -> u8 {
    if 65 <= b <= 90 {
        (b - 65) as u8
    } else if 97 <= b <= 122 {
        (b - 97 + 26) as u8
    } else if 48 <= b <= 57 {
        (b - 48 + 52) as u8
    } else if b == 43 {
        62
    } else if b == 47 {
        63
    } else {
        255
    }
}

/// The four chars that encode a group of one to three bytes.
pub open spec fn enc_group(c: Seq<u8>) -> Seq<char> {
    let b0 = c[0] as u32;
    let b1 = if c.len() > 1 {
        c[1] as u32
    } else {
        0
    };
    let b2 = if c.len() > 2 {
        c[2] as u32
    } else {
        0
    };
    let t = (b0 << 16u32) | (b1 << 8u32) | b2;
    seq![
        b64_char((t >> 18u32) & 0x3f),
        b64_char((t >> 12u32) & 0x3f),
        if c.len() > 1 {
            b64_char((t >> 6u32) & 0x3f)
        } else {
            '='
        },
        if c.len() > 2 {
            b64_char(t & 0x3f)
        } else {
            '='
        },
    ]
}

/// Base64 text of bytes: groups of three bytes become four chars, and a last short
/// group is padded with `=`.
pub open spec fn b64_encode(d: Seq<u8>) -> Seq<char>
    decreases d.len(),
{
    if d.len() == 0 {
        Seq::empty()
    } else if d.len() <= 3 {
        enc_group(d)
    } else {
        enc_group(d.subrange(0, 3)) + b64_encode(d.subrange(3, d.len() as int))
    }
}

/// The bytes without `=`.
pub open spec fn strip_pad(s: Seq<u8>) -> Seq<u8>
    decreases s.len(),
{
    if s.len() == 0 {
        Seq::empty()
    } else {
        strip_pad(s.drop_last()) + if s.last() == 61 {
            Seq::<u8>::empty()
        } else {
            seq![s.last()]
        }
    }
}

/// Decoding of a group of two to four bytes: `None` when a byte is not ASCII.
pub open spec fn dec_group(c: Seq<u8>) -> Option<Seq<u8>> {
    if exists|k: int| 0 <= k < c.len() && c[k] >= 128 {
        None
    } else {
        let a = b64_index(c[0]) as u32;
        let b = b64_index(c[1]) as u32;
        let o0 = ((a << 2u32) | (b >> 4u32)) as u8;
        if c.len() == 2 {
            Some(seq![o0])
        } else {
            let x = b64_index(c[2]) as u32;
            let o1 = ((b << 4u32) | (x >> 2u32)) as u8;
            if c.len() == 3 {
                Some(seq![o0, o1])
            } else {
                let y = b64_index(c[3]) as u32;
                let o2 = ((x << 6u32) | y) as u8;
                Some(seq![o0, o1, o2])
            }
        }
    }
}

/// Decoding of unpadded base64 bytes, four at a time; a last group of one byte is
/// ignored, and a byte that is not ASCII fails the decoding.
pub open spec fn b64_decode_bytes(f: Seq<u8>) -> Option<Seq<u8>>
    decreases f.len(),
{
    if f.len() < 2 {
        Some(Seq::empty())
    } else if f.len() <= 4 {
        dec_group(f)
    } else {
        match dec_group(f.subrange(0, 4)) {
            None => None,
            Some(x) => match b64_decode_bytes(f.subrange(4, f.len() as int)) {
                None => None,
                Some(y) => Some(x + y),
            },
        }
    }
}

/// What `base64_decode` returns for a text: the decoding of its UTF-8 bytes once
/// every `=` is removed.
pub open spec fn b64_decode(text: Seq<char>) -> Option<Seq<u8>> {
    b64_decode_bytes(strip_pad(encode_utf8(text)))
}

fn b64_char_exec(i: u32) -> (c: char)
    requires
        i < 64,
    ensures
        c == b64_char(i),
{
    let alphabet: [char; 64] = [
        'A', 'B', 'C', 'D', 'E', 'F', 'G', 'H', 'I', 'J', 'K', 'L', 'M', 'N', 'O', 'P', 'Q',
        'R', 'S', 'T', 'U', 'V', 'W', 'X', 'Y', 'Z', 'a', 'b', 'c', 'd', 'e', 'f', 'g', 'h',
        'i', 'j', 'k', 'l', 'm', 'n', 'o', 'p', 'q', 'r', 's', 't', 'u', 'v', 'w', 'x', 'y',
        'z', '0', '1', '2', '3', '4', '5', '6', '7', '8', '9', '+', '/',
    ];
    let c = alphabet[i as usize];
    assert(c == b64_char(i)) by {
        assert(alphabet@[i as int] == b64_char(i));
    }
    c
}

fn b64_index_exec(b: u8) -> (r: u8)
    ensures
        r == b64_index(b),
{
    if 65 <= b && b <= 90 {
        b - 65
    } else if 97 <= b && b <= 122 {
        b - 97 + 26
    } else if 48 <= b && b <= 57 {
        b - 48 + 52
    } else if b == 43 {
        62
    } else if b == 47 {
        63
    } else {
        255
    }
}

fn enc_group_exec(out: &mut Vec<char>, data: &[u8], i: usize, n: usize)
    requires
        1 <= n <= 3,
        i + n <= data@.len(),
    ensures
        final(out)@ == old(out)@ + enc_group(data@.subrange(i as int, i + n)),
{
    let ghost c = data@.subrange(i as int, i + n);
    let b0 = data[i] as u32;
    let b1: u32 = if n > 1 {
        data[i + 1] as u32
    } else {
        0
    };
    let b2: u32 = if n > 2 {
        data[i + 2] as u32
    } else {
        0
    };
    let t = (b0 << 16u32) | (b1 << 8u32) | b2;
    assert((t >> 18u32) & 0x3f < 64 && (t >> 12u32) & 0x3f < 64 && (t >> 6u32) & 0x3f < 64 && t
        & 0x3f < 64) by (bit_vector);
    let ghost before = out@;
    out.push(b64_char_exec((t >> 18u32) & 0x3f));
    out.push(b64_char_exec((t >> 12u32) & 0x3f));
    if n > 1 {
        out.push(b64_char_exec((t >> 6u32) & 0x3f));
    } else {
        out.push('=');
    }
    if n > 2 {
        out.push(b64_char_exec(t & 0x3f));
    } else {
        out.push('=');
    }
    assert(out@ =~= before + enc_group(c));
}

/// Base64-encode bytes (standard alphabet with `=` padding).
pub fn base64_encode(data: &[u8]) -> (r: String)
    ensures
        r@ == b64_encode(data@),
{
    let mut out: Vec<char> = Vec::new();
    let mut i: usize = 0;
    assert(data@.subrange(0, data@.len() as int) =~= data@);
    while i < data.len()
        invariant
            i <= data@.len(),
            out@ + b64_encode(data@.subrange(i as int, data@.len() as int)) == b64_encode(data@),
        decreases data.len() - i,
    {
        let ghost rest = data@.subrange(i as int, data@.len() as int);
        if data.len() - i <= 3 {
            let n = data.len() - i;
            enc_group_exec(&mut out, data, i, n);
            assert(data@.subrange(i as int, data@.len() as int) =~= data@.subrange(
                i as int,
                i + n,
            ));
            i = data.len();
            assert(data@.subrange(i as int, data@.len() as int) =~= Seq::<u8>::empty());
        } else {
            enc_group_exec(&mut out, data, i, 3);
            assert(rest.subrange(0, 3) =~= data@.subrange(i as int, i + 3));
            assert(rest.subrange(3, rest.len() as int) =~= data@.subrange(
                i + 3,
                data@.len() as int,
            ));
            i = i + 3;
        }
    }
    assert(data@.subrange(i as int, data@.len() as int) =~= Seq::<u8>::empty());
    assert(out@ =~= b64_encode(data@));
    crate::text::string_of(&out)
}

/// Base64-decode a text: `=` chars are skipped, the rest is decoded four bytes at a
/// time; fails with "invalid" when a non-ASCII byte must be decoded.
pub fn base64_decode(data: &str) -> (r: Result<Vec<u8>, String>)
    ensures
        match r {
            Ok(v) => b64_decode(data@) == Some(v@),
            Err(m) => b64_decode(data@) is None && m@ == "invalid"@,
        },
{
    let bytes = data.as_bytes();
    // Drop the padding.
    let mut f: Vec<u8> = Vec::new();
    let mut i: usize = 0;
    while i < bytes.len()
        invariant
            i <= bytes@.len(),
            f@ == strip_pad(bytes@.subrange(0, i as int)),
        decreases bytes.len() - i,
    {
        assert(bytes@.subrange(0, i + 1).drop_last() =~= bytes@.subrange(0, i as int));
        if bytes[i] != 61 {
            f.push(bytes[i]);
        }
        i = i + 1;
        assert(f@ =~= strip_pad(bytes@.subrange(0, i as int)));
    }
    assert(bytes@.subrange(0, bytes@.len() as int) =~= bytes@);
    // Decode four bytes at a time.
    let mut out: Vec<u8> = Vec::new();
    let mut j: usize = 0;
    assert(f@.subrange(0, f@.len() as int) =~= f@);
    while j < f.len() && f.len() - j >= 2
        invariant
            j <= f@.len(),
            f@ == strip_pad(encode_utf8(data@)),
            b64_decode_bytes(f@) == match b64_decode_bytes(f@.subrange(j as int, f@.len() as int)) {
                None => None,
                Some(y) => Some(out@ + y),
            },
        decreases f.len() - j,
    {
        let ghost rest = f@.subrange(j as int, f@.len() as int);
        let n: usize = if f.len() - j >= 4 {
            4
        } else {
            f.len() - j
        };
        let ghost g = f@.subrange(j as int, j + n);
        let mut k: usize = 0;
        let mut bad = false;
        while k < n
            invariant
                k <= n <= 4,
                j + n <= f@.len(),
                f@.len() <= usize::MAX,
                g == f@.subrange(j as int, j + n),
                bad <==> exists|m: int| 0 <= m < k && g[m] >= 128,
            decreases n - k,
        {
            if f[j + k] >= 128 {
                assert(g[k as int] >= 128);
                bad = true;
            }
            k = k + 1;
        }
        if bad {
            assert(dec_group(g) is None);
            if f.len() - j > 4 {
                assert(rest.subrange(0, 4) =~= g);
            } else {
                assert(rest =~= g);
            }
            assert(b64_decode_bytes(rest) is None);
            assert(b64_decode_bytes(f@) is None);
            return Err("invalid".to_owned());
        }
        let a = b64_index_exec(f[j]) as u32;
        let b = b64_index_exec(f[j + 1]) as u32;
        let ghost before = out@;
        out.push((#[verifier::truncate] (((a << 2u32) | (b >> 4u32)) as u8)));
        if n > 2 {
            let x = b64_index_exec(f[j + 2]) as u32;
            out.push((#[verifier::truncate] (((b << 4u32) | (x >> 2u32)) as u8)));
            if n > 3 {
                let y = b64_index_exec(f[j + 3]) as u32;
                out.push((#[verifier::truncate] (((x << 6u32) | y) as u8)));
            }
        }
        assert(dec_group(g) == Some(out@.subrange(before.len() as int, out@.len() as int)));
        assert(out@ =~= before + out@.subrange(before.len() as int, out@.len() as int));
        if f.len() - j > 4 {
            assert(rest.subrange(0, 4) =~= g);
            assert(rest.subrange(4, rest.len() as int) =~= f@.subrange(j + 4, f@.len() as int));
            assert forall|y: Seq<u8>| true implies before + out@.subrange(
                before.len() as int,
                out@.len() as int,
            ) + y =~= before + (out@.subrange(before.len() as int, out@.len() as int) + y) by {}
        } else {
            assert(rest =~= g);
            assert(f@.subrange(j + n, f@.len() as int) =~= Seq::<u8>::empty());
        }
        j = j + n;
    }
    assert(f@.subrange(j as int, f@.len() as int).len() < 2);
    assert(out@ + Seq::<u8>::empty() =~= out@);
    Ok(out)
}

// ---------------------------------------------------------------------------
// Round trip
// ---------------------------------------------------------------------------
/// Bytes of ASCII chars.
pub open spec fn ascii_bytes(cs: Seq<char>) -> Seq<u8> {
    cs.map_values(|c: char| c as u8)
}

proof fn lemma_strip_pad_add(a: Seq<u8>, b: Seq<u8>)
    ensures
        strip_pad(a + b) == strip_pad(a) + strip_pad(b),
    decreases b.len(),
{
    if b.len() == 0 {
        assert(a + b =~= a);
        assert(strip_pad(a) + strip_pad(b) =~= strip_pad(a));
    } else {
        lemma_strip_pad_add(a, b.drop_last());
        assert((a + b).drop_last() =~= a + b.drop_last());
        assert(strip_pad(a + b) =~= strip_pad(a) + strip_pad(b));
    }
}

proof fn lemma_strip_pad_single(b: u8)
    ensures
        strip_pad(seq![b]) == (if b == 61 {
            Seq::<u8>::empty()
        } else {
            seq![b]
        }),
{
    let s = seq![b];
    assert(s.drop_last() =~= Seq::<u8>::empty());
    assert(strip_pad(Seq::<u8>::empty()) == Seq::<u8>::empty());
    assert(s.last() == b);
    assert(strip_pad(s) =~= (if b == 61 {
        Seq::<u8>::empty()
    } else {
        seq![b]
    }));
}

proof fn lemma_index_of_char(i: u32)
    requires
        i < 64,
    ensures
        (b64_char(i) as u8) < 128,
        (b64_char(i) as u8) != 61,
        b64_index(b64_char(i) as u8) == i,
        b64_char(i) != '=',
        '\0' <= b64_char(i) <= '\u{7f}',
{
}

proof fn lemma_strip_pad_plain(s: Seq<u8>)
    requires
        forall|k: int| 0 <= k < s.len() ==> s[k] != 61,
    ensures
        strip_pad(s) == s,
    decreases s.len(),
{
    if s.len() > 0 {
        lemma_strip_pad_plain(s.drop_last());
        assert(strip_pad(s) =~= s);
    }
}

proof fn lemma_group_roundtrip(c: Seq<u8>)
    requires
        1 <= c.len() <= 3,
    ensures
        ({
            let p = strip_pad(ascii_bytes(enc_group(c)));
            &&& p.len() == c.len() + 1
            &&& dec_group(p) == Some(c)
            &&& forall|k: int| 0 <= k < p.len() ==> p[k] < 128
        }),
        is_ascii_chars(enc_group(c)),
{
    let b0 = c[0] as u32;
    let b1 = if c.len() > 1 {
        c[1] as u32
    } else {
        0
    };
    let b2 = if c.len() > 2 {
        c[2] as u32
    } else {
        0
    };
    let t = (b0 << 16u32) | (b1 << 8u32) | b2;
    let i0 = (t >> 18u32) & 0x3f;
    let i1 = (t >> 12u32) & 0x3f;
    let i2 = (t >> 6u32) & 0x3f;
    let i3 = t & 0x3f;
    assert(i0 < 64 && i1 < 64 && i2 < 64 && i3 < 64) by (bit_vector)
        requires
            i0 == (t >> 18u32) & 0x3f,
            i1 == (t >> 12u32) & 0x3f,
            i2 == (t >> 6u32) & 0x3f,
            i3 == t & 0x3f,
    ;
    lemma_index_of_char(i0);
    lemma_index_of_char(i1);
    lemma_index_of_char(i2);
    lemma_index_of_char(i3);
    let x0 = c[0];
    let x1: u8 = if c.len() > 1 {
        c[1]
    } else {
        0
    };
    let x2: u8 = if c.len() > 2 {
        c[2]
    } else {
        0
    };
    assert(((i0 << 2u32) | (i1 >> 4u32)) as u8 == x0 && ((i1 << 4u32) | (i2 >> 2u32)) as u8 == x1
        && ((i2 << 6u32) | i3) as u8 == x2) by (bit_vector)
        requires
            t == ((x0 as u32) << 16u32) | ((x1 as u32) << 8u32) | (x2 as u32),
            i0 == (t >> 18u32) & 0x3f,
            i1 == (t >> 12u32) & 0x3f,
            i2 == (t >> 6u32) & 0x3f,
            i3 == t & 0x3f,
    ;
    let e = enc_group(c);
    let ab = ascii_bytes(e);
    if c.len() == 3 {
        lemma_strip_pad_plain(ab);
        assert(dec_group(ab).unwrap() =~= c);
    } else if c.len() == 2 {
        assert(ab =~= seq![b64_char(i0) as u8, b64_char(i1) as u8, b64_char(i2) as u8] + seq![61u8]);
        lemma_strip_pad_add(seq![b64_char(i0) as u8, b64_char(i1) as u8, b64_char(i2) as u8], seq![61u8]);
        lemma_strip_pad_plain(seq![b64_char(i0) as u8, b64_char(i1) as u8, b64_char(i2) as u8]);
        lemma_strip_pad_single(61u8);
        let p = strip_pad(ab);
        assert(p =~= seq![b64_char(i0) as u8, b64_char(i1) as u8, b64_char(i2) as u8]);
        assert(dec_group(p).unwrap() =~= c);
    } else {
        assert(ab =~= seq![b64_char(i0) as u8, b64_char(i1) as u8] + seq![61u8, 61u8]);
        lemma_strip_pad_add(seq![b64_char(i0) as u8, b64_char(i1) as u8], seq![61u8, 61u8]);
        lemma_strip_pad_plain(seq![b64_char(i0) as u8, b64_char(i1) as u8]);
        lemma_strip_pad_single(61u8);
        lemma_strip_pad_add(seq![61u8], seq![61u8]);
        assert(seq![61u8] + seq![61u8] =~= seq![61u8, 61u8]);
        let p = strip_pad(ab);
        assert(p =~= seq![b64_char(i0) as u8, b64_char(i1) as u8]);
        assert(dec_group(p).unwrap() =~= c);
    }
}

proof fn lemma_encode_ascii(d: Seq<u8>)
    ensures
        is_ascii_chars(b64_encode(d)),
    decreases d.len(),
{
    if d.len() == 0 {
    } else if d.len() <= 3 {
        lemma_group_roundtrip(d);
    } else {
        lemma_group_roundtrip(d.subrange(0, 3));
        lemma_encode_ascii(d.subrange(3, d.len() as int));
        let a = enc_group(d.subrange(0, 3));
        let b = b64_encode(d.subrange(3, d.len() as int));
        assert forall|i: int| 0 <= i < (a + b).len() implies '\0' <= #[trigger] (a + b)[i]
            <= '\u{7f}' by {
            if i < a.len() {
                assert((a + b)[i] == a[i]);
            } else {
                assert((a + b)[i] == b[i - a.len()]);
            }
        }
    }
}

proof fn lemma_decode_encode_bytes(d: Seq<u8>)
    ensures
        b64_decode_bytes(strip_pad(ascii_bytes(b64_encode(d)))) == Some(d),
    decreases d.len(),
{
    if d.len() == 0 {
        assert(ascii_bytes(b64_encode(d)) =~= Seq::<u8>::empty());
    } else if d.len() <= 3 {
        lemma_group_roundtrip(d);
    } else {
        let g = d.subrange(0, 3);
        let r = d.subrange(3, d.len() as int);
        lemma_group_roundtrip(g);
        lemma_decode_encode_bytes(r);
        let pg = strip_pad(ascii_bytes(enc_group(g)));
        let pr = strip_pad(ascii_bytes(b64_encode(r)));
        assert(ascii_bytes(enc_group(g) + b64_encode(r)) =~= ascii_bytes(enc_group(g))
            + ascii_bytes(b64_encode(r)));
        lemma_strip_pad_add(ascii_bytes(enc_group(g)), ascii_bytes(b64_encode(r)));
        let f = pg + pr;
        assert(f.subrange(0, 4) =~= pg);
        assert(f.subrange(4, f.len() as int) =~= pr);
        if pr.len() >= 2 {
            assert(f.len() > 4);
            assert(g + r =~= d);
        } else {
            // The rest encodes to at least one full group of chars.
            lemma_group_roundtrip(if r.len() <= 3 {
                r
            } else {
                r.subrange(0, 3)
            });
            assert(false) by {
                lemma_pad_len(r);
            }
        }
    }
}

proof fn lemma_pad_len(r: Seq<u8>)
    requires
        r.len() > 0,
    ensures
        strip_pad(ascii_bytes(b64_encode(r))).len() >= 2,
    decreases r.len(),
{
    if r.len() <= 3 {
        lemma_group_roundtrip(r);
    } else {
        let g = r.subrange(0, 3);
        let q = r.subrange(3, r.len() as int);
        lemma_group_roundtrip(g);
        assert(ascii_bytes(enc_group(g) + b64_encode(q)) =~= ascii_bytes(enc_group(g))
            + ascii_bytes(b64_encode(q)));
        lemma_strip_pad_add(ascii_bytes(enc_group(g)), ascii_bytes(b64_encode(q)));
    }
}

/// Base64 round trip: decoding the text that `base64_encode` writes gives back the
/// original bytes.
pub proof fn lemma_base64_roundtrip(d: Seq<u8>)
    ensures
        b64_decode(b64_encode(d)) == Some(d),
        is_ascii_chars(b64_encode(d)),
{
    lemma_encode_ascii(d);
    let e = b64_encode(d);
    is_ascii_chars_encode_utf8(e);
    assert(encode_utf8(e) =~= ascii_bytes(e));
    lemma_decode_encode_bytes(d);
}

} // verus!
