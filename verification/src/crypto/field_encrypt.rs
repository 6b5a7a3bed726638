//! Field-level encryption: encrypt chosen fields of a record and leave the others
//! queryable.
//!
//! A field's key is the keyed BLAKE3 digest of its name under the master key; the
//! value's UTF-8 bytes are XOR-ed with that key (repeated every 32 bytes), written in
//! base64 and marked with the prefix `ENC:`.
use vstd::prelude::*;
use vstd::utf8::{encode_utf8, decode_utf8, valid_utf8, encode_utf8_valid_utf8, encode_utf8_decode_utf8};
use crate::hash::{spec_blake3, spec_blake3_keyed, blake3_hash, blake3_keyed_hash};
use crate::text::{starts_with, starts_with_exec, chars_of, string_of, slice_vec};
use crate::types::error::{AdatError, AdatResult};
use crate::types::json::{JsonValue, JsonView};
use crate::types::record::{DataRecord, lookup, insert_entry, keys_unique, lemma_lookup_after_write};
use super::base64::{b64_encode, b64_decode, base64_encode, base64_decode, lemma_base64_roundtrip};

verus! {

/// The marker that starts every encrypted value: `ENC:`.
pub open spec fn enc_marker() -> Seq<char> {
    seq!['E', 'N', 'C', ':']
}

/// The bytes XOR-ed with the key, the key repeated every 32 bytes.
pub open spec fn xor_stream(data: Seq<u8>, key: Seq<u8>) -> Seq<u8> {
    Seq::new(data.len(), |i: int| data[i] ^ key[i % 32])
}

/// The key of a field: the keyed BLAKE3 digest of its name's UTF-8 bytes.
pub open spec fn field_key(master: Seq<u8>, field: Seq<char>) -> Seq<u8> {
    spec_blake3_keyed(master, encode_utf8(field))
}

/// The text that encrypting `value` in field `field` gives.
pub open spec fn encrypted_text(master: Seq<u8>, field: Seq<char>, value: Seq<char>) -> Seq<char> {
    enc_marker() + b64_encode(xor_stream(encode_utf8(value), field_key(master, field)))
}

/// The message of `String::from_utf8`'s error for bytes that are not UTF-8.
pub uninterp spec fn spec_utf8_error_text(bytes: Seq<u8>) -> Seq<char>;

/// What decrypting `text` in field `field` gives: the plain text, or the message of
/// the encryption error.
pub open spec fn decrypt_view(master: Seq<u8>, field: Seq<char>, text: Seq<char>) -> Result<
    Seq<char>,
    Seq<char>,
> {
    if !starts_with(text, enc_marker()) {
        Err("Not an encrypted value"@)
    } else {
        match b64_decode(text.subrange(4, text.len() as int)) {
            None => Err("Invalid base64: "@ + "invalid"@),
            Some(bytes) => {
                let plain = xor_stream(bytes, field_key(master, field));
                if valid_utf8(plain) {
                    Ok(decode_utf8(plain))
                } else {
                    Err("Invalid UTF-8: "@ + spec_utf8_error_text(plain))
                }
            },
        }
    }
}

/// `String::from_utf8`: the string when the bytes are UTF-8, else the message of
/// the error. The message is named, not stated.
#[verifier::external_body]
fn string_from_utf8(bytes: Vec<u8>) -> (r: Result<String, String>)
    ensures
        match r {
            Ok(s) => valid_utf8(bytes@) && s@ == decode_utf8(bytes@),
            Err(m) => !valid_utf8(bytes@) && m@ == spec_utf8_error_text(bytes@),
        },
{
    String::from_utf8(bytes).map_err(|e| e.to_string())
}

fn xor_with_key(data: &[u8], key: &[u8; 32]) -> (r: Vec<u8>)
    ensures
        r@ == xor_stream(data@, key@),
{
    let mut out: Vec<u8> = Vec::new();
    let mut i: usize = 0;
    while i < data.len()
        invariant
            i <= data@.len(),
            out@.len() == i,
            forall|k: int| 0 <= k < i ==> out@[k] == data@[k] ^ key@[k % 32],
        decreases data.len() - i,
    {
        out.push(data[i] ^ key[i % 32]);
        i = i + 1;
    }
    assert(out@ =~= xor_stream(data@, key@));
    out
}

/// Field-level encryptor.
pub struct FieldEncryptor {
    /// Master key (32 bytes).
    master_key: [u8; 32],
}

impl FieldEncryptor {
    /// The master key.
    pub closed spec fn key(&self) -> Seq<u8> {
        self.master_key@
    }

    /// Create with a master key derived from a passphrase: the BLAKE3 digest of its
    /// UTF-8 bytes.
    pub fn new(passphrase: &str) -> (r: FieldEncryptor)
        ensures
            r.key() == spec_blake3(encode_utf8(passphrase@)),
    {
        FieldEncryptor { master_key: blake3_hash(passphrase.as_bytes()) }
    }

    /// Create from raw key bytes.
    pub fn from_key(key: [u8; 32]) -> (r: FieldEncryptor)
        ensures
            r.key() == key@,
    {
        FieldEncryptor { master_key: key }
    }

    fn key_of_field(&self, field_name: &str) -> (r: [u8; 32])
        ensures
            r@ == field_key(self.key(), field_name@),
    {
        blake3_keyed_hash(&self.master_key, field_name.as_bytes())
    }

    /// Encrypt a field value: `ENC:` followed by the base64 of the XOR-ed bytes.
    pub fn encrypt_field(&self, field_name: &str, value: &str) -> (r: String)
        ensures
            r@ == encrypted_text(self.key(), field_name@, value@),
    {
        let key = self.key_of_field(field_name);
        let encrypted = xor_with_key(value.as_bytes(), &key);
        let body = base64_encode(encrypted.as_slice());
        let mut out = "ENC:".to_owned();
        out.append(body.as_str());
        proof {
            reveal_strlit("ENC:");
            assert("ENC:"@ =~= enc_marker());
        }
        out
    }

    /// Decrypt a field value.
    pub fn decrypt_field(&self, field_name: &str, encrypted: &str) -> (r: AdatResult<String>)
        ensures
            match r {
                Ok(s) => decrypt_view(self.key(), field_name@, encrypted@) == Ok::<
                    Seq<char>,
                    Seq<char>,
                >(s@),
                Err(AdatError::Encryption(m)) => decrypt_view(self.key(), field_name@, encrypted@)
                    == Err::<Seq<char>, Seq<char>>(m@),
                Err(_) => false,
            },
    {
        if !Self::is_encrypted(encrypted) {
            return Err(AdatError::Encryption("Not an encrypted value".to_owned()));
        }
        let cs = chars_of(encrypted);
        let rest = string_of(&slice_vec(&cs, 4, cs.len()));
        let bytes = match base64_decode(rest.as_str()) {
            Ok(b) => b,
            Err(e) => {
                let mut m = "Invalid base64: ".to_owned();
                m.append(e.as_str());
                return Err(AdatError::Encryption(m));
            },
        };
        let key = self.key_of_field(field_name);
        let decrypted = xor_with_key(bytes.as_slice(), &key);
        match string_from_utf8(decrypted) {
            Ok(s) => Ok(s),
            Err(e) => {
                let mut m = "Invalid UTF-8: ".to_owned();
                m.append(e.as_str());
                Err(AdatError::Encryption(m))
            },
        }
    }

    /// Check if a value is encrypted: it starts with `ENC:`.
    pub fn is_encrypted(value: &str) -> (r: bool)
        ensures
            r == starts_with(value@, enc_marker()),
    {
        let marker = chars_of("ENC:");
        proof {
            reveal_strlit("ENC:");
            assert(marker@ =~= enc_marker());
        }
        starts_with_exec(chars_of(value).as_slice(), marker.as_slice())
    }
}

/// The names of a list of field names.
pub open spec fn name_views(names: Seq<&str>) -> Seq<Seq<char>> {
    names.map_values(|n: &str| n@)
}

/// The fields after encrypting, in order, each named field that holds a string not
/// yet encrypted.
pub open spec fn encrypt_fields_view(
    master: Seq<u8>,
    m: Seq<(Seq<char>, JsonView)>,
    names: Seq<Seq<char>>,
) -> Seq<(Seq<char>, JsonView)>
    decreases names.len(),
{
    if names.len() == 0 {
        m
    } else {
        let m1 = encrypt_fields_view(master, m, names.drop_last());
        let n = names.last();
        match lookup(m1, n) {
            Some(JsonView::Str(s)) => if !starts_with(s, enc_marker()) {
                insert_entry(m1, n, JsonView::Str(encrypted_text(master, n, s)))
            } else {
                m1
            },
            _ => m1,
        }
    }
}

/// The fields after decrypting, in order, each named field that holds an encrypted
/// string, with the message of the first failure (the fields are then as they were
/// when it came).
pub open spec fn decrypt_fields_view(
    master: Seq<u8>,
    m: Seq<(Seq<char>, JsonView)>,
    names: Seq<Seq<char>>,
) -> (Seq<(Seq<char>, JsonView)>, Option<Seq<char>>)
    decreases names.len(),
{
    if names.len() == 0 {
        (m, None)
    } else {
        let prev = decrypt_fields_view(master, m, names.drop_last());
        let m1 = prev.0;
        if prev.1 is Some {
            prev
        } else {
            let n = names.last();
            match lookup(m1, n) {
                Some(JsonView::Str(s)) => if starts_with(s, enc_marker()) {
                    match decrypt_view(master, n, s) {
                        Ok(p) => (insert_entry(m1, n, JsonView::Str(p)), None),
                        Err(msg) => (m1, Some(msg)),
                    }
                } else {
                    (m1, None)
                },
                _ => (m1, None),
            }
        }
    }
}

/// Two records agree on everything but their fields.
pub open spec fn same_but_fields(a: DataRecord, b: DataRecord) -> bool {
    &&& a.id == b.id
    &&& a.source_id == b.source_id
    &&& a.schema_node == b.schema_node
    &&& a.status == b.status
    &&& a.version == b.version
    &&& a.created_at == b.created_at
    &&& a.updated_at == b.updated_at
    &&& a.checksum == b.checksum
    &&& a.compressed_size == b.compressed_size
    &&& a.raw_size == b.raw_size
}

impl FieldEncryptor {
    /// Encrypt specific fields in a record: each named field that holds a string not
    /// yet encrypted.
    pub fn encrypt_record(&self, record: &mut DataRecord, fields: &[&str])
        ensures
            final(record).fields@ == encrypt_fields_view(
                self.key(),
                old(record).fields@,
                name_views(fields@),
            ),
            same_but_fields(*final(record), *old(record)),
    {
        let mut i: usize = 0;
        while i < fields.len()
            invariant
                i <= fields@.len(),
                record.fields@ == encrypt_fields_view(
                    self.key(),
                    old(record).fields@,
                    name_views(fields@.subrange(0, i as int)),
                ),
                same_but_fields(*record, *old(record)),
            decreases fields.len() - i,
        {
            let name: &str = fields[i];
            assert(name_views(fields@.subrange(0, i + 1)).drop_last() =~= name_views(
                fields@.subrange(0, i as int),
            ));
            assert(name_views(fields@.subrange(0, i + 1)).last() == name@);
            let enc: Option<String> = match record.fields.get(name) {
                Some(v) => match v.as_str() {
                    Some(s) => if !Self::is_encrypted(s) {
                        Some(self.encrypt_field(name, s))
                    } else {
                        None
                    },
                    None => None,
                },
                None => None,
            };
            match enc {
                Some(e) => {
                    record.fields.insert(name.to_owned(), JsonValue::Str(e));
                },
                None => {},
            }
            i = i + 1;
        }
        assert(fields@.subrange(0, fields@.len() as int) =~= fields@);
    }

    /// Decrypt specific fields in a record: each named field that holds an encrypted
    /// string. The first failure is returned, with the fields decrypted before it
    /// left decrypted.
    pub fn decrypt_record(&self, record: &mut DataRecord, fields: &[&str]) -> (r: AdatResult<()>)
        ensures
            final(record).fields@ == decrypt_fields_view(
                self.key(),
                old(record).fields@,
                name_views(fields@),
            ).0,
            same_but_fields(*final(record), *old(record)),
            match r {
                Ok(_) => decrypt_fields_view(self.key(), old(record).fields@, name_views(fields@)).1
                    is None,
                Err(AdatError::Encryption(m)) => decrypt_fields_view(
                    self.key(),
                    old(record).fields@,
                    name_views(fields@),
                ).1 == Some(m@),
                Err(_) => false,
            },
    {
        let mut i: usize = 0;
        while i < fields.len()
            invariant
                i <= fields@.len(),
                decrypt_fields_view(
                    self.key(),
                    old(record).fields@,
                    name_views(fields@.subrange(0, i as int)),
                ) == (record.fields@, None::<Seq<char>>),
                same_but_fields(*record, *old(record)),
            decreases fields.len() - i,
        {
            let name: &str = fields[i];
            assert(name_views(fields@.subrange(0, i + 1)).drop_last() =~= name_views(
                fields@.subrange(0, i as int),
            ));
            assert(name_views(fields@.subrange(0, i + 1)).last() == name@);
            let dec: Option<AdatResult<String>> = match record.fields.get(name) {
                Some(v) => match v.as_str() {
                    Some(s) => if Self::is_encrypted(s) {
                        Some(self.decrypt_field(name, s))
                    } else {
                        None
                    },
                    None => None,
                },
                None => None,
            };
            match dec {
                Some(Ok(p)) => {
                    record.fields.insert(name.to_owned(), JsonValue::Str(p));
                },
                Some(Err(e)) => {
                    proof {
                        assert(name_views(fields@).subrange(0, i + 1) =~= name_views(
                            fields@.subrange(0, i + 1),
                        ));
                        assert(decrypt_fields_view(
                            self.key(),
                            old(record).fields@,
                            name_views(fields@.subrange(0, i + 1)),
                        ).1 is Some);
                        lemma_decrypt_prefix_error(
                            self.key(),
                            old(record).fields@,
                            name_views(fields@),
                            i + 1,
                        );
                    }
                    return Err(e);
                },
                None => {},
            }
            i = i + 1;
        }
        assert(fields@.subrange(0, fields@.len() as int) =~= fields@);
        Ok(())
    }
}

/// Once a failure has come, later names change nothing.
proof fn lemma_decrypt_prefix_error(
    master: Seq<u8>,
    m: Seq<(Seq<char>, JsonView)>,
    names: Seq<Seq<char>>,
    k: int,
)
    requires
        0 <= k <= names.len(),
        decrypt_fields_view(master, m, names.subrange(0, k)).1 is Some,
    ensures
        decrypt_fields_view(master, m, names) == decrypt_fields_view(
            master,
            m,
            names.subrange(0, k),
        ),
    decreases names.len() - k,
{
    if k < names.len() {
        assert(names.drop_last().subrange(0, k) =~= names.subrange(0, k));
        lemma_decrypt_prefix_error(master, m, names.drop_last(), k);
    } else {
        assert(names.subrange(0, k) =~= names);
    }
}

proof fn lemma_xor_twice(d: Seq<u8>, k: Seq<u8>)
    ensures
        xor_stream(xor_stream(d, k), k) == d,
{
    assert forall|i: int| 0 <= i < d.len() implies #[trigger] xor_stream(xor_stream(d, k), k)[i]
        == d[i] by {
        let a = d[i];
        let b = k[i % 32];
        assert((a ^ b) ^ b == a) by (bit_vector);
    }
    assert(xor_stream(xor_stream(d, k), k) =~= d);
}

/// Decrypting what encryption wrote, under the same key and field name, gives back
/// the value.
pub proof fn lemma_decrypt_encrypt(master: Seq<u8>, field: Seq<char>, value: Seq<char>)
    ensures
        decrypt_view(master, field, encrypted_text(master, field, value)) == Ok::<
            Seq<char>,
            Seq<char>,
        >(value),
{
    let k = field_key(master, field);
    let x = xor_stream(encode_utf8(value), k);
    let t = encrypted_text(master, field, value);
    assert(t.subrange(0, 4) =~= enc_marker());
    assert(t.subrange(4, t.len() as int) =~= b64_encode(x));
    lemma_base64_roundtrip(x);
    lemma_xor_twice(encode_utf8(value), k);
    encode_utf8_valid_utf8(value);
    encode_utf8_decode_utf8(value);
}


/// Decrypting a record's field that encryption wrote gives back the record's fields:
/// for a field that holds a string not already encrypted, encrypting it and then
/// decrypting it, under the same key, restores the fields and reports no failure.
pub proof fn lemma_record_decrypt_encrypt(master: Seq<u8>, m: Seq<(Seq<char>, JsonView)>, n: Seq<char>, s: Seq<char>)
    requires
        keys_unique(m),
        lookup(m, n) == Some(JsonView::Str(s)),
        !starts_with(s, enc_marker()),
    ensures
        decrypt_fields_view(master, encrypt_fields_view(master, m, seq![n]), seq![n]) == (m, None::<Seq<char>>),
{
    let names = seq![n];
    assert(names.drop_last() =~= Seq::<Seq<char>>::empty());
    assert(names.last() == n);
    assert(encrypt_fields_view(master, m, Seq::<Seq<char>>::empty()) == m);
    let t = encrypted_text(master, n, s);
    let e = insert_entry(m, n, JsonView::Str(t));
    assert(encrypt_fields_view(master, m, names) == e);
    assert(decrypt_fields_view(master, e, Seq::<Seq<char>>::empty()) == (e, None::<Seq<char>>));
    let other = n.push('x');
    lemma_lookup_after_write(m, n, JsonView::Str(t), other);
    assert(t.subrange(0, 4) =~= enc_marker());
    lemma_decrypt_encrypt(master, n, s);
    let i = choose|i: int| 0 <= i < m.len() && m[i].0 == n;
    assert(m[i] == (n, JsonView::Str(s)));
    assert(e == m.update(i, (n, JsonView::Str(t))));
    let j = choose|j: int| 0 <= j < e.len() && e[j].0 == n;
    assert(j == i);
    assert(insert_entry(e, n, JsonView::Str(s)) =~= m);
}

} // verus!
