//! PII detection and redaction.
//!
//! A detection's confidence is given in thousandths (950 stands for 0.95).
use vstd::prelude::*;
use vstd::utf8::{encode_utf8, decode_utf8, is_char_boundary, encode_utf8_decode_utf8};
use vstd::string::StringExecFns;
use crate::hash::{short_digest, short_digest_exec};
use crate::text::{
    is_digit, chars_of, string_of, contains_char, split, split_exec, split_from, views, str_eq,
};
use crate::types::json::{JsonValue, JsonView, member_views, lemma_member_views};
use crate::types::record::{DataRecord, RecordStatus, lookup, insert_entry, remove_entry, keys_unique, lemma_lookup_after_write};
use super::field_encrypt::same_but_fields;

verus! {

/// Types of PII detected.
#[derive(Debug, Clone, PartialEq, Eq)]
pub enum PiiType {
    Email,
    Phone,
    Ssn,
    CreditCard,
    IpAddress,
    Name,
    Address,
    DateOfBirth,
    Custom(String),
}

/// A PII type as plain data.
pub enum PiiKind {
    Email,
    Phone,
    Ssn,
    CreditCard,
    IpAddress,
    Name,
    Address,
    DateOfBirth,
    Custom(Seq<char>),
}

impl View for PiiType {
    type V = PiiKind;

    open spec fn view(&self) -> PiiKind {
        match self {
            PiiType::Email => PiiKind::Email,
            PiiType::Phone => PiiKind::Phone,
            PiiType::Ssn => PiiKind::Ssn,
            PiiType::CreditCard => PiiKind::CreditCard,
            PiiType::IpAddress => PiiKind::IpAddress,
            PiiType::Name => PiiKind::Name,
            PiiType::Address => PiiKind::Address,
            PiiType::DateOfBirth => PiiKind::DateOfBirth,
            PiiType::Custom(s) => PiiKind::Custom(s@),
        }
    }
}

impl PiiType {
    /// Whether two PII types are the same (`==`).
    pub fn same_as(&self, other: &PiiType) -> (r: bool)
        ensures
            r == (self@ == other@),
    {
        match (self, other) {
            (PiiType::Email, PiiType::Email) => true,
            (PiiType::Phone, PiiType::Phone) => true,
            (PiiType::Ssn, PiiType::Ssn) => true,
            (PiiType::CreditCard, PiiType::CreditCard) => true,
            (PiiType::IpAddress, PiiType::IpAddress) => true,
            (PiiType::Name, PiiType::Name) => true,
            (PiiType::Address, PiiType::Address) => true,
            (PiiType::DateOfBirth, PiiType::DateOfBirth) => true,
            (PiiType::Custom(a), PiiType::Custom(b)) => str_eq(a.as_str(), b.as_str()),
            _ => false,
        }
    }

    /// A copy of the type.
    pub fn duplicate(&self) -> (r: PiiType)
        ensures
            r@ == self@,
    {
        match self {
            PiiType::Email => PiiType::Email,
            PiiType::Phone => PiiType::Phone,
            PiiType::Ssn => PiiType::Ssn,
            PiiType::CreditCard => PiiType::CreditCard,
            PiiType::IpAddress => PiiType::IpAddress,
            PiiType::Name => PiiType::Name,
            PiiType::Address => PiiType::Address,
            PiiType::DateOfBirth => PiiType::DateOfBirth,
            PiiType::Custom(s) => PiiType::Custom(s.clone()),
        }
    }
}

/// Result of a PII detection scan.
#[derive(Debug, Clone)]
pub struct PiiDetection {
    pub field: String,
    pub pii_type: PiiType,
    /// Confidence in thousandths.
    pub confidence: u32,
    pub value_preview: String,
}

/// A detection as plain data.
pub struct DetectionView {
    pub field: Seq<char>,
    pub pii_type: PiiKind,
    pub confidence: u32,
    pub value_preview: Seq<char>,
}

/// View of a detection.
pub open spec fn detection_view(d: PiiDetection) -> DetectionView {
    DetectionView {
        field: d.field@,
        pii_type: d.pii_type@,
        confidence: d.confidence,
        value_preview: d.value_preview@,
    }
}

/// Views of detections.
pub open spec fn detection_views(s: Seq<PiiDetection>) -> Seq<DetectionView> {
    s.map_values(|d: PiiDetection| detection_view(d))
}

/// How to redact detected PII.
#[derive(Debug, Clone, Copy, PartialEq, Eq, Structural)]
pub enum RedactionMethod {
    /// Replace with [REDACTED].
    Mask,
    /// Replace with type-appropriate placeholder.
    Placeholder,
    /// Replace with a hash of the original.
    Hash,
    /// Remove the field entirely.
    Remove,
}

/// Redaction policy configuration.
#[derive(Debug, Clone)]
pub struct RedactionPolicy {
    pub name: String,
    /// PII types to redact.
    pub types: Vec<PiiType>,
    /// Redaction method.
    pub method: RedactionMethod,
}

impl Default for RedactionPolicy {
    /// The default policy: mask e-mail addresses, phone numbers, SSNs and credit cards.
    fn default() -> (r: RedactionPolicy)
        ensures
            r.name@ == "default"@,
            r.types@.map_values(|t: PiiType| t@) == seq![
                PiiKind::Email,
                PiiKind::Phone,
                PiiKind::Ssn,
                PiiKind::CreditCard,
            ],
            r.method == RedactionMethod::Mask,
    {
        let types = vec![PiiType::Email, PiiType::Phone, PiiType::Ssn, PiiType::CreditCard];
        let r = RedactionPolicy { name: "default".to_owned(), types, method: RedactionMethod::Mask };
        assert(r.types@.map_values(|t: PiiType| t@) =~= seq![
            PiiKind::Email,
            PiiKind::Phone,
            PiiKind::Ssn,
            PiiKind::CreditCard,
        ]);
        r
    }
}

// ---------------------------------------------------------------------------
// Recognizers
// ---------------------------------------------------------------------------
/// Length of a text in UTF-8 bytes (`str::len`).
pub open spec fn byte_len(v: Seq<char>) -> int {
    encode_utf8(v).len() as int
}

/// The ASCII digits of a text, in order.
pub open spec fn digits_only(v: Seq<char>) -> Seq<char>
    decreases v.len(),
{
    if v.len() == 0 {
        Seq::empty()
    } else if is_digit(v.last()) {
        digits_only(v.drop_last()).push(v.last())
    } else {
        digits_only(v.drop_last())
    }
}

/// Value of a char as a decimal digit, 0 for any other char
/// (`to_digit(10).unwrap_or(0)`).
pub open spec fn digit_value(c: char) -> u32 {
    if is_digit(c) {
        (c as u32 - '0' as u32) as u32
    } else {
        0
    }
}

/// Luhn sum of a text read from its end; `double` tells whether its last char is
/// doubled.
pub open spec fn luhn_sum(v: Seq<char>, double: bool) -> nat
    decreases v.len(),
{
    if v.len() == 0 {
        0
    } else {
        let d = digit_value(v.last());
        let x: nat = if double {
            if 2 * d > 9 {
                (2 * d - 9) as nat
            } else {
                (2 * d) as nat
            }
        } else {
            d as nat
        };
        x + luhn_sum(v.drop_last(), !double)
    }
}

/// The Luhn check: the sum, doubling every second digit from the right, is a
/// multiple of ten.
pub open spec fn luhn_valid(v: Seq<char>) -> bool {
    luhn_sum(v, false) % 10 == 0
}

/// Decimal value of a sequence of digits.
pub open spec fn digits_value(v: Seq<char>) -> nat
    decreases v.len(),
{
    if v.len() == 0 {
        0
    } else {
        digits_value(v.drop_last()) * 10 + digit_value(v.last()) as nat
    }
}

/// Every char is an ASCII digit.
pub open spec fn all_digits(d: Seq<char>) -> bool {
    forall|i: int| 0 <= i < d.len() ==> is_digit(#[trigger] d[i])
}

/// `u8`'s `FromStr`: an optional `+` followed by one or more ASCII digits, of value
/// at most 255.
pub open spec fn parse_u8(v: Seq<char>) -> Option<u8> {
    let d = if v.len() > 0 && v[0] == '+' {
        v.drop_first()
    } else {
        v
    };
    if d.len() > 0 && all_digits(d) && digits_value(d) <= 255 {
        Some(digits_value(d) as u8)
    } else {
        None
    }
}

/// An e-mail address: holds `@` and `.`, is longer than five bytes, has exactly one
/// `@`, and a `.` after it.
pub open spec fn looks_like_email(v: Seq<char>) -> bool {
    &&& v.contains('@')
    &&& v.contains('.')
    &&& byte_len(v) > 5
    &&& split(v, '@').len() == 2
    &&& split(v, '@')[1].contains('.')
}

/// A phone number: ten to fifteen digits in fewer than twenty bytes.
pub open spec fn looks_like_phone(v: Seq<char>) -> bool {
    10 <= digits_only(v).len() <= 15 && byte_len(v) < 20
}

/// A social security number: `NNN-NN-NNNN`.
pub open spec fn looks_like_ssn(v: Seq<char>) -> bool {
    &&& byte_len(v) == 11
    &&& forall|i: int|
        0 <= i < v.len() ==> if i == 3 || i == 6 {
            v[i] == '-'
        } else {
            is_digit(#[trigger] v[i])
        }
}

/// A credit card number: 13 to 19 digits passing the Luhn check, in fewer than 25
/// bytes.
pub open spec fn looks_like_card(v: Seq<char>) -> bool {
    &&& 13 <= digits_only(v).len() <= 19
    &&& byte_len(v) < 25
    &&& luhn_valid(digits_only(v))
}

/// An IPv4 address: four dot-separated parts, each a `u8`.
pub open spec fn looks_like_ip(v: Seq<char>) -> bool {
    &&& split(v, '.').len() == 4
    &&& forall|i: int| 0 <= i < 4 ==> #[trigger] parse_u8(split(v, '.')[i]) is Some
}

/// A preview of a value can be cut: either it has at most 20 bytes, or its 20th byte
/// ends a char.
pub open spec fn previewable(v: Seq<char>) -> bool {
    byte_len(v) <= 20 || is_char_boundary(encode_utf8(v), 20)
}

/// The preview of a value: its first 20 bytes and `...`, or the whole value when it
/// is no longer.
pub open spec fn preview(v: Seq<char>) -> Seq<char> {
    if byte_len(v) > 20 {
        decode_utf8(encode_utf8(v).subrange(0, 20)) + "..."@
    } else {
        v
    }
}

/// A detection of the given kind.
pub open spec fn found(field: Seq<char>, kind: PiiKind, confidence: u32, v: Seq<char>) -> Seq<
    DetectionView,
> {
    seq![DetectionView { field, pii_type: kind, confidence, value_preview: preview(v) }]
}

/// What a value is detected as: e-mail (950), phone (700), SSN (900), credit card
/// (850) and IP address (900), in that order, each where its recognizer accepts.
pub open spec fn detections_for(field: Seq<char>, v: Seq<char>) -> Seq<DetectionView> {
    (if looks_like_email(v) {
        found(field, PiiKind::Email, 950, v)
    } else {
        Seq::empty()
    }) + (if looks_like_phone(v) {
        found(field, PiiKind::Phone, 700, v)
    } else {
        Seq::empty()
    }) + (if looks_like_ssn(v) {
        found(field, PiiKind::Ssn, 900, v)
    } else {
        Seq::empty()
    }) + (if looks_like_card(v) {
        found(field, PiiKind::CreditCard, 850, v)
    } else {
        Seq::empty()
    }) + (if looks_like_ip(v) {
        found(field, PiiKind::IpAddress, 900, v)
    } else {
        Seq::empty()
    })
}

/// The ASCII digits of a text, in order.
fn digits_of(s: &[char]) -> (r: Vec<char>)
    ensures
        r@ == digits_only(s@),
{
    let mut out: Vec<char> = Vec::new();
    let mut i: usize = 0;
    while i < s.len()
        invariant
            i <= s@.len(),
            out@ == digits_only(s@.subrange(0, i as int)),
        decreases s.len() - i,
    {
        assert(s@.subrange(0, i + 1).drop_last() =~= s@.subrange(0, i as int));
        if '0' <= s[i] && s[i] <= '9' {
            out.push(s[i]);
        }
        i = i + 1;
    }
    assert(s@.subrange(0, s@.len() as int) =~= s@);
    out
}

proof fn lemma_digits_only_len(v: Seq<char>)
    ensures
        digits_only(v).len() <= v.len(),
    decreases v.len(),
{
    if v.len() > 0 {
        lemma_digits_only_len(v.drop_last());
    }
}

fn digit_value_exec(c: char) -> (r: u32)
    ensures
        r == digit_value(c),
        r <= 9,
{
    if '0' <= c && c <= '9' {
        (c as u32) - ('0' as u32)
    } else {
        0
    }
}

/// Each digit adds at most 9 to the Luhn sum.
proof fn lemma_luhn_sum_bound(v: Seq<char>, double: bool)
    ensures
        luhn_sum(v, double) <= 9 * v.len(),
    decreases v.len(),
{
    if v.len() > 0 {
        lemma_luhn_sum_bound(v.drop_last(), !double);
    }
}

/// The Luhn check over chars (non-digits count as 0).
fn luhn_chars(s: &[char]) -> (r: bool)
    requires
        luhn_sum(s@, false) <= u32::MAX,
    ensures
        r == luhn_valid(s@),
{
    let mut sum: u32 = 0;
    let mut double = false;
    let mut j: usize = s.len();
    assert(s@.subrange(0, s@.len() as int) =~= s@);
    while j > 0
        invariant
            j <= s@.len(),
            luhn_sum(s@, false) <= u32::MAX,
            sum + luhn_sum(s@.subrange(0, j as int), double) == luhn_sum(s@, false),
        decreases j,
    {
        j = j - 1;
        assert(s@.subrange(0, j + 1).drop_last() =~= s@.subrange(0, j as int));
        let d = digit_value_exec(s[j]);
        let val = if double {
            let x = d * 2;
            if x > 9 {
                x - 9
            } else {
                x
            }
        } else {
            d
        };
        sum = sum + val;
        double = !double;
    }
    sum % 10 == 0
}

/// Luhn algorithm for credit card validation: the sum of the digits, doubling every
/// second one from the right (subtracting 9 from a doubled digit above 9), is a
/// multiple of ten. A char that is not a digit counts as 0. The sum must fit in a
/// `u32`.
pub fn luhn_check(digits: &str) -> (r: bool)
    requires
        luhn_sum(digits@, false) <= u32::MAX,
    ensures
        r == luhn_valid(digits@),
{
    luhn_chars(chars_of(digits).as_slice())
}

proof fn lemma_digits_value_grows(v: Seq<char>, k: int)
    requires
        0 <= k <= v.len(),
    ensures
        digits_value(v.subrange(0, k)) <= digits_value(v),
    decreases v.len() - k,
{
    if k < v.len() {
        lemma_digits_value_grows(v.drop_last(), k);
        assert(v.drop_last().subrange(0, k) =~= v.subrange(0, k));
    } else {
        assert(v.subrange(0, k) =~= v);
    }
}

/// `u8`'s `FromStr` on a char slice.
fn parse_u8_exec(p: &[char]) -> (r: Option<u8>)
    ensures
        r == parse_u8(p@),
{
    let start: usize = if p.len() > 0 && p[0] == '+' {
        1
    } else {
        0
    };
    let ghost d = p@.subrange(start as int, p@.len() as int);
    assert(d =~= (if p@.len() > 0 && p@[0] == '+' {
        p@.drop_first()
    } else {
        p@
    }));
    if start >= p.len() {
        return None;
    }
    let mut v: u32 = 0;
    let mut i: usize = start;
    while i < p.len()
        invariant
            start <= i <= p@.len(),
            d == p@.subrange(start as int, p@.len() as int),
            d == (if p@.len() > 0 && p@[0] == '+' {
                p@.drop_first()
            } else {
                p@
            }),
            d.len() > 0,
            forall|k: int| 0 <= k < i - start ==> is_digit(d[k]),
            v == digits_value(d.subrange(0, i - start)),
            v <= 255,
        decreases p.len() - i,
    {
        let c = p[i];
        assert(d[i - start] == c);
        if !('0' <= c && c <= '9') {
            assert(!is_digit(d[i - start]));
            assert(!all_digits(d));
            return None;
        }
        assert(d.subrange(0, i + 1 - start).drop_last() =~= d.subrange(0, i - start));
        v = v * 10 + digit_value_exec(c);
        i = i + 1;
        assert(v == digits_value(d.subrange(0, i - start)));
        if v > 255 {
            proof {
                lemma_digits_value_grows(d, i - start);
            }
            return None;
        }
    }
    assert(d.subrange(0, d.len() as int) =~= d);
    Some(v as u8)
}

fn ssn_shape(s: &[char]) -> (r: bool)
    ensures
        r == (forall|i: int|
            0 <= i < s@.len() ==> if i == 3 || i == 6 {
                s@[i] == '-'
            } else {
                is_digit(#[trigger] s@[i])
            }),
{
    let mut i: usize = 0;
    while i < s.len()
        invariant
            i <= s@.len(),
            forall|k: int|
                0 <= k < i ==> if k == 3 || k == 6 {
                    s@[k] == '-'
                } else {
                    is_digit(#[trigger] s@[k])
                },
        decreases s.len() - i,
    {
        let ok = if i == 3 || i == 6 {
            s[i] == '-'
        } else {
            '0' <= s[i] && s[i] <= '9'
        };
        if !ok {
            return false;
        }
        i = i + 1;
    }
    true
}

fn preview_exec(value: &str) -> (r: String)
    requires
        previewable(value@),
    ensures
        r@ == preview(value@),
{
    if value.as_bytes().len() > 20 {
        let (a, _rest) = value.split_at(20);
        let mut r = a.to_owned();
        r.append("...");
        proof {
            encode_utf8_decode_utf8(a@);
            assert(encode_utf8(a@) =~= encode_utf8(value@).subrange(0, 20));
            assert(a@ == decode_utf8(encode_utf8(value@).subrange(0, 20)));
        }
        r
    } else {
        value.to_owned()
    }
}

fn detection(field: &str, kind: PiiType, confidence: u32, preview: &String) -> (r: PiiDetection)
    ensures
        detection_view(r) == (DetectionView {
            field: field@,
            pii_type: kind@,
            confidence,
            value_preview: preview@,
        }),
{
    PiiDetection {
        field: field.to_owned(),
        pii_type: kind,
        confidence,
        value_preview: preview.clone(),
    }
}

fn push_detection(out: &mut Vec<PiiDetection>, d: PiiDetection)
    ensures
        detection_views(final(out)@) == detection_views(old(out)@).push(detection_view(d)),
{
    let ghost before = out@;
    out.push(d);
    assert(detection_views(out@) =~= detection_views(before).push(detection_view(d)));
}

fn email_shape(cs: &Vec<char>, blen: usize) -> (r: bool)
    ensures
        r == (cs@.contains('@') && cs@.contains('.') && blen > 5 && split(cs@, '@').len() == 2
            && split(cs@, '@')[1].contains('.')),
{
    if contains_char(cs, '@') && contains_char(cs, '.') && blen > 5 {
        let parts = split_exec(cs, '@');
        assert(views(parts@).len() == parts@.len());
        if parts.len() == 2 {
            assert(views(parts@)[1] == parts@[1]@);
            contains_char(&parts[1], '.')
        } else {
            false
        }
    } else {
        false
    }
}

fn ip_shape(cs: &Vec<char>) -> (r: bool)
    ensures
        r == looks_like_ip(cs@),
{
    let octets = split_exec(cs, '.');
    assert(views(octets@).len() == octets@.len());
    if octets.len() != 4 {
        return false;
    }
    let mut k: usize = 0;
    while k < 4
        invariant
            k <= 4,
            octets@.len() == 4,
            views(octets@) == split(cs@, '.'),
            forall|m: int| 0 <= m < k ==> #[trigger] parse_u8(split(cs@, '.')[m]) is Some,
        decreases 4 - k,
    {
        assert(views(octets@)[k as int] == octets@[k as int]@);
        if parse_u8_exec(&octets[k]).is_none() {
            return false;
        }
        k = k + 1;
    }
    true
}

/// Detect PII patterns in a string value.
pub fn detect_pii_in_string(field: &str, value: &str) -> (r: Vec<PiiDetection>)
    requires
        previewable(value@),
    ensures
        detection_views(r@) == detections_for(field@, value@),
{
    let mut out: Vec<PiiDetection> = Vec::new();
    let preview = preview_exec(value);
    let cs = chars_of(value);
    let blen = value.as_bytes().len();
    let ghost v = value@;
    assert(detection_views(out@) =~= Seq::<DetectionView>::empty());
    let email = email_shape(&cs, blen);
    if email {
        push_detection(&mut out, detection(field, PiiType::Email, 950, &preview));
    }
    let ghost s1 = detection_views(out@);
    // Phone: ten to fifteen digits.
    let digits = digits_of(&cs);
    if digits.len() >= 10 && digits.len() <= 15 && blen < 20 {
        push_detection(&mut out, detection(field, PiiType::Phone, 700, &preview));
    }
    let ghost s2 = detection_views(out@);
    // SSN: NNN-NN-NNNN.
    if blen == 11 && ssn_shape(&cs) {
        push_detection(&mut out, detection(field, PiiType::Ssn, 900, &preview));
    }
    let ghost s3 = detection_views(out@);
    // Credit card: 13 to 19 digits passing the Luhn check.
    if digits.len() >= 13 && digits.len() <= 19 && blen < 25 {
        proof {
            lemma_luhn_sum_bound(digits@, false);
        }
        if luhn_chars(&digits) {
            push_detection(&mut out, detection(field, PiiType::CreditCard, 850, &preview));
        }
    }
    let ghost s4 = detection_views(out@);
    // IP address: N.N.N.N.
    let ip = ip_shape(&cs);
    if ip {
        push_detection(&mut out, detection(field, PiiType::IpAddress, 900, &preview));
    }
    assert(detection_views(out@) =~= detections_for(field@, v));
    out
}

// ---------------------------------------------------------------------------
// Redaction
// ---------------------------------------------------------------------------
/// The text that replaces a value of the given kind under a redaction method.
pub open spec fn redaction_text(v: Seq<char>, kind: PiiKind, method: RedactionMethod) -> Seq<
    char,
> {
    match method {
        RedactionMethod::Mask => "[REDACTED]"@,
        RedactionMethod::Placeholder => match kind {
            PiiKind::Email => "redacted@example.com"@,
            PiiKind::Phone => "000-000-0000"@,
            PiiKind::Ssn => "XXX-XX-XXXX"@,
            PiiKind::CreditCard => "XXXX-XXXX-XXXX-XXXX"@,
            PiiKind::IpAddress => "0.0.0.0"@,
            _ => "[REDACTED]"@,
        },
        RedactionMethod::Hash => "HASH:"@ + short_digest(encode_utf8(v)),
        RedactionMethod::Remove => Seq::empty(),
    }
}

/// Apply a specific redaction method.
pub fn apply_redaction(value: &str, pii_type: &PiiType, method: &RedactionMethod) -> (r: String)
    ensures
        r@ == redaction_text(value@, pii_type@, *method),
{
    match method {
        RedactionMethod::Mask => "[REDACTED]".to_owned(),
        RedactionMethod::Placeholder => match pii_type {
            PiiType::Email => "redacted@example.com".to_owned(),
            PiiType::Phone => "000-000-0000".to_owned(),
            PiiType::Ssn => "XXX-XX-XXXX".to_owned(),
            PiiType::CreditCard => "XXXX-XXXX-XXXX-XXXX".to_owned(),
            PiiType::IpAddress => "0.0.0.0".to_owned(),
            _ => "[REDACTED]".to_owned(),
        },
        RedactionMethod::Hash => {
            let digest = short_digest_exec(value.as_bytes());
            let mut r = "HASH:".to_owned();
            r.append(string_of(&digest).as_str());
            r
        },
        RedactionMethod::Remove => String::new(),
    }
}

/// Every string value of the fields can be previewed.
pub open spec fn fields_previewable(m: Seq<(Seq<char>, JsonView)>) -> bool {
    forall|i: int|
        0 <= i < m.len() ==> ((#[trigger] m[i]).1 matches JsonView::Str(v) ==> previewable(v))
}

/// The detections of a record's fields: those of each string value, field by field.
pub open spec fn detect_view(m: Seq<(Seq<char>, JsonView)>) -> Seq<DetectionView>
    decreases m.len(),
{
    if m.len() == 0 {
        Seq::empty()
    } else {
        detect_view(m.drop_last()) + match m.last().1 {
            JsonView::Str(v) => detections_for(m.last().0, v),
            _ => Seq::empty(),
        }
    }
}

/// The fields after applying, detection by detection, the policy's method to each
/// detected field whose kind the policy lists and that still holds a string: `Remove`
/// deletes the field, every other method replaces its value with the redaction text.
pub open spec fn redact_fields(
    m: Seq<(Seq<char>, JsonView)>,
    dets: Seq<DetectionView>,
    kinds: Seq<PiiKind>,
    method: RedactionMethod,
) -> Seq<(Seq<char>, JsonView)>
    decreases dets.len(),
{
    if dets.len() == 0 {
        m
    } else {
        let m1 = redact_fields(m, dets.drop_last(), kinds, method);
        let d = dets.last();
        if kinds.contains(d.pii_type) {
            match lookup(m1, d.field) {
                Some(JsonView::Str(v)) => if method == RedactionMethod::Remove {
                    remove_entry(m1, d.field)
                } else {
                    insert_entry(m1, d.field, JsonView::Str(redaction_text(v, d.pii_type, method)))
                },
                _ => m1,
            }
        } else {
            m1
        }
    }
}

/// The kinds a policy lists.
pub open spec fn policy_kinds(p: RedactionPolicy) -> Seq<PiiKind> {
    p.types@.map_values(|t: PiiType| t@)
}

/// All detections of a batch of records, each with the id of its record.
pub open spec fn scan_view(rs: Seq<DataRecord>) -> Seq<(Seq<char>, DetectionView)>
    decreases rs.len(),
{
    if rs.len() == 0 {
        Seq::empty()
    } else {
        scan_view(rs.drop_last()) + detect_view(rs.last().fields@).map_values(
            |d: DetectionView| (rs.last().id@, d),
        )
    }
}

fn kinds_contain(types: &Vec<PiiType>, t: &PiiType) -> (r: bool)
    ensures
        r == types@.map_values(|x: PiiType| x@).contains(t@),
{
    let ghost ks = types@.map_values(|x: PiiType| x@);
    let mut i: usize = 0;
    while i < types.len()
        invariant
            i <= types@.len(),
            ks == types@.map_values(|x: PiiType| x@),
            forall|k: int| 0 <= k < i ==> ks[k] != t@,
        decreases types.len() - i,
    {
        if types[i].same_as(t) {
            assert(ks[i as int] == t@);
            return true;
        }
        i = i + 1;
    }
    false
}

/// Engine for PII detection and redaction.
pub struct RedactionEngine;

impl RedactionEngine {
    /// Scan a record for PII: the detections of each string field, field by field.
    pub fn detect(record: &DataRecord) -> (r: Vec<PiiDetection>)
        requires
            fields_previewable(record.fields@),
        ensures
            detection_views(r@) == detect_view(record.fields@),
    {
        let entries = record.fields.entries();
        proof {
            lemma_member_views(entries@);
        }
        let mut out: Vec<PiiDetection> = Vec::new();
        let mut i: usize = 0;
        assert(detection_views(out@) =~= Seq::<DetectionView>::empty());
        while i < entries.len()
            invariant
                i <= entries@.len(),
                member_views(entries@) == record.fields@,
                entries@.len() == record.fields@.len(),
                fields_previewable(record.fields@),
                forall|k: int|
                    0 <= k < record.fields@.len() ==> #[trigger] record.fields@[k] == (
                        entries@[k].0@,
                        entries@[k].1@,
                    ),
                detection_views(out@) == detect_view(record.fields@.subrange(0, i as int)),
            decreases entries.len() - i,
        {
            assert(record.fields@.subrange(0, i + 1).drop_last() =~= record.fields@.subrange(
                0,
                i as int,
            ));
            assert(record.fields@[i as int] == (entries@[i as int].0@, entries@[i as int].1@));
            match entries[i].1.as_str() {
                Some(v) => {
                    let found = detect_pii_in_string(entries[i].0.as_str(), v);
                    let ghost before = detection_views(out@);
                    let mut found = found;
                    out.append(&mut found);
                    assert(detection_views(out@) =~= before + detections_for(
                        entries@[i as int].0@,
                        v@,
                    ));
                },
                None => {},
            }
            i = i + 1;
        }
        assert(record.fields@.subrange(0, record.fields@.len() as int) =~= record.fields@);
        out
    }

    /// Apply a redaction policy to a record and return the redacted copy; its status
    /// is `Redacted` when anything was detected.
    pub fn redact(record: &DataRecord, policy: &RedactionPolicy) -> (r: DataRecord)
        requires
            fields_previewable(record.fields@),
        ensures
            r.fields@ == redact_fields(
                record.fields@,
                detect_view(record.fields@),
                policy_kinds(*policy),
                policy.method,
            ),
            r.status == (if detect_view(record.fields@).len() > 0 {
                RecordStatus::Redacted
            } else {
                record.status
            }),
            r.id@ == record.id@,
            r.source_id@ == record.source_id@,
            r.schema_node@ == record.schema_node@,
            r.version == record.version,
            r.created_at == record.created_at,
            r.updated_at == record.updated_at,
            r.checksum@ == record.checksum@,
            r.compressed_size == record.compressed_size,
            r.raw_size == record.raw_size,
    {
        let detections = Self::detect(record);
        let ghost dets = detection_views(detections@);
        let mut fields = record.fields.duplicate();
        let mut i: usize = 0;
        while i < detections.len()
            invariant
                i <= detections@.len(),
                dets == detection_views(detections@),
                fields@ == redact_fields(
                    record.fields@,
                    dets.subrange(0, i as int),
                    policy_kinds(*policy),
                    policy.method,
                ),
            decreases detections.len() - i,
        {
            let d = &detections[i];
            assert(dets.subrange(0, i + 1).drop_last() =~= dets.subrange(0, i as int));
            assert(dets[i as int] == detection_view(*d));
            if kinds_contain(&policy.types, &d.pii_type) {
                let replacement: Option<String> = match fields.get(d.field.as_str()) {
                    Some(v) => match v.as_str() {
                        Some(s) => Some(apply_redaction(s, &d.pii_type, &policy.method)),
                        None => None,
                    },
                    None => None,
                };
                match replacement {
                    Some(t) => {
                        if policy.method == RedactionMethod::Remove {
                            fields.remove(d.field.as_str());
                        } else {
                            fields.insert(d.field.clone(), JsonValue::Str(t));
                        }
                    },
                    None => {},
                }
            }
            i = i + 1;
        }
        assert(dets.subrange(0, dets.len() as int) =~= dets);
        let mut result = record.duplicate();
        result.fields = fields;
        if detections.len() > 0 {
            result.status = RecordStatus::Redacted;
        }
        result
    }

    /// Scan a batch of records and return all detections, each with its record's id.
    pub fn scan_batch(records: &[DataRecord]) -> (r: Vec<(String, PiiDetection)>)
        requires
            forall|i: int| 0 <= i < records@.len() ==> fields_previewable(#[trigger] records@[i].fields@),
        ensures
            r@.map_values(|p: (String, PiiDetection)| (p.0@, detection_view(p.1))) == scan_view(
                records@,
            ),
    {
        let mut out: Vec<(String, PiiDetection)> = Vec::new();
        let mut i: usize = 0;
        while i < records.len()
            invariant
                i <= records@.len(),
                forall|j: int| 0 <= j < records@.len() ==> fields_previewable(#[trigger] records@[j].fields@),
                out@.map_values(|p: (String, PiiDetection)| (p.0@, detection_view(p.1)))
                    == scan_view(records@.subrange(0, i as int)),
            decreases records.len() - i,
        {
            let rec = &records[i];
            assert(records@.subrange(0, i + 1).drop_last() =~= records@.subrange(0, i as int));
            assert(records@.subrange(0, i + 1).last() == *rec);
            let found = Self::detect(rec);
            let ghost before = out@;
            let mut j: usize = 0;
            while j < found.len()
                invariant
                    j <= found@.len(),
                    out@.len() == before.len() + j,
                    forall|k: int| 0 <= k < before.len() ==> out@[k] == before[k],
                    forall|k: int|
                        0 <= k < j ==> (#[trigger] out@[before.len() + k]).0@ == rec.id@
                            && detection_view(out@[before.len() + k].1) == detection_view(
                            found@[k],
                        ),
                decreases found.len() - j,
            {
                out.push((rec.id.clone(), found[j].clone_detection()));
                j = j + 1;
            }
            proof {
                let f = |p: (String, PiiDetection)| (p.0@, detection_view(p.1));
                let g = |d: DetectionView| (rec.id@, d);
                let lhs = out@.map_values(f);
                let rhs = before.map_values(f) + detection_views(found@).map_values(g);
                assert(lhs.len() == rhs.len());
                assert forall|k: int| 0 <= k < lhs.len() implies lhs[k] == rhs[k] by {
                    if k < before.len() {
                        assert(out@[k] == before[k]);
                    } else {
                        let k2 = k - before.len();
                        assert(out@[before.len() + k2].0@ == rec.id@);
                        assert(detection_view(out@[before.len() + k2].1) == detection_view(found@[k2]));
                    }
                }
                assert(lhs =~= rhs);
            }
            i = i + 1;
        }
        assert(records@.subrange(0, records@.len() as int) =~= records@);
        out
    }
}

impl PiiDetection {
    /// A copy of the detection.
    pub fn clone_detection(&self) -> (r: PiiDetection)
        ensures
            detection_view(r) == detection_view(*self),
    {
        PiiDetection {
            field: self.field.clone(),
            pii_type: self.pii_type.duplicate(),
            confidence: self.confidence,
            value_preview: self.value_preview.clone(),
        }
    }
}


/// Redaction touches only the fields that a detection names: every other field keeps
/// its value (and each field name stays once).
pub proof fn lemma_redact_keeps_other_fields(
    m: Seq<(Seq<char>, JsonView)>,
    dets: Seq<DetectionView>,
    kinds: Seq<PiiKind>,
    method: RedactionMethod,
    f: Seq<char>,
)
    requires
        keys_unique(m),
        forall|i: int| 0 <= i < dets.len() ==> (#[trigger] dets[i]).field != f,
    ensures
        keys_unique(redact_fields(m, dets, kinds, method)),
        lookup(redact_fields(m, dets, kinds, method), f) == lookup(m, f),
    decreases dets.len(),
{
    if dets.len() > 0 {
        let d = dets.last();
        assert(dets[dets.len() - 1] == d);
        assert forall|i: int| 0 <= i < dets.drop_last().len() implies (#[trigger] dets.drop_last()[i]).field != f by {
            assert(dets.drop_last()[i] == dets[i]);
        }
        lemma_redact_keeps_other_fields(m, dets.drop_last(), kinds, method, f);
        let m1 = redact_fields(m, dets.drop_last(), kinds, method);
        if kinds.contains(d.pii_type) {
            match lookup(m1, d.field) {
                Some(JsonView::Str(v)) => {
                    lemma_lookup_after_write(m1, d.field, JsonView::Str(redaction_text(v, d.pii_type, method)), f);
                },
                _ => {},
            }
        }
    }
}

/// The ASCII digits of a text are exactly the chars between `0` and `9`, in order.
proof fn lemma_digits_only_filter(v: Seq<char>)
    ensures
        digits_only(v) == v.filter(|c: char| '0' <= c && c <= '9'),
    decreases v.len(),
{
    reveal(Seq::filter);
    if v.len() > 0 {
        lemma_digits_only_filter(v.drop_last());
    }
}

/// Phone numbers: a value is detected as a phone number exactly when it holds from
/// 10 to 15 ASCII digits and is shorter than 20 bytes, whatever other chars (dashes,
/// spaces, brackets) stand between the digits; the detection has confidence 700 and
/// the whole value as its preview.
pub proof fn law_phone_detection(field: Seq<char>, v: Seq<char>)
    ensures
        (exists|i: int|
            0 <= i < detections_for(field, v).len() && (#[trigger] detections_for(field, v)[i]).pii_type
                == PiiKind::Phone) <==> (10 <= v.filter(|c: char| '0' <= c && c <= '9').len() <= 15
            && encode_utf8(v).len() < 20),
        (10 <= v.filter(|c: char| '0' <= c && c <= '9').len() <= 15 && encode_utf8(v).len() < 20)
            ==> detections_for(field, v).contains(
            DetectionView { field, pii_type: PiiKind::Phone, confidence: 700, value_preview: v },
        ),
{
    lemma_digits_only_filter(v);
    let d = detections_for(field, v);
    let a = if looks_like_email(v) { found(field, PiiKind::Email, 950, v) } else { Seq::empty() };
    let b = if looks_like_phone(v) { found(field, PiiKind::Phone, 700, v) } else { Seq::empty() };
    let c = if looks_like_ssn(v) { found(field, PiiKind::Ssn, 900, v) } else { Seq::empty() };
    let e = if looks_like_card(v) { found(field, PiiKind::CreditCard, 850, v) } else { Seq::empty() };
    let f = if looks_like_ip(v) { found(field, PiiKind::IpAddress, 900, v) } else { Seq::empty() };
    assert(d == a + b + c + e + f);
    if looks_like_phone(v) {
        assert(d[a.len() as int] == b[0]);
        assert(d.contains(DetectionView { field, pii_type: PiiKind::Phone, confidence: 700, value_preview: v }));
    } else {
        assert forall|i: int| 0 <= i < d.len() implies (#[trigger] d[i]).pii_type != PiiKind::Phone by {
            if i < a.len() {
                assert(d[i] == a[i]);
            } else if i < a.len() + c.len() {
                assert(d[i] == c[i - a.len()]);
            } else if i < a.len() + c.len() + e.len() {
                assert(d[i] == e[i - a.len() - c.len()]);
            } else {
                assert(d[i] == f[i - a.len() - c.len() - e.len()]);
            }
        }
    }
}

/// The confidence that detection gives each kind.
pub open spec fn kind_confidence(k: PiiKind) -> u32 {
    match k {
        PiiKind::Email => 950,
        PiiKind::Phone => 700,
        PiiKind::Ssn => 900,
        PiiKind::CreditCard => 850,
        _ => 900,
    }
}

/// The place of a kind in the order of detection: e-mail, phone, SSN, credit card,
/// IP address.
pub open spec fn kind_rank(k: PiiKind) -> int {
    match k {
        PiiKind::Email => 0,
        PiiKind::Phone => 1,
        PiiKind::Ssn => 2,
        PiiKind::CreditCard => 3,
        _ => 4,
    }
}

/// Some detection of a value has the kind `k`.
pub open spec fn detected_as(field: Seq<char>, v: Seq<char>, k: PiiKind) -> bool {
    exists|i: int| 0 <= i < detections_for(field, v).len() && (#[trigger] detections_for(field, v)[i]).pii_type == k
}

proof fn lemma_detected_kinds(field: Seq<char>, v: Seq<char>)
    ensures
        detected_as(field, v, PiiKind::Email) == looks_like_email(v),
        detected_as(field, v, PiiKind::Phone) == looks_like_phone(v),
        detected_as(field, v, PiiKind::Ssn) == looks_like_ssn(v),
        detected_as(field, v, PiiKind::CreditCard) == looks_like_card(v),
        detected_as(field, v, PiiKind::IpAddress) == looks_like_ip(v),
        forall|i: int| 0 <= i < detections_for(field, v).len() ==> {
            let d = #[trigger] detections_for(field, v)[i];
            &&& d.field == field
            &&& d.value_preview == preview(v)
            &&& d.confidence == kind_confidence(d.pii_type)
            &&& (d.pii_type == PiiKind::Email || d.pii_type == PiiKind::Phone || d.pii_type == PiiKind::Ssn
                || d.pii_type == PiiKind::CreditCard || d.pii_type == PiiKind::IpAddress)
        },
{
    let d = detections_for(field, v);
    let a = if looks_like_email(v) { found(field, PiiKind::Email, 950, v) } else { Seq::empty() };
    let b = if looks_like_phone(v) { found(field, PiiKind::Phone, 700, v) } else { Seq::empty() };
    let c = if looks_like_ssn(v) { found(field, PiiKind::Ssn, 900, v) } else { Seq::empty() };
    let e = if looks_like_card(v) { found(field, PiiKind::CreditCard, 850, v) } else { Seq::empty() };
    let f = if looks_like_ip(v) { found(field, PiiKind::IpAddress, 900, v) } else { Seq::empty() };
    assert(d == a + b + c + e + f);
    assert forall|i: int| 0 <= i < d.len() implies {
        ||| (d[i] == a[i] && i < a.len())
        ||| (d[i] == b[i - a.len()] && a.len() <= i < a.len() + b.len())
        ||| (d[i] == c[i - a.len() - b.len()] && a.len() + b.len() <= i < a.len() + b.len() + c.len())
        ||| (d[i] == e[i - a.len() - b.len() - c.len()] && a.len() + b.len() + c.len() <= i < a.len()
            + b.len() + c.len() + e.len())
        ||| (d[i] == f[i - a.len() - b.len() - c.len() - e.len()] && a.len() + b.len() + c.len() + e.len()
            <= i)
    } by {}
    if looks_like_email(v) {
        assert(d[0] == a[0]);
    }
    if looks_like_phone(v) {
        assert(d[a.len() as int] == b[0]);
    }
    if looks_like_ssn(v) {
        assert(d[(a.len() + b.len()) as int] == c[0]);
    }
    if looks_like_card(v) {
        assert(d[(a.len() + b.len() + c.len()) as int] == e[0]);
    }
    if looks_like_ip(v) {
        assert(d[(a.len() + b.len() + c.len() + e.len()) as int] == f[0]);
    }
}

/// Every detection of a value names the field, carries the confidence of its kind
/// (e-mail 950, phone 700, SSN 900, credit card 850, IP address 900) and the
/// value's preview, which is the whole value when it is at most 20 bytes long; the
/// kinds come in that order, each at most once.
pub proof fn law_detection_shape(field: Seq<char>, v: Seq<char>)
    ensures
        forall|i: int| 0 <= i < detections_for(field, v).len() ==> {
            let d = #[trigger] detections_for(field, v)[i];
            &&& d.field == field
            &&& d.confidence == kind_confidence(d.pii_type)
            &&& (encode_utf8(v).len() <= 20 ==> d.value_preview == v)
        },
        forall|i: int, j: int|
            0 <= i < j < detections_for(field, v).len() ==> kind_rank((#[trigger] detections_for(field, v)[i]).pii_type)
                < kind_rank((#[trigger] detections_for(field, v)[j]).pii_type),
        detections_for(field, v).len() <= 5,
{
    lemma_detected_kinds(field, v);
    let d = detections_for(field, v);
    let a = if looks_like_email(v) { found(field, PiiKind::Email, 950, v) } else { Seq::empty() };
    let b = if looks_like_phone(v) { found(field, PiiKind::Phone, 700, v) } else { Seq::empty() };
    let c = if looks_like_ssn(v) { found(field, PiiKind::Ssn, 900, v) } else { Seq::empty() };
    let e = if looks_like_card(v) { found(field, PiiKind::CreditCard, 850, v) } else { Seq::empty() };
    let f = if looks_like_ip(v) { found(field, PiiKind::IpAddress, 900, v) } else { Seq::empty() };
    assert(d == a + b + c + e + f);
    let rank_at = |i: int| if i < a.len() {
        0int
    } else if i < a.len() + b.len() {
        1int
    } else if i < a.len() + b.len() + c.len() {
        2int
    } else if i < a.len() + b.len() + c.len() + e.len() {
        3int
    } else {
        4int
    };
    assert forall|i: int| 0 <= i < d.len() implies kind_rank(#[trigger] d[i].pii_type) == rank_at(i) by {
        if i < a.len() {
            assert(d[i] == a[i]);
        } else if i < a.len() + b.len() {
            assert(d[i] == b[i - a.len()]);
        } else if i < a.len() + b.len() + c.len() {
            assert(d[i] == c[i - a.len() - b.len()]);
        } else if i < a.len() + b.len() + c.len() + e.len() {
            assert(d[i] == e[i - a.len() - b.len() - c.len()]);
        } else {
            assert(d[i] == f[i - a.len() - b.len() - c.len() - e.len()]);
        }
    }
}

/// Social security numbers: a value is detected as one exactly when it is eleven
/// bytes long, with `-` at positions 3 and 6 and an ASCII digit everywhere else
/// (`NNN-NN-NNNN`).
pub proof fn law_ssn_detection(field: Seq<char>, v: Seq<char>)
    ensures
        detected_as(field, v, PiiKind::Ssn) <==> (encode_utf8(v).len() == 11 && forall|i: int|
            0 <= i < v.len() ==> if i == 3 || i == 6 {
                #[trigger] v[i] == '-'
            } else {
                '0' <= v[i] && v[i] <= '9'
            }),
{
    lemma_detected_kinds(field, v);
}

/// Credit card numbers: a value is detected as one exactly when it holds from 13 to
/// 19 ASCII digits that pass the Luhn check, and is shorter than 25 bytes, whatever
/// separators stand between the digits.
pub proof fn law_card_detection(field: Seq<char>, v: Seq<char>)
    ensures
        detected_as(field, v, PiiKind::CreditCard) <==> ({
            let ds = v.filter(|c: char| '0' <= c && c <= '9');
            13 <= ds.len() <= 19 && encode_utf8(v).len() < 25 && luhn_valid(ds)
        }),
{
    lemma_detected_kinds(field, v);
    lemma_digits_only_filter(v);
}

proof fn lemma_split_none(s: Seq<char>, c: char, start: int, i: int)
    requires
        0 <= start <= i <= s.len(),
        forall|k: int| i <= k < s.len() ==> s[k] != c,
    ensures
        split_from(s, c, start, i) == seq![s.subrange(start, s.len() as int)],
    decreases s.len() - i,
{
    if i < s.len() {
        lemma_split_none(s, c, start, i + 1);
    }
}

proof fn lemma_split_at(s: Seq<char>, c: char, start: int, i: int, a: int)
    requires
        0 <= start <= i <= a < s.len(),
        s[a] == c,
        forall|k: int| i <= k < a ==> s[k] != c,
    ensures
        split_from(s, c, start, i) == seq![s.subrange(start, a)] + split_from(s, c, a + 1, a + 1),
    decreases a - i,
{
    if i < a {
        lemma_split_at(s, c, start, i + 1, a);
    }
}

proof fn lemma_split_nonempty(s: Seq<char>, c: char, start: int, i: int)
    ensures
        split_from(s, c, start, i).len() >= 1,
    decreases s.len() - i,
{
    if !(i < start || start < 0 || i >= s.len()) {
        if s[i] == c {
            lemma_split_nonempty(s, c, i + 1, i + 1);
        } else {
            lemma_split_nonempty(s, c, start, i + 1);
        }
    }
}

/// Splitting at a char gives two pieces exactly when the char occurs once, and then
/// the second piece is what follows it.
proof fn lemma_split_once(s: Seq<char>, c: char)
    ensures
        (split(s, c).len() == 2) == (exists|a: int|
            0 <= a < s.len() && s[a] == c && forall|j: int| 0 <= j < s.len() && #[trigger] s[j] == c ==> j == a),
        forall|a: int|
            0 <= a < s.len() && s[a] == c && (forall|j: int| 0 <= j < s.len() && #[trigger] s[j] == c ==> j == a)
                ==> #[trigger] split(s, c)[1] == s.subrange(a + 1, s.len() as int),
{
    if exists|a: int| 0 <= a < s.len() && s[a] == c {
        assert(exists|a: int| 0 <= a < s.len() && s[a] == c && forall|k: int| 0 <= k < a ==> s[k] != c) by {
            let w = choose|a: int| 0 <= a < s.len() && s[a] == c;
            lemma_first_occurrence(s, c, w);
        }
        let a = choose|a: int| 0 <= a < s.len() && s[a] == c && forall|k: int| 0 <= k < a ==> s[k] != c;
        lemma_split_at(s, c, 0, 0, a);
        if exists|b: int| a < b < s.len() && s[b] == c {
            let w = choose|b: int| a < b < s.len() && s[b] == c;
            lemma_first_occurrence_from(s, c, a + 1, w);
            let b = choose|b: int| a < b < s.len() && s[b] == c && forall|k: int| a < k < b ==> s[k] != c;
            lemma_split_at(s, c, a + 1, a + 1, b);
            lemma_split_nonempty(s, c, b + 1, b + 1);
            assert(split(s, c).len() >= 3);
            assert(!forall|j: int| 0 <= j < s.len() && #[trigger] s[j] == c ==> j == a);
            assert forall|a2: int| 0 <= a2 < s.len() && s[a2] == c implies !(forall|j: int|
                0 <= j < s.len() && #[trigger] s[j] == c ==> j == a2) by {
                if a2 != a {
                    assert(s[a] == c);
                } else {
                    assert(s[b] == c);
                }
            }
        } else {
            lemma_split_none(s, c, a + 1, a + 1);
            assert(split(s, c) =~= seq![s.subrange(0, a), s.subrange(a + 1, s.len() as int)]);
            assert forall|j: int| 0 <= j < s.len() && #[trigger] s[j] == c implies j == a by {
                if j < a {
                    assert(s[j] != c);
                }
            }
            assert forall|a2: int|
                0 <= a2 < s.len() && s[a2] == c && (forall|j: int| 0 <= j < s.len() && #[trigger] s[j] == c ==> j == a2)
                    implies #[trigger] split(s, c)[1] == s.subrange(a2 + 1, s.len() as int) by {
                assert(s[a] == c);
            }
        }
    } else {
        lemma_split_none(s, c, 0, 0);
    }
}

proof fn lemma_first_occurrence(s: Seq<char>, c: char, w: int)
    requires
        0 <= w < s.len(),
        s[w] == c,
    ensures
        exists|a: int| 0 <= a < s.len() && s[a] == c && forall|k: int| 0 <= k < a ==> s[k] != c,
    decreases w,
{
    if exists|k: int| 0 <= k < w && s[k] == c {
        let k = choose|k: int| 0 <= k < w && s[k] == c;
        lemma_first_occurrence(s, c, k);
    } else {
        assert(forall|k: int| 0 <= k < w ==> s[k] != c);
    }
}

proof fn lemma_first_occurrence_from(s: Seq<char>, c: char, from: int, w: int)
    requires
        0 <= from <= w < s.len(),
        s[w] == c,
    ensures
        exists|b: int| from <= b < s.len() && s[b] == c && forall|k: int| from <= k < b ==> s[k] != c,
    decreases w - from,
{
    if exists|k: int| from <= k < w && s[k] == c {
        let k = choose|k: int| from <= k < w && s[k] == c;
        lemma_first_occurrence_from(s, c, from, k);
    } else {
        assert(forall|k: int| from <= k < w ==> s[k] != c);
    }
}

/// E-mail addresses: a value is detected as one exactly when it is longer than five
/// bytes and holds exactly one `@`, with a `.` somewhere after it.
pub proof fn law_email_detection(field: Seq<char>, v: Seq<char>)
    ensures
        detected_as(field, v, PiiKind::Email) <==> (encode_utf8(v).len() > 5 && exists|a: int|
            0 <= a < v.len() && v[a] == '@' && (forall|j: int| 0 <= j < v.len() && #[trigger] v[j] == '@' ==> j == a)
                && (exists|k: int| a < k < v.len() && v[k] == '.')),
{
    lemma_detected_kinds(field, v);
    lemma_split_once(v, '@');
    if exists|a: int|
        0 <= a < v.len() && v[a] == '@' && (forall|j: int| 0 <= j < v.len() && #[trigger] v[j] == '@' ==> j == a) {
        let a = choose|a: int|
            0 <= a < v.len() && v[a] == '@' && (forall|j: int| 0 <= j < v.len() && #[trigger] v[j] == '@' ==> j == a);
        let rest = v.subrange(a + 1, v.len() as int);
        assert(split(v, '@')[1] == rest);
        assert(v.contains('@'));
        if rest.contains('.') {
            let k = choose|k: int| 0 <= k < rest.len() && rest[k] == '.';
            assert(v[a + 1 + k] == '.');
            assert(v.contains('.'));
        }
        if exists|k: int| a < k < v.len() && v[k] == '.' {
            let k = choose|k: int| a < k < v.len() && v[k] == '.';
            assert(rest[k - a - 1] == '.');
            assert(rest.contains('.'));
            assert(v.contains('.'));
        }
        assert forall|a2: int|
            0 <= a2 < v.len() && v[a2] == '@' && (forall|j: int| 0 <= j < v.len() && #[trigger] v[j] == '@' ==> j == a2)
                && (exists|k: int| a2 < k < v.len() && v[k] == '.') implies (exists|k: int| a < k < v.len() && v[k] == '.') by {
            assert(v[a] == '@');
        }
    }
}

/// A piece of an IPv4 address: one or more ASCII digits of value at most 255.
pub open spec fn octet_text(p: Seq<char>) -> bool {
    &&& p.len() > 0
    &&& forall|i: int| 0 <= i < p.len() ==> '0' <= #[trigger] p[i] && p[i] <= '9'
    &&& digits_value(p) <= 255
}

/// IPv4 addresses: a value made of four pieces of one or more ASCII digits, each of
/// value at most 255, joined by three dots (and holding no other dot), is detected
/// as an IP address.
pub proof fn law_ip_detection(field: Seq<char>, v: Seq<char>, a: int, b: int, c: int)
    requires
        0 <= a < b < c < v.len(),
        v[a] == '.' && v[b] == '.' && v[c] == '.',
        forall|j: int| 0 <= j < v.len() && #[trigger] v[j] == '.' ==> j == a || j == b || j == c,
        octet_text(v.subrange(0, a)),
        octet_text(v.subrange(a + 1, b)),
        octet_text(v.subrange(b + 1, c)),
        octet_text(v.subrange(c + 1, v.len() as int)),
    ensures
        detected_as(field, v, PiiKind::IpAddress),
{
    lemma_detected_kinds(field, v);
    assert forall|k: int| 0 <= k < a implies v[k] != '.' by {
        if v[k] == '.' {
            assert(k == a || k == b || k == c);
        }
    }
    assert forall|k: int| a + 1 <= k < b implies v[k] != '.' by {
        if v[k] == '.' {
            assert(k == a || k == b || k == c);
        }
    }
    assert forall|k: int| b + 1 <= k < c implies v[k] != '.' by {
        if v[k] == '.' {
            assert(k == a || k == b || k == c);
        }
    }
    assert forall|k: int| c + 1 <= k < v.len() implies v[k] != '.' by {
        if v[k] == '.' {
            assert(k == a || k == b || k == c);
        }
    }
    lemma_split_at(v, '.', 0, 0, a);
    lemma_split_at(v, '.', a + 1, a + 1, b);
    lemma_split_at(v, '.', b + 1, b + 1, c);
    lemma_split_none(v, '.', c + 1, c + 1);
    let parts = split(v, '.');
    assert(parts =~= seq![v.subrange(0, a), v.subrange(a + 1, b), v.subrange(b + 1, c), v.subrange(c + 1, v.len() as int)]);
    assert forall|i: int| 0 <= i < 4 implies #[trigger] parse_u8(parts[i]) is Some by {
        let p = parts[i];
        assert(octet_text(p));
        assert(p.len() > 0 && p[0] != '+');
        assert(all_digits(p));
    }
}

} // verus!
