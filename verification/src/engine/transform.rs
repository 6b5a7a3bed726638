//! Transformation engine: auditable transformation pipelines over records.
//!
//! Every step leaves a receipt with its input and output counts.
use vstd::prelude::*;
use crate::text::{decimal, decimal_exec, push_all, chars_of, string_of, trim, trim_exec, spec_to_upper, spec_to_lower, to_upper, to_lower, starts_with, starts_with_exec, is_ws, skip_ws_from, trim_end_len, trim_start, trim_end, all_ascii, ascii_upper, ascii_lower};
use crate::types::json::{JsonValue, JsonView, json_same, has_same};
use crate::types::json_io::number_order;
use crate::types::json_io::spec_number_order;
use crate::types::record::{DataRecord, FieldMap, lookup, insert_entry, remove_entry, same_record};
use crate::types::record::new_uuid;
use crate::types::lineage::{TransformReceipt, LineageAction, LineageEntry, LineageChain};
use crate::types::now_micros;
use super::query::{FilterOp, QueryFilter, FilterSpec, passes, apply_filter_pub, filter_spec, copies_of};
use super::store::{DataStore, keep, of_node, lineage_added};

verus! {

/// Field-level transform functions.
#[derive(Debug)]
pub enum FieldTransform {
    Uppercase,
    Lowercase,
    Trim,
    Replace { from: String, to: String },
    DefaultIfNull { default: JsonValue },
}

/// Supported transform operations.
#[derive(Debug)]
pub enum TransformOp {
    /// Rename a field.
    RenameField { from: String, to: String },
    /// Drop a field.
    DropField { field: String },
    /// Add a field with a constant value.
    AddField { name: String, value: JsonValue },
    /// Keep only the records that pass a filter.
    Filter { field: String, op: FilterOp, value: JsonValue },
    /// Apply a function to a field's value.
    MapField { field: String, transform: FieldTransform },
    /// Keep the first record of each value of a field.
    Dedup { field: String },
    /// Sort by a field.
    Sort { field: String, ascending: bool },
}

/// A single transformation step.
#[derive(Debug)]
pub struct TransformStep {
    pub name: String,
    pub operation: TransformOp,
}

/// A pipeline of transform steps.
#[derive(Debug)]
pub struct TransformPipeline {
    pub name: String,
    pub steps: Vec<TransformStep>,
}

impl TransformPipeline {
    /// An empty pipeline.
    pub fn new(name: &str) -> (r: TransformPipeline)
        ensures
            r.name@ == name@,
            r.steps@.len() == 0,
    {
        TransformPipeline { name: name.to_owned(), steps: Vec::new() }
    }

    /// Add a step at the end.
    pub fn add(&mut self, step: TransformStep)
        ensures
            final(self).name == old(self).name,
            final(self).steps@ == old(self).steps@.push(step),
    {
        self.steps.push(step);
    }
}

/// Result of applying a transform pipeline.
#[derive(Debug)]
pub struct TransformResult {
    pub records_in: usize,
    pub records_out: usize,
    pub records_dropped: usize,
    pub receipts: Vec<TransformReceipt>,
}

// ---------------------------------------------------------------------------
// Field transforms
// ---------------------------------------------------------------------------
/// `s.replace(from, to)`: every non-overlapping occurrence of `from`, from the left,
/// replaced by `to` (an empty `from` puts `to` before each char and at the end).
pub open spec fn replace_spec(s: Seq<char>, from: Seq<char>, to: Seq<char>) -> Seq<char>
    decreases s.len(),
{
    if from.len() == 0 {
        if s.len() == 0 {
            to
        } else {
            to + seq![s[0]] + replace_spec(s.drop_first(), from, to)
        }
    } else if s.len() < from.len() {
        s
    } else if s.subrange(0, from.len() as int) == from {
        to + replace_spec(s.subrange(from.len() as int, s.len() as int), from, to)
    } else {
        seq![s[0]] + replace_spec(s.drop_first(), from, to)
    }
}

/// `s.replace(from, to)`.
pub fn replace_exec(s: &[char], from: &[char], to: &[char]) -> (r: Vec<char>)
    ensures
        r@ == replace_spec(s@, from@, to@),
{
    let mut out: Vec<char> = Vec::new();
    let mut i: usize = 0;
    assert(s@.subrange(0, s@.len() as int) =~= s@);
    while i < s.len()
        invariant
            i <= s@.len(),
            out@ + replace_spec(s@.subrange(i as int, s@.len() as int), from@, to@) == replace_spec(s@, from@, to@),
        decreases s.len() - i,
    {
        let ghost rest = s@.subrange(i as int, s@.len() as int);
        let n = from.len();
        if n == 0 {
            let mut k: usize = 0;
            let ghost o0 = out@;
            while k < to.len()
                invariant
                    k <= to@.len(),
                    out@ == o0 + to@.subrange(0, k as int),
                decreases to.len() - k,
            {
                out.push(to[k]);
                k = k + 1;
                assert(out@ =~= o0 + to@.subrange(0, k as int));
            }
            out.push(s[i]);
            assert(rest.drop_first() =~= s@.subrange(i + 1, s@.len() as int));
            assert(out@ =~= o0 + (to@ + seq![rest[0]]));
            assert(o0 + (to@ + seq![rest[0]] + replace_spec(rest.drop_first(), from@, to@)) =~= out@ + replace_spec(rest.drop_first(), from@, to@));
            i = i + 1;
        } else if s.len() - i < n {
            assert(replace_spec(rest, from@, to@) == rest);
            let mut k: usize = i;
            let ghost o0 = out@;
            while k < s.len()
                invariant
                    i <= k <= s@.len(),
                    out@ == o0 + s@.subrange(i as int, k as int),
                decreases s.len() - k,
            {
                out.push(s[k]);
                k = k + 1;
                assert(out@ =~= o0 + s@.subrange(i as int, k as int));
            }
            assert(out@ =~= o0 + rest);
            assert(s@.subrange(s@.len() as int, s@.len() as int) =~= Seq::<char>::empty());
            i = s.len();
            assert(replace_spec(Seq::<char>::empty(), from@, to@) =~= Seq::<char>::empty());
        } else {
            let mut same = true;
            let mut k: usize = 0;
            while k < n
                invariant
                    k <= n,
                    n == from@.len(),
                    i + n <= s@.len(),
                    s@.len() == s.len(),
                    same == (forall|j: int| 0 <= j < k ==> s@[i + j] == from@[j]),
                decreases n - k,
            {
                if s[i + k] != from[k] {
                    same = false;
                }
                k = k + 1;
            }
            let ghost o0 = out@;
            if same {
                assert(rest.subrange(0, n as int) =~= from@);
                let mut k2: usize = 0;
                while k2 < to.len()
                    invariant
                        k2 <= to@.len(),
                        out@ == o0 + to@.subrange(0, k2 as int),
                    decreases to.len() - k2,
                {
                    out.push(to[k2]);
                    k2 = k2 + 1;
                    assert(out@ =~= o0 + to@.subrange(0, k2 as int));
                }
                assert(rest.subrange(n as int, rest.len() as int) =~= s@.subrange(i + n, s@.len() as int));
                assert(to@.subrange(0, to@.len() as int) =~= to@);
                i = i + n;
            } else {
                assert(rest.subrange(0, n as int) != from@) by {
                    let j = choose|j: int| 0 <= j < n && !(s@[i + j] == from@[j]);
                    assert(rest.subrange(0, n as int)[j] == s@[i + j]);
                }
                out.push(s[i]);
                assert(rest.drop_first() =~= s@.subrange(i + 1, s@.len() as int));
                assert(o0 + (seq![rest[0]] + replace_spec(rest.drop_first(), from@, to@)) =~= out@ + replace_spec(rest.drop_first(), from@, to@));
                i = i + 1;
            }
        }
    }
    assert(s@.subrange(s@.len() as int, s@.len() as int) =~= Seq::<char>::empty());
    proof {
        if from@.len() == 0 {
            assert(out@ + to@ == replace_spec(s@, from@, to@));
        } else {
            assert(replace_spec(Seq::<char>::empty(), from@, to@) =~= Seq::<char>::empty());
            assert(out@ + Seq::<char>::empty() =~= out@);
        }
    }
    if from.len() == 0 {
        let mut k: usize = 0;
        let ghost o0 = out@;
        while k < to.len()
            invariant
                k <= to@.len(),
                out@ == o0 + to@.subrange(0, k as int),
            decreases to.len() - k,
        {
            out.push(to[k]);
            k = k + 1;
            assert(out@ =~= o0 + to@.subrange(0, k as int));
        }
        assert(to@.subrange(0, to@.len() as int) =~= to@);
    }
    out
}

/// The value after a field transform: string transforms apply to strings only.
pub open spec fn field_transform_spec(v: JsonView, t: FieldTransform) -> JsonView {
    match t {
        FieldTransform::Uppercase => match v {
            JsonView::Str(s) => JsonView::Str(spec_to_upper(s)),
            _ => v,
        },
        FieldTransform::Lowercase => match v {
            JsonView::Str(s) => JsonView::Str(spec_to_lower(s)),
            _ => v,
        },
        FieldTransform::Trim => match v {
            JsonView::Str(s) => JsonView::Str(trim(s)),
            _ => v,
        },
        FieldTransform::Replace { from, to } => match v {
            JsonView::Str(s) => JsonView::Str(replace_spec(s, from@, to@)),
            _ => v,
        },
        FieldTransform::DefaultIfNull { default } => if v == JsonView::Null {
            default@
        } else {
            v
        },
    }
}

/// Apply a field transform to a value.
pub fn apply_field_transform(val: &JsonValue, transform: &FieldTransform) -> (r: JsonValue)
    ensures
        r@ == field_transform_spec(val@, *transform),
        *transform is Uppercase && val@ is Str && all_ascii(val@->Str_0) ==> r@ == JsonView::Str(
            val@->Str_0.map_values(|c: char| ascii_upper(c)),
        ),
        *transform is Lowercase && val@ is Str && all_ascii(val@->Str_0) ==> r@ == JsonView::Str(
            val@->Str_0.map_values(|c: char| ascii_lower(c)),
        ),
{
    match transform {
        FieldTransform::DefaultIfNull { default } => {
            if val.is_null() {
                default.deep_clone()
            } else {
                val.deep_clone()
            }
        },
        _ => match val {
            JsonValue::Str(s) => {
                let cs = chars_of(s.as_str());
                let t = match transform {
                    FieldTransform::Uppercase => to_upper(&cs),
                    FieldTransform::Lowercase => to_lower(&cs),
                    FieldTransform::Trim => trim_exec(&cs),
                    FieldTransform::Replace { from, to } => replace_exec(
                        &cs,
                        &chars_of(from.as_str()),
                        &chars_of(to.as_str()),
                    ),
                    FieldTransform::DefaultIfNull { .. } => cs,
                };
                JsonValue::Str(string_of(&t))
            },
            _ => val.deep_clone(),
        },
    }
}

// ---------------------------------------------------------------------------
// Steps
// ---------------------------------------------------------------------------
/// Two records that agree on everything but their fields.
pub open spec fn same_meta(a: DataRecord, b: DataRecord) -> bool {
    &&& a.id@ == b.id@
    &&& a.source_id@ == b.source_id@
    &&& a.schema_node@ == b.schema_node@
    &&& a.status == b.status
    &&& a.version == b.version
    &&& a.created_at == b.created_at
    &&& a.updated_at == b.updated_at
    &&& a.checksum@ == b.checksum@
    &&& a.compressed_size == b.compressed_size
    &&& a.raw_size == b.raw_size
}

/// The fields after a field-level operation (rename, drop, add, map); other
/// operations leave them as they are.
pub open spec fn op_fields(op: TransformOp, f: Seq<(Seq<char>, JsonView)>) -> Seq<(Seq<char>, JsonView)> {
    match op {
        TransformOp::RenameField { from, to } => match lookup(f, from@) {
            Some(v) => insert_entry(remove_entry(f, from@), to@, v),
            None => f,
        },
        TransformOp::DropField { field } => remove_entry(f, field@),
        TransformOp::AddField { name, value } => insert_entry(f, name@, value@),
        TransformOp::MapField { field, transform } => match lookup(f, field@) {
            Some(v) => insert_entry(f, field@, field_transform_spec(v, transform)),
            None => f,
        },
        _ => f,
    }
}

/// Records that pass a filter.
pub open spec fn passing(fs: FilterSpec) -> spec_fn(DataRecord) -> bool {
    |x: DataRecord| passes(x.fields@, fs)
}

/// The value a record is deduplicated on: the field's value, `null` when missing.
pub open spec fn dedup_key(r: DataRecord, field: Seq<char>) -> JsonView {
    match lookup(r.fields@, field) {
        Some(v) => v,
        None => JsonView::Null,
    }
}

/// The values of a sequence of JSON values.
pub open spec fn value_views(s: Seq<JsonValue>) -> Seq<JsonView> {
    s.map_values(|x: JsonValue| x@)
}

/// The deduplication values of a sequence of records.
pub open spec fn dedup_keys(s: Seq<DataRecord>, field: Seq<char>) -> Seq<JsonView> {
    s.map_values(|r: DataRecord| dedup_key(r, field))
}

/// The records whose value of `field` equals (as `Value`'s `==` compares) the value of
/// no record kept before it, in order.
pub open spec fn dedup_spec(s: Seq<DataRecord>, field: Seq<char>) -> Seq<DataRecord>
    decreases s.len(),
{
    if s.len() == 0 {
        Seq::empty()
    } else {
        let d = dedup_spec(s.drop_last(), field);
        if has_same(dedup_keys(d, field), dedup_key(s.last(), field)) {
            d
        } else {
            d.push(s.last())
        }
    }
}

/// The order of two optional values as numbers (0 unless both are numbers).
pub open spec fn json_order(a: Option<JsonView>, b: Option<JsonView>) -> i8 {
    match (a, b) {
        (Some(x), Some(y)) => match spec_number_order(x, y) {
            Some(c) => c,
            None => 0,
        },
        _ => 0,
    }
}

/// The order of two records by a field, reversed when descending.
pub open spec fn key_order(a: DataRecord, b: DataRecord, field: Seq<char>, ascending: bool) -> i8 {
    let c = json_order(lookup(a.fields@, field), lookup(b.fields@, field));
    if ascending {
        c
    } else {
        (-c) as i8
    }
}

/// `x` inserted into `t` after its last element that does not sort after `x`.
pub open spec fn sort_insert(t: Seq<DataRecord>, x: DataRecord, field: Seq<char>, ascending: bool) -> Seq<DataRecord>
    decreases t.len(),
{
    if t.len() == 0 {
        seq![x]
    } else if key_order(t.last(), x, field, ascending) == 1 {
        sort_insert(t.drop_last(), x, field, ascending).push(t.last())
    } else {
        t.push(x)
    }
}

/// The records stably sorted by a field: each record inserted after those before it
/// that do not sort after it.
pub open spec fn sorted_by(s: Seq<DataRecord>, field: Seq<char>, ascending: bool) -> Seq<DataRecord>
    decreases s.len(),
{
    if s.len() == 0 {
        Seq::empty()
    } else {
        sort_insert(sorted_by(s.drop_last(), field, ascending), s.last(), field, ascending)
    }
}

/// No record sorts after the next one.
pub open spec fn in_order(t: Seq<DataRecord>, field: Seq<char>, ascending: bool) -> bool {
    forall|i: int| 0 <= i < t.len() - 1 ==> key_order(#[trigger] t[i], t[i + 1], field, ascending) != 1
}

/// What a step does to the records: filters, deduplication and sorts keep copies of
/// some of the records; the other operations change each record's fields.
pub open spec fn step_result(out: Seq<DataRecord>, inp: Seq<DataRecord>, op: TransformOp) -> bool {
    match op {
        TransformOp::Filter { field, op, value } => copies_of(
            out,
            keep(inp, passing((field@, op, value@))),
        ),
        TransformOp::Dedup { field } => copies_of(out, dedup_spec(inp, field@)),
        TransformOp::Sort { field, ascending } => copies_of(out, sorted_by(inp, field@, ascending))
            && in_order(out, field@, ascending),
        _ => {
            &&& out.len() == inp.len()
            &&& forall|i: int|
                0 <= i < out.len() ==> same_meta(#[trigger] out[i], inp[i]) && out[i].fields@
                    == op_fields(op, inp[i].fields@)
        },
    }
}

/// The record with other fields.
fn with_fields(r: &DataRecord, fields: FieldMap) -> (out: DataRecord)
    ensures
        same_meta(out, *r),
        out.fields@ == fields@,
{
    DataRecord {
        id: r.id.clone(),
        source_id: r.source_id.clone(),
        schema_node: r.schema_node.clone(),
        fields,
        status: r.status,
        version: r.version,
        created_at: r.created_at,
        updated_at: r.updated_at,
        checksum: r.checksum.clone(),
        compressed_size: r.compressed_size,
        raw_size: r.raw_size,
    }
}

/// The fields of a record after a field-level operation.
fn op_fields_exec(op: &TransformOp, f: &FieldMap) -> (r: FieldMap)
    ensures
        r@ == op_fields(*op, f@),
{
    let mut fields = f.duplicate();
    match op {
        TransformOp::RenameField { from, to } => {
            match fields.remove(from.as_str()) {
                Some(val) => {
                    fields.insert(to.clone(), val);
                },
                None => {},
            }
        },
        TransformOp::DropField { field } => {
            let _ = fields.remove(field.as_str());
        },
        TransformOp::AddField { name, value } => {
            fields.insert(name.clone(), value.deep_clone());
        },
        TransformOp::MapField { field, transform } => {
            let nv = match fields.get(field.as_str()) {
                Some(val) => Some(apply_field_transform(val, transform)),
                None => None,
            };
            match nv {
                Some(v) => {
                    fields.insert(field.clone(), v);
                },
                None => {},
            }
        },
        _ => {},
    }
    fields
}

/// The order of two records by a field (0 unless both values are numbers),
/// reversed when descending.
fn key_order_exec(a: &DataRecord, b: &DataRecord, field: &str, ascending: bool) -> (r: i8)
    ensures
        r == key_order(*a, *b, field@, ascending),
        -1 <= r <= 1,
        r == 1 ==> key_order(*b, *a, field@, ascending) == -1,
{
    let c: i8 = match (a.get(field), b.get(field)) {
        (Some(x), Some(y)) => match number_order(x, y) {
            Some(c) => c,
            None => 0,
        },
        _ => 0,
    };
    if ascending {
        c
    } else {
        -c
    }
}

proof fn lemma_sort_insert_at(t: Seq<DataRecord>, x: DataRecord, field: Seq<char>, ascending: bool, j: int)
    requires
        0 <= j <= t.len(),
        forall|k: int| j <= k < t.len() ==> key_order(#[trigger] t[k], x, field, ascending) == 1,
        j > 0 ==> key_order(t[j - 1], x, field, ascending) != 1,
    ensures
        sort_insert(t, x, field, ascending) == t.subrange(0, j).push(x) + t.subrange(j, t.len() as int),
    decreases t.len(),
{
    if t.len() == 0 {
        assert(t.subrange(0, 0).push(x) + t.subrange(0, 0) =~= seq![x]);
    } else if j == t.len() {
        assert(t.subrange(0, j).push(x) + t.subrange(j, t.len() as int) =~= t.push(x));
    } else {
        lemma_sort_insert_at(t.drop_last(), x, field, ascending, j);
        assert(t.drop_last().subrange(0, j) =~= t.subrange(0, j));
        assert(t.subrange(0, j).push(x) + t.subrange(j, t.len() as int) =~= (t.subrange(0, j).push(x)
            + t.drop_last().subrange(j, t.drop_last().len() as int)).push(t.last()));
    }
}

/// A copy of each record, in order.
fn copy_records(records: &[DataRecord]) -> (r: Vec<DataRecord>)
    ensures
        copies_of(r@, records@),
{
    let mut out: Vec<DataRecord> = Vec::new();
    let mut i: usize = 0;
    while i < records.len()
        invariant
            i <= records@.len(),
            out@.len() == i,
            forall|k: int| 0 <= k < i ==> same_record(#[trigger] out@[k], records@[k]),
        decreases records.len() - i,
    {
        out.push(records[i].duplicate());
        i = i + 1;
    }
    out
}

/// Sort copies of the records by a field, stably.
fn sort_records(records: &[DataRecord], field: &str, ascending: bool) -> (r: Vec<DataRecord>)
    ensures
        copies_of(r@, sorted_by(records@, field@, ascending)),
        in_order(r@, field@, ascending),
{
    let mut out: Vec<DataRecord> = Vec::new();
    let mut i: usize = 0;
    while i < records.len()
        invariant
            i <= records@.len(),
            copies_of(out@, sorted_by(records@.subrange(0, i as int), field@, ascending)),
            in_order(out@, field@, ascending),
        decreases records.len() - i,
    {
        let ghost t = sorted_by(records@.subrange(0, i as int), field@, ascending);
        let ghost x = records@[i as int];
        assert(records@.subrange(0, i + 1).drop_last() =~= records@.subrange(0, i as int));
        let mut j: usize = out.len();
        while j > 0 && key_order_exec(&out[j - 1], &records[i], field, ascending) == 1
            invariant
                j <= out@.len(),
                i < records@.len(),
                copies_of(out@, t),
                x == records@[i as int],
                forall|k: int| j <= k < t.len() ==> key_order(#[trigger] t[k], x, field@, ascending) == 1,
                j < out@.len() ==> key_order(x, out@[j as int], field@, ascending) == -1,
            decreases j,
        {
            assert(same_record(out@[j - 1], t[j - 1]));
            assert(key_order(out@[j - 1], x, field@, ascending) == key_order(t[j - 1], x, field@, ascending));
            j = j - 1;
        }
        let ghost before_ok = j > 0 ==> key_order(out@[j - 1], x, field@, ascending) != 1;
        proof {
            if j > 0 {
                assert(same_record(out@[j - 1], t[j - 1]));
                assert(key_order(out@[j - 1], x, field@, ascending) == key_order(t[j - 1], x, field@, ascending));
            }
            lemma_sort_insert_at(t, x, field@, ascending, j as int);
        }
        let ghost o0 = out@;
        out.insert(j, records[i].duplicate());
        proof {
            let n = t.subrange(0, j as int).push(x) + t.subrange(j as int, t.len() as int);
            assert forall|k: int| 0 <= k < out@.len() implies same_record(#[trigger] out@[k], n[k]) by {
                if k < j {
                    assert(out@[k] == o0[k]);
                    assert(n[k] == t[k]);
                } else if k > j {
                    assert(out@[k] == o0[k - 1]);
                    assert(n[k] == t[k - 1]);
                }
            }
            assert(same_record(out@[j as int], x));
            assert forall|k: int| 0 <= k < out@.len() - 1 implies key_order(#[trigger] out@[k], out@[k + 1], field@, ascending) != 1 by {
                if k + 1 < j {
                    assert(out@[k] == o0[k] && out@[k + 1] == o0[k + 1]);
                } else if k + 1 == j {
                    assert(out@[k] == o0[k]);
                    assert(before_ok);
                } else if k == j {
                    assert(out@[k + 1] == o0[k]);
                } else {
                    assert(out@[k] == o0[k - 1] && out@[k + 1] == o0[k]);
                }
            }
        }
        i = i + 1;
    }
    assert(records@.subrange(0, records@.len() as int) =~= records@);
    out
}

/// Apply one operation to the records, returning the new records.
pub fn apply_step(records: &[DataRecord], op: &TransformOp) -> (r: Vec<DataRecord>)
    ensures
        step_result(r@, records@, *op),
{
    match op {
        TransformOp::Filter { field, op: fop, value } => {
            let filter = QueryFilter { field: field.clone(), op: *fop, value: value.deep_clone() };
            let ghost fs = (field@, *fop, value@);
            let mut out: Vec<DataRecord> = Vec::new();
            let mut i: usize = 0;
            while i < records.len()
                invariant
                    i <= records@.len(),
                    filter_spec(filter) == fs,
                    copies_of(out@, keep(records@.subrange(0, i as int), passing(fs))),
                decreases records.len() - i,
            {
                assert(records@.subrange(0, i + 1).drop_last() =~= records@.subrange(0, i as int));
                if apply_filter_pub(&records[i], &filter) {
                    let ghost o0 = out@;
                    out.push(records[i].duplicate());
                    assert forall|k: int| 0 <= k < out@.len() implies same_record(#[trigger] out@[k], keep(records@.subrange(0, i + 1), passing(fs))[k]) by {
                        if k < o0.len() {
                            assert(out@[k] == o0[k]);
                        }
                    }
                }
                i = i + 1;
            }
            assert(records@.subrange(0, records@.len() as int) =~= records@);
            out
        },
        TransformOp::Dedup { field } => {
            let mut seen: Vec<JsonValue> = Vec::new();
            let mut out: Vec<DataRecord> = Vec::new();
            let mut i: usize = 0;
            while i < records.len()
                invariant
                    i <= records@.len(),
                    copies_of(out@, dedup_spec(records@.subrange(0, i as int), field@)),
                    value_views(seen@) == dedup_keys(dedup_spec(records@.subrange(0, i as int), field@), field@),
                decreases records.len() - i,
            {
                let ghost pre = records@.subrange(0, i as int);
                let ghost sv0 = value_views(seen@);
                assert(records@.subrange(0, i + 1).drop_last() =~= pre);
                let key = match records[i].get(field.as_str()) {
                    Some(v) => v.deep_clone(),
                    None => JsonValue::Null,
                };
                assert(key@ == dedup_key(records@[i as int], field@));
                let mut found = false;
                let mut k: usize = 0;
                while k < seen.len()
                    invariant
                        k <= seen@.len(),
                        sv0 == value_views(seen@),
                        found == (exists|j: int| 0 <= j < k && #[trigger] json_same(sv0[j], key@)),
                    decreases seen.len() - k,
                {
                    assert(sv0[k as int] == seen@[k as int]@);
                    if seen[k].equals(&key) {
                        found = true;
                    }
                    assert(found == (exists|j: int| 0 <= j < k + 1 && #[trigger] json_same(sv0[j], key@))) by {
                        if found && !(exists|j: int| 0 <= j < k && #[trigger] json_same(sv0[j], key@)) {
                            assert(json_same(sv0[k as int], key@));
                        }
                    }
                    k = k + 1;
                }
                assert(found == has_same(sv0, key@));
                if !found {
                    let ghost o0 = out@;
                    let ghost key_v = key@;
                    let ghost d0 = dedup_spec(pre, field@);
                    out.push(records[i].duplicate());
                    seen.push(key);
                    assert(value_views(seen@) =~= sv0.push(key_v));
                    assert(dedup_keys(d0.push(records@[i as int]), field@) =~= dedup_keys(d0, field@).push(key_v));
                    assert forall|q: int| 0 <= q < out@.len() implies same_record(#[trigger] out@[q], dedup_spec(records@.subrange(0, i + 1), field@)[q]) by {
                        if q < o0.len() {
                            assert(out@[q] == o0[q]);
                        }
                    }
                }
                i = i + 1;
            }
            assert(records@.subrange(0, records@.len() as int) =~= records@);
            out
        },
        TransformOp::Sort { field, ascending } => sort_records(records, field.as_str(), *ascending),
        _ => {
            let mut out: Vec<DataRecord> = Vec::new();
            let mut i: usize = 0;
            while i < records.len()
                invariant
                    i <= records@.len(),
                    out@.len() == i,
                    forall|k: int|
                        0 <= k < i ==> same_meta(#[trigger] out@[k], records@[k]) && out@[k].fields@
                            == op_fields(*op, records@[k].fields@),
                decreases records.len() - i,
            {
                let fields = op_fields_exec(op, &records[i].fields);
                out.push(with_fields(&records[i], fields));
                i = i + 1;
            }
            out
        },
    }
}

/// Whether an operation can be undone: renames, added fields and sorts.
pub open spec fn reversible(op: TransformOp) -> bool {
    op is RenameField || op is AddField || op is Sort
}

fn is_reversible(op: &TransformOp) -> (r: bool)
    ensures
        r == reversible(*op),
{
    match op {
        TransformOp::RenameField { .. } => true,
        TransformOp::AddField { .. } => true,
        TransformOp::Sort { .. } => true,
        _ => false,
    }
}

proof fn lemma_keep_len<A>(s: Seq<A>, p: spec_fn(A) -> bool)
    ensures
        keep(s, p).len() <= s.len(),
    decreases s.len(),
{
    if s.len() > 0 {
        lemma_keep_len(s.drop_last(), p);
    }
}

proof fn lemma_dedup_len(s: Seq<DataRecord>, field: Seq<char>)
    ensures
        dedup_spec(s, field).len() <= s.len(),
    decreases s.len(),
{
    if s.len() > 0 {
        lemma_dedup_len(s.drop_last(), field);
    }
}

proof fn lemma_sort_insert_len(t: Seq<DataRecord>, x: DataRecord, field: Seq<char>, ascending: bool)
    ensures
        sort_insert(t, x, field, ascending).len() == t.len() + 1,
    decreases t.len(),
{
    if t.len() > 0 {
        lemma_sort_insert_len(t.drop_last(), x, field, ascending);
    }
}

proof fn lemma_sorted_len(s: Seq<DataRecord>, field: Seq<char>, ascending: bool)
    ensures
        sorted_by(s, field, ascending).len() == s.len(),
    decreases s.len(),
{
    if s.len() > 0 {
        lemma_sorted_len(s.drop_last(), field, ascending);
        lemma_sort_insert_len(sorted_by(s.drop_last(), field, ascending), s.last(), field, ascending);
    }
}

/// No step adds records.
pub proof fn lemma_step_never_grows(out: Seq<DataRecord>, inp: Seq<DataRecord>, op: TransformOp)
    requires
        step_result(out, inp, op),
    ensures
        out.len() <= inp.len(),
        !(op is Filter || op is Dedup) ==> out.len() == inp.len(),
{
    match op {
        TransformOp::Filter { field, op: fop, value } => {
            lemma_keep_len(inp, passing((field@, fop, value@)));
        },
        TransformOp::Dedup { field } => {
            lemma_dedup_len(inp, field@);
        },
        TransformOp::Sort { field, ascending } => {
            lemma_sorted_len(inp, field@, ascending);
        },
        _ => {},
    }
}

/// The record lists a pipeline goes through: copies of the input, then the result
/// of each step on the one before.
pub open spec fn pipeline_run(outs: Seq<Seq<DataRecord>>, records: Seq<DataRecord>, steps: Seq<TransformStep>) -> bool {
    &&& outs.len() == steps.len() + 1
    &&& copies_of(outs[0], records)
    &&& forall|k: int|
        0 <= k < steps.len() ==> step_result(#[trigger] outs[k + 1], outs[k], steps[k].operation)
}

/// The receipt of step `k` of a run.
pub open spec fn receipt_of(r: TransformReceipt, step: TransformStep, before: nat, after: nat) -> bool {
    &&& r.id@.len() == 36
    &&& r.transform@ == step.name@
    &&& r.input_count == before
    &&& r.output_count == after
    &&& r.dropped_count == before - after
    &&& r.reversible == reversible(step.operation)
}

/// The counts and receipts of a run.
pub open spec fn run_result(r: TransformResult, outs: Seq<Seq<DataRecord>>, steps: Seq<TransformStep>) -> bool {
    &&& r.records_in == outs[0].len()
    &&& r.records_out == outs.last().len()
    &&& r.records_dropped == outs[0].len() - outs.last().len()
    &&& r.receipts@.len() == steps.len()
    &&& forall|k: int|
        0 <= k < steps.len() ==> receipt_of(
            #[trigger] r.receipts@[k],
            steps[k],
            outs[k].len(),
            outs[k + 1].len(),
        )
}

/// Engine for applying transformations.
pub struct TransformEngine;

impl TransformEngine {
    /// Apply a pipeline to copies of the records, returning the counts and a receipt
    /// per step.
    pub fn apply(records: &[DataRecord], pipeline: &TransformPipeline) -> (r: TransformResult)
        ensures
            exists|outs: Seq<Seq<DataRecord>>|
                pipeline_run(outs, records@, pipeline.steps@) && #[trigger] run_result(r, outs, pipeline.steps@),
    {
        let records_in = records.len();
        let mut current = copy_records(records);
        let mut receipts: Vec<TransformReceipt> = Vec::new();
        let mut total_dropped: usize = 0;
        let ghost mut outs: Seq<Seq<DataRecord>> = seq![current@];
        let steps = &pipeline.steps;
        let mut k: usize = 0;
        while k < steps.len()
            invariant
                k <= steps@.len(),
                steps@ == pipeline.steps@,
                outs.len() == k + 1,
                copies_of(outs[0], records@),
                forall|q: int| 0 <= q < k ==> step_result(#[trigger] outs[q + 1], outs[q], steps@[q].operation),
                outs[k as int] == current@,
                current@.len() <= records_in,
                records_in == records@.len(),
                total_dropped == records_in - current@.len(),
                receipts@.len() == k,
                forall|q: int|
                    0 <= q < k ==> receipt_of(#[trigger] receipts@[q], steps@[q], outs[q].len(), outs[q + 1].len()),
            decreases steps.len() - k,
        {
            let before = current.len();
            let next = apply_step(&current, &steps[k].operation);
            proof {
                lemma_step_never_grows(next@, current@, steps@[k as int].operation);
            }
            let after = next.len();
            let dropped = before - after;
            total_dropped = total_dropped + dropped;
            let receipt = TransformReceipt {
                id: new_uuid(),
                transform: steps[k].name.clone(),
                input_count: before as u64,
                output_count: after as u64,
                dropped_count: dropped as u64,
                applied_at: now_micros(),
                reversible: is_reversible(&steps[k].operation),
            };
            receipts.push(receipt);
            proof {
                let o0 = outs;
                outs = outs.push(next@);
                assert forall|q: int| 0 <= q < k + 1 implies step_result(#[trigger] outs[q + 1], outs[q], steps@[q].operation) by {
                    if q < k {
                        assert(outs[q + 1] == o0[q + 1]);
                        assert(outs[q] == o0[q]);
                    }
                }
            }
            current = next;
            k = k + 1;
        }
        let r = TransformResult {
            records_in,
            records_out: current.len(),
            records_dropped: total_dropped,
            receipts,
        };
        assert(pipeline_run(outs, records@, pipeline.steps@));
        assert(run_result(r, outs, pipeline.steps@));
        r
    }
}

/// The lineage entry logged for a receipt of pipeline `pname`: a `Transformed`
/// entry at the receipt's time, with hashes `{in}_in` and `{out}_out` and the
/// description `{transform}: {in} → {out} records`.
pub open spec fn receipt_entry(e: LineageEntry, rc: TransformReceipt, pname: Seq<char>) -> bool {
    &&& e.action == LineageAction::Transformed
    &&& e.source@ == pname
    &&& e.timestamp == rc.applied_at
    &&& e.input_hash@ == decimal(rc.input_count as nat) + "_in"@
    &&& e.output_hash@ == decimal(rc.output_count as nat) + "_out"@
    &&& e.description@ == rc.transform@ + ": "@ + decimal(rc.input_count as nat) + " → "@ + decimal(
        rc.output_count as nat,
    ) + " records"@
}

/// The chains after logging an entry per receipt for `node`, in order.
pub open spec fn lineage_run(
    cs: Seq<Seq<LineageChain>>,
    es: Seq<LineageEntry>,
    node: Seq<char>,
    receipts: Seq<TransformReceipt>,
    pname: Seq<char>,
) -> bool {
    &&& cs.len() == receipts.len() + 1
    &&& es.len() == receipts.len()
    &&& forall|k: int|
        0 <= k < receipts.len() ==> receipt_entry(#[trigger] es[k], receipts[k], pname)
            && lineage_added(cs[k], cs[k + 1], node, es[k])
}

proof fn lemma_copies_trans(a: Seq<DataRecord>, b: Seq<DataRecord>, c: Seq<DataRecord>)
    requires
        copies_of(a, b),
        copies_of(b, c),
    ensures
        copies_of(a, c),
{
    assert forall|i: int| 0 <= i < a.len() implies same_record(#[trigger] a[i], c[i]) by {
        assert(same_record(a[i], b[i]));
        assert(same_record(b[i], c[i]));
    }
}

impl TransformEngine {
    /// Apply a pipeline to copies of the records of a schema node, and log a
    /// `Transformed` lineage entry for the node per step.
    pub fn apply_to_store(store: &mut DataStore, node: &str, pipeline: &TransformPipeline) -> (r: TransformResult)
        ensures
            exists|outs: Seq<Seq<DataRecord>>|
                pipeline_run(outs, keep(old(store).records(), of_node(node@)), pipeline.steps@)
                    && #[trigger] run_result(r, outs, pipeline.steps@),
            exists|cs: Seq<Seq<LineageChain>>, es: Seq<LineageEntry>|
                #[trigger] lineage_run(cs, es, node@, r.receipts@, pipeline.name@) && cs[0]
                    == old(store).chains() && cs.last() == final(store).chains(),
            final(store).schemas() == old(store).schemas(),
            final(store).sources() == old(store).sources(),
            final(store).records() == old(store).records(),
    {
        let refs = store.records_for_node(node);
        let ghost sel = keep(store.records(), of_node(node@));
        let mut records: Vec<DataRecord> = Vec::new();
        let mut i: usize = 0;
        while i < refs.len()
            invariant
                i <= refs@.len(),
                refs@.map_values(|x: &DataRecord| *x) == sel,
                records@.len() == i,
                forall|k: int| 0 <= k < i ==> same_record(#[trigger] records@[k], sel[k]),
            decreases refs.len() - i,
        {
            assert(sel[i as int] == *refs@[i as int]);
            records.push(refs[i].duplicate());
            i = i + 1;
        }
        let result = Self::apply(&records, pipeline);
        proof {
            let outs = choose|outs: Seq<Seq<DataRecord>>|
                pipeline_run(outs, records@, pipeline.steps@) && #[trigger] run_result(result, outs, pipeline.steps@);
            lemma_copies_trans(outs[0], records@, sel);
            assert(pipeline_run(outs, sel, pipeline.steps@));
        }
        let ghost c0 = store.chains();
        let ghost mut cs: Seq<Seq<LineageChain>> = seq![c0];
        let ghost mut es: Seq<LineageEntry> = Seq::empty();
        let mut k: usize = 0;
        while k < result.receipts.len()
            invariant
                k <= result.receipts@.len(),
                cs.len() == k + 1,
                es.len() == k,
                cs[0] == c0,
                cs[k as int] == store.chains(),
                forall|q: int|
                    0 <= q < k ==> receipt_entry(#[trigger] es[q], result.receipts@[q], pipeline.name@)
                        && lineage_added(cs[q], cs[q + 1], node@, es[q]),
                store.schemas() == old(store).schemas(),
                store.sources() == old(store).sources(),
                store.records() == old(store).records(),
            decreases result.receipts.len() - k,
        {
            let rc = &result.receipts[k];
            let mut ih = decimal_exec(rc.input_count as u128);
            push_all(&mut ih, &chars_of("_in"));
            let mut oh = decimal_exec(rc.output_count as u128);
            push_all(&mut oh, &chars_of("_out"));
            let mut d = chars_of(rc.transform.as_str());
            push_all(&mut d, &chars_of(": "));
            push_all(&mut d, &decimal_exec(rc.input_count as u128));
            push_all(&mut d, &chars_of(" → "));
            push_all(&mut d, &decimal_exec(rc.output_count as u128));
            push_all(&mut d, &chars_of(" records"));
            let entry = LineageEntry {
                action: LineageAction::Transformed,
                source: pipeline.name.clone(),
                timestamp: rc.applied_at,
                input_hash: string_of(&ih),
                output_hash: string_of(&oh),
                description: string_of(&d),
            };
            let ghost e = entry;
            let ghost before = store.chains();
            store.add_lineage(node, entry);
            proof {
                let c1 = cs;
                let e1 = es;
                cs = cs.push(store.chains());
                es = es.push(e);
                assert forall|q: int| 0 <= q < k + 1 implies receipt_entry(#[trigger] es[q], result.receipts@[q], pipeline.name@)
                    && lineage_added(cs[q], cs[q + 1], node@, es[q]) by {
                    if q < k {
                        assert(es[q] == e1[q]);
                        assert(cs[q] == c1[q]);
                        assert(cs[q + 1] == c1[q + 1]);
                    }
                }
            }
            k = k + 1;
        }
        assert(lineage_run(cs, es, node@, result.receipts@, pipeline.name@));
        result
    }
}

proof fn lemma_sort_insert_multiset(t: Seq<DataRecord>, x: DataRecord, field: Seq<char>, ascending: bool)
    ensures
        sort_insert(t, x, field, ascending).to_multiset() == t.to_multiset().insert(x),
    decreases t.len(),
{
    broadcast use vstd::seq_lib::group_to_multiset_ensures;

    if t.len() == 0 {
        assert(seq![x] =~= Seq::<DataRecord>::empty().push(x));
    } else if key_order(t.last(), x, field, ascending) == 1 {
        lemma_sort_insert_multiset(t.drop_last(), x, field, ascending);
        assert(t.drop_last().push(t.last()) =~= t);
        assert(t.to_multiset() =~= t.drop_last().to_multiset().insert(t.last()));
        assert(t.drop_last().to_multiset().insert(x).insert(t.last()) =~= t.drop_last().to_multiset().insert(
            t.last(),
        ).insert(x));
    }
}

/// Sorting keeps the records: the sorted list holds each record as often as the
/// input does.
pub proof fn lemma_sort_permutes(s: Seq<DataRecord>, field: Seq<char>, ascending: bool)
    ensures
        sorted_by(s, field, ascending).to_multiset() == s.to_multiset(),
    decreases s.len(),
{
    broadcast use vstd::seq_lib::group_to_multiset_ensures;

    if s.len() == 0 {
        assert(sorted_by(s, field, ascending) =~= s);
    } else {
        lemma_sort_permutes(s.drop_last(), field, ascending);
        lemma_sort_insert_multiset(sorted_by(s.drop_last(), field, ascending), s.last(), field, ascending);
        assert(s.drop_last().push(s.last()) =~= s);
    }
}



proof fn lemma_run_prefix_not_longer(outs: Seq<Seq<DataRecord>>, records: Seq<DataRecord>, steps: Seq<TransformStep>, k: int)
    requires
        pipeline_run(outs, records, steps),
        0 <= k <= steps.len(),
    ensures
        outs[k].len() <= outs[0].len(),
    decreases k,
{
    if k > 0 {
        lemma_run_prefix_not_longer(outs, records, steps, k - 1);
        let j = k - 1;
        assert(step_result(outs[j + 1], outs[j], steps[j].operation));
        lemma_step_never_grows(outs[j + 1], outs[j], steps[j].operation);
    }
}

/// A pipeline never adds records: what comes out is no more than what went in, the
/// difference is what the result counts as dropped, and each step's receipt starts
/// from the count at which the one before it ended.
pub proof fn lemma_pipeline_never_grows(
    outs: Seq<Seq<DataRecord>>,
    records: Seq<DataRecord>,
    steps: Seq<TransformStep>,
    r: TransformResult,
)
    requires
        pipeline_run(outs, records, steps),
        run_result(r, outs, steps),
    ensures
        r.records_in == records.len(),
        r.records_out <= r.records_in,
        r.records_dropped == r.records_in - r.records_out,
        forall|k: int| 0 <= k < steps.len() - 1 ==> (#[trigger] r.receipts@[k]).output_count == r.receipts@[k + 1].input_count,
{
    lemma_run_prefix_not_longer(outs, records, steps, steps.len() as int);
    assert(outs.last() == outs[steps.len() as int]);
    assert forall|k: int| 0 <= k < steps.len() - 1 implies (#[trigger] r.receipts@[k]).output_count == r.receipts@[k + 1].input_count by {
        assert(receipt_of(r.receipts@[k], steps[k], outs[k].len(), outs[k + 1].len()));
        assert(receipt_of(r.receipts@[k + 1], steps[k + 1], outs[k + 1].len(), outs[k + 2].len()));
    }
}

/// Field transforms and null: `DefaultIfNull` turns null into the default and leaves
/// every other value as it is; every other transform changes only strings, so it
/// leaves null, numbers, booleans, arrays and objects as they are.
pub proof fn law_field_transform_values(v: JsonView, t: FieldTransform)
    ensures
        t matches FieldTransform::DefaultIfNull { default } ==> field_transform_spec(JsonView::Null, t)
            == default@,
        t is DefaultIfNull && v != JsonView::Null ==> field_transform_spec(v, t) == v,
        !(t is DefaultIfNull) && !(v is Str) ==> field_transform_spec(v, t) == v,
        !(t is DefaultIfNull) ==> field_transform_spec(v, t) is Str == v is Str,
{
}

proof fn lemma_skip_ws(s: Seq<char>, i: int)
    requires
        0 <= i <= s.len(),
    ensures
        i <= skip_ws_from(s, i) <= s.len(),
        forall|k: int| i <= k < skip_ws_from(s, i) ==> is_ws(#[trigger] s[k]),
        skip_ws_from(s, i) < s.len() ==> !is_ws(s[skip_ws_from(s, i)]),
    decreases s.len() - i,
{
    if i < s.len() && is_ws(s[i]) {
        lemma_skip_ws(s, i + 1);
    }
}

proof fn lemma_trim_end(s: Seq<char>, j: int)
    requires
        0 <= j <= s.len(),
    ensures
        0 <= trim_end_len(s, j) <= j,
        forall|k: int| trim_end_len(s, j) <= k < j ==> is_ws(#[trigger] s[k]),
        trim_end_len(s, j) > 0 ==> !is_ws(s[trim_end_len(s, j) - 1]),
    decreases j,
{
    if 0 < j && is_ws(s[j - 1]) {
        lemma_trim_end(s, j - 1);
    }
}

/// Trimming removes exactly the leading and the trailing whitespace: the result is
/// a contiguous part of the text, all that was cut off on either side is whitespace,
/// and the result neither starts nor ends with whitespace.
pub proof fn law_trim_transform(s: Seq<char>)
    ensures
        field_transform_spec(JsonView::Str(s), FieldTransform::Trim) matches JsonView::Str(t) && exists|a: int, b: int|
            0 <= a <= b <= s.len() && t == s.subrange(a, b) && (forall|k: int| 0 <= k < a ==> is_ws(#[trigger] s[k]))
                && (forall|k: int| b <= k < s.len() ==> is_ws(#[trigger] s[k])) && (t.len() > 0 ==> !is_ws(t[0])
                && !is_ws(t[t.len() - 1])),
{
    lemma_skip_ws(s, 0);
    let a = skip_ws_from(s, 0);
    let u = trim_start(s);
    assert(u == s.subrange(a, s.len() as int));
    lemma_trim_end(u, u.len() as int);
    let e = trim_end_len(u, u.len() as int);
    let b = a + e;
    let t = trim(s);
    assert(t == s.subrange(a, b));
    assert forall|k: int| b <= k < s.len() implies is_ws(#[trigger] s[k]) by {
        assert(u[k - a] == s[k]);
    }
    if t.len() > 0 {
        assert(t[0] == s[a]);
        assert(t[t.len() - 1] == u[e - 1]);
    }
}

/// Replacing: a text in which `from` (non-empty) does not occur is left as it is,
/// and replacing `from` by itself changes nothing.
pub proof fn law_replace_transform(s: Seq<char>, from: Seq<char>, to: Seq<char>)
    requires
        from.len() > 0,
    ensures
        (forall|i: int| 0 <= i && i + from.len() <= s.len() ==> #[trigger] s.subrange(i, i + from.len()) != from)
            ==> replace_spec(s, from, to) == s,
        replace_spec(s, from, from) == s,
    decreases s.len(),
{
    if s.len() >= from.len() {
        if s.subrange(0, from.len() as int) == from {
            let rest = s.subrange(from.len() as int, s.len() as int);
            law_replace_transform(rest, from, to);
            assert(from + rest =~= s);
            if forall|i: int| 0 <= i && i + from.len() <= s.len() ==> #[trigger] s.subrange(i, i + from.len()) != from {
                assert(s.subrange(0, 0 + from.len() as int) != from);
            }
        } else {
            let rest = s.drop_first();
            law_replace_transform(rest, from, to);
            assert(seq![s[0]] + rest =~= s);
            if forall|i: int| 0 <= i && i + from.len() <= s.len() ==> #[trigger] s.subrange(i, i + from.len()) != from {
                assert forall|i: int| 0 <= i && i + from.len() <= rest.len() implies #[trigger] rest.subrange(i, i + from.len()) != from by {
                    assert(rest.subrange(i, i + from.len()) =~= s.subrange(i + 1, i + 1 + from.len()));
                }
            }
        }
    }
}

} // verus!
