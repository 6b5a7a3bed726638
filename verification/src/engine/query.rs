//! Query engine: filter, window, search and distinct values over the records of a
//! store.
use vstd::prelude::*;
use crate::text::{chars_of, contains, contains_exec, starts_with, starts_with_exec, spec_to_lower, to_lower};
use crate::types::json::{JsonValue, JsonView, view_as_str, member_views, lemma_member_views, json_same, has_same};
use crate::types::json_io::{spec_number_order, is_number, number_order};
use crate::types::record::{DataRecord, RecordStatus, lookup, same_record};
use super::store::{DataStore, keep, of_node, is_active_record};

verus! {

/// Filter operations.
#[derive(Debug, Clone, Copy, PartialEq, Eq, Structural)]
pub enum FilterOp {
    Eq,
    Ne,
    Gt,
    Gte,
    Lt,
    Lte,
    Contains,
    StartsWith,
    IsNull,
    IsNotNull,
}

/// A filter condition for querying records.
#[derive(Debug)]
pub struct QueryFilter {
    pub field: String,
    pub op: FilterOp,
    pub value: JsonValue,
}

/// A filter as plain values: field, operation, value.
pub type FilterSpec = (Seq<char>, FilterOp, JsonView);

/// View of a filter.
pub open spec fn filter_spec(f: QueryFilter) -> FilterSpec {
    (f.field@, f.op, f.value@)
}

/// Views of a list of filters.
pub open spec fn filter_specs(fs: Seq<QueryFilter>) -> Seq<FilterSpec> {
    fs.map_values(|f: QueryFilter| filter_spec(f))
}

/// Result of a query operation.
#[derive(Debug)]
pub struct QueryResult {
    pub records: Vec<DataRecord>,
    pub total_scanned: usize,
    pub total_matched: usize,
}

/// The order of two texts, char by char (`str`'s `Ord`: UTF-8 byte order is code
/// point order): -1, 0 or 1.
pub open spec fn lex_order(a: Seq<char>, b: Seq<char>) -> i8
    decreases a.len(),
{
    if a.len() == 0 && b.len() == 0 {
        0i8
    } else if a.len() == 0 {
        -1i8
    } else if b.len() == 0 {
        1i8
    } else if (a[0] as u32) < (b[0] as u32) {
        -1i8
    } else if (a[0] as u32) > (b[0] as u32) {
        1i8
    } else {
        lex_order(a.drop_first(), b.drop_first())
    }
}

/// The order of a field's value and a filter value: as numbers when both are
/// numbers, as texts when both are strings, else none.
pub open spec fn value_order(a: Option<JsonView>, b: JsonView) -> Option<i8> {
    match a {
        None => None,
        Some(x) => if is_number(x) && is_number(b) {
            spec_number_order(x, b)
        } else {
            match (view_as_str(x), view_as_str(b)) {
                (Some(s), Some(t)) => Some(lex_order(s, t)),
                _ => None,
            }
        },
    }
}

/// The string a filter value holds, or the empty string.
pub open spec fn str_or_empty(v: JsonView) -> Seq<char> {
    match view_as_str(v) {
        Some(s) => s,
        None => Seq::empty(),
    }
}

/// Whether fields pass a filter.
pub open spec fn passes(fields: Seq<(Seq<char>, JsonView)>, f: FilterSpec) -> bool {
    let val = lookup(fields, f.0);
    match f.1 {
        FilterOp::IsNull => val is None || val == Some(JsonView::Null),
        FilterOp::IsNotNull => val is Some && val != Some(JsonView::Null),
        FilterOp::Eq => val matches Some(v) && json_same(v, f.2),
        FilterOp::Ne => !(val matches Some(v) && json_same(v, f.2)),
        FilterOp::Contains => match val {
            Some(JsonView::Str(s)) => contains(spec_to_lower(s), spec_to_lower(str_or_empty(f.2))),
            _ => false,
        },
        FilterOp::StartsWith => match val {
            Some(JsonView::Str(s)) => starts_with(s, str_or_empty(f.2)),
            _ => false,
        },
        FilterOp::Gt => value_order(val, f.2) == Some(1i8),
        FilterOp::Gte => value_order(val, f.2) == Some(1i8) || value_order(val, f.2) == Some(0i8),
        FilterOp::Lt => value_order(val, f.2) == Some(-1i8),
        FilterOp::Lte => value_order(val, f.2) == Some(-1i8) || value_order(val, f.2) == Some(0i8),
    }
}

/// Whether fields pass every filter.
pub open spec fn passes_all(fields: Seq<(Seq<char>, JsonView)>, fs: Seq<FilterSpec>) -> bool {
    forall|i: int| 0 <= i < fs.len() ==> #[trigger] passes(fields, fs[i])
}

pub(crate) fn lex_order_exec(a: &[char], b: &[char]) -> (r: i8)
    ensures
        r == lex_order(a@, b@),
{
    let mut i: usize = 0;
    assert(a@.subrange(0, a@.len() as int) =~= a@);
    assert(b@.subrange(0, b@.len() as int) =~= b@);
    while i < a.len() && i < b.len()
        invariant
            i <= a@.len(),
            i <= b@.len(),
            lex_order(a@, b@) == lex_order(a@.subrange(i as int, a@.len() as int), b@.subrange(i as int, b@.len() as int)),
        decreases a.len() - i,
    {
        let ghost sa = a@.subrange(i as int, a@.len() as int);
        let ghost sb = b@.subrange(i as int, b@.len() as int);
        if (a[i] as u32) < (b[i] as u32) {
            return -1;
        }
        if (a[i] as u32) > (b[i] as u32) {
            return 1;
        }
        assert(sa.drop_first() =~= a@.subrange(i + 1, a@.len() as int));
        assert(sb.drop_first() =~= b@.subrange(i + 1, b@.len() as int));
        i = i + 1;
    }
    if i == a.len() && i == b.len() {
        0
    } else if i == a.len() {
        -1
    } else {
        1
    }
}

/// Compare a field's value with a filter value.
fn compare_values(a: Option<&JsonValue>, b: &JsonValue) -> (r: Option<i8>)
    ensures
        r == value_order(
            match a {
                Some(x) => Some(x@),
                None => None,
            },
            b@,
        ),
{
    match a {
        None => None,
        Some(x) => {
            let both_numbers = match (x, b) {
                (JsonValue::Int(_), JsonValue::Int(_)) => true,
                (JsonValue::Int(_), JsonValue::UInt(_)) => true,
                (JsonValue::Int(_), JsonValue::Float(_)) => true,
                (JsonValue::UInt(_), JsonValue::Int(_)) => true,
                (JsonValue::UInt(_), JsonValue::UInt(_)) => true,
                (JsonValue::UInt(_), JsonValue::Float(_)) => true,
                (JsonValue::Float(_), JsonValue::Int(_)) => true,
                (JsonValue::Float(_), JsonValue::UInt(_)) => true,
                (JsonValue::Float(_), JsonValue::Float(_)) => true,
                _ => false,
            };
            if both_numbers {
                number_order(x, b)
            } else {
                match (x.as_str(), b.as_str()) {
                    (Some(s), Some(t)) => Some(lex_order_exec(&chars_of(s), &chars_of(t))),
                    _ => None,
                }
            }
        },
    }
}

/// Apply a single filter to a record.
fn apply_filter(record: &DataRecord, filter: &QueryFilter) -> (r: bool)
    ensures
        r == passes(record.fields@, filter_spec(*filter)),
{
    let val = record.get(filter.field.as_str());
    let ghost gv = match val {
        Some(x) => Some(x@),
        None => None::<JsonView>,
    };
    assert(gv == lookup(record.fields@, filter.field@));
    match filter.op {
        FilterOp::IsNull => match val {
            None => true,
            Some(v) => v.is_null(),
        },
        FilterOp::IsNotNull => match val {
            None => false,
            Some(v) => !v.is_null(),
        },
        FilterOp::Eq => match val {
            None => false,
            Some(v) => v.equals(&filter.value),
        },
        FilterOp::Ne => match val {
            None => true,
            Some(v) => !v.equals(&filter.value),
        },
        FilterOp::Contains => match val {
            Some(JsonValue::Str(s)) => {
                let pat = match filter.value.as_str() {
                    Some(p) => chars_of(p),
                    None => Vec::new(),
                };
                let ls = to_lower(&chars_of(s.as_str()));
                let lp = to_lower(&pat);
                contains_exec(&ls, &lp)
            },
            _ => false,
        },
        FilterOp::StartsWith => match val {
            Some(JsonValue::Str(s)) => {
                let pat = match filter.value.as_str() {
                    Some(p) => chars_of(p),
                    None => Vec::new(),
                };
                starts_with_exec(&chars_of(s.as_str()), &pat)
            },
            _ => false,
        },
        FilterOp::Gt => compare_values(val, &filter.value) == Some(1i8),
        FilterOp::Gte => {
            let c = compare_values(val, &filter.value);
            c == Some(1i8) || c == Some(0i8)
        },
        FilterOp::Lt => compare_values(val, &filter.value) == Some(-1i8),
        FilterOp::Lte => {
            let c = compare_values(val, &filter.value);
            c == Some(-1i8) || c == Some(0i8)
        },
    }
}

/// Apply a single filter to a record (public for the transform engine).
pub fn apply_filter_pub(record: &DataRecord, filter: &QueryFilter) -> (r: bool)
    ensures
        r == passes(record.fields@, filter_spec(*filter)),
{
    apply_filter(record, filter)
}

/// Whether a record passes every filter.
fn passes_filters(record: &DataRecord, filters: &[QueryFilter]) -> (r: bool)
    ensures
        r == passes_all(record.fields@, filter_specs(filters@)),
{
    let ghost fs = filter_specs(filters@);
    let mut i: usize = 0;
    while i < filters.len()
        invariant
            i <= filters@.len(),
            fs == filter_specs(filters@),
            forall|k: int| 0 <= k < i ==> #[trigger] passes(record.fields@, fs[k]),
        decreases filters.len() - i,
    {
        assert(fs[i as int] == filter_spec(filters@[i as int]));
        if !apply_filter(record, &filters[i]) {
            return false;
        }
        i = i + 1;
    }
    true
}

/// The elements from `offset` on, at most `limit` of them (`skip` then `take`).
pub open spec fn window<A>(s: Seq<A>, offset: int, limit: int) -> Seq<A> {
    let a = if offset < s.len() {
        offset
    } else {
        s.len() as int
    };
    let b = if a + limit < s.len() {
        a + limit
    } else {
        s.len() as int
    };
    s.subrange(a, b)
}

proof fn lemma_window_push<A>(s: Seq<A>, x: A, offset: int, limit: int)
    requires
        offset >= 0,
        limit >= 0,
    ensures
        window(s.push(x), offset, limit) == if offset <= s.len() < offset + limit {
            window(s, offset, limit).push(x)
        } else {
            window(s, offset, limit)
        },
{
    if offset <= s.len() < offset + limit {
        assert(window(s.push(x), offset, limit) =~= window(s, offset, limit).push(x));
    } else {
        assert(window(s.push(x), offset, limit) =~= window(s, offset, limit));
    }
}

/// A record with a string field whose lower-case text contains `lq`.
pub open spec fn text_match(r: DataRecord, lq: Seq<char>) -> bool {
    exists|i: int|
        0 <= i < r.fields@.len() && #[trigger] view_as_str(r.fields@[i].1) is Some && contains(
            spec_to_lower(view_as_str(r.fields@[i].1)->0),
            lq,
        )
}

/// Records that pass every filter, and are active if `active_only`.
pub open spec fn selected(fs: Seq<FilterSpec>, active_only: bool) -> spec_fn(DataRecord) -> bool {
    |x: DataRecord| (!active_only || x.status == RecordStatus::Active) && passes_all(x.fields@, fs)
}

/// Records with a string field whose lower-case text contains the lower-case query.
pub open spec fn text_matching(q: Seq<char>) -> spec_fn(DataRecord) -> bool {
    |x: DataRecord| text_match(x, spec_to_lower(q))
}

/// The records are copies of the model's, in order.
pub open spec fn copies_of(rs: Seq<DataRecord>, model: Seq<DataRecord>) -> bool {
    &&& rs.len() == model.len()
    &&& forall|i: int| 0 <= i < rs.len() ==> same_record(#[trigger] rs[i], model[i])
}

/// The first occurrence of each present value, in order.
pub open spec fn distinct_values(vals: Seq<Option<JsonView>>) -> Seq<JsonView>
    decreases vals.len(),
{
    if vals.len() == 0 {
        Seq::empty()
    } else {
        let d = distinct_values(vals.drop_last());
        match vals.last() {
            Some(v) => if has_same(d, v) {
                d
            } else {
                d.push(v)
            },
            None => d,
        }
    }
}

/// Copy the records in `all` that `keep_it` accepts, from the `offset`-th accepted
/// one on, at most `limit` of them; returns the copies and how many were accepted.
fn collect_window(all: &Vec<&DataRecord>, filters: &[QueryFilter], active_only: bool, offset: usize, limit: usize) -> (r: (Vec<DataRecord>, usize))
    ensures
        r.1 == keep(all@.map_values(|x: &DataRecord| *x), selected(filter_specs(filters@), active_only)).len(),
        copies_of(
            r.0@,
            window(
                keep(all@.map_values(|x: &DataRecord| *x), selected(filter_specs(filters@), active_only)),
                offset as int,
                limit as int,
            ),
        ),
{
    let ghost av = all@.map_values(|x: &DataRecord| *x);
    let ghost p = selected(filter_specs(filters@), active_only);
    let mut out: Vec<DataRecord> = Vec::new();
    let mut m: usize = 0;
    let mut i: usize = 0;
    while i < all.len()
        invariant
            i <= all@.len(),
            av == all@.map_values(|x: &DataRecord| *x),
            p == selected(filter_specs(filters@), active_only),
            m == keep(av.subrange(0, i as int), p).len(),
            m <= i,
            copies_of(out@, window(keep(av.subrange(0, i as int), p), offset as int, limit as int)),
        decreases all.len() - i,
    {
        let ghost pre = keep(av.subrange(0, i as int), p);
        assert(av.subrange(0, i + 1).drop_last() =~= av.subrange(0, i as int));
        assert(av[i as int] == *all@[i as int]);
        let rec: &DataRecord = all[i];
        let ok = (!active_only || rec.is_active()) && passes_filters(rec, filters);
        if ok {
            proof {
                lemma_window_push(pre, *rec, offset as int, limit as int);
            }
            if m >= offset && m - offset < limit {
                let ghost o0 = out@;
                out.push(rec.duplicate());
                assert(copies_of(out@, window(pre, offset as int, limit as int).push(*rec))) by {
                    assert forall|k: int| 0 <= k < out@.len() implies same_record(#[trigger] out@[k], window(pre, offset as int, limit as int).push(*rec)[k]) by {
                        if k < o0.len() {
                            assert(out@[k] == o0[k]);
                        }
                    }
                }
            }
            m = m + 1;
        }
        i = i + 1;
    }
    assert(av.subrange(0, av.len() as int) =~= av);
    (out, m)
}

/// Query engine over a store.
pub struct QueryEngine<'a> {
    store: &'a DataStore,
}

impl<'a> QueryEngine<'a> {
    /// The store queried.
    pub closed spec fn store(&self) -> DataStore {
        *self.store
    }

    /// An engine over the store.
    pub fn new(store: &'a DataStore) -> (r: QueryEngine<'a>)
        ensures
            r.store() == *store,
    {
        QueryEngine { store }
    }

    /// Query the active records of a schema node that pass every filter: the matches
    /// from `offset` on, at most `limit` of them (no limit by default).
    pub fn query(&self, node: &str, filters: &[QueryFilter], limit: Option<usize>, offset: usize) -> (r: QueryResult)
        ensures
            ({
                let all = keep(self.store().records(), of_node(node@));
                let ms = keep(all, selected(filter_specs(filters@), true));
                let lim = match limit {
                    Some(l) => l as int,
                    None => usize::MAX as int,
                };
                &&& r.total_scanned == all.len()
                &&& copies_of(r.records@, window(ms, offset as int, lim))
                &&& r.total_matched == r.records@.len()
            }),
    {
        let all = self.store.records_for_node(node);
        let total_scanned = all.len();
        let lim = match limit {
            Some(l) => l,
            None => usize::MAX,
        };
        let (records, _m) = collect_window(&all, filters, true, offset, lim);
        let total_matched = records.len();
        QueryResult { records, total_scanned, total_matched }
    }

    /// Query all active records that pass every filter, at most `limit` of them (no
    /// limit by default).
    pub fn query_all(&self, filters: &[QueryFilter], limit: Option<usize>) -> (r: QueryResult)
        ensures
            ({
                let all = keep(self.store().records(), is_active_record());
                let ms = keep(all, selected(filter_specs(filters@), false));
                let lim = match limit {
                    Some(l) => l as int,
                    None => usize::MAX as int,
                };
                &&& r.total_scanned == all.len()
                &&& copies_of(r.records@, window(ms, 0, lim))
                &&& r.total_matched == r.records@.len()
            }),
    {
        let all = self.store.active_records();
        let total_scanned = all.len();
        let lim = match limit {
            Some(l) => l,
            None => usize::MAX,
        };
        let (records, _m) = collect_window(&all, filters, false, 0, lim);
        let total_matched = records.len();
        QueryResult { records, total_scanned, total_matched }
    }

    /// Count the active records of a schema node that pass every filter.
    pub fn count(&self, node: &str, filters: &[QueryFilter]) -> (r: usize)
        ensures
            r == keep(keep(self.store().records(), of_node(node@)), selected(filter_specs(filters@), true)).len(),
    {
        let all = self.store.records_for_node(node);
        let (_records, m) = collect_window(&all, filters, true, 0, 0);
        m
    }

    /// Full-text search: the active records with a string field whose lower-case
    /// text contains the lower-case query, at most `limit` of them (100 by default).
    pub fn search(&self, query: &str, limit: Option<usize>) -> (r: QueryResult)
        ensures
            ({
                let all = keep(self.store().records(), is_active_record());
                let ms = keep(all, text_matching(query@));
                let lim = match limit {
                    Some(l) => l as int,
                    None => 100,
                };
                &&& r.total_scanned == all.len()
                &&& copies_of(r.records@, window(ms, 0, lim))
                &&& r.total_matched == r.records@.len()
            }),
    {
        let ql = to_lower(&chars_of(query));
        let all = self.store.active_records();
        let total_scanned = all.len();
        let lim = match limit {
            Some(l) => l,
            None => 100,
        };
        let ghost av = all@.map_values(|x: &DataRecord| *x);
        let ghost p = text_matching(query@);
        let mut out: Vec<DataRecord> = Vec::new();
        let mut m: usize = 0;
        let mut i: usize = 0;
        while i < all.len()
            invariant
                i <= all@.len(),
                av == all@.map_values(|x: &DataRecord| *x),
                p == text_matching(query@),
                ql@ == spec_to_lower(query@),
                m == keep(av.subrange(0, i as int), p).len(),
                m <= i,
                copies_of(out@, window(keep(av.subrange(0, i as int), p), 0, lim as int)),
            decreases all.len() - i,
        {
            let ghost pre = keep(av.subrange(0, i as int), p);
            assert(av.subrange(0, i + 1).drop_last() =~= av.subrange(0, i as int));
            assert(av[i as int] == *all@[i as int]);
            let rec: &DataRecord = all[i];
            if Self::has_text(rec, &ql) {
                proof {
                    lemma_window_push(pre, *rec, 0, lim as int);
                }
                if m < lim {
                    let ghost o0 = out@;
                    out.push(rec.duplicate());
                    assert(copies_of(out@, window(pre, 0, lim as int).push(*rec))) by {
                        assert forall|k: int| 0 <= k < out@.len() implies same_record(#[trigger] out@[k], window(pre, 0, lim as int).push(*rec)[k]) by {
                            if k < o0.len() {
                                assert(out@[k] == o0[k]);
                            }
                        }
                    }
                }
                m = m + 1;
            }
            i = i + 1;
        }
        assert(av.subrange(0, av.len() as int) =~= av);
        let total_matched = out.len();
        QueryResult { records: out, total_scanned, total_matched }
    }

    fn has_text(rec: &DataRecord, ql: &Vec<char>) -> (r: bool)
        ensures
            r == text_match(*rec, ql@),
    {
        let es = rec.fields.entries();
        proof {
            lemma_member_views(es@);
        }
        let mut i: usize = 0;
        while i < es.len()
            invariant
                i <= es@.len(),
                member_views(es@) == rec.fields@,
                member_views(es@).len() == es@.len(),
                forall|k: int| 0 <= k < es@.len() ==> #[trigger] member_views(es@)[k] == (es@[k].0@, es@[k].1@),
                forall|k: int|
                    0 <= k < i ==> !(#[trigger] view_as_str(rec.fields@[k].1) is Some && contains(
                        spec_to_lower(view_as_str(rec.fields@[k].1)->0),
                        ql@,
                    )),
            decreases es.len() - i,
        {
            assert(rec.fields@[i as int] == (es@[i as int].0@, es@[i as int].1@));
            match es[i].1.as_str() {
                Some(t) => {
                    let tl = to_lower(&chars_of(t));
                    if contains_exec(&tl, ql) {
                        assert(view_as_str(rec.fields@[i as int].1) is Some);
                        return true;
                    }
                },
                None => {},
            }
            i = i + 1;
        }
        false
    }

    /// The distinct values of a field over the records of a schema node, in the
    /// order first seen (records without the field are skipped).
    pub fn distinct(&self, node: &str, field: &str) -> (r: Vec<JsonValue>)
        ensures
            r@.map_values(|v: JsonValue| v@) == distinct_values(
                keep(self.store().records(), of_node(node@)).map_values(
                    |x: DataRecord| lookup(x.fields@, field@),
                ),
            ),
    {
        let all = self.store.records_for_node(node);
        let ghost vals = all@.map_values(|x: &DataRecord| lookup(x.fields@, field@));
        assert(vals =~= keep(self.store().records(), of_node(node@)).map_values(|x: DataRecord| lookup(x.fields@, field@))) by {
            assert(all@.map_values(|x: &DataRecord| *x).map_values(|x: DataRecord| lookup(x.fields@, field@)) =~= vals);
        }
        let mut seen: Vec<JsonValue> = Vec::new();
        let mut i: usize = 0;
        while i < all.len()
            invariant
                i <= all@.len(),
                vals == all@.map_values(|x: &DataRecord| lookup(x.fields@, field@)),
                seen@.map_values(|v: JsonValue| v@) == distinct_values(vals.subrange(0, i as int)),
            decreases all.len() - i,
        {
            assert(vals.subrange(0, i + 1).drop_last() =~= vals.subrange(0, i as int));
            let ghost d = distinct_values(vals.subrange(0, i as int));
            match all[i].get(field) {
                Some(v) => {
                    let mut found = false;
                    let mut k: usize = 0;
                    while k < seen.len()
                        invariant
                            k <= seen@.len(),
                            d == seen@.map_values(|v: JsonValue| v@),
                            found == (exists|j: int| 0 <= j < k && #[trigger] json_same(d[j], v@)),
                        decreases seen.len() - k,
                    {
                        assert(d[k as int] == seen@[k as int]@);
                        if seen[k].equals(v) {
                            found = true;
                        }
                        assert(found == (exists|j: int| 0 <= j < k + 1 && #[trigger] json_same(d[j], v@))) by {
                            if found && !(exists|j: int| 0 <= j < k && #[trigger] json_same(d[j], v@)) {
                                assert(json_same(d[k as int], v@));
                            }
                        }
                        k = k + 1;
                    }
                    if !found {
                        let ghost s0 = seen@;
                        seen.push(v.deep_clone());
                        assert(seen@.map_values(|v: JsonValue| v@) =~= d.push(v@));
                    } else {
                        assert(has_same(d, v@));
                    }
                },
                None => {},
            }
            i = i + 1;
        }
        assert(vals.subrange(0, vals.len() as int) =~= vals);
        seen
    }
}


proof fn lemma_keep_not_longer<A>(s: Seq<A>, p: spec_fn(A) -> bool)
    ensures
        keep(s, p).len() <= s.len(),
    decreases s.len(),
{
    if s.len() > 0 {
        lemma_keep_not_longer(s.drop_last(), p);
    }
}

/// Counting agrees with querying: the records that a query of a node with no limit
/// and no offset returns are as many as `count` gives for the same node and filters.
pub proof fn lemma_count_matches_query(records: Seq<DataRecord>, node: Seq<char>, fs: Seq<FilterSpec>)
    requires
        records.len() <= usize::MAX,
    ensures
        window(keep(keep(records, of_node(node)), selected(fs, true)), 0, usize::MAX as int).len()
            == keep(keep(records, of_node(node)), selected(fs, true)).len(),
{
    let all = keep(records, of_node(node));
    lemma_keep_not_longer(records, of_node(node));
    lemma_keep_not_longer(all, selected(fs, true));
}

} // verus!
