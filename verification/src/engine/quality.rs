//! Quality scoring of the records of a schema node.
use vstd::prelude::*;
use crate::text::{str_eq, string_views, chars_of};
use crate::types::json::{JsonView, lemma_member_views};
use crate::types::quality::{QualityScore, overall_score};
use crate::types::record::{DataRecord, lookup};
use crate::types::now_micros;
use super::store::{DataStore, keep, of_node, is_active_record};
use super::query::{lex_order, lex_order_exec};
use super::consolidation::active_nodes;

verus! {

/// Number of non-null values among the fields.
pub open spec fn non_null_count(fields: Seq<(Seq<char>, JsonView)>) -> nat
    decreases fields.len(),
{
    if fields.len() == 0 {
        0
    } else {
        non_null_count(fields.drop_last()) + if fields.last().1 == JsonView::Null {
            0nat
        } else {
            1nat
        }
    }
}

/// Number of field values over the records.
pub open spec fn field_total(recs: Seq<DataRecord>) -> nat
    decreases recs.len(),
{
    if recs.len() == 0 {
        0
    } else {
        field_total(recs.drop_last()) + recs.last().fields@.len()
    }
}

/// Number of non-null field values over the records.
pub open spec fn non_null_total(recs: Seq<DataRecord>) -> nat
    decreases recs.len(),
{
    if recs.len() == 0 {
        0
    } else {
        non_null_total(recs.drop_last()) + non_null_count(recs.last().fields@)
    }
}

/// The largest number of fields of a record (0 for none).
pub open spec fn max_field_count(recs: Seq<DataRecord>) -> nat
    decreases recs.len(),
{
    if recs.len() == 0 {
        0
    } else {
        let m = max_field_count(recs.drop_last());
        if recs.last().fields@.len() > m {
            recs.last().fields@.len()
        } else {
            m
        }
    }
}

/// Number of records with exactly `k` fields.
pub open spec fn count_with_fields(recs: Seq<DataRecord>, k: nat) -> nat
    decreases recs.len(),
{
    if recs.len() == 0 {
        0
    } else {
        count_with_fields(recs.drop_last(), k) + if recs.last().fields@.len() == k {
            1nat
        } else {
            0nat
        }
    }
}

/// The latest update time of the records (0 for none).
pub open spec fn newest_update(recs: Seq<DataRecord>) -> u64
    decreases recs.len(),
{
    if recs.len() == 0 {
        0
    } else {
        let m = newest_update(recs.drop_last());
        if recs.last().updated_at > m {
            recs.last().updated_at
        } else {
            m
        }
    }
}

/// The checksums of the records.
pub open spec fn checksums(recs: Seq<DataRecord>) -> Seq<Seq<char>> {
    recs.map_values(|r: DataRecord| r.checksum@)
}

/// `part / whole` in thousandths, rounded down; 1000 for an empty whole.
pub open spec fn ratio(part: nat, whole: nat) -> u32 {
    if whole == 0 {
        1000
    } else {
        (part * 1000 / whole) as u32
    }
}

/// Microseconds in 30 days, over 1000: each such span of age costs a thousandth of
/// freshness.
pub open spec fn freshness_step() -> nat {
    2_592_000_000
}

/// Freshness in thousandths: 1000 for data updated now, falling linearly to 0 at
/// 30 days of age (the thousandths lost rounded up).
pub open spec fn freshness(now: u64, newest: u64) -> u32 {
    let age: nat = if now >= newest {
        (now - newest) as nat
    } else {
        0
    };
    let lost: nat = age / freshness_step() + if age % freshness_step() == 0 {
        0nat
    } else {
        1nat
    };
    if lost >= 1000 {
        0
    } else {
        (1000 - lost) as u32
    }
}

/// The accuracy given to every score (no validation rules exist).
pub open spec fn base_accuracy() -> u32 {
    850
}

/// The five dimensions of the quality of the records at time `now`: completeness
/// (non-null values), uniqueness (distinct checksums), consistency (records with the
/// most fields), freshness (newest update) and accuracy; all 0 for no records.
pub open spec fn quality_parts(recs: Seq<DataRecord>, now: u64) -> (u32, u32, u32, u32, u32) {
    if recs.len() == 0 {
        (0, 0, 0, 0, 0)
    } else {
        (
            ratio(non_null_total(recs), field_total(recs)),
            ratio(checksums(recs).to_set().len(), recs.len()),
            ratio(count_with_fields(recs, max_field_count(recs)), recs.len()),
            freshness(now, newest_update(recs)),
            base_accuracy(),
        )
    }
}

/// `r` is the score of the records `recs` of node `node` at time `now`.
pub open spec fn scored(r: QualityScore, recs: Seq<DataRecord>, node: Seq<char>, now: u64) -> bool {
    let (c, u, co, f, a) = quality_parts(recs, now);
    &&& r.target@ == node
    &&& r.completeness == c
    &&& r.uniqueness == u
    &&& r.consistency == co
    &&& r.freshness == f
    &&& r.accuracy == a
    &&& r.score == overall_score(c, u, co, f, a)
}

proof fn lemma_non_null_le(fields: Seq<(Seq<char>, JsonView)>)
    ensures
        non_null_count(fields) <= fields.len(),
    decreases fields.len(),
{
    if fields.len() > 0 {
        lemma_non_null_le(fields.drop_last());
    }
}

proof fn lemma_totals(recs: Seq<DataRecord>, i: int)
    requires
        0 <= i <= recs.len(),
    ensures
        field_total(recs.subrange(0, i)) <= field_total(recs),
        non_null_total(recs) <= field_total(recs),
        count_with_fields(recs, max_field_count(recs)) <= recs.len(),
    decreases recs.len(),
{
    if recs.len() > 0 {
        let d = recs.drop_last();
        lemma_non_null_le(recs.last().fields@);
        if i < recs.len() {
            assert(recs.subrange(0, i) =~= d.subrange(0, i));
            lemma_totals(d, i);
        } else {
            assert(recs.subrange(0, i) =~= recs);
            lemma_totals(d, 0);
        }
        lemma_count_le(recs, max_field_count(recs));
    }
}

proof fn lemma_count_le(recs: Seq<DataRecord>, k: nat)
    ensures
        count_with_fields(recs, k) <= recs.len(),
    decreases recs.len(),
{
    if recs.len() > 0 {
        lemma_count_le(recs.drop_last(), k);
    }
}

/// The records kept by a filter hold no more field values than all of them.
proof fn lemma_keep_total<A>(s: Seq<DataRecord>, p: spec_fn(DataRecord) -> bool)
    ensures
        field_total(keep(s, p)) <= field_total(s),
    decreases s.len(),
{
    if s.len() > 0 {
        lemma_keep_total::<A>(s.drop_last(), p);
        let k = keep(s.drop_last(), p);
        if p(s.last()) {
            let k2 = k + seq![s.last()];
            assert(k2.drop_last() =~= k);
        } else {
            assert(k + Seq::<DataRecord>::empty() =~= k);
        }
    }
}

/// Number of non-null values in a record's fields.
fn count_non_null(r: &DataRecord) -> (n: u64)
    ensures
        n == non_null_count(r.fields@),
{
    let entries = r.fields.entries();
    let ghost fs = r.fields@;
    proof {
        lemma_member_views(entries@);
    }
    let mut n: u64 = 0;
    let mut i: usize = 0;
    while i < entries.len()
        invariant
            i <= entries@.len(),
            fs.len() == entries@.len(),
            forall|k: int| 0 <= k < fs.len() ==> #[trigger] fs[k] == (entries@[k].0@, entries@[k].1@),
            n == non_null_count(fs.subrange(0, i as int)),
            n <= i,
        decreases entries.len() - i,
    {
        assert(fs.subrange(0, i + 1).drop_last() =~= fs.subrange(0, i as int));
        assert(fs[i as int] == (entries@[i as int].0@, entries@[i as int].1@));
        if !entries[i].1.is_null() {
            n = n + 1;
        }
        i = i + 1;
    }
    assert(fs.subrange(0, fs.len() as int) =~= fs);
    n
}

/// `part / whole` in thousandths, rounded down; 1000 for an empty whole.
fn ratio_exec(part: u64, whole: u64) -> (r: u32)
    requires
        part <= whole,
    ensures
        r == ratio(part as nat, whole as nat),
        r <= 1000,
{
    if whole == 0 {
        1000
    } else {
        let prod: u128 = (part as u128) * 1000;
        let q: u128 = prod / (whole as u128);
        assert(q <= 1000) by (nonlinear_arith)
            requires
                part <= whole,
                whole > 0,
                prod == part * 1000,
                q == prod as int / whole as int,
        ;
        q as u32
    }
}

fn freshness_exec(now: u64, newest: u64) -> (r: u32)
    ensures
        r == freshness(now, newest),
{
    let age: u64 = if now >= newest {
        now - newest
    } else {
        0
    };
    let step: u64 = 2_592_000_000;
    let lost: u64 = age / step + if age % step == 0 {
        0
    } else {
        1
    };
    if lost >= 1000 {
        0
    } else {
        (1000 - lost) as u32
    }
}

/// Whether a checksum is in a list.
fn contains_text(list: &Vec<String>, t: &str) -> (r: bool)
    ensures
        r == string_views(list@).contains(t@),
{
    let mut i: usize = 0;
    while i < list.len()
        invariant
            i <= list@.len(),
            forall|k: int| 0 <= k < i ==> list@[k]@ != t@,
        decreases list.len() - i,
    {
        if str_eq(list[i].as_str(), t) {
            assert(string_views(list@)[i as int] == t@);
            return true;
        }
        i = i + 1;
    }
    proof {
        if string_views(list@).contains(t@) {
            let k = choose|k: int| 0 <= k < string_views(list@).len() && string_views(list@)[k] == t@;
            assert(list@[k]@ == t@);
        }
    }
    false
}

/// Engine for scoring data quality.
pub struct QualityEngine;

impl QualityEngine {
    /// The quality of a node's records at time `now` (see `quality_parts`).
    pub fn score_at(store: &DataStore, node: &str, now: u64) -> (r: QualityScore)
        requires
            field_total(keep(store.records(), of_node(node@))) <= u64::MAX,
        ensures
            r.target@ == node@,
            scored(r, keep(store.records(), of_node(node@)), node@, now),
    {
        let records = store.records_for_node(node);
        let ghost recs = keep(store.records(), of_node(node@));
        if records.len() == 0 {
            return QualityScore::compute(node, 0, 0, 0, 0, 0);
        }
        let mut total_fields: u64 = 0;
        let mut non_null: u64 = 0;
        let mut max_fields: usize = 0;
        let mut newest: u64 = 0;
        let mut seen: Vec<String> = Vec::new();
        let mut i: usize = 0;
        while i < records.len()
            invariant
                i <= records@.len(),
                records@.map_values(|x: &DataRecord| *x) == recs,
                field_total(recs) <= u64::MAX,
                total_fields == field_total(recs.subrange(0, i as int)),
                non_null == non_null_total(recs.subrange(0, i as int)),
                non_null <= total_fields,
                max_fields == max_field_count(recs.subrange(0, i as int)),
                newest == newest_update(recs.subrange(0, i as int)),
                string_views(seen@).no_duplicates(),
                string_views(seen@).to_set() == checksums(recs.subrange(0, i as int)).to_set(),
                seen@.len() <= i,
            decreases records.len() - i,
        {
            let r = records[i];
            let ghost pre = recs.subrange(0, i as int);
            let ghost next = recs.subrange(0, i + 1);
            assert(next.drop_last() =~= pre);
            assert(*records@[i as int] == recs[i as int]);
            assert(next.last() == recs[i as int]);
            proof {
                lemma_totals(recs, i + 1);
                lemma_non_null_le(r.fields@);
            }
            total_fields = total_fields + r.fields.len() as u64;
            let nn = count_non_null(r);
            non_null = non_null + nn;
            if r.fields.len() > max_fields {
                max_fields = r.fields.len();
            }
            if r.updated_at > newest {
                newest = r.updated_at;
            }
            let ghost s0 = string_views(seen@);
            assert(checksums(next) =~= checksums(pre).push(r.checksum@));
            proof {
                checksums(pre).lemma_push_to_set_commute(r.checksum@);
            }
            if !contains_text(&seen, r.checksum.as_str()) {
                seen.push(r.checksum.clone());
                assert(string_views(seen@) =~= s0.push(r.checksum@));
                proof {
                    s0.lemma_push_to_set_commute(r.checksum@);
                    assert forall|a: int, b: int| 0 <= a < b < string_views(seen@).len() implies string_views(seen@)[a] != string_views(seen@)[b] by {
                        assert(s0[a] == string_views(seen@)[a]);
                        if b < s0.len() {
                            assert(s0[b] == string_views(seen@)[b]);
                        }
                    }
                }
            } else {
                assert(s0.to_set().contains(r.checksum@));
                assert(checksums(pre).to_set().insert(r.checksum@) =~= checksums(pre).to_set());
            }
            i = i + 1;
        }
        assert(recs.subrange(0, recs.len() as int) =~= recs);
        proof {
            string_views(seen@).unique_seq_to_set();
            lemma_totals(recs, 0);
        }
        let mut consistent: usize = 0;
        let mut j: usize = 0;
        while j < records.len()
            invariant
                j <= records@.len(),
                records@.map_values(|x: &DataRecord| *x) == recs,
                max_fields == max_field_count(recs),
                consistent == count_with_fields(recs.subrange(0, j as int), max_fields as nat),
                consistent <= j,
            decreases records.len() - j,
        {
            assert(recs.subrange(0, j + 1).drop_last() =~= recs.subrange(0, j as int));
            assert(*records@[j as int] == recs[j as int]);
            if records[j].fields.len() == max_fields {
                consistent = consistent + 1;
            }
            j = j + 1;
        }
        let n = records.len() as u64;
        let completeness = ratio_exec(non_null, total_fields);
        let uniqueness = ratio_exec(seen.len() as u64, n);
        let consistency = ratio_exec(consistent as u64, n);
        let fresh = freshness_exec(now, newest);
        QualityScore::compute(node, completeness, uniqueness, consistency, fresh, 850)
    }

    /// The quality of a node's records now (see `quality_parts`); the time is the
    /// clock's.
    pub fn score(store: &DataStore, node: &str) -> (r: QualityScore)
        requires
            field_total(keep(store.records(), of_node(node@))) <= u64::MAX,
        ensures
            r.target@ == node@,
            exists|now: u64| scored(r, keep(store.records(), of_node(node@)), node@, now),
    {
        let now = now_micros();
        Self::score_at(store, node, now)
    }

    /// The score of each schema node that has active records, in the order of the
    /// nodes' names.
    pub fn health_report(store: &DataStore) -> (r: Vec<QualityScore>)
        requires
            field_total(store.records()) <= u64::MAX,
        ensures
            strictly_sorted(r@.map_values(|q: QualityScore| q.target@)),
            r@.map_values(|q: QualityScore| q.target@).to_set() == active_nodes(store.records()),
            forall|i: int| 0 <= i < r@.len() ==> scored_sometime(#[trigger] r@[i], store.records()),
    {
        let names = sorted_active_nodes(store);
        let mut out: Vec<QualityScore> = Vec::new();
        let mut i: usize = 0;
        while i < names.len()
            invariant
                i <= names@.len(),
                field_total(store.records()) <= u64::MAX,
                out@.len() == i,
                forall|k: int| 0 <= k < i ==> (#[trigger] out@[k]).target@ == names@[k]@,
                forall|k: int| 0 <= k < i ==> scored_sometime(#[trigger] out@[k], store.records()),
            decreases names.len() - i,
        {
            proof {
                lemma_keep_total::<DataRecord>(store.records(), of_node(names@[i as int]@));
            }
            let q = Self::score(store, names[i].as_str());
            let ghost o0 = out@;
            out.push(q);
            proof {
                assert forall|k: int| 0 <= k < i + 1 implies scored_sometime(#[trigger] out@[k], store.records()) by {
                    if k < i {
                        assert(out@[k] == o0[k]);
                    } else {
                        assert(out@[k] == q);
                        let w = choose|now: u64| scored(q, keep(store.records(), of_node(names@[i as int]@)), names@[i as int]@, now);
                        assert(scored(q, keep(store.records(), of_node(q.target@)), q.target@, w));
                    }
                }
            }
            i = i + 1;
        }
        assert(out@.map_values(|q: QualityScore| q.target@) =~= string_views(names@));
        out
    }
}

proof fn lemma_ratio_at_most_1000(part: nat, whole: nat)
    requires
        part <= whole,
    ensures
        ratio(part, whole) <= 1000,
{
    if whole > 0 {
        assert(part * 1000 / whole <= 1000) by (nonlinear_arith)
            requires
                part <= whole,
                whole > 0,
        ;
    }
}

/// Every dimension of a computed quality lies in 0..=1000 thousandths, so its overall
/// score lies in 0..=100.
pub proof fn lemma_quality_in_range(recs: Seq<DataRecord>, now: u64)
    ensures
        ({
            let (c, u, co, f, a) = quality_parts(recs, now);
            &&& c <= 1000 && u <= 1000 && co <= 1000 && f <= 1000 && a <= 1000
            &&& overall_score(c, u, co, f, a) <= 100
        }),
{
    if recs.len() > 0 {
        lemma_totals(recs, 0);
        checksums(recs).lemma_cardinality_of_set();
        lemma_ratio_at_most_1000(non_null_total(recs), field_total(recs));
        lemma_ratio_at_most_1000(checksums(recs).to_set().len(), recs.len());
        lemma_ratio_at_most_1000(count_with_fields(recs, max_field_count(recs)), recs.len());
    }
}

/// `q` is the score of the records of its target node at some time.
pub open spec fn scored_sometime(q: QualityScore, records: Seq<DataRecord>) -> bool {
    exists|now: u64| scored(q, keep(records, of_node(q.target@)), q.target@, now)
}

/// Each name comes before the next in the order of `lex_order`.
pub open spec fn strictly_sorted(s: Seq<Seq<char>>) -> bool {
    forall|i: int, j: int| 0 <= i < j < s.len() ==> lex_order(#[trigger] s[i], #[trigger] s[j]) < 0
}

proof fn lemma_lex_flip(a: Seq<char>, b: Seq<char>)
    ensures
        lex_order(a, b) == -lex_order(b, a),
        lex_order(a, b) == 0 ==> a == b,
    decreases a.len(),
{
    if a.len() > 0 && b.len() > 0 && (a[0] as u32) == (b[0] as u32) {
        lemma_lex_flip(a.drop_first(), b.drop_first());
        if lex_order(a, b) == 0 {
            vstd::utf8::char_u32_cast(a[0], a[0] as u32);
            vstd::utf8::char_u32_cast(b[0], b[0] as u32);
            assert(a[0] == b[0]);
            assert(a =~= seq![a[0]] + a.drop_first());
            assert(b =~= seq![b[0]] + b.drop_first());
        }
    } else if a.len() == 0 && b.len() == 0 {
        assert(a =~= b);
    }
}

proof fn lemma_lex_trans(a: Seq<char>, b: Seq<char>, c: Seq<char>)
    requires
        lex_order(a, b) < 0,
        lex_order(b, c) < 0,
    ensures
        lex_order(a, c) < 0,
    decreases a.len(),
{
    if a.len() > 0 && b.len() > 0 && c.len() > 0 && (a[0] as u32) == (b[0] as u32) && (b[0] as u32) == (c[0] as u32) {
        lemma_lex_trans(a.drop_first(), b.drop_first(), c.drop_first());
    }
}

/// The names of the schema nodes of the active records, each once, in order.
fn sorted_active_nodes(store: &DataStore) -> (r: Vec<String>)
    ensures
        strictly_sorted(string_views(r@)),
        string_views(r@).to_set() == active_nodes(store.records()),
{
    let records = store.active_records();
    let ghost act = keep(store.records(), is_active_record());
    let ghost nodes_seq = act.map_values(|r: DataRecord| r.schema_node@);
    let mut names: Vec<String> = Vec::new();
    let mut i: usize = 0;
    while i < records.len()
        invariant
            i <= records@.len(),
            records@.map_values(|x: &DataRecord| *x) == act,
            nodes_seq == act.map_values(|r: DataRecord| r.schema_node@),
            strictly_sorted(string_views(names@)),
            string_views(names@).to_set() == nodes_seq.subrange(0, i as int).to_set(),
        decreases records.len() - i,
    {
        assert(act[i as int] == *records@[i as int]);
        let name = &records[i].schema_node;
        let ghost n0 = string_views(names@);
        assert(nodes_seq.subrange(0, i + 1) =~= nodes_seq.subrange(0, i as int).push(name@));
        proof {
            nodes_seq.subrange(0, i as int).lemma_push_to_set_commute(name@);
            assert(n0.contains(name@) == n0.to_set().contains(name@));
        }
        if !contains_text(&names, name.as_str()) {
            insert_sorted(&mut names, name);
            proof {
                n0.lemma_push_to_set_commute(name@);
                assert(string_views(names@).to_set() =~= n0.to_set().insert(name@));
            }
        } else {
            assert(nodes_seq.subrange(0, i as int).to_set().insert(name@) =~= nodes_seq.subrange(0, i as int).to_set());
        }
        i = i + 1;
    }
    assert(nodes_seq.subrange(0, nodes_seq.len() as int) =~= nodes_seq);
    names
}

/// Insert a name that is not in a sorted list at its place.
fn insert_sorted(names: &mut Vec<String>, name: &String)
    requires
        strictly_sorted(string_views(old(names)@)),
        !string_views(old(names)@).contains(name@),
    ensures
        strictly_sorted(string_views(final(names)@)),
        string_views(final(names)@).to_set() == string_views(old(names)@).to_set().insert(name@),
{
    let ghost n0 = string_views(names@);
    let nc = chars_of(name.as_str());
    let mut j: usize = 0;
    while j < names.len()
        invariant
            j <= names@.len(),
            n0 == string_views(names@),
            nc@ == name@,
            forall|k: int| 0 <= k < j ==> lex_order(#[trigger] n0[k], name@) < 0,
            !n0.contains(name@),
        ensures
            j <= names@.len(),
            forall|k: int| 0 <= k < j ==> lex_order(#[trigger] n0[k], name@) < 0,
            j < names@.len() ==> lex_order(name@, n0[j as int]) < 0,
        decreases names.len() - j,
    {
        let c = lex_order_exec(nc.as_slice(), chars_of(names[j].as_str()).as_slice());
        if c < 0 {
            assert(n0[j as int] == names@[j as int]@);
            break;
        }
        proof {
            assert(n0[j as int] == names@[j as int]@);
            lemma_lex_flip(name@, n0[j as int]);
            if lex_order(name@, n0[j as int]) == 0 {
                assert(n0.contains(name@));
            }
        }
        j = j + 1;
    }
    let ghost jj = j as int;
    proof {
        if j < names.len() {
            assert(n0[jj] == names@[jj]@);
        }
    }
    names.insert(j, name.clone());
    let ghost n1 = string_views(names@);
    assert(n1 =~= n0.insert(jj, name@));
    assert forall|a: int, b: int| 0 <= a < b < n1.len() implies lex_order(#[trigger] n1[a], #[trigger] n1[b]) < 0 by {
        if b < jj {
            assert(n1[a] == n0[a] && n1[b] == n0[b]);
        } else if b == jj {
            assert(n1[a] == n0[a]);
        } else if a > jj {
            assert(n1[a] == n0[a - 1] && n1[b] == n0[b - 1]);
        } else if a == jj {
            assert(n1[b] == n0[b - 1]);
            if b - 1 > jj {
                assert(lex_order(n0[jj], n0[b - 1]) < 0);
                lemma_lex_trans(name@, n0[jj], n0[b - 1]);
            }
        } else {
            assert(n1[a] == n0[a] && n1[b] == n0[b - 1]);
        }
    }
    assert(n1.to_set() =~= n0.to_set().insert(name@)) by {
        assert forall|x: Seq<char>| n1.to_set().contains(x) implies n0.to_set().insert(name@).contains(x) by {
            let k = choose|k: int| 0 <= k < n1.len() && n1[k] == x;
            if k < jj {
                assert(n0[k] == x);
            } else if k > jj {
                assert(n0[k - 1] == x);
            }
        }
        assert forall|x: Seq<char>| n0.to_set().insert(name@).contains(x) implies n1.to_set().contains(x) by {
            if x == name@ {
                assert(n1[jj] == x);
            } else {
                let k = choose|k: int| 0 <= k < n0.len() && n0[k] == x;
                if k < jj {
                    assert(n1[k] == x);
                } else {
                    assert(n1[k + 1] == x);
                }
            }
        }
    }
}

/// Number of records in which field `f` holds null.
pub open spec fn nulls_in(recs: Seq<DataRecord>, f: Seq<char>) -> nat
    decreases recs.len(),
{
    if recs.len() == 0 {
        0
    } else {
        nulls_in(recs.drop_last(), f) + if lookup(recs.last().fields@, f) == Some(JsonView::Null) {
            1nat
        } else {
            0nat
        }
    }
}

/// The names of a list of named counts.
pub open spec fn entry_names(v: Seq<(String, u64)>) -> Seq<Seq<char>> {
    v.map_values(|e: (String, u64)| e.0@)
}

/// `f` is null in more than half of the records.
pub open spec fn null_spike(recs: Seq<DataRecord>, f: Seq<char>) -> bool {
    2 * nulls_in(recs, f) > recs.len()
}

proof fn lemma_nulls_le(recs: Seq<DataRecord>, f: Seq<char>)
    ensures
        nulls_in(recs, f) <= recs.len(),
        nulls_in(recs, f) > 0 ==> exists|k: int, m: int|
            0 <= k < recs.len() && 0 <= m < recs[k].fields@.len() && #[trigger] recs[k].fields@[m].0 == f,
    decreases recs.len(),
{
    if recs.len() > 0 {
        let d = recs.drop_last();
        lemma_nulls_le(d, f);
        if nulls_in(d, f) > 0 {
            let (k, m) = choose|k: int, m: int|
                0 <= k < d.len() && 0 <= m < d[k].fields@.len() && #[trigger] d[k].fields@[m].0 == f;
            assert(recs[k] == d[k]);
        } else if nulls_in(recs, f) > 0 {
            let fs = recs.last().fields@;
            assert(lookup(fs, f) is Some);
            let m = choose|i: int| 0 <= i < fs.len() && fs[i].0 == f;
            assert(recs[recs.len() - 1].fields@[m].0 == f);
        }
    }
}

/// The fields of a node's records that are null in more than half of them, each
/// once, with the number of records in which each is null.
pub fn null_spikes(store: &DataStore, node: &str) -> (r: Vec<(String, u64)>)
    ensures
        entry_names(r@).no_duplicates(),
        forall|i: int| 0 <= i < r@.len() ==> {
            &&& (#[trigger] r@[i]).1 == nulls_in(keep(store.records(), of_node(node@)), r@[i].0@)
            &&& null_spike(keep(store.records(), of_node(node@)), r@[i].0@)
        },
        forall|f: Seq<char>| #[trigger] null_spike(keep(store.records(), of_node(node@)), f) ==> exists|i: int|
            0 <= i < r@.len() && (#[trigger] r@[i]).0@ == f,
{
    let records = store.records_for_node(node);
    let ghost recs = keep(store.records(), of_node(node@));
    // Every field name of the records, each once.
    let mut names: Vec<String> = Vec::new();
    let mut i: usize = 0;
    while i < records.len()
        invariant
            i <= records@.len(),
            records@.map_values(|x: &DataRecord| *x) == recs,
            string_views(names@).no_duplicates(),
            forall|k: int, m: int|
                0 <= k < i && 0 <= m < recs[k].fields@.len() ==> string_views(names@).contains(#[trigger] recs[k].fields@[m].0),
        decreases records.len() - i,
    {
        assert(*records@[i as int] == recs[i as int]);
        let entries = records[i].fields.entries();
        let ghost fs = recs[i as int].fields@;
        proof {
            lemma_member_views(entries@);
        }
        let mut j: usize = 0;
        while j < entries.len()
            invariant
                i < records@.len(),
                j <= entries@.len(),
                fs == recs[i as int].fields@,
                fs.len() == entries@.len(),
                forall|m: int| 0 <= m < fs.len() ==> #[trigger] fs[m].0 == entries@[m].0@,
                string_views(names@).no_duplicates(),
                forall|k: int, m: int|
                    0 <= k < i && 0 <= m < recs[k].fields@.len() ==> string_views(names@).contains(#[trigger] recs[k].fields@[m].0),
                forall|m: int| 0 <= m < j ==> string_views(names@).contains(#[trigger] fs[m].0),
            decreases entries.len() - j,
        {
            let key = &entries[j].0;
            assert(fs[j as int].0 == key@);
            let ghost n0 = string_views(names@);
            if !contains_text(&names, key.as_str()) {
                names.push(key.clone());
                assert(string_views(names@) =~= n0.push(key@));
                assert forall|a: int, b: int| 0 <= a < b < string_views(names@).len() implies string_views(names@)[a] != string_views(names@)[b] by {
                    assert(n0[a] == string_views(names@)[a]);
                    if b < n0.len() {
                        assert(n0[b] == string_views(names@)[b]);
                    }
                }
                assert forall|x: Seq<char>| n0.contains(x) implies string_views(names@).contains(x) by {
                    let q = choose|q: int| 0 <= q < n0.len() && n0[q] == x;
                    assert(string_views(names@)[q] == x);
                }
                assert(string_views(names@)[n0.len() as int] == key@);
            }
            j = j + 1;
        }
        i = i + 1;
    }
    let n = records.len();
    let mut out: Vec<(String, u64)> = Vec::new();
    let mut p: usize = 0;
    while p < names.len()
        invariant
            p <= names@.len(),
            n == recs.len(),
            records@.map_values(|x: &DataRecord| *x) == recs,
            string_views(names@).no_duplicates(),
            forall|k: int, m: int|
                0 <= k < recs.len() && 0 <= m < recs[k].fields@.len() ==> string_views(names@).contains(#[trigger] recs[k].fields@[m].0),
            entry_names(out@).no_duplicates(),
            forall|q: int| 0 <= q < out@.len() ==> exists|t: int| 0 <= t < p && (#[trigger] out@[q]).0@ == names@[t]@,
            forall|q: int| 0 <= q < out@.len() ==> {
                &&& (#[trigger] out@[q]).1 == nulls_in(recs, out@[q].0@)
                &&& null_spike(recs, out@[q].0@)
            },
            forall|t: int| 0 <= t < p && null_spike(recs, #[trigger] names@[t]@) ==> exists|q: int|
                0 <= q < out@.len() && (#[trigger] out@[q]).0@ == names@[t]@,
        decreases names.len() - p,
    {
        let name = &names[p];
        let mut count: u64 = 0;
        let mut k: usize = 0;
        while k < records.len()
            invariant
                k <= records@.len(),
                records@.map_values(|x: &DataRecord| *x) == recs,
                count == nulls_in(recs.subrange(0, k as int), name@),
                count <= k,
            decreases records.len() - k,
        {
            assert(recs.subrange(0, k + 1).drop_last() =~= recs.subrange(0, k as int));
            assert(*records@[k as int] == recs[k as int]);
            match records[k].fields.get(name.as_str()) {
                Some(v) => {
                    if v.is_null() {
                        count = count + 1;
                    }
                },
                None => {},
            }
            k = k + 1;
        }
        assert(recs.subrange(0, recs.len() as int) =~= recs);
        let ghost o0 = out@;
        if (count as u128) * 2 > n as u128 {
            out.push((name.clone(), count));
            assert(entry_names(out@) =~= entry_names(o0).push(name@));
            assert forall|a: int, b: int| 0 <= a < b < out@.len() implies #[trigger] entry_names(out@)[a] != #[trigger] entry_names(out@)[b] by {
                if b == o0.len() {
                    assert(out@[a] == o0[a]);
                    let t = choose|t: int| 0 <= t < p && o0[a].0@ == names@[t]@;
                    assert(string_views(names@)[t] == names@[t]@);
                    assert(string_views(names@)[p as int] == names@[p as int]@);
                } else {
                    assert(out@[a] == o0[a] && out@[b] == o0[b]);
                    assert(entry_names(o0)[a] == o0[a].0@);
                    assert(entry_names(o0)[b] == o0[b].0@);
                }
            }
            assert forall|q: int| 0 <= q < out@.len() implies exists|t: int| 0 <= t < p + 1 && (#[trigger] out@[q]).0@ == names@[t]@ by {
                if q < o0.len() {
                    assert(out@[q] == o0[q]);
                    let t = choose|t: int| 0 <= t < p && (#[trigger] o0[q]).0@ == names@[t]@;
                    assert(out@[q].0@ == names@[t]@);
                } else {
                    assert(out@[q].0@ == names@[p as int]@);
                }
            }
            assert forall|t: int| 0 <= t < p + 1 && null_spike(recs, #[trigger] names@[t]@) implies exists|q: int|
                0 <= q < out@.len() && (#[trigger] out@[q]).0@ == names@[t]@ by {
                if t < p {
                    let q = choose|q: int| 0 <= q < o0.len() && (#[trigger] o0[q]).0@ == names@[t]@;
                    assert(out@[q] == o0[q]);
                } else {
                    assert(out@[o0.len() as int].0@ == names@[t]@);
                }
            }
        } else {
            assert forall|t: int| 0 <= t < p + 1 && null_spike(recs, #[trigger] names@[t]@) implies exists|q: int|
                0 <= q < out@.len() && (#[trigger] out@[q]).0@ == names@[t]@ by {
                if t == p {
                    assert(!null_spike(recs, names@[t]@));
                }
            }
            assert forall|q: int| 0 <= q < out@.len() implies exists|t: int| 0 <= t < p + 1 && (#[trigger] out@[q]).0@ == names@[t]@ by {
                let t = choose|t: int| 0 <= t < p && (#[trigger] out@[q]).0@ == names@[t]@;
            }
        }
        p = p + 1;
    }
    assert forall|f: Seq<char>| #[trigger] null_spike(recs, f) implies exists|i: int|
        0 <= i < out@.len() && (#[trigger] out@[i]).0@ == f by {
        lemma_nulls_le(recs, f);
        let (k, m) = choose|k: int, m: int|
            0 <= k < recs.len() && 0 <= m < recs[k].fields@.len() && #[trigger] recs[k].fields@[m].0 == f;
        assert(string_views(names@).contains(recs[k].fields@[m].0));
        let t = choose|t: int| 0 <= t < string_views(names@).len() && string_views(names@)[t] == f;
        assert(names@[t]@ == f);
        assert(null_spike(recs, names@[t]@));
    }
    out
}

} // verus!
