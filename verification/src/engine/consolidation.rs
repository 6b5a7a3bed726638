//! Consolidation engine: deduplication, orphan pruning and compaction of a store.
use vstd::prelude::*;
use crate::text::{str_eq, string_views};
use crate::types::record::{DataRecord, RecordStatus};
use crate::types::schema::UniversalSchema;
use crate::types::now_micros;
use super::store::{DataStore, keep, unflagged, is_active_record};

verus! {

/// Result of a consolidation run.
#[derive(Debug)]
pub struct ConsolidationReport {
    pub duplicates_removed: usize,
    pub orphans_pruned: usize,
    pub schemas_merged: usize,
    pub quality_refreshed: usize,
    pub total_actions: usize,
}

/// The ids of the records whose checksum an earlier record of the list has, in
/// order.
pub open spec fn duplicate_ids(recs: Seq<DataRecord>) -> Seq<Seq<char>>
    decreases recs.len(),
{
    if recs.len() == 0 {
        Seq::empty()
    } else {
        let prev = recs.drop_last();
        duplicate_ids(prev) + if prev.map_values(|r: DataRecord| r.checksum@).contains(
            recs.last().checksum@,
        ) {
            seq![recs.last().id@]
        } else {
            Seq::empty()
        }
    }
}

/// Records whose id is not in the list.
pub open spec fn id_not_in(ids: Seq<Seq<char>>) -> spec_fn(DataRecord) -> bool {
    |r: DataRecord| !ids.contains(r.id@)
}

/// The schema node names of all schemas, in order.
pub open spec fn all_node_names(schemas: Seq<UniversalSchema>) -> Seq<Seq<char>>
    decreases schemas.len(),
{
    if schemas.len() == 0 {
        Seq::empty()
    } else {
        all_node_names(schemas.drop_last()) + schemas.last().nodes@.map_values(
            |n: crate::types::schema::SchemaNode| n.name@,
        )
    }
}

/// Records that are not active orphans: inactive, or of a node some schema has.
pub open spec fn not_orphan(names: Seq<Seq<char>>) -> spec_fn(DataRecord) -> bool {
    |r: DataRecord| !(!names.contains(r.schema_node@) && r.status == RecordStatus::Active)
}

/// Records that are not active ones last updated before `cutoff`.
pub open spec fn not_stale(cutoff: u64) -> spec_fn(DataRecord) -> bool {
    |r: DataRecord| !(r.updated_at < cutoff && r.status == RecordStatus::Active)
}

proof fn lemma_unflagged_keep(s: Seq<DataRecord>, flags: Seq<bool>, p: spec_fn(DataRecord) -> bool)
    requires
        flags.len() == s.len(),
        forall|i: int| 0 <= i < s.len() ==> flags[i] == !p(s[i]),
    ensures
        unflagged(s, flags) == keep(s, p),
    decreases s.len(),
{
    if s.len() > 0 {
        lemma_unflagged_keep(s.drop_last(), flags.subrange(0, flags.len() - 1), p);
        lemma_unflagged_flags(s.drop_last(), flags, flags.subrange(0, flags.len() - 1));
    }
}

proof fn lemma_unflagged_flags(s: Seq<DataRecord>, f1: Seq<bool>, f2: Seq<bool>)
    requires
        f1.len() >= s.len(),
        f2.len() >= s.len(),
        forall|k: int| 0 <= k < s.len() ==> f1[k] == f2[k],
    ensures
        unflagged(s, f1) == unflagged(s, f2),
    decreases s.len(),
{
    if s.len() > 0 {
        lemma_unflagged_flags(s.drop_last(), f1, f2);
    }
}

proof fn lemma_keep_keep(s: Seq<DataRecord>, p: spec_fn(DataRecord) -> bool, q: spec_fn(DataRecord) -> bool, pq: spec_fn(DataRecord) -> bool)
    requires
        forall|r: DataRecord| #[trigger] pq(r) == (p(r) && q(r)),
    ensures
        keep(keep(s, p), q) == keep(s, pq),
    decreases s.len(),
{
    if s.len() > 0 {
        lemma_keep_keep(s.drop_last(), p, q, pq);
        if p(s.last()) {
            assert(keep(s, p).drop_last() =~= keep(s.drop_last(), p));
            assert(keep(s, p).last() == s.last());
        } else {
            assert(keep(s, p) =~= keep(s.drop_last(), p));
        }
    }
}

/// Remove the records with the given id; returns how many were removed.
fn remove_by_id(store: &mut DataStore, id: &String) -> (r: usize)
    ensures
        final(store).records() == keep(old(store).records(), id_not_in(seq![id@])),
        final(store).schemas() == old(store).schemas(),
        final(store).sources() == old(store).sources(),
        final(store).chains() == old(store).chains(),
{
    let ghost idv = id@;
    let pred = |r: &DataRecord| -> (b: bool)
        ensures
            b == (r.id@ == id@),
        { str_eq(r.id.as_str(), id.as_str()) };
    let ghost old_recs = store.records();
    let n = store.remove_records(pred);
    proof {
        let flags = choose|flags: Seq<bool>|
            {
                &&& flags.len() == old_recs.len()
                &&& forall|i: int| 0 <= i < flags.len() ==> pred.ensures((&old_recs[i],), #[trigger] flags[i])
                &&& store.records() == #[trigger] unflagged(old_recs, flags)
            };
        assert forall|i: int| 0 <= i < old_recs.len() implies flags[i] == !id_not_in(seq![idv])(old_recs[i]) by {
            assert(pred.ensures((&old_recs[i],), flags[i]));
            assert(seq![idv].contains(old_recs[i].id@) == (old_recs[i].id@ == idv)) by {
                if old_recs[i].id@ == idv {
                    assert(seq![idv][0] == idv);
                }
            }
        }
        lemma_unflagged_keep(old_recs, flags, id_not_in(seq![idv]));
    }
    n
}

/// The record ids removed by deduplication: those of the active records whose
/// checksum an earlier active record has.
pub open spec fn dedup_ids(records: Seq<DataRecord>) -> Seq<Seq<char>> {
    duplicate_ids(keep(records, is_active_record()))
}

/// The distinct schema nodes of the active records.
pub open spec fn active_nodes(records: Seq<DataRecord>) -> Set<Seq<char>> {
    keep(records, is_active_record()).map_values(|r: DataRecord| r.schema_node@).to_set()
}

/// Whether a name is in a list.
fn contains_name(list: &Vec<String>, name: &str) -> (r: bool)
    ensures
        r == string_views(list@).contains(name@),
{
    let mut i: usize = 0;
    while i < list.len()
        invariant
            i <= list@.len(),
            forall|k: int| 0 <= k < i ==> string_views(list@)[k] != name@,
        decreases list.len() - i,
    {
        assert(string_views(list@)[i as int] == list@[i as int]@);
        if str_eq(list[i].as_str(), name) {
            return true;
        }
        i = i + 1;
    }
    false
}

/// Consolidation operations for maintaining data health.
pub struct ConsolidationEngine;

impl ConsolidationEngine {
    /// Remove the records whose id is one of the duplicates' (active records with the
    /// checksum of an earlier active record); returns the number of duplicates found.
    pub fn dedup_records(store: &mut DataStore) -> (r: usize)
        ensures
            r == dedup_ids(old(store).records()).len(),
            final(store).records() == keep(old(store).records(), id_not_in(dedup_ids(old(store).records()))),
            final(store).schemas() == old(store).schemas(),
            final(store).sources() == old(store).sources(),
            final(store).chains() == old(store).chains(),
    {
        let ghost old_recs = store.records();
        let ghost act = keep(old_recs, is_active_record());
        let mut dup_ids: Vec<String> = Vec::new();
        {
            let records = store.active_records();
            let mut seen: Vec<String> = Vec::new();
            let mut i: usize = 0;
            while i < records.len()
                invariant
                    i <= records@.len(),
                    records@.map_values(|x: &DataRecord| *x) == act,
                    string_views(seen@).to_set() == act.subrange(0, i as int).map_values(|r: DataRecord| r.checksum@).to_set(),
                    string_views(dup_ids@) == duplicate_ids(act.subrange(0, i as int)),
                decreases records.len() - i,
            {
                let ghost pre = act.subrange(0, i as int);
                assert(act.subrange(0, i + 1).drop_last() =~= pre);
                assert(act[i as int] == *records@[i as int]);
                let rec = records[i];
                let ghost s0 = string_views(seen@);
                let ghost d0 = dup_ids@;
                let ghost pcs = pre.map_values(|r: DataRecord| r.checksum@);
                assert(act.subrange(0, i + 1).map_values(|r: DataRecord| r.checksum@) =~= pcs.push(rec.checksum@));
                proof {
                    pcs.lemma_push_to_set_commute(rec.checksum@);
                    assert(pcs.contains(rec.checksum@) == pcs.to_set().contains(rec.checksum@));
                    assert(s0.contains(rec.checksum@) == s0.to_set().contains(rec.checksum@));
                }
                if contains_name(&seen, rec.checksum.as_str()) {
                    dup_ids.push(rec.id.clone());
                    assert(string_views(dup_ids@) =~= string_views(d0).push(rec.id@));
                    assert(pcs.push(rec.checksum@).to_set() =~= pcs.to_set());
                } else {
                    seen.push(rec.checksum.clone());
                    assert(string_views(seen@) =~= s0.push(rec.checksum@));
                    proof {
                        s0.lemma_push_to_set_commute(rec.checksum@);
                    }
                }
                i = i + 1;
            }
            assert(act.subrange(0, act.len() as int) =~= act);
        }
        let ghost ids = string_views(dup_ids@);
        let count = dup_ids.len();
        let mut k: usize = 0;
        assert(ids.subrange(0, 0) =~= Seq::<Seq<char>>::empty());
        assert(keep(old_recs, id_not_in(ids.subrange(0, 0))) == old_recs) by {
            lemma_keep_all(old_recs, id_not_in(ids.subrange(0, 0)));
        }
        while k < dup_ids.len()
            invariant
                k <= dup_ids@.len(),
                ids == string_views(dup_ids@),
                store.records() == keep(old_recs, id_not_in(ids.subrange(0, k as int))),
                store.schemas() == old(store).schemas(),
                store.sources() == old(store).sources(),
                store.chains() == old(store).chains(),
            decreases dup_ids.len() - k,
        {
            let ghost before = store.records();
            let id = &dup_ids[k];
            remove_by_id(store, id);
            proof {
                let p = id_not_in(ids.subrange(0, k as int));
                let q = id_not_in(seq![id@]);
                let pq = id_not_in(ids.subrange(0, k + 1));
                assert(ids[k as int] == id@);
                assert forall|r: DataRecord| #[trigger] pq(r) == (p(r) && q(r)) by {
                    let a = ids.subrange(0, k as int);
                    let b = ids.subrange(0, k + 1);
                    assert(b =~= a.push(id@));
                    if b.contains(r.id@) {
                        let j = choose|j: int| 0 <= j < b.len() && b[j] == r.id@;
                        if j < a.len() {
                            assert(a[j] == r.id@);
                        } else {
                            assert(seq![id@][0] == r.id@);
                        }
                    }
                    if a.contains(r.id@) {
                        let j = choose|j: int| 0 <= j < a.len() && a[j] == r.id@;
                        assert(b[j] == r.id@);
                    }
                    if seq![id@].contains(r.id@) {
                        assert(b[k as int] == r.id@);
                    }
                }
                lemma_keep_keep(old_recs, p, q, pq);
            }
            k = k + 1;
        }
        assert(ids.subrange(0, ids.len() as int) =~= ids);
        count
    }

    /// Remove the active records of nodes that no schema has; returns how many were
    /// removed.
    pub fn prune_orphans(store: &mut DataStore) -> (r: usize)
        ensures
            final(store).records() == keep(old(store).records(), not_orphan(all_node_names(old(store).schemas()))),
            r == old(store).records().len() - final(store).records().len(),
            final(store).schemas() == old(store).schemas(),
            final(store).sources() == old(store).sources(),
            final(store).chains() == old(store).chains(),
    {
        let ghost sv = store.schemas();
        let mut names: Vec<String> = Vec::new();
        {
            let schemas = store.all_schemas();
            let mut k: usize = 0;
            assert(sv.subrange(0, 0) =~= Seq::<UniversalSchema>::empty());
            while k < schemas.len()
                invariant
                    k <= schemas@.len(),
                    schemas@.len() == sv.len(),
                    forall|q: int| 0 <= q < schemas@.len() ==> *(#[trigger] schemas@[q]) == sv[q],
                    string_views(names@) == all_node_names(sv.subrange(0, k as int)),
                decreases schemas.len() - k,
            {
                assert(sv.subrange(0, k + 1).drop_last() =~= sv.subrange(0, k as int));
                assert(*schemas@[k as int] == sv[k as int]);
                let nodes = &schemas[k].nodes;
                let ghost base = string_views(names@);
                let mut j: usize = 0;
                while j < nodes.len()
                    invariant
                        j <= nodes@.len(),
                        string_views(names@) == base + nodes@.subrange(0, j as int).map_values(
                            |n: crate::types::schema::SchemaNode| n.name@,
                        ),
                    decreases nodes.len() - j,
                {
                    let ghost n0 = names@;
                    names.push(nodes[j].name.clone());
                    assert(string_views(names@) =~= string_views(n0).push(nodes@[j as int].name@));
                    assert(string_views(names@) =~= base + nodes@.subrange(0, j + 1).map_values(
                        |n: crate::types::schema::SchemaNode| n.name@,
                    ));
                    j = j + 1;
                }
                assert(nodes@.subrange(0, nodes@.len() as int) =~= nodes@);
                k = k + 1;
            }
            assert(sv.subrange(0, sv.len() as int) =~= sv);
        }
        let ghost nv = string_views(names@);
        let pred = |r: &DataRecord| -> (b: bool)
            ensures
                b == (!string_views(names@).contains(r.schema_node@) && r.status == RecordStatus::Active),
            { !contains_name(&names, r.schema_node.as_str()) && r.is_active() };
        let ghost old_recs = store.records();
        let n = store.remove_records(pred);
        proof {
            let flags = choose|flags: Seq<bool>|
                {
                    &&& flags.len() == old_recs.len()
                    &&& forall|i: int| 0 <= i < flags.len() ==> pred.ensures((&old_recs[i],), #[trigger] flags[i])
                    &&& store.records() == #[trigger] unflagged(old_recs, flags)
                };
            assert forall|i: int| 0 <= i < old_recs.len() implies flags[i] == !not_orphan(nv)(old_recs[i]) by {
                assert(pred.ensures((&old_recs[i],), flags[i]));
            }
            lemma_unflagged_keep(old_recs, flags, not_orphan(nv));
        }
        n
    }

    /// Merge schemas with identical structure: no merge is made.
    pub fn merge_duplicate_schemas(store: &mut DataStore) -> (r: usize)
        ensures
            r == 0,
            *final(store) == *old(store),
    {
        0
    }

    /// The number of distinct schema nodes among the active records (each node's
    /// quality is refreshed).
    pub fn refresh_quality(store: &DataStore) -> (r: usize)
        ensures
            r == active_nodes(store.records()).len(),
    {
        let records = store.active_records();
        let ghost act = keep(store.records(), is_active_record());
        let ghost nodes_seq = act.map_values(|r: DataRecord| r.schema_node@);
        let mut nodes: Vec<String> = Vec::new();
        let mut i: usize = 0;
        while i < records.len()
            invariant
                i <= records@.len(),
                records@.map_values(|x: &DataRecord| *x) == act,
                nodes_seq == act.map_values(|r: DataRecord| r.schema_node@),
                string_views(nodes@).no_duplicates(),
                string_views(nodes@).to_set() == nodes_seq.subrange(0, i as int).to_set(),
            decreases records.len() - i,
        {
            assert(act[i as int] == *records@[i as int]);
            let name = &records[i].schema_node;
            let ghost n0 = string_views(nodes@);
            assert(nodes_seq.subrange(0, i + 1) =~= nodes_seq.subrange(0, i as int).push(name@));
            proof {
                nodes_seq.subrange(0, i as int).lemma_push_to_set_commute(name@);
                assert(n0.contains(name@) == n0.to_set().contains(name@));
            }
            if !contains_name(&nodes, name.as_str()) {
                nodes.push(name.clone());
                assert(string_views(nodes@) =~= n0.push(name@));
                proof {
                    n0.lemma_push_to_set_commute(name@);
                    assert forall|a: int, b: int| 0 <= a < b < string_views(nodes@).len() implies string_views(nodes@)[a] != string_views(nodes@)[b] by {
                        if b == n0.len() {
                            assert(n0[a] == string_views(nodes@)[a]);
                        } else {
                            assert(n0[a] == string_views(nodes@)[a]);
                            assert(n0[b] == string_views(nodes@)[b]);
                        }
                    }
                }
            } else {
                assert(nodes_seq.subrange(0, i as int).to_set().insert(name@) =~= nodes_seq.subrange(0, i as int).to_set());
            }
            i = i + 1;
        }
        assert(nodes_seq.subrange(0, nodes_seq.len() as int) =~= nodes_seq);
        proof {
            string_views(nodes@).unique_seq_to_set();
        }
        nodes.len()
    }

    /// Remove the active records last updated more than `max_age_micros` before now;
    /// returns how many were removed. The cut-off depends on the clock.
    pub fn compact(store: &mut DataStore, max_age_micros: u64) -> (r: usize)
        ensures
            exists|cutoff: u64|
                final(store).records() == #[trigger] keep(old(store).records(), not_stale(cutoff)),
            r == old(store).records().len() - final(store).records().len(),
            final(store).schemas() == old(store).schemas(),
            final(store).sources() == old(store).sources(),
            final(store).chains() == old(store).chains(),
    {
        let now = now_micros();
        let cutoff = if now > max_age_micros {
            now - max_age_micros
        } else {
            0
        };
        let pred = |r: &DataRecord| -> (b: bool)
            ensures
                b == (r.updated_at < cutoff && r.status == RecordStatus::Active),
            { r.updated_at < cutoff && r.is_active() };
        let ghost old_recs = store.records();
        let n = store.remove_records(pred);
        proof {
            let flags = choose|flags: Seq<bool>|
                {
                    &&& flags.len() == old_recs.len()
                    &&& forall|i: int| 0 <= i < flags.len() ==> pred.ensures((&old_recs[i],), #[trigger] flags[i])
                    &&& store.records() == #[trigger] unflagged(old_recs, flags)
                };
            assert forall|i: int| 0 <= i < old_recs.len() implies flags[i] == !not_stale(cutoff)(old_recs[i]) by {
                assert(pred.ensures((&old_recs[i],), flags[i]));
            }
            lemma_unflagged_keep(old_recs, flags, not_stale(cutoff));
            assert(store.records() == keep(old_recs, not_stale(cutoff)));
        }
        n
    }

    /// Run deduplication, orphan pruning, schema merging and quality refresh, in that
    /// order, and report what each did.
    pub fn consolidate(store: &mut DataStore) -> (r: ConsolidationReport)
        requires
            old(store).records().len() <= usize::MAX / 4,
        ensures
            r.duplicates_removed == dedup_ids(old(store).records()).len(),
            r.orphans_pruned == keep(old(store).records(), id_not_in(dedup_ids(old(store).records()))).len()
                - final(store).records().len(),
            final(store).records() == keep(
                keep(old(store).records(), id_not_in(dedup_ids(old(store).records()))),
                not_orphan(all_node_names(old(store).schemas())),
            ),
            r.schemas_merged == 0,
            r.quality_refreshed == active_nodes(final(store).records()).len(),
            r.total_actions == r.duplicates_removed + r.orphans_pruned + r.schemas_merged
                + r.quality_refreshed,
            final(store).schemas() == old(store).schemas(),
            final(store).sources() == old(store).sources(),
            final(store).chains() == old(store).chains(),
    {
        let ghost r0 = store.records();
        proof {
            lemma_duplicate_ids_len(keep(r0, is_active_record()));
            lemma_keep_len(r0, is_active_record());
        }
        let dups = Self::dedup_records(store);
        let ghost r1 = store.records();
        proof {
            lemma_keep_len(r0, id_not_in(dedup_ids(r0)));
        }
        let orphans = Self::prune_orphans(store);
        let merged = Self::merge_duplicate_schemas(store);
        let quality = Self::refresh_quality(store);
        proof {
            lemma_active_nodes_bound(store.records());
        }
        ConsolidationReport {
            duplicates_removed: dups,
            orphans_pruned: orphans,
            schemas_merged: merged,
            quality_refreshed: quality,
            total_actions: dups + orphans + merged + quality,
        }
    }
}

proof fn lemma_keep_all(s: Seq<DataRecord>, p: spec_fn(DataRecord) -> bool)
    requires
        forall|r: DataRecord| #[trigger] p(r),
    ensures
        keep(s, p) == s,
    decreases s.len(),
{
    if s.len() > 0 {
        lemma_keep_all(s.drop_last(), p);
        assert(s.drop_last().push(s.last()) =~= s);
    }
}

proof fn lemma_keep_len(s: Seq<DataRecord>, p: spec_fn(DataRecord) -> bool)
    ensures
        keep(s, p).len() <= s.len(),
    decreases s.len(),
{
    if s.len() > 0 {
        lemma_keep_len(s.drop_last(), p);
    }
}

proof fn lemma_duplicate_ids_len(s: Seq<DataRecord>)
    ensures
        duplicate_ids(s).len() <= s.len(),
    decreases s.len(),
{
    if s.len() > 0 {
        lemma_duplicate_ids_len(s.drop_last());
    }
}

proof fn lemma_active_nodes_bound(s: Seq<DataRecord>)
    ensures
        active_nodes(s).len() <= s.len(),
{
    let m = keep(s, is_active_record()).map_values(|r: DataRecord| r.schema_node@);
    m.lemma_cardinality_of_set();
    lemma_keep_len(s, is_active_record());
}


/// The checksums of a list of records.
pub open spec fn checksum_list(recs: Seq<DataRecord>) -> Seq<Seq<char>> {
    recs.map_values(|r: DataRecord| r.checksum@)
}

/// A record whose checksum an earlier record has is among the duplicates.
proof fn lemma_later_twin_is_duplicate(recs: Seq<DataRecord>, p: int, q: int)
    requires
        0 <= p < q < recs.len(),
        recs[p].checksum@ == recs[q].checksum@,
    ensures
        duplicate_ids(recs).contains(recs[q].id@),
    decreases recs.len(),
{
    let prev = recs.drop_last();
    if q == recs.len() - 1 {
        assert(prev.map_values(|r: DataRecord| r.checksum@)[p] == recs[q].checksum@);
        assert(prev.map_values(|r: DataRecord| r.checksum@).contains(recs.last().checksum@));
        let tail = seq![recs.last().id@];
        assert(duplicate_ids(recs) == duplicate_ids(prev) + tail);
        assert(duplicate_ids(recs)[duplicate_ids(prev).len() as int] == recs[q].id@);
    } else {
        assert(prev[p] == recs[p] && prev[q] == recs[q]);
        lemma_later_twin_is_duplicate(prev, p, q);
        let d = duplicate_ids(prev);
        let k = choose|k: int| 0 <= k < d.len() && d[k] == recs[q].id@;
        assert(duplicate_ids(recs)[k] == d[k]);
    }
}

/// Every kept element is an element of the list.
proof fn lemma_keep_from<A>(s: Seq<A>, f: spec_fn(A) -> bool, i: int)
    requires
        0 <= i < keep(s, f).len(),
    ensures
        exists|a: int| 0 <= a < s.len() && #[trigger] s[a] == keep(s, f)[i],
        f(keep(s, f)[i]),
    decreases s.len(),
{
    let d = s.drop_last();
    if i < keep(d, f).len() {
        lemma_keep_from(d, f, i);
        let a = choose|a: int| 0 <= a < d.len() && #[trigger] d[a] == keep(d, f)[i];
        assert(s[a] == d[a]);
        assert(keep(s, f)[i] == keep(d, f)[i]);
    } else {
        assert(keep(s, f)[i] == s.last());
        assert(s[s.len() - 1] == s.last());
    }
}

/// Keeping elements keeps their order.
proof fn lemma_keep_order<A>(s: Seq<A>, f: spec_fn(A) -> bool, i: int, j: int)
    requires
        0 <= i < j < keep(s, f).len(),
    ensures
        exists|a: int, b: int| 0 <= a < b < s.len() && #[trigger] s[a] == keep(s, f)[i] && #[trigger] s[b] == keep(s, f)[j],
    decreases s.len(),
{
    let d = s.drop_last();
    let kd = keep(d, f);
    if j < kd.len() {
        lemma_keep_order(d, f, i, j);
        let (a, b) = choose|a: int, b: int| 0 <= a < b < d.len() && #[trigger] d[a] == kd[i] && #[trigger] d[b] == kd[j];
        assert(s[a] == d[a] && s[b] == d[b]);
        assert(keep(s, f)[i] == kd[i] && keep(s, f)[j] == kd[j]);
    } else {
        lemma_keep_from(d, f, i);
        let a = choose|a: int| 0 <= a < d.len() && #[trigger] d[a] == kd[i];
        assert(s[a] == d[a]);
        assert(keep(s, f)[i] == kd[i]);
        assert(keep(s, f)[j] == s.last());
        assert(s[s.len() - 1] == s.last());
    }
}

/// After deduplication, no two active records have the same checksum.
pub proof fn lemma_dedup_leaves_distinct_checksums(recs: Seq<DataRecord>)
    ensures
        checksum_list(keep(keep(recs, id_not_in(dedup_ids(recs))), is_active_record())).no_duplicates(),
{
    let dup = dedup_ids(recs);
    let act_all = keep(recs, is_active_record());
    let kept = keep(keep(recs, id_not_in(dup)), is_active_record());
    let both = |r: DataRecord| id_not_in(dup)(r) && is_active_record()(r);
    let both2 = |r: DataRecord| is_active_record()(r) && id_not_in(dup)(r);
    lemma_keep_keep(recs, id_not_in(dup), is_active_record(), both);
    lemma_keep_keep(recs, is_active_record(), id_not_in(dup), both2);
    assert(both == both2);
    assert(kept == keep(act_all, id_not_in(dup)));
    let cs = checksum_list(kept);
    assert forall|i: int, j: int| 0 <= i < j < cs.len() implies cs[i] != cs[j] by {
        lemma_keep_order(act_all, id_not_in(dup), i, j);
        let (a, b) = choose|a: int, b: int| 0 <= a < b < act_all.len() && #[trigger] act_all[a] == kept[i] && #[trigger] act_all[b] == kept[j];
        lemma_keep_from(act_all, id_not_in(dup), j);
        if cs[i] == cs[j] {
            lemma_later_twin_is_duplicate(act_all, a, b);
        }
    }
}

} // verus!
