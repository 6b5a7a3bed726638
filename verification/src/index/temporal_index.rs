//! Temporal index: time-range queries and version history of records.
use vstd::prelude::*;
use crate::text::str_eq;
use crate::types::record::DataRecord;

verus! {

/// Buckets of record ids by timestamp, in increasing timestamp order.
pub type TimeBuckets = Seq<(u64, Seq<Seq<char>>)>;

/// Timestamps strictly increase.
pub open spec fn sorted_keys(s: TimeBuckets) -> bool {
    forall|i: int, j: int| 0 <= i < j < s.len() ==> s[i].0 < s[j].0
}

/// Where a timestamp goes: the number of buckets with an earlier timestamp.
pub open spec fn insert_pos(s: TimeBuckets, ts: u64) -> int
    decreases s.len(),
{
    if s.len() == 0 {
        0
    } else if s.last().0 < ts {
        s.len() as int
    } else {
        insert_pos(s.drop_last(), ts)
    }
}

/// The buckets after indexing `id` at `ts`: appended to the bucket of `ts`, which is
/// created in its place when missing.
pub open spec fn time_add(s: TimeBuckets, ts: u64, id: Seq<char>) -> TimeBuckets {
    let p = insert_pos(s, ts);
    if p < s.len() && s[p].0 == ts {
        s.update(p, (ts, s[p].1.push(id)))
    } else {
        s.insert(p, (ts, seq![id]))
    }
}

/// All ids, bucket by bucket in timestamp order.
pub open spec fn all_ids(s: TimeBuckets) -> Seq<Seq<char>>
    decreases s.len(),
{
    if s.len() == 0 {
        Seq::empty()
    } else {
        all_ids(s.drop_last()) + s.last().1
    }
}

/// The ids of the buckets whose timestamp lies in `[from, to]`, in timestamp order.
pub open spec fn range_ids(s: TimeBuckets, from: u64, to: u64) -> Seq<Seq<char>>
    decreases s.len(),
{
    if s.len() == 0 {
        Seq::empty()
    } else {
        range_ids(s.drop_last(), from, to) + if from <= s.last().0 <= to {
            s.last().1
        } else {
            Seq::empty()
        }
    }
}

/// All ids, the latest bucket first (each bucket in the order of indexing).
pub open spec fn ids_latest_first(s: TimeBuckets) -> Seq<Seq<char>>
    decreases s.len(),
{
    if s.len() == 0 {
        Seq::empty()
    } else {
        s.last().1 + ids_latest_first(s.drop_last())
    }
}

/// Version lists by record id.
pub type VersionLists = Seq<(Seq<char>, Seq<(u64, u32)>)>;

/// Position of a record's version list.
pub open spec fn version_index(v: VersionLists, id: Seq<char>) -> Option<int> {
    if exists|i: int| 0 <= i < v.len() && v[i].0 == id {
        Some(choose|i: int| 0 <= i < v.len() && v[i].0 == id)
    } else {
        None
    }
}

/// No id occurs twice.
pub open spec fn version_ids_unique(v: VersionLists) -> bool {
    forall|i: int, j: int| 0 <= i < j < v.len() ==> v[i].0 != v[j].0
}

/// The version lists after recording `(ts, version)` for `id`.
pub open spec fn version_add(v: VersionLists, id: Seq<char>, ts: u64, version: u32) -> VersionLists {
    match version_index(v, id) {
        Some(i) => v.update(i, (id, v[i].1.push((ts, version)))),
        None => v.push((id, seq![(ts, version)])),
    }
}

/// The version history of a record (empty when it was never indexed).
pub open spec fn history_view(v: VersionLists, id: Seq<char>) -> Seq<(u64, u32)> {
    match version_index(v, id) {
        Some(i) => v[i].1,
        None => Seq::empty(),
    }
}

/// Temporal index for time-based record lookups.
pub struct TemporalIndex {
    /// Buckets of record ids, in increasing timestamp order, each timestamp once.
    by_time: Vec<(u64, Vec<String>)>,
    /// Version lists, each record id once.
    versions: Vec<(String, Vec<(u64, u32)>)>,
    /// Number of indexed ids over all buckets.
    total: usize,
    /// The `(creation time, id)` of each record indexed, in order.
    added: Ghost<Seq<(u64, Seq<char>)>>,
}

/// View of the buckets.
pub open spec fn buckets_view(v: Seq<(u64, Vec<String>)>) -> TimeBuckets {
    v.map_values(|b: (u64, Vec<String>)| (b.0, b.1@.map_values(|s: String| s@)))
}

/// View of the version lists.
pub open spec fn versions_view(v: Seq<(String, Vec<(u64, u32)>)>) -> VersionLists {
    v.map_values(|e: (String, Vec<(u64, u32)>)| (e.0@, e.1@))
}

impl TemporalIndex {
    /// The buckets.
    pub closed spec fn times(&self) -> TimeBuckets {
        buckets_view(self.by_time@)
    }

    /// The version lists.
    pub closed spec fn version_lists(&self) -> VersionLists {
        versions_view(self.versions@)
    }

    /// The `(creation time, id)` of each `add` call so far, in order.
    pub closed spec fn adds(&self) -> Seq<(u64, Seq<char>)> {
        self.added@
    }

    #[verifier::type_invariant]
    closed spec fn inv(self) -> bool {
        &&& buckets_view(self.by_time@) == times_after(self.added@)
        &&& sorted_keys(buckets_view(self.by_time@))
        &&& version_ids_unique(versions_view(self.versions@))
        &&& self.total == all_ids(buckets_view(self.by_time@)).len()
    }

    /// An empty index.
    pub fn new() -> (r: TemporalIndex)
        ensures
            r.times() == TimeBuckets::empty(),
            r.version_lists() == VersionLists::empty(),
            r.count() == 0,
            r.adds() == Seq::<(u64, Seq<char>)>::empty(),
    {
        let by_time: Vec<(u64, Vec<String>)> = Vec::new();
        let versions: Vec<(String, Vec<(u64, u32)>)> = Vec::new();
        assert(buckets_view(by_time@) =~= times_after(Seq::empty()));
        let r = TemporalIndex { by_time, versions, total: 0, added: Ghost(Seq::empty()) };
        assert(buckets_view(r.by_time@) =~= TimeBuckets::empty());
        assert(versions_view(r.versions@) =~= VersionLists::empty());
        r
    }
}

proof fn lemma_insert_pos(s: TimeBuckets, ts: u64)
    requires
        sorted_keys(s),
    ensures
        0 <= insert_pos(s, ts) <= s.len(),
        forall|i: int| 0 <= i < insert_pos(s, ts) ==> s[i].0 < ts,
        forall|i: int| insert_pos(s, ts) <= i < s.len() ==> s[i].0 >= ts,
    decreases s.len(),
{
    if s.len() > 0 {
        lemma_insert_pos(s.drop_last(), ts);
        assert forall|i: int| 0 <= i < s.len() - 1 implies s.drop_last()[i] == s[i] by {}
    }
}

proof fn lemma_all_ids_update(s: TimeBuckets, p: int, e: (u64, Seq<Seq<char>>))
    requires
        0 <= p < s.len(),
    ensures
        all_ids(s.update(p, e)).len() == all_ids(s).len() - s[p].1.len() + e.1.len(),
    decreases s.len(),
{
    if p < s.len() - 1 {
        lemma_all_ids_update(s.drop_last(), p, e);
        assert(s.update(p, e).drop_last() =~= s.drop_last().update(p, e));
    } else {
        assert(s.update(p, e).drop_last() =~= s.drop_last());
    }
}

proof fn lemma_all_ids_insert(s: TimeBuckets, p: int, e: (u64, Seq<Seq<char>>))
    requires
        0 <= p <= s.len(),
    ensures
        all_ids(s.insert(p, e)).len() == all_ids(s).len() + e.1.len(),
    decreases s.len(),
{
    if p < s.len() {
        lemma_all_ids_insert(s.drop_last(), p, e);
        assert(s.insert(p, e).drop_last() =~= s.drop_last().insert(p, e));
    } else {
        assert(s.insert(p, e).drop_last() =~= s);
    }
}

proof fn lemma_time_add(s: TimeBuckets, ts: u64, id: Seq<char>)
    requires
        sorted_keys(s),
    ensures
        sorted_keys(time_add(s, ts, id)),
        all_ids(time_add(s, ts, id)).len() == all_ids(s).len() + 1,
{
    lemma_insert_pos(s, ts);
    let p = insert_pos(s, ts);
    if p < s.len() && s[p].0 == ts {
        lemma_all_ids_update(s, p, (ts, s[p].1.push(id)));
    } else {
        lemma_all_ids_insert(s, p, (ts, seq![id]));
    }
}

fn bucket_pos(v: &Vec<(u64, Vec<String>)>, ts: u64) -> (p: usize)
    requires
        sorted_keys(buckets_view(v@)),
    ensures
        p == insert_pos(buckets_view(v@), ts),
{
    let ghost t0 = buckets_view(v@);
    proof {
        lemma_insert_pos(t0, ts);
    }
    let mut p: usize = 0;
    while p < v.len()
        invariant
            p <= v@.len(),
            t0 == buckets_view(v@),
            p <= insert_pos(t0, ts),
            forall|i: int| insert_pos(t0, ts) <= i < t0.len() ==> t0[i].0 >= ts,
            forall|i: int| 0 <= i < insert_pos(t0, ts) ==> t0[i].0 < ts,
            insert_pos(t0, ts) <= t0.len(),
        decreases v.len() - p,
    {
        assert(t0[p as int].0 == v@[p as int].0);
        if v[p].0 >= ts {
            return p;
        }
        p = p + 1;
    }
    p
}

fn version_pos(v: &Vec<(String, Vec<(u64, u32)>)>, id: &str) -> (r: Option<usize>)
    requires
        version_ids_unique(versions_view(v@)),
    ensures
        match r {
            Some(j) => version_index(versions_view(v@), id@) == Some(j as int) && j < v@.len(),
            None => version_index(versions_view(v@), id@) is None,
        },
{
    let ghost v0 = versions_view(v@);
    let mut i: usize = 0;
    while i < v.len()
        invariant
            i <= v@.len(),
            v0 == versions_view(v@),
            version_ids_unique(v0),
            forall|k: int| 0 <= k < i ==> v0[k].0 != id@,
        decreases v.len() - i,
    {
        if str_eq(v[i].0.as_str(), id) {
            assert(v0[i as int].0 == id@);
            return Some(i);
        }
        i = i + 1;
    }
    None
}

proof fn lemma_version_add_unique(v: VersionLists, id: Seq<char>, ts: u64, version: u32)
    requires
        version_ids_unique(v),
    ensures
        version_ids_unique(version_add(v, id, ts, version)),
{
}

impl TemporalIndex {
    /// Number of indexed ids.
    pub open spec fn count(&self) -> nat {
        all_ids(self.times()).len()
    }

    /// Index a record: its id under its creation time, and its update time and version
    /// in its version history.
    pub fn add(&mut self, record: &DataRecord)
        requires
            old(self).count() < usize::MAX,
        ensures
            final(self).times() == time_add(old(self).times(), record.created_at, record.id@),
            final(self).version_lists() == version_add(
                old(self).version_lists(),
                record.id@,
                record.updated_at,
                record.version,
            ),
            final(self).count() == old(self).count() + 1,
            final(self).adds() == old(self).adds().push((record.created_at, record.id@)),
    {
        proof {
            use_type_invariant(&*self);
            lemma_insert_pos(self.times(), record.created_at);
            lemma_time_add(self.times(), record.created_at, record.id@);
        }
        let ts = record.created_at;
        let ghost t0 = self.times();
        let ghost v0 = self.version_lists();
        let mut tmp = TemporalIndex::new();
        std::mem::swap(&mut tmp, self);
        let TemporalIndex { by_time, versions, total, added } = tmp;
        let ghost a0 = added@;
        let mut by_time = by_time;
        let mut versions = versions;
        let p = bucket_pos(&by_time, ts);
        if p < by_time.len() && by_time[p].0 == ts {
            let ghost bt0 = by_time@;
            let (k, mut ids) = by_time.remove(p);
            let ghost ids0 = ids@;
            assert(ids0.map_values(|x: String| x@) == t0[p as int].1);
            ids.push(record.id.clone());
            assert(ids@.map_values(|x: String| x@) =~= t0[p as int].1.push(record.id@));
            by_time.insert(p, (k, ids));
            assert(by_time@ =~= bt0.update(p as int, by_time@[p as int]));
            assert(buckets_view(by_time@) =~= t0.update(
                p as int,
                (ts, t0[p as int].1.push(record.id@)),
            ));
        } else {
            let mut ids: Vec<String> = Vec::new();
            ids.push(record.id.clone());
            assert(ids@.map_values(|x: String| x@) =~= seq![record.id@]);
            let ghost bt0 = by_time@;
            by_time.insert(p, (ts, ids));
            assert(buckets_view(by_time@) =~= t0.insert(p as int, (ts, seq![record.id@])));
        }
        match version_pos(&versions, record.id.as_str()) {
            Some(j) => {
                let (name, mut list) = versions.remove(j);
                list.push((record.updated_at, record.version));
                versions.insert(j, (name, list));
                assert(versions_view(versions@) =~= v0.update(
                    j as int,
                    (record.id@, v0[j as int].1.push((record.updated_at, record.version))),
                ));
            },
            None => {
                let mut list: Vec<(u64, u32)> = Vec::new();
                list.push((record.updated_at, record.version));
                versions.push((record.id.clone(), list));
                assert(versions_view(versions@) =~= v0.push(
                    (record.id@, seq![(record.updated_at, record.version)]),
                ));
            },
        }
        proof {
            lemma_version_add_unique(v0, record.id@, record.updated_at, record.version);
        }
        let ghost a1 = a0.push((record.created_at, record.id@));
        assert(a1.drop_last() =~= a0);
        *self = TemporalIndex { by_time, versions, total: total + 1, added: Ghost(a1) };
    }
}

proof fn lemma_latest_first_concat(a: TimeBuckets, b: TimeBuckets)
    ensures
        ids_latest_first(a + b) == ids_latest_first(b) + ids_latest_first(a),
    decreases b.len(),
{
    if b.len() == 0 {
        assert(a + b =~= a);
        assert(ids_latest_first(b) + ids_latest_first(a) =~= ids_latest_first(a));
    } else {
        lemma_latest_first_concat(a, b.drop_last());
        assert((a + b).drop_last() =~= a + b.drop_last());
        assert(ids_latest_first(a + b) =~= ids_latest_first(b) + ids_latest_first(a));
    }
}

proof fn lemma_range_ids_bound(s: TimeBuckets, from: u64, to: u64)
    ensures
        range_ids(s, from, to).len() <= all_ids(s).len(),
    decreases s.len(),
{
    if s.len() > 0 {
        lemma_range_ids_bound(s.drop_last(), from, to);
    }
}

proof fn lemma_all_ids_prefix(s: TimeBuckets, i: int)
    requires
        0 <= i <= s.len(),
    ensures
        all_ids(s.subrange(0, i)).len() <= all_ids(s).len(),
    decreases s.len() - i,
{
    if i < s.len() {
        lemma_all_ids_prefix(s.drop_last(), i);
        assert(s.drop_last().subrange(0, i) =~= s.subrange(0, i));
    } else {
        assert(s.subrange(0, i) =~= s);
    }
}

/// Views of string slices.
pub open spec fn str_views(v: Seq<&str>) -> Seq<Seq<char>> {
    v.map_values(|x: &str| x@)
}

impl TemporalIndex {
    /// The ids indexed at a time in `[from, to]` (inclusive), in time order.
    pub fn range(&self, from: u64, to: u64) -> (r: Vec<&str>)
        requires
            from <= to,
        ensures
            str_views(r@) == range_ids(self.times(), from, to),
            r@.len() == count_in(self.adds(), from, to),
            from == to ==> str_views(r@) == ids_at(self.adds(), from),
    {
        proof {
            use_type_invariant(self);
            lemma_index_after_adds(self.adds(), from, to, from);
        }
        let ghost s = self.times();
        let mut out: Vec<&str> = Vec::new();
        let mut i: usize = 0;
        assert(str_views(out@) =~= Seq::<Seq<char>>::empty());
        while i < self.by_time.len()
            invariant
                i <= self.by_time@.len(),
                s == self.times(),
                s == buckets_view(self.by_time@),
                str_views(out@) == range_ids(s.subrange(0, i as int), from, to),
            decreases self.by_time.len() - i,
        {
            assert(s.subrange(0, i + 1).drop_last() =~= s.subrange(0, i as int));
            let key = self.by_time[i].0;
            let ids = &self.by_time[i].1;
            assert(s[i as int] == (key, ids@.map_values(|x: String| x@)));
            if from <= key && key <= to {
                let ghost before = str_views(out@);
                let mut k: usize = 0;
                while k < ids.len()
                    invariant
                        k <= ids@.len(),
                        str_views(out@) == before + ids@.map_values(|x: String| x@).subrange(
                            0,
                            k as int,
                        ),
                    decreases ids.len() - k,
                {
                    let ghost o0 = out@;
                    out.push(ids[k].as_str());
                    assert(ids@.map_values(|x: String| x@)[k as int] == ids@[k as int]@);
                    assert(str_views(out@) =~= str_views(o0).push(ids@[k as int]@));
                    assert(str_views(out@) =~= before + ids@.map_values(|x: String| x@).subrange(
                        0,
                        k + 1,
                    ));
                    k = k + 1;
                }
                assert(ids@.map_values(|x: String| x@).subrange(0, ids@.len() as int)
                    =~= ids@.map_values(|x: String| x@));
            } else {
                assert(range_ids(s.subrange(0, i + 1), from, to) =~= range_ids(
                    s.subrange(0, i as int),
                    from,
                    to,
                ));
            }
            i = i + 1;
        }
        assert(s.subrange(0, s.len() as int) =~= s);
        out
    }

    /// The version history of a record: `(update time, version)` in the order indexed.
    pub fn history(&self, record_id: &str) -> (r: Vec<(u64, u32)>)
        ensures
            r@ == history_view(self.version_lists(), record_id@),
    {
        proof {
            use_type_invariant(self);
        }
        match version_pos(&self.versions, record_id) {
            Some(j) => {
                let list = &self.versions[j].1;
                let mut out: Vec<(u64, u32)> = Vec::new();
                let mut k: usize = 0;
                while k < list.len()
                    invariant
                        k <= list@.len(),
                        out@ == list@.subrange(0, k as int),
                    decreases list.len() - k,
                {
                    out.push(list[k]);
                    k = k + 1;
                    assert(out@ =~= list@.subrange(0, k as int));
                }
                assert(out@ =~= list@);
                out
            },
            None => Vec::new(),
        }
    }

    /// All ids, the latest time first.
    fn ids_latest_first_exec(&self) -> (r: Vec<&str>)
        ensures
            str_views(r@) == ids_latest_first(self.times()),
    {
        let ghost s = self.times();
        let mut out: Vec<&str> = Vec::new();
        let mut j: usize = self.by_time.len();
        assert(s.subrange(j as int, s.len() as int) =~= TimeBuckets::empty());
        assert(str_views(out@) =~= Seq::<Seq<char>>::empty());
        while j > 0
            invariant
                j <= self.by_time@.len(),
                s == self.times(),
                s == buckets_view(self.by_time@),
                str_views(out@) == ids_latest_first(s.subrange(j as int, s.len() as int)),
            decreases j,
        {
            j = j - 1;
            let ids = &self.by_time[j].1;
            assert(s[j as int].1 == ids@.map_values(|x: String| x@));
            let ghost before = str_views(out@);
            let mut k: usize = 0;
            while k < ids.len()
                invariant
                    k <= ids@.len(),
                    str_views(out@) == before + ids@.map_values(|x: String| x@).subrange(0, k as int),
                decreases ids.len() - k,
            {
                let ghost o0 = out@;
                out.push(ids[k].as_str());
                assert(ids@.map_values(|x: String| x@)[k as int] == ids@[k as int]@);
                assert(str_views(out@) =~= str_views(o0).push(ids@[k as int]@));
                assert(str_views(out@) =~= before + ids@.map_values(|x: String| x@).subrange(
                    0,
                    k + 1,
                ));
                k = k + 1;
            }
            proof {
                assert(ids@.map_values(|x: String| x@).subrange(0, ids@.len() as int)
                    =~= ids@.map_values(|x: String| x@));
                let tail = s.subrange(j + 1, s.len() as int);
                lemma_latest_first_concat(seq![s[j as int]], tail);
                assert(seq![s[j as int]] + tail =~= s.subrange(j as int, s.len() as int));
                assert(ids_latest_first(seq![s[j as int]]) =~= s[j as int].1) by {
                    assert(seq![s[j as int]].drop_last() =~= TimeBuckets::empty());
                    assert(seq![s[j as int]].last() == s[j as int]);
                    assert(ids_latest_first(TimeBuckets::empty()) =~= Seq::<Seq<char>>::empty());
                }
            }
        }
        assert(s.subrange(0, s.len() as int) =~= s);
        out
    }

    /// The latest `n` ids (fewer if fewer are indexed): the latest time first.
    pub fn latest(&self, n: usize) -> (r: Vec<&str>)
        ensures
            str_views(r@) == ids_latest_first(self.times()).take(
                if n < ids_latest_first(self.times()).len() {
                    n as int
                } else {
                    ids_latest_first(self.times()).len() as int
                },
            ),
    {
        let all = self.ids_latest_first_exec();
        let ghost full = str_views(all@);
        let mut out: Vec<&str> = Vec::new();
        let mut i: usize = 0;
        while i < all.len() && i < n
            invariant
                i <= all@.len(),
                i <= n,
                full.len() == all@.len(),
                full == str_views(all@),
                str_views(out@) == full.take(i as int),
            decreases all.len() - i,
        {
            let ghost o0 = out@;
            out.push(all[i]);
            assert(full[i as int] == all@[i as int]@);
            assert(str_views(out@) =~= str_views(o0).push(all@[i as int]@));
            i = i + 1;
            assert(str_views(out@) =~= full.take(i as int));
        }
        assert(i == (if n < full.len() {
            n as int
        } else {
            full.len() as int
        }));
        out
    }

    /// Number of ids indexed at a time in `[from, to]` (inclusive).
    pub fn count_range(&self, from: u64, to: u64) -> (r: usize)
        requires
            from <= to,
        ensures
            r == range_ids(self.times(), from, to).len(),
            r == count_in(self.adds(), from, to),
    {
        proof {
            use_type_invariant(self);
            lemma_index_after_adds(self.adds(), from, to, from);
        }
        let ghost s = self.times();
        let mut total: usize = 0;
        let mut i: usize = 0;
        while i < self.by_time.len()
            invariant
                i <= self.by_time@.len(),
                s == self.times(),
                s == buckets_view(self.by_time@),
                all_ids(s).len() <= usize::MAX,
                total == range_ids(s.subrange(0, i as int), from, to).len(),
            decreases self.by_time.len() - i,
        {
            assert(s.subrange(0, i + 1).drop_last() =~= s.subrange(0, i as int));
            let key = self.by_time[i].0;
            assert(s[i as int].1.len() == self.by_time@[i as int].1@.len());
            proof {
                lemma_range_ids_bound(s.subrange(0, i + 1), from, to);
                lemma_all_ids_prefix(s, i + 1);
            }
            if from <= key && key <= to {
                total = total + self.by_time[i].1.len();
            }
            i = i + 1;
        }
        assert(s.subrange(0, s.len() as int) =~= s);
        total
    }

    /// Total indexed ids.
    pub fn len(&self) -> (r: usize)
        ensures
            r == self.count(),
            r == self.adds().len(),
    {
        proof {
            use_type_invariant(self);
            lemma_index_after_adds(self.adds(), 0, 0, 0);
        }
        self.total
    }

    /// Whether nothing is indexed.
    pub fn is_empty(&self) -> (r: bool)
        ensures
            r == (self.count() == 0),
            r == (self.adds().len() == 0),
    {
        self.len() == 0
    }

    /// Earliest timestamp in the index.
    pub fn earliest(&self) -> (r: Option<u64>)
        ensures
            r == (if self.times().len() == 0 {
                None
            } else {
                Some(self.times()[0].0)
            }),
            r == (if self.adds().len() == 0 {
                None
            } else {
                Some(min_time(self.adds()))
            }),
    {
        proof {
            use_type_invariant(self);
            lemma_index_after_adds(self.adds(), 0, 0, 0);
        }
        if self.by_time.len() == 0 {
            None
        } else {
            Some(self.by_time[0].0)
        }
    }

    /// Latest timestamp in the index.
    pub fn most_recent(&self) -> (r: Option<u64>)
        ensures
            r == (if self.times().len() == 0 {
                None
            } else {
                Some(self.times().last().0)
            }),
            r == (if self.adds().len() == 0 {
                None
            } else {
                Some(max_time(self.adds()))
            }),
    {
        proof {
            use_type_invariant(self);
            lemma_index_after_adds(self.adds(), 0, 0, 0);
        }
        let n = self.by_time.len();
        if n == 0 {
            None
        } else {
            Some(self.by_time[n - 1].0)
        }
    }
}

impl Default for TemporalIndex {
    fn default() -> (r: TemporalIndex)
        ensures
            r.times() == TimeBuckets::empty(),
            r.version_lists() == VersionLists::empty(),
            r.adds() == Seq::<(u64, Seq<char>)>::empty(),
    {
        TemporalIndex::new()
    }
}

/// The full time range holds every indexed id, in time order.
pub proof fn lemma_full_range(s: TimeBuckets)
    ensures
        range_ids(s, 0, u64::MAX) == all_ids(s),
    decreases s.len(),
{
    if s.len() > 0 {
        lemma_full_range(s.drop_last());
    }
}

proof fn lemma_bucket_in_range(s: TimeBuckets, p: int, from: u64, to: u64, x: Seq<char>)
    requires
        0 <= p < s.len(),
        from <= s[p].0 <= to,
        s[p].1.contains(x),
    ensures
        range_ids(s, from, to).contains(x),
    decreases s.len(),
{
    let k = choose|k: int| 0 <= k < s[p].1.len() && s[p].1[k] == x;
    if p == s.len() - 1 {
        let pre = range_ids(s.drop_last(), from, to);
        assert(range_ids(s, from, to)[pre.len() + k] == x);
    } else {
        lemma_bucket_in_range(s.drop_last(), p, from, to, x);
        let pre = range_ids(s.drop_last(), from, to);
        let k2 = choose|k2: int| 0 <= k2 < pre.len() && pre[k2] == x;
        assert(range_ids(s, from, to)[k2] == x);
    }
}

/// An indexed record is found by a range query over its creation time.
pub proof fn lemma_added_in_range(s: TimeBuckets, ts: u64, id: Seq<char>)
    requires
        sorted_keys(s),
    ensures
        range_ids(time_add(s, ts, id), ts, ts).contains(id),
        all_ids(time_add(s, ts, id)).len() == all_ids(s).len() + 1,
{
    lemma_time_add(s, ts, id);
    lemma_insert_pos(s, ts);
    let p = insert_pos(s, ts);
    let t = time_add(s, ts, id);
    if p < s.len() && s[p].0 == ts {
        assert(t[p].1[s[p].1.len() as int] == id);
    } else {
        assert(t[p].1[0] == id);
    }
    lemma_bucket_in_range(t, p, ts, ts, id);
}

/// The buckets after indexing, in order, each `(time, id)` of `adds` on an empty index.
pub open spec fn times_after(adds: Seq<(u64, Seq<char>)>) -> TimeBuckets
    decreases adds.len(),
{
    if adds.len() == 0 {
        Seq::empty()
    } else {
        time_add(times_after(adds.drop_last()), adds.last().0, adds.last().1)
    }
}

/// The ids of `adds` made at time `t`, in order.
pub open spec fn ids_at(adds: Seq<(u64, Seq<char>)>, t: u64) -> Seq<Seq<char>>
    decreases adds.len(),
{
    if adds.len() == 0 {
        Seq::empty()
    } else {
        ids_at(adds.drop_last(), t) + if adds.last().0 == t {
            seq![adds.last().1]
        } else {
            Seq::empty()
        }
    }
}

/// The number of `adds` made at a time in `[from, to]`.
pub open spec fn count_in(adds: Seq<(u64, Seq<char>)>, from: u64, to: u64) -> nat
    decreases adds.len(),
{
    if adds.len() == 0 {
        0
    } else {
        count_in(adds.drop_last(), from, to) + if from <= adds.last().0 <= to {
            1nat
        } else {
            0nat
        }
    }
}

/// The least time of non-empty `adds`.
pub open spec fn min_time(adds: Seq<(u64, Seq<char>)>) -> u64
    decreases adds.len(),
{
    if adds.len() <= 1 {
        adds[0].0
    } else if adds.last().0 < min_time(adds.drop_last()) {
        adds.last().0
    } else {
        min_time(adds.drop_last())
    }
}

/// The greatest time of non-empty `adds`.
pub open spec fn max_time(adds: Seq<(u64, Seq<char>)>) -> u64
    decreases adds.len(),
{
    if adds.len() <= 1 {
        adds[0].0
    } else if adds.last().0 > max_time(adds.drop_last()) {
        adds.last().0
    } else {
        max_time(adds.drop_last())
    }
}

proof fn lemma_range_concat(a: TimeBuckets, b: TimeBuckets, from: u64, to: u64)
    ensures
        range_ids(a + b, from, to) == range_ids(a, from, to) + range_ids(b, from, to),
    decreases b.len(),
{
    if b.len() == 0 {
        assert(a + b =~= a);
        assert(range_ids(a, from, to) + range_ids(b, from, to) =~= range_ids(a, from, to));
    } else {
        lemma_range_concat(a, b.drop_last(), from, to);
        assert((a + b).drop_last() =~= a + b.drop_last());
        assert((a + b).last() == b.last());
        assert(range_ids(a + b, from, to) =~= range_ids(a, from, to) + range_ids(b, from, to));
    }
}

proof fn lemma_range_outside(s: TimeBuckets, from: u64, to: u64)
    requires
        forall|i: int| 0 <= i < s.len() ==> !(from <= #[trigger] s[i].0 <= to),
    ensures
        range_ids(s, from, to) == Seq::<Seq<char>>::empty(),
    decreases s.len(),
{
    if s.len() > 0 {
        assert(s[s.len() - 1] == s.last());
        assert forall|i: int| 0 <= i < s.drop_last().len() implies !(from <= #[trigger] s.drop_last()[i].0 <= to) by {
            assert(s.drop_last()[i] == s[i]);
        }
        lemma_range_outside(s.drop_last(), from, to);
        assert(range_ids(s, from, to) =~= Seq::<Seq<char>>::empty());
    }
}

proof fn lemma_range_split(a: TimeBuckets, e: (u64, Seq<Seq<char>>), b: TimeBuckets, from: u64, to: u64)
    ensures
        range_ids(a + seq![e] + b, from, to) == range_ids(a, from, to) + (if from <= e.0 <= to {
            e.1
        } else {
            Seq::empty()
        }) + range_ids(b, from, to),
{
    lemma_range_concat(a + seq![e], b, from, to);
    lemma_range_concat(a, seq![e], from, to);
    let one = seq![e];
    assert(one.drop_last() =~= Seq::<(u64, Seq<Seq<char>>)>::empty());
    assert(one.last() == e);
    assert(range_ids(one.drop_last(), from, to) =~= Seq::<Seq<char>>::empty());
    assert(range_ids(one, from, to) =~= if from <= e.0 <= to { e.1 } else { Seq::empty() });
}

/// The ids in a range after one more id: one more when its time lies in the range;
/// at its own time, the new id comes last; at any other time nothing changes.
proof fn lemma_range_time_add(s: TimeBuckets, ts: u64, id: Seq<char>, from: u64, to: u64)
    requires
        sorted_keys(s),
    ensures
        range_ids(time_add(s, ts, id), from, to).len() == range_ids(s, from, to).len() + if from
            <= ts <= to {
            1int
        } else {
            0int
        },
        range_ids(time_add(s, ts, id), ts, ts) == range_ids(s, ts, ts).push(id),
        ts != from ==> range_ids(time_add(s, ts, id), from, from) == range_ids(s, from, from),
{
    lemma_insert_pos(s, ts);
    let p = insert_pos(s, ts);
    let t = time_add(s, ts, id);
    let a = s.subrange(0, p);
    assert forall|i: int| 0 <= i < a.len() implies !(ts <= #[trigger] a[i].0 <= ts) by {
        assert(a[i] == s[i]);
    }
    lemma_range_outside(a, ts, ts);
    if p < s.len() && s[p].0 == ts {
        let e = (ts, s[p].1.push(id));
        let b = s.subrange(p + 1, s.len() as int);
        assert(t =~= a + seq![e] + b);
        assert(s =~= a + seq![s[p]] + b);
        lemma_range_split(a, e, b, from, to);
        lemma_range_split(a, s[p], b, from, to);
        lemma_range_split(a, e, b, ts, ts);
        lemma_range_split(a, s[p], b, ts, ts);
        lemma_range_split(a, e, b, from, from);
        lemma_range_split(a, s[p], b, from, from);
        assert forall|i: int| 0 <= i < b.len() implies !(ts <= #[trigger] b[i].0 <= ts) by {
            assert(b[i] == s[p + 1 + i]);
        }
        lemma_range_outside(b, ts, ts);
        assert(range_ids(t, ts, ts) =~= range_ids(s, ts, ts).push(id));
    } else {
        let e = (ts, seq![id]);
        let b = s.subrange(p, s.len() as int);
        assert(t =~= a + seq![e] + b);
        assert(s =~= a + b);
        lemma_range_split(a, e, b, from, to);
        lemma_range_split(a, e, b, ts, ts);
        lemma_range_split(a, e, b, from, from);
        lemma_range_concat(a, b, from, to);
        lemma_range_concat(a, b, ts, ts);
        lemma_range_concat(a, b, from, from);
        assert forall|i: int| 0 <= i < b.len() implies !(ts <= #[trigger] b[i].0 <= ts) by {
            assert(b[i] == s[p + i]);
            if i > 0 {
                assert(s[p].0 < s[p + i].0);
            }
        }
        lemma_range_outside(b, ts, ts);
        assert(range_ids(t, ts, ts) =~= range_ids(s, ts, ts).push(id));
    }
}

/// The first and last times after one more id: the least and the greatest of the
/// times before and the new one.
proof fn lemma_ends_time_add(s: TimeBuckets, ts: u64, id: Seq<char>)
    requires
        sorted_keys(s),
    ensures
        time_add(s, ts, id).len() > 0,
        s.len() == 0 ==> time_add(s, ts, id)[0].0 == ts && time_add(s, ts, id).last().0 == ts,
        s.len() > 0 ==> time_add(s, ts, id)[0].0 == (if ts < s[0].0 { ts } else { s[0].0 }),
        s.len() > 0 ==> time_add(s, ts, id).last().0 == (if ts > s.last().0 { ts } else { s.last().0 }),
{
    lemma_insert_pos(s, ts);
    let p = insert_pos(s, ts);
    let t = time_add(s, ts, id);
    if s.len() > 0 {
        assert(s[s.len() - 1] == s.last());
        assert(s[0].0 <= s.last().0) by {
            if s.len() > 1 {
                assert(s[0].0 < s[s.len() - 1].0);
            }
        }
        if p < s.len() && s[p].0 == ts {
            assert(t[0].0 == s[0].0);
            assert(t[t.len() - 1].0 == s[s.len() - 1].0);
            if p > 0 {
                assert(s[0].0 < s[p].0);
            }
            if p < s.len() - 1 {
                assert(s[p].0 < s[s.len() - 1].0);
            }
        } else {
            if p < s.len() {
                assert(t[t.len() - 1] == s[s.len() - 1]);
                if p < s.len() - 1 {
                    assert(s[p].0 < s[s.len() - 1].0);
                }
            } else {
                assert(t[t.len() - 1].0 == ts);
            }
            if p > 0 {
                assert(t[0] == s[0]);
            } else {
                assert(t[0].0 == ts);
            }
        }
    }
}

/// Over any sequence of `add` calls on a new index, one `(time, id)` per call in the
/// order of the calls: the index holds one id per call; the ids found at a time are
/// those added at it, in the order of the calls; a range query finds one id per call
/// whose time lies in the range; and the earliest and latest times are the least and
/// the greatest time added (there are none exactly when nothing was added).
pub proof fn lemma_index_after_adds(adds: Seq<(u64, Seq<char>)>, from: u64, to: u64, at: u64)
    ensures
        sorted_keys(times_after(adds)),
        all_ids(times_after(adds)).len() == adds.len(),
        range_ids(times_after(adds), at, at) == ids_at(adds, at),
        range_ids(times_after(adds), from, to).len() == count_in(adds, from, to),
        (times_after(adds).len() == 0) == (adds.len() == 0),
        adds.len() > 0 ==> times_after(adds)[0].0 == min_time(adds),
        adds.len() > 0 ==> times_after(adds).last().0 == max_time(adds),
    decreases adds.len(),
{
    if adds.len() > 0 {
        let pre = adds.drop_last();
        let (ts, id) = adds.last();
        lemma_index_after_adds(pre, from, to, at);
        let s = times_after(pre);
        lemma_time_add(s, ts, id);
        lemma_range_time_add(s, ts, id, from, to);
        lemma_range_time_add(s, ts, id, at, at);
        lemma_ends_time_add(s, ts, id);
        if ts == at {
            assert(ids_at(adds, at) =~= ids_at(pre, at).push(id));
        } else {
            assert(ids_at(adds, at) =~= ids_at(pre, at));
        }
        if adds.len() == 1 {
            assert(pre.len() == 0);
        }
    }
}

} // verus!
