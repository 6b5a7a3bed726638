//! In-memory data store: schemas, sources, records and lineage chains.
//!
//! Schemas and sources are kept by id, lineage chains by target, each key once and
//! in the order in which it was first added; records are kept in the order added.
use vstd::prelude::*;
use crate::text::{first_index, lemma_first_index, lemma_first_index_at, unique_keys, str_eq, chars_of, string_of, decimal, decimal_exec, push_all};
use crate::types::record::{DataRecord, RecordStatus};
use crate::types::schema::UniversalSchema;
use crate::types::source::DataSource;
use crate::types::lineage::{LineageChain, LineageEntry, chain_trust};

verus! {

/// The ids of a sequence of schemas.
pub open spec fn schema_ids(s: Seq<UniversalSchema>) -> Seq<Seq<char>> {
    s.map_values(|x: UniversalSchema| x.id@)
}

/// The ids of a sequence of sources.
pub open spec fn source_ids(s: Seq<DataSource>) -> Seq<Seq<char>> {
    s.map_values(|x: DataSource| x.id@)
}

/// The ids of a sequence of records.
pub open spec fn record_ids(s: Seq<DataRecord>) -> Seq<Seq<char>> {
    s.map_values(|x: DataRecord| x.id@)
}

/// The targets of a sequence of lineage chains.
pub open spec fn chain_targets(s: Seq<LineageChain>) -> Seq<Seq<char>> {
    s.map_values(|x: LineageChain| x.target@)
}

/// Storing `x` under key `k`: an element with that key is replaced in place, a new
/// key goes at the end.
pub open spec fn upsert<A>(s: Seq<A>, keys: Seq<Seq<char>>, k: Seq<char>, x: A) -> Seq<A> {
    match first_index(keys, k) {
        Some(i) => s.update(i, x),
        None => s.push(x),
    }
}

/// The elements that satisfy `p`, in order.
pub open spec fn keep<A>(s: Seq<A>, p: spec_fn(A) -> bool) -> Seq<A>
    decreases s.len(),
{
    if s.len() == 0 {
        Seq::empty()
    } else {
        keep(s.drop_last(), p) + if p(s.last()) {
            seq![s.last()]
        } else {
            Seq::empty()
        }
    }
}

/// Records of the given source.
pub open spec fn of_source(source_id: Seq<char>) -> spec_fn(DataRecord) -> bool {
    |x: DataRecord| x.source_id@ == source_id
}

/// Records of the given schema node.
pub open spec fn of_node(node: Seq<char>) -> spec_fn(DataRecord) -> bool {
    |x: DataRecord| x.schema_node@ == node
}

/// Active records.
pub open spec fn is_active_record() -> spec_fn(DataRecord) -> bool {
    |x: DataRecord| x.status == RecordStatus::Active
}

/// The elements whose flag is `false`, in order.
pub open spec fn unflagged<A>(s: Seq<A>, flags: Seq<bool>) -> Seq<A>
    decreases s.len(),
{
    if s.len() == 0 {
        Seq::empty()
    } else {
        unflagged(s.drop_last(), flags) + if flags[s.len() - 1] {
            Seq::empty()
        } else {
            seq![s.last()]
        }
    }
}

/// The chain `c` is `old` with `e` added: same target, one more entry, and the trust
/// recomputed.
pub open spec fn chain_extended(c: LineageChain, old: LineageChain, e: LineageEntry) -> bool {
    &&& c.target@ == old.target@
    &&& c.entries@ == old.entries@.push(e)
    &&& c.trust_score == chain_trust(c.entries@)
}

/// The chains after adding `e` for `target`: that target's chain grows by the entry,
/// or a new chain holding only the entry is added at the end.
pub open spec fn lineage_added(old: Seq<LineageChain>, new: Seq<LineageChain>, target: Seq<char>, e: LineageEntry) -> bool {
    match first_index(chain_targets(old), target) {
        Some(i) => {
            &&& new.len() == old.len()
            &&& forall|j: int| 0 <= j < old.len() && j != i ==> #[trigger] new[j] == old[j]
            &&& chain_extended(new[i], old[i], e)
        },
        None => {
            &&& new.len() == old.len() + 1
            &&& forall|j: int| 0 <= j < old.len() ==> #[trigger] new[j] == old[j]
            &&& new[old.len() as int].target@ == target
            &&& new[old.len() as int].entries@ == seq![e]
            &&& new[old.len() as int].trust_score == chain_trust(seq![e])
        },
    }
}

/// In-memory store for all AgenticData state.
#[derive(Debug)]
pub struct DataStore {
    schemas: Vec<UniversalSchema>,
    sources: Vec<DataSource>,
    records: Vec<DataRecord>,
    lineage: Vec<LineageChain>,
}

proof fn lemma_upsert_unique<A>(s: Seq<A>, keys: Seq<Seq<char>>, k: Seq<char>, x: A, proj: spec_fn(A) -> Seq<char>)
    requires
        keys == s.map_values(proj),
        unique_keys(keys),
        proj(x) == k,
    ensures
        unique_keys(upsert(s, keys, k, x).map_values(proj)),
        upsert(s, keys, k, x).map_values(proj) == match first_index(keys, k) {
            Some(i) => keys,
            None => keys.push(k),
        },
{
    lemma_first_index(keys, k);
    let t = upsert(s, keys, k, x);
    match first_index(keys, k) {
        Some(i) => {
            assert(t.map_values(proj) =~= keys);
        },
        None => {
            assert(t.map_values(proj) =~= keys.push(k));
        },
    }
}

impl DataStore {
    /// The schemas, each id once, in the order first added.
    pub closed spec fn schemas(&self) -> Seq<UniversalSchema> {
        self.schemas@
    }

    /// The sources, each id once, in the order first added.
    pub closed spec fn sources(&self) -> Seq<DataSource> {
        self.sources@
    }

    /// The records, in the order added.
    pub closed spec fn records(&self) -> Seq<DataRecord> {
        self.records@
    }

    /// The lineage chains, each target once, in the order first added.
    pub closed spec fn chains(&self) -> Seq<LineageChain> {
        self.lineage@
    }

    #[verifier::type_invariant]
    closed spec fn inv(self) -> bool {
        &&& unique_keys(schema_ids(self.schemas@))
        &&& unique_keys(source_ids(self.sources@))
        &&& unique_keys(chain_targets(self.lineage@))
    }

    /// An empty store.
    pub fn new() -> (r: DataStore)
        ensures
            r.schemas().len() == 0,
            r.sources().len() == 0,
            r.records().len() == 0,
            r.chains().len() == 0,
    {
        let r = DataStore {
            schemas: Vec::new(),
            sources: Vec::new(),
            records: Vec::new(),
            lineage: Vec::new(),
        };
        assert(schema_ids(r.schemas@) =~= Seq::<Seq<char>>::empty());
        assert(source_ids(r.sources@) =~= Seq::<Seq<char>>::empty());
        assert(chain_targets(r.lineage@) =~= Seq::<Seq<char>>::empty());
        r
    }

    // ── Schema operations ──
    /// Store a schema under its id (replacing a schema with the same id).
    pub fn add_schema(&mut self, schema: UniversalSchema)
        ensures
            final(self).schemas() == upsert(
                old(self).schemas(),
                schema_ids(old(self).schemas()),
                schema.id@,
                schema,
            ),
            unique_keys(schema_ids(final(self).schemas())),
            final(self).sources() == old(self).sources(),
            final(self).records() == old(self).records(),
            final(self).chains() == old(self).chains(),
    {
        proof {
            use_type_invariant(&*self);
        }
        let ghost s0 = self.schemas@;
        let ghost k = schema.id@;
        let ghost x = schema;
        let mut v: Vec<UniversalSchema> = Vec::new();
        std::mem::swap(&mut v, &mut self.schemas);
        match Self::schema_pos(&v, schema.id.as_str()) {
            Some(i) => {
                v.set(i, schema);
            },
            None => {
                v.push(schema);
            },
        }
        proof {
            lemma_upsert_unique(s0, schema_ids(s0), k, x, |y: UniversalSchema| y.id@);
            assert(v@ == upsert(s0, schema_ids(s0), k, x));
            assert(schema_ids(v@) =~= v@.map_values(|y: UniversalSchema| y.id@));
        }
        self.schemas = v;
    }

    fn schema_pos(v: &Vec<UniversalSchema>, id: &str) -> (r: Option<usize>)
        ensures
            match r {
                Some(i) => first_index(schema_ids(v@), id@) == Some(i as int) && i < v@.len(),
                None => first_index(schema_ids(v@), id@) is None,
            },
    {
        let ghost ks = schema_ids(v@);
        let mut i: usize = 0;
        while i < v.len()
            invariant
                i <= v@.len(),
                ks == schema_ids(v@),
                forall|j: int| 0 <= j < i ==> ks[j] != id@,
            decreases v.len() - i,
        {
            if str_eq(v[i].id.as_str(), id) {
                proof {
                    lemma_first_index_at(ks, id@, i as int);
                }
                return Some(i);
            }
            i = i + 1;
        }
        proof {
            lemma_first_index(ks, id@);
        }
        None
    }

    /// The schema with the given id.
    pub fn get_schema(&self, id: &str) -> (r: Option<&UniversalSchema>)
        ensures
            match first_index(schema_ids(self.schemas()), id@) {
                Some(i) => r matches Some(s) && *s == self.schemas()[i],
                None => r is None,
            },
    {
        match Self::schema_pos(&self.schemas, id) {
            Some(i) => Some(&self.schemas[i]),
            None => None,
        }
    }

    /// The first schema with the given name.
    pub fn find_schema_by_name(&self, name: &str) -> (r: Option<&UniversalSchema>)
        ensures
            match first_index(self.schemas().map_values(|x: UniversalSchema| x.name@), name@) {
                Some(i) => r matches Some(s) && *s == self.schemas()[i],
                None => r is None,
            },
    {
        let ghost ks = self.schemas@.map_values(|x: UniversalSchema| x.name@);
        let mut i: usize = 0;
        while i < self.schemas.len()
            invariant
                i <= self.schemas@.len(),
                ks == self.schemas@.map_values(|x: UniversalSchema| x.name@),
                forall|j: int| 0 <= j < i ==> ks[j] != name@,
            decreases self.schemas.len() - i,
        {
            if str_eq(self.schemas[i].name.as_str(), name) {
                proof {
                    lemma_first_index_at(ks, name@, i as int);
                }
                return Some(&self.schemas[i]);
            }
            i = i + 1;
        }
        proof {
            lemma_first_index(ks, name@);
        }
        None
    }

    /// Number of schemas.
    pub fn schema_count(&self) -> (r: usize)
        ensures
            r == self.schemas().len(),
    {
        self.schemas.len()
    }

    /// All schemas, in the order first added.
    pub fn all_schemas(&self) -> (r: Vec<&UniversalSchema>)
        ensures
            r@.len() == self.schemas().len(),
            forall|i: int| 0 <= i < r@.len() ==> *(#[trigger] r@[i]) == self.schemas()[i],
    {
        let mut out: Vec<&UniversalSchema> = Vec::new();
        let mut i: usize = 0;
        while i < self.schemas.len()
            invariant
                i <= self.schemas@.len(),
                out@.len() == i,
                forall|j: int| 0 <= j < i ==> *(#[trigger] out@[j]) == self.schemas@[j],
            decreases self.schemas.len() - i,
        {
            out.push(&self.schemas[i]);
            i = i + 1;
        }
        out
    }
}

impl DataStore {
    // ── Source operations ──
    /// Store a source under its id (replacing a source with the same id).
    pub fn add_source(&mut self, source: DataSource)
        ensures
            final(self).sources() == upsert(
                old(self).sources(),
                source_ids(old(self).sources()),
                source.id@,
                source,
            ),
            unique_keys(source_ids(final(self).sources())),
            final(self).schemas() == old(self).schemas(),
            final(self).records() == old(self).records(),
            final(self).chains() == old(self).chains(),
    {
        proof {
            use_type_invariant(&*self);
        }
        let ghost s0 = self.sources@;
        let ghost k = source.id@;
        let ghost x = source;
        let mut v: Vec<DataSource> = Vec::new();
        std::mem::swap(&mut v, &mut self.sources);
        match Self::source_pos(&v, source.id.as_str()) {
            Some(i) => {
                v.set(i, source);
            },
            None => {
                v.push(source);
            },
        }
        proof {
            lemma_upsert_unique(s0, source_ids(s0), k, x, |y: DataSource| y.id@);
            assert(v@ == upsert(s0, source_ids(s0), k, x));
            assert(source_ids(v@) =~= v@.map_values(|y: DataSource| y.id@));
        }
        self.sources = v;
    }

    fn source_pos(v: &Vec<DataSource>, id: &str) -> (r: Option<usize>)
        ensures
            match r {
                Some(i) => first_index(source_ids(v@), id@) == Some(i as int) && i < v@.len(),
                None => first_index(source_ids(v@), id@) is None,
            },
    {
        let ghost ks = source_ids(v@);
        let mut i: usize = 0;
        while i < v.len()
            invariant
                i <= v@.len(),
                ks == source_ids(v@),
                forall|j: int| 0 <= j < i ==> ks[j] != id@,
            decreases v.len() - i,
        {
            if str_eq(v[i].id.as_str(), id) {
                proof {
                    lemma_first_index_at(ks, id@, i as int);
                }
                return Some(i);
            }
            i = i + 1;
        }
        proof {
            lemma_first_index(ks, id@);
        }
        None
    }

    /// The source with the given id.
    pub fn get_source(&self, id: &str) -> (r: Option<&DataSource>)
        ensures
            match first_index(source_ids(self.sources()), id@) {
                Some(i) => r matches Some(s) && *s == self.sources()[i],
                None => r is None,
            },
    {
        match Self::source_pos(&self.sources, id) {
            Some(i) => Some(&self.sources[i]),
            None => None,
        }
    }

    /// Number of sources.
    pub fn source_count(&self) -> (r: usize)
        ensures
            r == self.sources().len(),
    {
        self.sources.len()
    }

    /// All sources, in the order first added.
    pub fn all_sources(&self) -> (r: Vec<&DataSource>)
        ensures
            r@.len() == self.sources().len(),
            forall|i: int| 0 <= i < r@.len() ==> *(#[trigger] r@[i]) == self.sources()[i],
    {
        let mut out: Vec<&DataSource> = Vec::new();
        let mut i: usize = 0;
        while i < self.sources.len()
            invariant
                i <= self.sources@.len(),
                out@.len() == i,
                forall|j: int| 0 <= j < i ==> *(#[trigger] out@[j]) == self.sources@[j],
            decreases self.sources.len() - i,
        {
            out.push(&self.sources[i]);
            i = i + 1;
        }
        out
    }

    // ── Record operations ──
    /// Add a record at the end.
    pub fn add_record(&mut self, record: DataRecord)
        ensures
            final(self).records() == old(self).records().push(record),
            final(self).schemas() == old(self).schemas(),
            final(self).sources() == old(self).sources(),
            final(self).chains() == old(self).chains(),
    {
        proof {
            use_type_invariant(&*self);
        }
        let mut v: Vec<DataRecord> = Vec::new();
        std::mem::swap(&mut v, &mut self.records);
        v.push(record);
        self.records = v;
    }

    /// Add records at the end, in order.
    pub fn add_records(&mut self, records: Vec<DataRecord>)
        ensures
            final(self).records() == old(self).records() + records@,
            final(self).schemas() == old(self).schemas(),
            final(self).sources() == old(self).sources(),
            final(self).chains() == old(self).chains(),
    {
        proof {
            use_type_invariant(&*self);
        }
        let mut records = records;
        let mut v: Vec<DataRecord> = Vec::new();
        std::mem::swap(&mut v, &mut self.records);
        v.append(&mut records);
        self.records = v;
    }

    /// The first record with the given id.
    pub fn get_record(&self, id: &str) -> (r: Option<&DataRecord>)
        ensures
            match first_index(record_ids(self.records()), id@) {
                Some(i) => r matches Some(x) && *x == self.records()[i],
                None => r is None,
            },
    {
        let ghost ks = record_ids(self.records@);
        let mut i: usize = 0;
        while i < self.records.len()
            invariant
                i <= self.records@.len(),
                ks == record_ids(self.records@),
                forall|j: int| 0 <= j < i ==> ks[j] != id@,
            decreases self.records.len() - i,
        {
            if str_eq(self.records[i].id.as_str(), id) {
                proof {
                    lemma_first_index_at(ks, id@, i as int);
                }
                return Some(&self.records[i]);
            }
            i = i + 1;
        }
        proof {
            lemma_first_index(ks, id@);
        }
        None
    }

    /// The records of a source, in order.
    pub fn records_for_source(&self, source_id: &str) -> (r: Vec<&DataRecord>)
        ensures
            r@.map_values(|x: &DataRecord| *x) == keep(self.records(), of_source(source_id@)),
    {
        let ghost p = of_source(source_id@);
        let mut out: Vec<&DataRecord> = Vec::new();
        let mut i: usize = 0;
        while i < self.records.len()
            invariant
                i <= self.records@.len(),
                p == of_source(source_id@),
                out@.map_values(|x: &DataRecord| *x) == keep(self.records@.subrange(0, i as int), p),
            decreases self.records.len() - i,
        {
            assert(self.records@.subrange(0, i + 1).drop_last() =~= self.records@.subrange(0, i as int));
            let ghost o0 = out@;
            if str_eq(self.records[i].source_id.as_str(), source_id) {
                out.push(&self.records[i]);
                assert(out@.map_values(|x: &DataRecord| *x) =~= o0.map_values(|x: &DataRecord| *x).push(self.records@[i as int]));
            }
            i = i + 1;
        }
        assert(self.records@.subrange(0, self.records@.len() as int) =~= self.records@);
        out
    }

    /// The records of a schema node, in order.
    pub fn records_for_node(&self, node: &str) -> (r: Vec<&DataRecord>)
        ensures
            r@.map_values(|x: &DataRecord| *x) == keep(self.records(), of_node(node@)),
    {
        let ghost p = of_node(node@);
        let mut out: Vec<&DataRecord> = Vec::new();
        let mut i: usize = 0;
        while i < self.records.len()
            invariant
                i <= self.records@.len(),
                p == of_node(node@),
                out@.map_values(|x: &DataRecord| *x) == keep(self.records@.subrange(0, i as int), p),
            decreases self.records.len() - i,
        {
            assert(self.records@.subrange(0, i + 1).drop_last() =~= self.records@.subrange(0, i as int));
            let ghost o0 = out@;
            if str_eq(self.records[i].schema_node.as_str(), node) {
                out.push(&self.records[i]);
                assert(out@.map_values(|x: &DataRecord| *x) =~= o0.map_values(|x: &DataRecord| *x).push(self.records@[i as int]));
            }
            i = i + 1;
        }
        assert(self.records@.subrange(0, self.records@.len() as int) =~= self.records@);
        out
    }

    /// Number of records.
    pub fn record_count(&self) -> (r: usize)
        ensures
            r == self.records().len(),
    {
        self.records.len()
    }

    /// The active records, in order.
    pub fn active_records(&self) -> (r: Vec<&DataRecord>)
        ensures
            r@.map_values(|x: &DataRecord| *x) == keep(self.records(), is_active_record()),
    {
        let ghost p = is_active_record();
        let mut out: Vec<&DataRecord> = Vec::new();
        let mut i: usize = 0;
        while i < self.records.len()
            invariant
                i <= self.records@.len(),
                p == is_active_record(),
                out@.map_values(|x: &DataRecord| *x) == keep(self.records@.subrange(0, i as int), p),
            decreases self.records.len() - i,
        {
            assert(self.records@.subrange(0, i + 1).drop_last() =~= self.records@.subrange(0, i as int));
            let ghost o0 = out@;
            if self.records[i].is_active() {
                out.push(&self.records[i]);
                assert(out@.map_values(|x: &DataRecord| *x) =~= o0.map_values(|x: &DataRecord| *x).push(self.records@[i as int]));
            }
            i = i + 1;
        }
        assert(self.records@.subrange(0, self.records@.len() as int) =~= self.records@);
        out
    }

    /// Remove the records on which `pred` holds; returns how many were removed. The
    /// others keep their order.
    pub fn remove_records<F: Fn(&DataRecord) -> bool>(&mut self, pred: F) -> (r: usize)
        requires
            forall|x: &DataRecord| pred.requires((x,)),
        ensures
            exists|flags: Seq<bool>|
                {
                    &&& flags.len() == old(self).records().len()
                    &&& forall|i: int|
                        0 <= i < flags.len() ==> pred.ensures(
                            (&old(self).records()[i],),
                            #[trigger] flags[i],
                        )
                    &&& final(self).records() == #[trigger] unflagged(old(self).records(), flags)
                },
            r == old(self).records().len() - final(self).records().len(),
            final(self).schemas() == old(self).schemas(),
            final(self).sources() == old(self).sources(),
            final(self).chains() == old(self).chains(),
    {
        proof {
            use_type_invariant(&*self);
        }
        let ghost r0 = self.records@;
        let mut rest: Vec<DataRecord> = Vec::new();
        std::mem::swap(&mut rest, &mut self.records);
        let before = rest.len();
        let mut kept: Vec<DataRecord> = Vec::new();
        let ghost mut flags: Seq<bool> = Seq::empty();
        let mut i: usize = 0;
        assert(rest@ =~= r0.subrange(0, r0.len() as int));
        while rest.len() > 0
            invariant
                i + rest@.len() == r0.len(),
                r0.len() == before,
                rest@ == r0.subrange(i as int, r0.len() as int),
                flags.len() == i,
                forall|k: int| 0 <= k < i ==> pred.ensures((&r0[k],), #[trigger] flags[k]),
                forall|x: &DataRecord| pred.requires((x,)),
                kept@ == unflagged(r0.subrange(0, i as int), flags),
                kept@.len() <= i,
            decreases rest.len(),
        {
            let x = rest.remove(0);
            assert(x == r0[i as int]);
            let gone = pred(&x);
            let ghost f0 = flags;
            proof {
                flags = flags.push(gone);
                lemma_unflagged_prefix(r0.subrange(0, i as int), f0, flags);
            }
            assert(r0.subrange(0, i + 1).drop_last() =~= r0.subrange(0, i as int));
            let ghost k0 = kept@;
            if !gone {
                kept.push(x);
            }
            assert(kept@ == unflagged(r0.subrange(0, i + 1), flags)) by {
                assert(r0.subrange(0, i + 1).last() == r0[i as int]);
                assert(flags[i as int] == gone);
                assert(k0 == unflagged(r0.subrange(0, i as int), flags));
            }
            i = i + 1;
            assert(rest@ =~= r0.subrange(i as int, r0.len() as int));
        }
        assert(r0.subrange(0, r0.len() as int) =~= r0);
        assert(kept@ == unflagged(r0, flags));
        let removed = before - kept.len();
        self.records = kept;
        assert(flags.len() == r0.len());
        assert(forall|k: int| 0 <= k < flags.len() ==> pred.ensures((&r0[k],), #[trigger] flags[k]));
        assert(self.records() == unflagged(r0, flags));
        assert(r0 == old(self).records());
        removed
    }
}

proof fn lemma_unflagged_prefix<A>(s: Seq<A>, f1: Seq<bool>, f2: Seq<bool>)
    requires
        f1.len() >= s.len(),
        f2.len() >= s.len(),
        forall|k: int| 0 <= k < s.len() ==> f1[k] == f2[k],
    ensures
        unflagged(s, f1) == unflagged(s, f2),
    decreases s.len(),
{
    if s.len() > 0 {
        lemma_unflagged_prefix(s.drop_last(), f1, f2);
    }
}

impl DataStore {
    fn chain_pos(v: &Vec<LineageChain>, target: &str) -> (r: Option<usize>)
        ensures
            match r {
                Some(i) => first_index(chain_targets(v@), target@) == Some(i as int) && i < v@.len(),
                None => first_index(chain_targets(v@), target@) is None,
            },
    {
        let ghost ks = chain_targets(v@);
        let mut i: usize = 0;
        while i < v.len()
            invariant
                i <= v@.len(),
                ks == chain_targets(v@),
                forall|j: int| 0 <= j < i ==> ks[j] != target@,
            decreases v.len() - i,
        {
            if str_eq(v[i].target.as_str(), target) {
                proof {
                    lemma_first_index_at(ks, target@, i as int);
                }
                return Some(i);
            }
            i = i + 1;
        }
        proof {
            lemma_first_index(ks, target@);
        }
        None
    }

    // ── Lineage operations ──
    /// Add a lineage entry for a target, starting its chain if it has none.
    pub fn add_lineage(&mut self, target: &str, entry: LineageEntry)
        ensures
            lineage_added(old(self).chains(), final(self).chains(), target@, entry),
            unique_keys(chain_targets(final(self).chains())),
            final(self).schemas() == old(self).schemas(),
            final(self).sources() == old(self).sources(),
            final(self).records() == old(self).records(),
    {
        proof {
            use_type_invariant(&*self);
        }
        let ghost c0 = self.lineage@;
        let mut v: Vec<LineageChain> = Vec::new();
        std::mem::swap(&mut v, &mut self.lineage);
        match Self::chain_pos(&v, target) {
            Some(i) => {
                let mut c = v.remove(i);
                c.add(entry);
                v.insert(i, c);
                proof {
                    assert(chain_targets(v@) =~= chain_targets(c0));
                }
            },
            None => {
                let mut c = LineageChain::new(target);
                c.add(entry);
                assert(c.entries@ =~= seq![entry]);
                v.push(c);
                proof {
                    lemma_first_index(chain_targets(c0), target@);
                    assert(chain_targets(v@) =~= chain_targets(c0).push(target@));
                }
            },
        }
        self.lineage = v;
    }

    /// The lineage chain of a target.
    pub fn get_lineage(&self, target: &str) -> (r: Option<&LineageChain>)
        ensures
            match first_index(chain_targets(self.chains()), target@) {
                Some(i) => r matches Some(c) && *c == self.chains()[i],
                None => r is None,
            },
    {
        match Self::chain_pos(&self.lineage, target) {
            Some(i) => Some(&self.lineage[i]),
            None => None,
        }
    }

    // ── Bulk operations ──
    /// Summary string for diagnostics: `{n} schemas, {n} sources, {n} records, {n}
    /// lineage chains`.
    pub fn summary(&self) -> (r: String)
        ensures
            r@ == decimal(self.schemas().len()) + " schemas, "@ + decimal(self.sources().len())
                + " sources, "@ + decimal(self.records().len()) + " records, "@ + decimal(
                self.chains().len(),
            ) + " lineage chains"@,
    {
        let mut t = decimal_exec(self.schemas.len() as u128);
        push_all(&mut t, &chars_of(" schemas, "));
        push_all(&mut t, &decimal_exec(self.sources.len() as u128));
        push_all(&mut t, &chars_of(" sources, "));
        push_all(&mut t, &decimal_exec(self.records.len() as u128));
        push_all(&mut t, &chars_of(" records, "));
        push_all(&mut t, &decimal_exec(self.lineage.len() as u128));
        push_all(&mut t, &chars_of(" lineage chains"));
        string_of(&t)
    }

    /// Clear all data.
    pub fn clear(&mut self)
        ensures
            final(self).schemas().len() == 0,
            final(self).sources().len() == 0,
            final(self).records().len() == 0,
            final(self).chains().len() == 0,
    {
        *self = DataStore::new();
    }
}

impl Default for DataStore {
    fn default() -> (r: DataStore)
        ensures
            r.schemas().len() == 0,
            r.sources().len() == 0,
            r.records().len() == 0,
            r.chains().len() == 0,
    {
        DataStore::new()
    }
}

/// Adding a lineage entry for a target leaves exactly one chain for that target,
/// and that chain ends with the entry.
pub proof fn lemma_lineage_lookup_after_add(old: Seq<LineageChain>, new: Seq<LineageChain>, target: Seq<char>, e: LineageEntry)
    requires
        unique_keys(chain_targets(old)),
        lineage_added(old, new, target, e),
    ensures
        first_index(chain_targets(new), target) matches Some(i) && new[i].target@ == target
            && new[i].entries@.len() > 0 && new[i].entries@.last() == e,
{
    lemma_first_index(chain_targets(old), target);
    match first_index(chain_targets(old), target) {
        Some(i) => {
            assert(chain_targets(new)[i] == target);
            assert forall|j: int| 0 <= j < i implies chain_targets(new)[j] != target by {
                assert(new[j] == old[j]);
                assert(chain_targets(old)[j] != target);
            }
            lemma_first_index_at(chain_targets(new), target, i);
        },
        None => {
            let n = old.len() as int;
            assert(chain_targets(new)[n] == target);
            assert forall|j: int| 0 <= j < n implies chain_targets(new)[j] != target by {
                assert(new[j] == old[j]);
                assert(chain_targets(old)[j] != target);
            }
            lemma_first_index_at(chain_targets(new), target, n);
        },
    }
}


/// A record added to a store that holds no record with its id is what a lookup of
/// that id gives.
pub proof fn lemma_record_lookup_after_add(old: Seq<DataRecord>, r: DataRecord)
    requires
        !record_ids(old).contains(r.id@),
    ensures
        first_index(record_ids(old.push(r)), r.id@) == Some(old.len() as int),
{
    let ks = record_ids(old.push(r));
    lemma_first_index(ks, r.id@);
    assert(ks[old.len() as int] == r.id@);
    match first_index(ks, r.id@) {
        Some(i) => {
            if i < old.len() {
                assert(record_ids(old)[i] == ks[i]);
            }
        },
        None => {},
    }
}

} // verus!
