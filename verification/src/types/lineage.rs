//! Data lineage: the provenance of every piece of data.
use vstd::prelude::*;

verus! {

/// Types of lineage actions.
#[derive(Debug, Clone, Copy, PartialEq, Eq, Structural)]
pub enum LineageAction {
    /// Data was ingested from an external source.
    Ingested,
    /// A transformation was applied.
    Transformed,
    /// Data was merged from multiple sources.
    Merged,
    /// A field was derived/computed.
    Derived,
    /// Data was corrected/updated.
    Corrected,
    /// Data was redacted (PII removed).
    Redacted,
    /// Data was migrated between formats.
    Migrated,
}

/// A single entry in a lineage chain.
#[derive(Debug)]
pub struct LineageEntry {
    /// What happened.
    pub action: LineageAction,
    /// Source of this action.
    pub source: String,
    /// When this happened (epoch micros).
    pub timestamp: u64,
    /// Input hash before this action.
    pub input_hash: String,
    /// Output hash after this action.
    pub output_hash: String,
    /// Human-readable description.
    pub description: String,
}

/// Two entries hold the same data.
pub open spec fn same_entry(a: LineageEntry, b: LineageEntry) -> bool {
    &&& a.action == b.action
    &&& a.source@ == b.source@
    &&& a.timestamp == b.timestamp
    &&& a.input_hash@ == b.input_hash@
    &&& a.output_hash@ == b.output_hash@
    &&& a.description@ == b.description@
}

impl LineageEntry {
    /// A copy of the entry.
    pub fn duplicate(&self) -> (r: LineageEntry)
        ensures
            same_entry(r, *self),
    {
        LineageEntry {
            action: self.action,
            source: self.source.clone(),
            timestamp: self.timestamp,
            input_hash: self.input_hash.clone(),
            output_hash: self.output_hash.clone(),
            description: self.description.clone(),
        }
    }
}

/// Number of `Transformed` entries.
pub open spec fn transform_count(entries: Seq<LineageEntry>) -> nat
    decreases entries.len(),
{
    if entries.len() == 0 {
        0
    } else {
        transform_count(entries.drop_last()) + if entries.last().action
            == LineageAction::Transformed {
            1nat
        } else {
            0nat
        }
    }
}

/// The trust of a chain, in thousandths: full trust less 50 per transformation, but
/// never below 100.
pub open spec fn chain_trust(entries: Seq<LineageEntry>) -> u32 {
    let n = transform_count(entries);
    if n >= 18 {
        100
    } else {
        (1000 - 50 * n) as u32
    }
}

/// Complete lineage chain for a record or field.
#[derive(Debug)]
pub struct LineageChain {
    /// The record or field this chain belongs to.
    pub target: String,
    /// Ordered list of lineage entries (oldest first).
    pub entries: Vec<LineageEntry>,
    /// Trust score based on lineage depth, in thousandths (1000 is full trust).
    pub trust_score: u32,
}

impl LineageChain {
    /// Create a new empty chain, fully trusted.
    pub fn new(target: &str) -> (r: LineageChain)
        ensures
            r.target@ == target@,
            r.entries@.len() == 0,
            r.trust_score == 1000,
            r.trust_score == chain_trust(r.entries@),
    {
        LineageChain { target: target.to_owned(), entries: Vec::new(), trust_score: 1000 }
    }

    /// Add an entry and recalculate trust.
    pub fn add(&mut self, entry: LineageEntry)
        ensures
            final(self).target@ == old(self).target@,
            final(self).entries@ == old(self).entries@.push(entry),
            final(self).trust_score == chain_trust(final(self).entries@),
    {
        self.entries.push(entry);
        self.trust_score = self.calculate_trust();
    }

    /// Trust decays with each transformation step.
    fn calculate_trust(&self) -> (r: u32)
        ensures
            r == chain_trust(self.entries@),
    {
        let mut n: usize = 0;
        let mut i: usize = 0;
        while i < self.entries.len()
            invariant
                i <= self.entries@.len(),
                n <= i,
                n == transform_count(self.entries@.subrange(0, i as int)),
            decreases self.entries.len() - i,
        {
            assert(self.entries@.subrange(0, i + 1).drop_last() =~= self.entries@.subrange(
                0,
                i as int,
            ));
            if self.entries[i].action == LineageAction::Transformed {
                n = n + 1;
            }
            i = i + 1;
        }
        assert(self.entries@.subrange(0, self.entries@.len() as int) =~= self.entries@);
        if n >= 18 {
            100
        } else {
            1000 - 50 * (n as u32)
        }
    }

    /// Depth of the lineage chain.
    pub fn depth(&self) -> (r: usize)
        ensures
            r == self.entries@.len(),
    {
        self.entries.len()
    }

    /// A copy of the chain.
    pub fn duplicate(&self) -> (r: LineageChain)
        ensures
            r.target@ == self.target@,
            r.trust_score == self.trust_score,
            r.entries@.len() == self.entries@.len(),
            forall|i: int| 0 <= i < r.entries@.len() ==> same_entry(#[trigger] r.entries@[i], self.entries@[i]),
    {
        let mut entries: Vec<LineageEntry> = Vec::new();
        let mut i: usize = 0;
        while i < self.entries.len()
            invariant
                i <= self.entries@.len(),
                entries@.len() == i,
                forall|k: int| 0 <= k < i ==> same_entry(#[trigger] entries@[k], self.entries@[k]),
            decreases self.entries.len() - i,
        {
            entries.push(self.entries[i].duplicate());
            i = i + 1;
        }
        LineageChain { target: self.target.clone(), entries, trust_score: self.trust_score }
    }
}

/// Adding an entry never raises a chain's trust, and a transformation lowers it
/// unless it is already at its floor of 100.
pub proof fn lemma_trust_decays(entries: Seq<LineageEntry>, e: LineageEntry)
    ensures
        chain_trust(entries.push(e)) <= chain_trust(entries),
        100 <= chain_trust(entries.push(e)) <= 1000,
        e.action == LineageAction::Transformed && chain_trust(entries) > 100 ==> chain_trust(
            entries.push(e),
        ) == chain_trust(entries) - 50,
        e.action != LineageAction::Transformed ==> chain_trust(entries.push(e)) == chain_trust(
            entries,
        ),
{
    assert(entries.push(e).drop_last() =~= entries);
}

/// A receipt for a single transformation step.
#[derive(Debug)]
pub struct TransformReceipt {
    /// Unique receipt ID.
    pub id: String,
    /// Transform name/type.
    pub transform: String,
    /// Input record count.
    pub input_count: u64,
    /// Output record count.
    pub output_count: u64,
    /// Records dropped.
    pub dropped_count: u64,
    /// When the transform was applied.
    pub applied_at: u64,
    /// Whether this transform is reversible.
    pub reversible: bool,
}

} // verus!
