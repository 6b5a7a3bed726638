//! Lineage index: provenance lookups and dependency tracking.
//!
//! Chains are kept by target; forward dependencies list, for each source, the
//! targets derived from it, and backward dependencies, for each target, its
//! sources; each key once, in the order first added.
use vstd::prelude::*;
use crate::text::{first_index, lemma_first_index, lemma_first_index_at, unique_keys, str_eq, string_views, string_of, chars_of, push_all, decimal, decimal_exec};
use crate::hash::{short_digest, short_digest_exec, hex_digit, hex_digit_exec};
use crate::types::lineage::{LineageAction, LineageChain, LineageEntry, chain_trust, same_entry};
use crate::engine::store::{chain_targets, lineage_added};
use super::schema_index::{keys_of, kv_get, kv_put, node_views, node_pos, append_under};

verus! {

/// The keyed lists after appending `v` under `k`.
pub open spec fn append_dep(s: Seq<(Seq<char>, Seq<Seq<char>>)>, k: Seq<char>, v: Seq<char>) -> Seq<(Seq<char>, Seq<Seq<char>>)> {
    match kv_get(s, k) {
        Some(l) => kv_put(s, k, l.push(v)),
        None => kv_put(s, k, seq![v]),
    }
}

/// The forward dependencies after recording that `target` derives from each entry's
/// source, in order.
pub open spec fn add_forward(s: Seq<(Seq<char>, Seq<Seq<char>>)>, target: Seq<char>, es: Seq<LineageEntry>) -> Seq<(Seq<char>, Seq<Seq<char>>)>
    decreases es.len(),
{
    if es.len() == 0 {
        s
    } else {
        append_dep(add_forward(s, target, es.drop_last()), es.last().source@, target)
    }
}

/// The backward dependencies after recording each entry's source for `target`, in
/// order.
pub open spec fn add_backward(s: Seq<(Seq<char>, Seq<Seq<char>>)>, target: Seq<char>, es: Seq<LineageEntry>) -> Seq<(Seq<char>, Seq<Seq<char>>)>
    decreases es.len(),
{
    if es.len() == 0 {
        s
    } else {
        append_dep(add_backward(s, target, es.drop_last()), target, es.last().source@)
    }
}

/// A copy of a chain: same target, trust and entries.
pub open spec fn same_chain(a: LineageChain, b: LineageChain) -> bool {
    &&& a.target@ == b.target@
    &&& a.trust_score == b.trust_score
    &&& a.entries@.len() == b.entries@.len()
    &&& forall|i: int| 0 <= i < a.entries@.len() ==> same_entry(#[trigger] a.entries@[i], b.entries@[i])
}

/// Index for lineage chain lookups and dependency tracking.
#[derive(Debug)]
pub struct LineageIndex {
    chains: Vec<LineageChain>,
    forward_deps: Vec<(String, Vec<String>)>,
    backward_deps: Vec<(String, Vec<String>)>,
}

impl LineageIndex {
    /// The chains, each target once.
    pub closed spec fn chains(&self) -> Seq<LineageChain> {
        self.chains@
    }

    /// Forward dependencies: source → targets derived from it.
    pub closed spec fn forward(&self) -> Seq<(Seq<char>, Seq<Seq<char>>)> {
        node_views(self.forward_deps@)
    }

    /// Backward dependencies: target → its sources.
    pub closed spec fn backward(&self) -> Seq<(Seq<char>, Seq<Seq<char>>)> {
        node_views(self.backward_deps@)
    }

    #[verifier::type_invariant]
    closed spec fn inv(self) -> bool {
        &&& unique_keys(chain_targets(self.chains@))
        &&& unique_keys(keys_of(node_views(self.forward_deps@)))
        &&& unique_keys(keys_of(node_views(self.backward_deps@)))
    }

    /// An empty index.
    pub fn new() -> (r: LineageIndex)
        ensures
            r.chains().len() == 0,
            r.forward().len() == 0,
            r.backward().len() == 0,
    {
        let r = LineageIndex { chains: Vec::new(), forward_deps: Vec::new(), backward_deps: Vec::new() };
        assert(chain_targets(r.chains@) =~= Seq::<Seq<char>>::empty());
        assert(keys_of(node_views(r.forward_deps@)) =~= Seq::<Seq<char>>::empty());
        assert(keys_of(node_views(r.backward_deps@)) =~= Seq::<Seq<char>>::empty());
        r
    }

    fn chain_pos(v: &Vec<LineageChain>, target: &str) -> (r: Option<usize>)
        ensures
            match r {
                Some(i) => first_index(chain_targets(v@), target@) == Some(i as int) && i < v@.len(),
                None => first_index(chain_targets(v@), target@) is None,
            },
    {
        let ghost ks = chain_targets(v@);
        let mut i: usize = 0;
        while i < v.len()
            invariant
                i <= v@.len(),
                ks == chain_targets(v@),
                forall|j: int| 0 <= j < i ==> ks[j] != target@,
            decreases v.len() - i,
        {
            if str_eq(v[i].target.as_str(), target) {
                proof {
                    lemma_first_index_at(ks, target@, i as int);
                }
                return Some(i);
            }
            i = i + 1;
        }
        proof {
            lemma_first_index(ks, target@);
        }
        None
    }

    /// Index a copy of a chain under its target (replacing a chain with that target),
    /// and record its entries' sources as dependencies.
    pub fn add_chain(&mut self, chain: &LineageChain)
        ensures
            exists|c: LineageChain|
                #[trigger] same_chain(c, *chain) && final(self).chains() == match first_index(
                    chain_targets(old(self).chains()),
                    chain.target@,
                ) {
                    Some(i) => old(self).chains().update(i, c),
                    None => old(self).chains().push(c),
                },
            final(self).forward() == add_forward(old(self).forward(), chain.target@, chain.entries@),
            final(self).backward() == add_backward(old(self).backward(), chain.target@, chain.entries@),
    {
        proof {
            use_type_invariant(&*self);
        }
        let ghost c0 = self.chains@;
        let copy = chain.duplicate();
        let ghost cg = copy;
        let mut chains: Vec<LineageChain> = Vec::new();
        std::mem::swap(&mut chains, &mut self.chains);
        match Self::chain_pos(&chains, chain.target.as_str()) {
            Some(i) => {
                proof {
                    lemma_first_index(chain_targets(c0), chain.target@);
                }
                chains.set(i, copy);
                assert(chain_targets(chains@) =~= chain_targets(c0));
            },
            None => {
                chains.push(copy);
                proof {
                    lemma_first_index(chain_targets(c0), chain.target@);
                }
                assert(chain_targets(chains@) =~= chain_targets(c0).push(chain.target@));
            },
        }
        assert(same_chain(cg, *chain));
        self.chains = chains;
        let mut fwd: Vec<(String, Vec<String>)> = Vec::new();
        std::mem::swap(&mut fwd, &mut self.forward_deps);
        let mut bwd: Vec<(String, Vec<String>)> = Vec::new();
        std::mem::swap(&mut bwd, &mut self.backward_deps);
        let ghost f0 = node_views(fwd@);
        let ghost b0 = node_views(bwd@);
        let mut k: usize = 0;
        assert(chain.entries@.subrange(0, 0) =~= Seq::<LineageEntry>::empty());
        while k < chain.entries.len()
            invariant
                k <= chain.entries@.len(),
                node_views(fwd@) == add_forward(f0, chain.target@, chain.entries@.subrange(0, k as int)),
                node_views(bwd@) == add_backward(b0, chain.target@, chain.entries@.subrange(0, k as int)),
                unique_keys(keys_of(node_views(fwd@))),
                unique_keys(keys_of(node_views(bwd@))),
            decreases chain.entries.len() - k,
        {
            assert(chain.entries@.subrange(0, k + 1).drop_last() =~= chain.entries@.subrange(0, k as int));
            append_under(&mut fwd, &chain.entries[k].source, &chain.target);
            append_under(&mut bwd, &chain.target, &chain.entries[k].source);
            k = k + 1;
        }
        assert(chain.entries@.subrange(0, chain.entries@.len() as int) =~= chain.entries@);
        self.forward_deps = fwd;
        self.backward_deps = bwd;
    }

    /// Add a lineage entry for a target: record the dependency both ways, and add the
    /// entry to the target's chain (starting the chain if there is none).
    pub fn add_entry(&mut self, target: &str, entry: LineageEntry)
        ensures
            final(self).forward() == append_dep(old(self).forward(), entry.source@, target@),
            final(self).backward() == append_dep(old(self).backward(), target@, entry.source@),
            lineage_added(old(self).chains(), final(self).chains(), target@, entry),
    {
        proof {
            use_type_invariant(&*self);
        }
        let t = target.to_owned();
        let mut fwd: Vec<(String, Vec<String>)> = Vec::new();
        std::mem::swap(&mut fwd, &mut self.forward_deps);
        append_under(&mut fwd, &entry.source, &t);
        self.forward_deps = fwd;
        let mut bwd: Vec<(String, Vec<String>)> = Vec::new();
        std::mem::swap(&mut bwd, &mut self.backward_deps);
        append_under(&mut bwd, &t, &entry.source);
        self.backward_deps = bwd;
        let ghost c0 = self.chains@;
        let mut v: Vec<LineageChain> = Vec::new();
        std::mem::swap(&mut v, &mut self.chains);
        match Self::chain_pos(&v, target) {
            Some(i) => {
                let mut c = v.remove(i);
                c.add(entry);
                v.insert(i, c);
                assert(chain_targets(v@) =~= chain_targets(c0));
            },
            None => {
                let mut c = LineageChain::new(target);
                c.add(entry);
                assert(c.entries@ =~= seq![entry]);
                v.push(c);
                proof {
                    lemma_first_index(chain_targets(c0), target@);
                    assert(chain_targets(v@) =~= chain_targets(c0).push(target@));
                }
            },
        }
        self.chains = v;
    }

    /// The lineage chain of a target.
    pub fn trace(&self, target: &str) -> (r: Option<&LineageChain>)
        ensures
            match first_index(chain_targets(self.chains()), target@) {
                Some(i) => r matches Some(c) && *c == self.chains()[i],
                None => r is None,
            },
    {
        match Self::chain_pos(&self.chains, target) {
            Some(i) => Some(&self.chains[i]),
            None => None,
        }
    }

    /// The trust of a target's chain, in thousandths (0 when it has none).
    pub fn trust_score(&self, target: &str) -> (r: u32)
        ensures
            r == match first_index(chain_targets(self.chains()), target@) {
                Some(i) => self.chains()[i].trust_score,
                None => 0,
            },
    {
        match Self::chain_pos(&self.chains, target) {
            Some(i) => self.chains[i].trust_score,
            None => 0,
        }
    }

    fn deps_of<'b>(v: &'b Vec<(String, Vec<String>)>, key: &str) -> (r: Vec<&'b str>)
        ensures
            r@.map_values(|s: &str| s@) == match kv_get(node_views(v@), key@) {
                Some(l) => l,
                None => Seq::empty(),
            },
    {
        let mut out: Vec<&str> = Vec::new();
        match node_pos(v, key) {
            None => {
                assert(out@.map_values(|s: &str| s@) =~= Seq::<Seq<char>>::empty());
                out
            },
            Some(i) => {
                let l = &v[i].1;
                let mut k: usize = 0;
                while k < l.len()
                    invariant
                        k <= l@.len(),
                        out@.len() == k,
                        forall|q: int| 0 <= q < k ==> (#[trigger] out@[q])@ == l@[q]@,
                    decreases l.len() - k,
                {
                    out.push(l[k].as_str());
                    k = k + 1;
                }
                assert(out@.map_values(|s: &str| s@) =~= string_views(l@));
                out
            },
        }
    }

    /// Impact analysis: the targets derived from a source, in the order recorded.
    pub fn impact_of(&self, source: &str) -> (r: Vec<&str>)
        ensures
            r@.map_values(|s: &str| s@) == match kv_get(self.forward(), source@) {
                Some(l) => l,
                None => Seq::empty(),
            },
    {
        Self::deps_of(&self.forward_deps, source)
    }

    /// Source tracing: the sources of a target, in the order recorded.
    pub fn sources_of(&self, target: &str) -> (r: Vec<&str>)
        ensures
            r@.map_values(|s: &str| s@) == match kv_get(self.backward(), target@) {
                Some(l) => l,
                None => Seq::empty(),
            },
    {
        Self::deps_of(&self.backward_deps, target)
    }

    /// The targets whose trust is below the threshold (thousandths), with their trust.
    pub fn low_trust_targets(&self, threshold: u32) -> (r: Vec<(&str, u32)>)
        ensures
            r@.map_values(|p: (&str, u32)| (p.0@, p.1)) == low_trust(self.chains(), threshold),
    {
        let mut out: Vec<(&str, u32)> = Vec::new();
        let mut i: usize = 0;
        assert(self.chains@.subrange(0, 0) =~= Seq::<LineageChain>::empty());
        assert(out@.map_values(|p: (&str, u32)| (p.0@, p.1)) =~= Seq::<(Seq<char>, u32)>::empty());
        while i < self.chains.len()
            invariant
                i <= self.chains@.len(),
                out@.map_values(|p: (&str, u32)| (p.0@, p.1)) == low_trust(self.chains@.subrange(0, i as int), threshold),
            decreases self.chains.len() - i,
        {
            assert(self.chains@.subrange(0, i + 1).drop_last() =~= self.chains@.subrange(0, i as int));
            let c = &self.chains[i];
            let ghost o0 = out@;
            if c.trust_score < threshold {
                out.push((c.target.as_str(), c.trust_score));
                assert(out@.map_values(|p: (&str, u32)| (p.0@, p.1)) =~= o0.map_values(|p: (&str, u32)| (p.0@, p.1)).push((c.target@, c.trust_score)));
            }
            i = i + 1;
        }
        assert(self.chains@.subrange(0, self.chains@.len() as int) =~= self.chains@);
        out
    }

    /// Number of indexed chains.
    pub fn chain_count(&self) -> (r: usize)
        ensures
            r == self.chains().len(),
    {
        self.chains.len()
    }
}

/// The chains with trust below the threshold, as (target, trust), in order.
pub open spec fn low_trust(chains: Seq<LineageChain>, threshold: u32) -> Seq<(Seq<char>, u32)>
    decreases chains.len(),
{
    if chains.len() == 0 {
        Seq::empty()
    } else {
        low_trust(chains.drop_last(), threshold) + if chains.last().trust_score < threshold {
            seq![(chains.last().target@, chains.last().trust_score)]
        } else {
            Seq::empty()
        }
    }
}

/// An entry as plain values: action, source, timestamp, input hash, output hash,
/// description.
pub type EntryView = (LineageAction, Seq<char>, u64, Seq<char>, Seq<char>, Seq<char>);

/// An entry's plain values.
pub open spec fn entry_view(e: LineageEntry) -> EntryView {
    (e.action, e.source@, e.timestamp, e.input_hash@, e.output_hash@, e.description@)
}

/// Views of entries.
pub open spec fn entry_views(es: Seq<LineageEntry>) -> Seq<EntryView> {
    es.map_values(|e: LineageEntry| entry_view(e))
}

/// One or two lower-case hex digits of `b`, without leading zero.
pub open spec fn short_hex(b: u8) -> Seq<char> {
    if b < 16 {
        seq![hex_digit(b)]
    } else {
        seq![hex_digit(b / 16), hex_digit(b % 16)]
    }
}

/// How `Debug` writes a char inside a quoted string, for chars below U+0100: the
/// double quote, the backslash, tab, line feed, carriage return and NUL by their
/// backslash escapes; the other control chars, DEL, the C1 controls, the no-break
/// space and the soft hyphen as `\u{..}` in lower-case hex. Every other char is
/// written as it is (`Debug` also escapes the few later chars that are not printable
/// or that extend a grapheme).
pub open spec fn debug_char(c: char) -> Seq<char> {
    if c == '"' {
        "\\\""@
    } else if c == '\\' {
        "\\\\"@
    } else if c == '\n' {
        "\\n"@
    } else if c == '\r' {
        "\\r"@
    } else if c == '\t' {
        "\\t"@
    } else if c == '\0' {
        "\\0"@
    } else if (c as u32) < 0x20 || (0x7f <= (c as u32) <= 0xa0) || (c as u32) == 0xad {
        "\\u{"@ + short_hex((c as u32) as u8) + "}"@
    } else {
        seq![c]
    }
}

/// The escaped chars of a string, without the quotes.
pub open spec fn debug_str_body(s: Seq<char>) -> Seq<char>
    decreases s.len(),
{
    if s.len() == 0 {
        Seq::empty()
    } else {
        debug_str_body(s.drop_last()) + debug_char(s.last())
    }
}

/// A string as `Debug` writes it: quoted and escaped.
pub open spec fn debug_str(s: Seq<char>) -> Seq<char> {
    seq!['"'] + debug_str_body(s) + seq!['"']
}

/// The name of an action, as `Debug` writes it.
pub open spec fn action_name(a: LineageAction) -> Seq<char> {
    match a {
        LineageAction::Ingested => "Ingested"@,
        LineageAction::Transformed => "Transformed"@,
        LineageAction::Merged => "Merged"@,
        LineageAction::Derived => "Derived"@,
        LineageAction::Corrected => "Corrected"@,
        LineageAction::Redacted => "Redacted"@,
        LineageAction::Migrated => "Migrated"@,
    }
}

/// An entry as `Debug` writes it: the struct's name, then each field's name and value.
pub open spec fn entry_debug(e: EntryView) -> Seq<char> {
    "LineageEntry { action: "@ + action_name(e.0) + ", source: "@ + debug_str(e.1)
        + ", timestamp: "@ + decimal(e.2 as nat) + ", input_hash: "@ + debug_str(e.3)
        + ", output_hash: "@ + debug_str(e.4) + ", description: "@ + debug_str(e.5) + " }"@
}

/// The entries as `Debug` writes them, separated by `", "`, without the brackets.
pub open spec fn entries_debug_body(es: Seq<EntryView>) -> Seq<char>
    decreases es.len(),
{
    if es.len() == 0 {
        Seq::empty()
    } else if es.len() == 1 {
        entry_debug(es[0])
    } else {
        entries_debug_body(es.drop_last()) + ", "@ + entry_debug(es.last())
    }
}

/// A list of entries as `Debug` writes it: `[`, the entries, `]`.
pub open spec fn entries_debug_text(es: Seq<EntryView>) -> Seq<char> {
    "["@ + entries_debug_body(es) + "]"@
}

fn push_lit(out: &mut Vec<char>, lit: &str)
    ensures
        final(out)@ == old(out)@ + lit@,
{
    let cs = chars_of(lit);
    push_all(out, &cs);
}

fn push_debug_char(out: &mut Vec<char>, c: char)
    ensures
        final(out)@ == old(out)@ + debug_char(c),
{
    if c == '"' {
        push_lit(out, "\\\"");
    } else if c == '\\' {
        push_lit(out, "\\\\");
    } else if c == '\n' {
        push_lit(out, "\\n");
    } else if c == '\r' {
        push_lit(out, "\\r");
    } else if c == '\t' {
        push_lit(out, "\\t");
    } else if c == '\0' {
        push_lit(out, "\\0");
    } else {
        let n: u32 = c as u32;
        if n < 0x20 || (0x7f <= n && n <= 0xa0) || n == 0xad {
            let b: u8 = n as u8;
            let ghost o1 = out@;
            push_lit(out, "\\u{");
            let ghost o2 = out@;
            if b >= 16 {
                out.push(hex_digit_exec(b / 16));
            }
            out.push(hex_digit_exec(b % 16));
            assert(out@ =~= o2 + short_hex(b));
            push_lit(out, "}");
            assert(out@ =~= o1 + ("\\u{"@ + short_hex(b) + "}"@));
        } else {
            out.push(c);
        }
    }
}

fn push_debug_str(out: &mut Vec<char>, s: &String)
    ensures
        final(out)@ == old(out)@ + debug_str(s@),
{
    let cs = chars_of(s.as_str());
    let ghost o0 = out@;
    out.push('"');
    let mut i: usize = 0;
    assert(cs@.subrange(0, 0) =~= Seq::<char>::empty());
    assert(out@ =~= o0 + seq!['"'] + debug_str_body(cs@.subrange(0, 0)));
    while i < cs.len()
        invariant
            i <= cs@.len(),
            cs@ == s@,
            out@ == o0 + seq!['"'] + debug_str_body(cs@.subrange(0, i as int)),
        decreases cs.len() - i,
    {
        assert(cs@.subrange(0, i + 1).drop_last() =~= cs@.subrange(0, i as int));
        assert(cs@.subrange(0, i + 1).last() == cs@[i as int]);
        push_debug_char(out, cs[i]);
        i = i + 1;
        assert(out@ =~= o0 + seq!['"'] + debug_str_body(cs@.subrange(0, i as int)));
    }
    assert(cs@.subrange(0, cs@.len() as int) =~= cs@);
    out.push('"');
    assert(out@ =~= o0 + debug_str(s@));
}

fn push_action_name(out: &mut Vec<char>, a: LineageAction)
    ensures
        final(out)@ == old(out)@ + action_name(a),
{
    match a {
        LineageAction::Ingested => push_lit(out, "Ingested"),
        LineageAction::Transformed => push_lit(out, "Transformed"),
        LineageAction::Merged => push_lit(out, "Merged"),
        LineageAction::Derived => push_lit(out, "Derived"),
        LineageAction::Corrected => push_lit(out, "Corrected"),
        LineageAction::Redacted => push_lit(out, "Redacted"),
        LineageAction::Migrated => push_lit(out, "Migrated"),
    }
}

fn push_entry_debug(out: &mut Vec<char>, e: &LineageEntry)
    ensures
        final(out)@ == old(out)@ + entry_debug(entry_view(*e)),
{
    let ghost o0 = out@;
    push_lit(out, "LineageEntry { action: ");
    push_action_name(out, e.action);
    push_lit(out, ", source: ");
    push_debug_str(out, &e.source);
    push_lit(out, ", timestamp: ");
    let digits = decimal_exec(e.timestamp as u128);
    push_all(out, &digits);
    push_lit(out, ", input_hash: ");
    push_debug_str(out, &e.input_hash);
    push_lit(out, ", output_hash: ");
    push_debug_str(out, &e.output_hash);
    push_lit(out, ", description: ");
    push_debug_str(out, &e.description);
    push_lit(out, " }");
    assert(out@ =~= o0 + entry_debug(entry_view(*e)));
}

/// The `Debug` text of a list of entries (what `format!("{:?}", entries)` writes
/// when no text in them holds a char from U+0100 on that `Debug` escapes).
pub fn entries_debug(entries: &Vec<LineageEntry>) -> (r: String)
    ensures
        r@ == entries_debug_text(entry_views(entries@)),
{
    let ghost es = entry_views(entries@);
    let mut out: Vec<char> = Vec::new();
    push_lit(&mut out, "[");
    let mut i: usize = 0;
    assert(out@ =~= "["@ + entries_debug_body(es.subrange(0, 0)));
    while i < entries.len()
        invariant
            i <= entries@.len(),
            es == entry_views(entries@),
            es.len() == entries@.len(),
            out@ == "["@ + entries_debug_body(es.subrange(0, i as int)),
        decreases entries.len() - i,
    {
        let ghost sub = es.subrange(0, i + 1);
        assert(sub.drop_last() =~= es.subrange(0, i as int));
        assert(sub.last() == entry_view(entries@[i as int]));
        if i > 0 {
            push_lit(&mut out, ", ");
        }
        push_entry_debug(&mut out, &entries[i]);
        proof {
            if i == 0 {
                assert(sub[0] == entry_view(entries@[0]));
            }
            assert(out@ =~= "["@ + entries_debug_body(sub));
        }
        i = i + 1;
    }
    assert(es.subrange(0, es.len() as int) =~= es);
    push_lit(&mut out, "]");
    assert(out@ =~= entries_debug_text(es));
    string_of(&out)
}

impl LineageIndex {
    /// A fingerprint of a target's lineage: the first 16 hex digits of the BLAKE3
    /// digest of the `Debug` text of its chain's entries.
    pub fn fingerprint(&self, target: &str) -> (r: Option<String>)
        ensures
            match first_index(chain_targets(self.chains()), target@) {
                Some(i) => r matches Some(f) && f@ == short_digest(
                    vstd::utf8::encode_utf8(entries_debug_text(entry_views(self.chains()[i].entries@))),
                ),
                None => r is None,
            },
    {
        match Self::chain_pos(&self.chains, target) {
            Some(i) => {
                let text = entries_debug(&self.chains[i].entries);
                let d = short_digest_exec(text.as_str().as_bytes());
                Some(string_of(&d))
            },
            None => None,
        }
    }
}

impl Default for LineageIndex {
    fn default() -> (r: LineageIndex)
        ensures
            r.chains().len() == 0,
            r.forward().len() == 0,
            r.backward().len() == 0,
    {
        LineageIndex::new()
    }
}

} // verus!
