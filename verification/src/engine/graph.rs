//! Graph engine: traversal of schema relationships, impact analysis over lineage,
//! and relationship discovery.
use vstd::prelude::*;
use crate::text::{spec_to_lower, to_lower, trim_end_char, trim_end_char_exec, push_all, chars_eq, eq_lit, first_index, lemma_first_index, lemma_first_index_at, string_views, chars_of, string_of, starts_with, starts_with_exec, find_char, find_char_exec, slice_vec, str_eq};
use crate::types::schema::{SchemaEdge, UniversalSchema, FieldType, SchemaField, SchemaNode};
use crate::types::schema_eq::{types_equal, same_type};
use crate::types::lineage::{LineageChain, LineageEntry};
use super::store::{DataStore, chain_targets};

verus! {

/// Direction for graph traversal.
#[derive(Debug, Clone, Copy, PartialEq, Eq, Structural)]
pub enum TraversalDirection {
    Forward,
    Backward,
    Both,
}

/// Result of a graph traversal.
#[derive(Debug)]
pub struct TraversalResult {
    pub visited: Vec<String>,
    pub edges_followed: usize,
    pub depth_reached: usize,
}

/// The node part of a qualified name: the text before the first `.`.
pub open spec fn node_name(target: Seq<char>) -> Seq<char> {
    match find_char(target, '.') {
        Some(k) => target.subrange(0, k),
        None => target,
    }
}

/// The end of an edge reached from `node` in a direction: forward from an edge
/// whose source starts with the node's name, backward from one whose target does.
pub open spec fn next_of(e: SchemaEdge, node: Seq<char>, dir: TraversalDirection) -> Option<Seq<char>> {
    match dir {
        TraversalDirection::Forward => if starts_with(e.from@, node) {
            Some(e.to@)
        } else {
            None
        },
        TraversalDirection::Backward => if starts_with(e.to@, node) {
            Some(e.from@)
        } else {
            None
        },
        TraversalDirection::Both => if starts_with(e.from@, node) {
            Some(e.to@)
        } else if starts_with(e.to@, node) {
            Some(e.from@)
        } else {
            None
        },
    }
}

/// The state of a breadth-first traversal: every node queued so far with its depth
/// (each node once), how many have been taken from the queue, the nodes visited,
/// and the deepest depth visited.
pub struct BfsState {
    pub queue: Seq<(Seq<char>, nat)>,
    pub head: nat,
    pub visited: Seq<Seq<char>>,
    pub max_d: nat,
}

/// The names queued.
pub open spec fn queued(q: Seq<(Seq<char>, nat)>) -> Seq<Seq<char>> {
    q.map_values(|p: (Seq<char>, nat)| p.0)
}

/// The state after following the edges from `node` (at `depth`): each new node
/// reached is queued one level deeper, in edge order.
pub open spec fn scan_edges(edges: Seq<SchemaEdge>, node: Seq<char>, depth: nat, dir: TraversalDirection, st: BfsState) -> BfsState
    decreases edges.len(),
{
    if edges.len() == 0 {
        st
    } else {
        let s1 = scan_edges(edges.drop_last(), node, depth, dir, st);
        match next_of(edges.last(), node, dir) {
            Some(t) => if queued(s1.queue).contains(node_name(t)) {
                s1
            } else {
                BfsState { queue: s1.queue.push((node_name(t), depth + 1)), ..s1 }
            },
            None => s1,
        }
    }
}

/// One step of the traversal: take the next queued node; unless it is deeper than
/// `max_depth`, visit it and follow its edges.
pub open spec fn bfs_step(edges: Seq<SchemaEdge>, dir: TraversalDirection, max_depth: nat, st: BfsState) -> BfsState {
    if st.head >= st.queue.len() {
        st
    } else {
        let (node, depth) = st.queue[st.head as int];
        let s1 = BfsState { head: st.head + 1, ..st };
        if depth > max_depth {
            s1
        } else {
            scan_edges(
                edges,
                node,
                depth,
                dir,
                BfsState {
                    visited: s1.visited.push(node),
                    max_d: if depth > s1.max_d {
                        depth
                    } else {
                        s1.max_d
                    },
                    ..s1
                },
            )
        }
    }
}

/// The state after `n` steps.
pub open spec fn bfs_run(edges: Seq<SchemaEdge>, dir: TraversalDirection, max_depth: nat, st: BfsState, n: nat) -> BfsState
    decreases n,
{
    if n == 0 {
        st
    } else {
        bfs_step(edges, dir, max_depth, bfs_run(edges, dir, max_depth, st, (n - 1) as nat))
    }
}

/// The start of a traversal: only `start`, at depth 0, queued.
pub open spec fn bfs_start(start: Seq<char>) -> BfsState {
    BfsState { queue: seq![(start, 0nat)], head: 0, visited: Seq::empty(), max_d: 0 }
}

/// The finished traversal: steps are taken until the queue is exhausted.
pub open spec fn bfs_done(edges: Seq<SchemaEdge>, dir: TraversalDirection, max_depth: nat, start: Seq<char>, st: BfsState) -> bool {
    exists|n: nat|
        #[trigger] bfs_run(edges, dir, max_depth, bfs_start(start), n) == st && st.head == st.queue.len()
}

/// The nodes that edges can lead to, and the start.
pub open spec fn bfs_candidates(edges: Seq<SchemaEdge>, start: Seq<char>) -> Seq<Seq<char>> {
    seq![start] + edges.map_values(|e: SchemaEdge| node_name(e.to@)) + edges.map_values(
        |e: SchemaEdge| node_name(e.from@),
    )
}

/// Well-formed traversal state: distinct queued nodes, each a candidate, each queued
/// at most one level below its position.
pub open spec fn bfs_inv(edges: Seq<SchemaEdge>, start: Seq<char>, st: BfsState) -> bool {
    &&& queued(st.queue).no_duplicates()
    &&& forall|i: int| 0 <= i < st.queue.len() ==> bfs_candidates(edges, start).contains(#[trigger] st.queue[i].0)
    &&& forall|i: int| 0 <= i < st.queue.len() ==> #[trigger] st.queue[i].1 <= i
    &&& st.head <= st.queue.len()
    &&& st.queue.len() >= 1
    &&& st.max_d <= st.queue.len()
}

proof fn lemma_scan_inv(edges: Seq<SchemaEdge>, all: Seq<SchemaEdge>, start: Seq<char>, node: Seq<char>, depth: nat, dir: TraversalDirection, st: BfsState)
    requires
        bfs_inv(all, start, st),
        depth < st.queue.len(),
        edges.len() <= all.len(),
        edges == all.subrange(0, edges.len() as int),
    ensures
        bfs_inv(all, start, scan_edges(edges, node, depth, dir, st)),
        scan_edges(edges, node, depth, dir, st).head == st.head,
        scan_edges(edges, node, depth, dir, st).visited == st.visited,
        scan_edges(edges, node, depth, dir, st).max_d == st.max_d,
        scan_edges(edges, node, depth, dir, st).queue.len() >= st.queue.len(),
        st.queue.is_prefix_of(scan_edges(edges, node, depth, dir, st).queue),
    decreases edges.len(),
{
    if edges.len() > 0 {
        let k = edges.len() - 1;
        assert(edges.drop_last() == all.subrange(0, k));
        lemma_scan_inv(edges.drop_last(), all, start, node, depth, dir, st);
        let s1 = scan_edges(edges.drop_last(), node, depth, dir, st);
        match next_of(edges.last(), node, dir) {
            Some(t) => {
                if !queued(s1.queue).contains(node_name(t)) {
                    let q2 = s1.queue.push((node_name(t), depth + 1));
                    assert(queued(q2) =~= queued(s1.queue).push(node_name(t)));
                    let c = bfs_candidates(all, start);
                    assert(edges.last() == all[k]);
                    assert(c.contains(node_name(t))) by {
                        if t == edges.last().to@ {
                            assert(c[1 + k] == node_name(all[k].to@));
                        } else {
                            assert(c[1 + all.len() + k] == node_name(all[k].from@));
                        }
                    }
                    assert forall|i: int| 0 <= i < q2.len() implies c.contains(#[trigger] q2[i].0) by {
                        if i < s1.queue.len() {
                            assert(q2[i] == s1.queue[i]);
                        }
                    }
                    assert forall|i: int| 0 <= i < q2.len() implies #[trigger] q2[i].1 <= i by {
                        if i < s1.queue.len() {
                            assert(q2[i] == s1.queue[i]);
                        }
                    }
                    assert(st.queue.is_prefix_of(q2)) by {
                        assert forall|i: int| 0 <= i < st.queue.len() implies q2[i] == st.queue[i] by {
                            assert(q2[i] == s1.queue[i]);
                        }
                    }
                }
            },
            None => {},
        }
    }
}

proof fn lemma_step_inv(all: Seq<SchemaEdge>, start: Seq<char>, dir: TraversalDirection, max_depth: nat, st: BfsState)
    requires
        bfs_inv(all, start, st),
    ensures
        bfs_inv(all, start, bfs_step(all, dir, max_depth, st)),
        st.head < st.queue.len() ==> bfs_step(all, dir, max_depth, st).head == st.head + 1,
{
    if st.head < st.queue.len() {
        let (node, depth) = st.queue[st.head as int];
        assert(depth <= st.head);
        if depth <= max_depth {
            let s2 = BfsState {
                head: st.head + 1,
                visited: st.visited.push(node),
                max_d: if depth > st.max_d {
                    depth
                } else {
                    st.max_d
                },
                ..st
            };
            assert(all.subrange(0, all.len() as int) =~= all);
            lemma_scan_inv(all, all, start, node, depth, dir, s2);
        }
    }
}

proof fn lemma_queue_bound(all: Seq<SchemaEdge>, start: Seq<char>, st: BfsState)
    requires
        bfs_inv(all, start, st),
    ensures
        st.queue.len() <= 2 * all.len() + 1,
{
    let q = queued(st.queue);
    let c = bfs_candidates(all, start);
    q.unique_seq_to_set();
    c.lemma_cardinality_of_set();
    assert(q.to_set().subset_of(c.to_set())) by {
        assert forall|x: Seq<char>| q.to_set().contains(x) implies c.to_set().contains(x) by {
            let i = choose|i: int| 0 <= i < q.len() && q[i] == x;
            assert(st.queue[i].0 == x);
        }
    }
    vstd::set_lib::lemma_len_subset(q.to_set(), c.to_set());
}

/// The queue as plain values.
pub open spec fn qview(q: Seq<(String, usize)>) -> Seq<(Seq<char>, nat)> {
    q.map_values(|p: (String, usize)| (p.0@, p.1 as nat))
}

/// The node part of a qualified name.
fn node_name_exec(t: &str) -> (r: String)
    ensures
        r@ == node_name(t@),
{
    let cs = chars_of(t);
    match find_char_exec(&cs, '.') {
        Some(k) => string_of(&slice_vec(&cs, 0, k)),
        None => t.to_owned(),
    }
}

/// The end of an edge reached from `node`.
fn next_of_exec<'a>(e: &'a SchemaEdge, node: &str, dir: TraversalDirection) -> (r: Option<&'a String>)
    ensures
        match r {
            Some(t) => next_of(*e, node@, dir) == Some(t@),
            None => next_of(*e, node@, dir) is None,
        },
{
    let n = chars_of(node);
    let from_ok = starts_with_exec(&chars_of(e.from.as_str()), &n);
    let to_ok = starts_with_exec(&chars_of(e.to.as_str()), &n);
    match dir {
        TraversalDirection::Forward => if from_ok {
            Some(&e.to)
        } else {
            None
        },
        TraversalDirection::Backward => if to_ok {
            Some(&e.from)
        } else {
            None
        },
        TraversalDirection::Both => if from_ok {
            Some(&e.to)
        } else if to_ok {
            Some(&e.from)
        } else {
            None
        },
    }
}

/// Whether a name is queued.
fn is_queued(queue: &Vec<(String, usize)>, name: &String) -> (r: bool)
    ensures
        r == queued(qview(queue@)).contains(name@),
{
    let ghost qv = queued(qview(queue@));
    let mut i: usize = 0;
    while i < queue.len()
        invariant
            i <= queue@.len(),
            qv == queued(qview(queue@)),
            qv.len() == queue@.len(),
            forall|k: int| 0 <= k < i ==> qv[k] != name@,
        decreases queue.len() - i,
    {
        assert(qv[i as int] == queue@[i as int].0@);
        if str_eq(queue[i].0.as_str(), name.as_str()) {
            return true;
        }
        i = i + 1;
    }
    false
}

/// Graph operations on schema relationships and data lineage.
pub struct GraphEngine;

impl GraphEngine {
    /// Breadth-first traversal from a node through the schema's edges, visiting
    /// nodes up to `max_depth` levels away; each node is queued once.
    pub fn traverse_schema(schema: &UniversalSchema, start_node: &str, direction: TraversalDirection, max_depth: usize) -> (r: TraversalResult)
        ensures
            exists|st: BfsState|
                #[trigger] bfs_done(schema.edges@, direction, max_depth as nat, start_node@, st)
                    && string_views(r.visited@) == st.visited && r.edges_followed == st.queue.len() - 1
                    && r.depth_reached == st.max_d,
            r.visited@.len() >= 1,
            r.visited@[0]@ == start_node@,
    {
        let ghost edges = schema.edges@;
        let ghost dir = direction;
        let ghost md = max_depth as nat;
        let mut queue: Vec<(String, usize)> = Vec::new();
        queue.push((start_node.to_owned(), 0));
        let mut head: usize = 0;
        let mut visited: Vec<String> = Vec::new();
        let mut max_d: usize = 0;
        let ghost mut n: nat = 0;
        assert(qview(queue@) =~= seq![(start_node@, 0nat)]);
        assert(string_views(visited@) =~= Seq::<Seq<char>>::empty());
        proof {
            let st0 = bfs_start(start_node@);
            assert(queued(st0.queue) =~= seq![start_node@]);
            assert(bfs_candidates(edges, start_node@)[0] == start_node@);
        }
        while head < queue.len()
            invariant
                edges == schema.edges@,
                bfs_run(edges, dir, md, bfs_start(start_node@), n) == (BfsState {
                    queue: qview(queue@),
                    head: head as nat,
                    visited: string_views(visited@),
                    max_d: max_d as nat,
                }),
                bfs_inv(edges, start_node@, BfsState {
                    queue: qview(queue@),
                    head: head as nat,
                    visited: string_views(visited@),
                    max_d: max_d as nat,
                }),
                dir == direction,
                md == max_depth as nat,
                queue@.len() >= 1,
                queue@[0].0@ == start_node@,
                queue@[0].1 == 0,
                head > 0 ==> visited@.len() >= 1 && visited@[0]@ == start_node@,
                head == 0 ==> visited@.len() == 0,
            decreases 2 * schema.edges@.len() + 1 - head,
        {
            let ghost st = BfsState {
                queue: qview(queue@),
                head: head as nat,
                visited: string_views(visited@),
                max_d: max_d as nat,
            };
            proof {
                lemma_queue_bound(edges, start_node@, st);
                lemma_step_inv(edges, start_node@, dir, md, st);
            }
            let node = queue[head].0.clone();
            let depth = queue[head].1;
            assert(st.queue[head as int] == (node@, depth as nat));
            let ghost h0 = head;
            head = head + 1;
            if depth <= max_depth {
                visited.push(node.clone());
                proof {
                    if h0 == 0 {
                        assert(node@ == start_node@);
                    }
                }
                if depth > max_d {
                    max_d = depth;
                }
                let ghost s2 = BfsState {
                    queue: qview(queue@),
                    head: head as nat,
                    visited: string_views(visited@),
                    max_d: max_d as nat,
                };
                assert(string_views(visited@) =~= st.visited.push(node@));
                assert(bfs_inv(edges, start_node@, s2));
                assert(edges.subrange(0, 0) =~= Seq::<SchemaEdge>::empty());
                let mut i: usize = 0;
                while i < schema.edges.len()
                    invariant
                        i <= schema.edges@.len(),
                        edges == schema.edges@,
                        scan_edges(edges.subrange(0, i as int), node@, depth as nat, dir, s2) == (BfsState {
                            queue: qview(queue@),
                            head: head as nat,
                            visited: string_views(visited@),
                            max_d: max_d as nat,
                        }),
                        queue@.len() <= 2 * edges.len() + 1,
                        depth < head,
                        head <= queue@.len(),
                        bfs_inv(edges, start_node@, s2),
                        s2.head == head,
                        dir == direction,
                        queue@.len() >= 1,
                        queue@[0].0@ == start_node@,
                        queue@[0].1 == 0,
                        visited@.len() >= 1 && visited@[0]@ == start_node@,
                        bfs_inv(edges, start_node@, BfsState {
                            queue: qview(queue@),
                            head: head as nat,
                            visited: string_views(visited@),
                            max_d: max_d as nat,
                        }),
                    decreases schema.edges.len() - i,
                {
                    let ghost before = BfsState {
                        queue: qview(queue@),
                        head: head as nat,
                        visited: string_views(visited@),
                        max_d: max_d as nat,
                    };
                    assert(edges.subrange(0, i + 1).drop_last() =~= edges.subrange(0, i as int));
                    assert(edges.subrange(0, i + 1).last() == edges[i as int]);
                    proof {
                        lemma_queue_bound(edges, start_node@, before);
                    }
                    assert(scan_edges(edges.subrange(0, i + 1), node@, depth as nat, dir, s2) == match next_of(
                        edges[i as int],
                        node@,
                        dir,
                    ) {
                        Some(t) => if queued(before.queue).contains(node_name(t)) {
                            before
                        } else {
                            BfsState { queue: before.queue.push((node_name(t), (depth + 1) as nat)), ..before }
                        },
                        None => before,
                    });
                    let ghost sc = scan_edges(edges.subrange(0, i + 1), node@, depth as nat, dir, s2);
                    match next_of_exec(&schema.edges[i], node.as_str(), direction) {
                        Some(target) => {
                            assert(next_of(edges[i as int], node@, dir) == Some(target@));
                            let tn = node_name_exec(target.as_str());
                            if !is_queued(&queue, &tn) {
                                let ghost q0 = queue@;
                                queue.push((tn, depth + 1));
                                assert(qview(queue@) =~= qview(q0).push((tn@, (depth + 1) as nat)));
                                assert(sc == BfsState { queue: before.queue.push((tn@, (depth + 1) as nat)), ..before });
                            } else {
                                assert(sc == before);
                            }
                        },
                        None => {
                            assert(sc == before);
                        },
                    }
                    proof {
                        lemma_scan_inv(edges.subrange(0, i + 1), edges, start_node@, node@, depth as nat, dir, s2);
                        let cur = BfsState {
                            queue: qview(queue@),
                            head: head as nat,
                            visited: string_views(visited@),
                            max_d: max_d as nat,
                        };
                        assert(scan_edges(edges.subrange(0, i + 1), node@, depth as nat, dir, s2) == cur);
                        lemma_queue_bound(edges, start_node@, cur);
                    }
                    i = i + 1;
                }
                assert(edges.subrange(0, edges.len() as int) =~= edges);
            }
            proof {
                n = n + 1;
            }
        }
        proof {
            let stf = BfsState {
                queue: qview(queue@),
                head: head as nat,
                visited: string_views(visited@),
                max_d: max_d as nat,
            };
            assert(bfs_run(edges, dir, md, bfs_start(start_node@), n) == stf && stf.head == stf.queue.len());
            assert(bfs_done(edges, dir, md, start_node@, stf));
        }
        let followed = queue.len() - 1;
        TraversalResult { visited, edges_followed: followed, depth_reached: max_d }
    }
}

// ---------------------------------------------------------------------------
// Impact analysis over lineage
// ---------------------------------------------------------------------------
/// Result of impact analysis.
#[derive(Debug)]
pub struct ImpactResult {
    pub affected: Vec<String>,
    pub depth: usize,
    pub total_downstream: usize,
}

/// The sources of the entries of `field`'s lineage chain, in order.
pub open spec fn chain_sources(chains: Seq<LineageChain>, field: Seq<char>) -> Seq<Seq<char>> {
    match first_index(chain_targets(chains), field) {
        Some(i) => entry_sources(chains[i].entries@),
        None => Seq::empty(),
    }
}

/// The sources of a list of entries.
pub open spec fn entry_sources(es: Seq<LineageEntry>) -> Seq<Seq<char>> {
    es.map_values(|e: LineageEntry| e.source@)
}

/// The sources of every entry of every chain.
pub open spec fn all_sources(chains: Seq<LineageChain>) -> Seq<Seq<char>>
    decreases chains.len(),
{
    if chains.len() == 0 {
        Seq::empty()
    } else {
        all_sources(chains.drop_last()) + entry_sources(chains.last().entries@)
    }
}

/// The state after queueing the new sources one level below `depth`, in order.
pub open spec fn scan_sources(srcs: Seq<Seq<char>>, depth: nat, st: BfsState) -> BfsState
    decreases srcs.len(),
{
    if srcs.len() == 0 {
        st
    } else {
        let s1 = scan_sources(srcs.drop_last(), depth, st);
        if queued(s1.queue).contains(srcs.last()) {
            s1
        } else {
            BfsState { queue: s1.queue.push((srcs.last(), depth + 1)), ..s1 }
        }
    }
}

/// One step of impact analysis: take the next queued field; unless it is more than
/// ten levels away, queue the sources of its lineage entries.
pub open spec fn impact_step(chains: Seq<LineageChain>, st: BfsState) -> BfsState {
    if st.head >= st.queue.len() {
        st
    } else {
        let (field, depth) = st.queue[st.head as int];
        let s1 = BfsState { head: st.head + 1, ..st };
        if depth > 10 {
            s1
        } else {
            scan_sources(
                chain_sources(chains, field),
                depth,
                BfsState {
                    max_d: if depth > s1.max_d {
                        depth
                    } else {
                        s1.max_d
                    },
                    ..s1
                },
            )
        }
    }
}

/// The state after `n` steps.
pub open spec fn impact_run(chains: Seq<LineageChain>, st: BfsState, n: nat) -> BfsState
    decreases n,
{
    if n == 0 {
        st
    } else {
        impact_step(chains, impact_run(chains, st, (n - 1) as nat))
    }
}

/// The finished analysis: steps are taken until the queue is exhausted.
pub open spec fn impact_done(chains: Seq<LineageChain>, start: Seq<char>, st: BfsState) -> bool {
    exists|n: nat| #[trigger] impact_run(chains, bfs_start(start), n) == st && st.head == st.queue.len()
}

/// Well-formed analysis state.
pub open spec fn impact_inv(chains: Seq<LineageChain>, start: Seq<char>, st: BfsState) -> bool {
    &&& queued(st.queue).no_duplicates()
    &&& forall|i: int|
        0 <= i < st.queue.len() ==> (seq![start] + all_sources(chains)).contains(#[trigger] st.queue[i].0)
    &&& forall|i: int| 0 <= i < st.queue.len() ==> #[trigger] st.queue[i].1 <= i
    &&& st.head <= st.queue.len()
    &&& st.queue.len() >= 1
    &&& st.max_d <= st.queue.len()
    &&& st.visited.len() == 0
}

proof fn lemma_entry_sources_in_all(chains: Seq<LineageChain>, i: int, j: int)
    requires
        0 <= i < chains.len(),
        0 <= j < chains[i].entries@.len(),
    ensures
        all_sources(chains).contains(chains[i].entries@[j].source@),
    decreases chains.len(),
{
    let x = chains[i].entries@[j].source@;
    let prev = all_sources(chains.drop_last());
    if i == chains.len() - 1 {
        assert((prev + entry_sources(chains.last().entries@))[prev.len() + j] == x);
    } else {
        lemma_entry_sources_in_all(chains.drop_last(), i, j);
        let k = choose|k: int| 0 <= k < prev.len() && prev[k] == x;
        assert((prev + entry_sources(chains.last().entries@))[k] == x);
    }
}

proof fn lemma_scan_sources_inv(srcs: Seq<Seq<char>>, chains: Seq<LineageChain>, start: Seq<char>, depth: nat, st: BfsState)
    requires
        impact_inv(chains, start, st),
        depth < st.queue.len(),
        forall|k: int| 0 <= k < srcs.len() ==> all_sources(chains).contains(#[trigger] srcs[k]),
    ensures
        impact_inv(chains, start, scan_sources(srcs, depth, st)),
        scan_sources(srcs, depth, st).head == st.head,
        scan_sources(srcs, depth, st).max_d == st.max_d,
        scan_sources(srcs, depth, st).queue.len() >= st.queue.len(),
    decreases srcs.len(),
{
    if srcs.len() > 0 {
        lemma_scan_sources_inv(srcs.drop_last(), chains, start, depth, st);
        let s1 = scan_sources(srcs.drop_last(), depth, st);
        if !queued(s1.queue).contains(srcs.last()) {
            let q2 = s1.queue.push((srcs.last(), depth + 1));
            let c = seq![start] + all_sources(chains);
            assert(queued(q2) =~= queued(s1.queue).push(srcs.last()));
            assert(all_sources(chains).contains(srcs[srcs.len() - 1]));
            assert(c.contains(srcs.last())) by {
                let k = choose|k: int| 0 <= k < all_sources(chains).len() && all_sources(chains)[k] == srcs.last();
                assert(c[k + 1] == srcs.last());
            }
            assert forall|i: int| 0 <= i < q2.len() implies c.contains(#[trigger] q2[i].0) by {
                if i < s1.queue.len() {
                    assert(q2[i] == s1.queue[i]);
                }
            }
            assert forall|i: int| 0 <= i < q2.len() implies #[trigger] q2[i].1 <= i by {
                if i < s1.queue.len() {
                    assert(q2[i] == s1.queue[i]);
                }
            }
        }
    }
}

proof fn lemma_impact_bound(chains: Seq<LineageChain>, start: Seq<char>, st: BfsState)
    requires
        impact_inv(chains, start, st),
    ensures
        st.queue.len() <= all_sources(chains).len() + 1,
{
    let q = queued(st.queue);
    let c = seq![start] + all_sources(chains);
    q.unique_seq_to_set();
    c.lemma_cardinality_of_set();
    assert(q.to_set().subset_of(c.to_set())) by {
        assert forall|x: Seq<char>| q.to_set().contains(x) implies c.to_set().contains(x) by {
            let i = choose|i: int| 0 <= i < q.len() && q[i] == x;
            assert(st.queue[i].0 == x);
        }
    }
    vstd::set_lib::lemma_len_subset(q.to_set(), c.to_set());
}

impl GraphEngine {
    /// Impact analysis: breadth-first over lineage, from a field to the sources of its
    /// chain's entries, then theirs, up to ten levels; each field is reached once.
    pub fn impact_analysis(store: &DataStore, source_field: &str) -> (r: ImpactResult)
        ensures
            exists|st: BfsState|
                #[trigger] impact_done(store.chains(), source_field@, st) && string_views(r.affected@)
                    == queued(st.queue).drop_first() && r.total_downstream == r.affected@.len()
                    && r.depth == st.max_d,
    {
        let ghost chains = store.chains();
        let mut queue: Vec<(String, usize)> = Vec::new();
        queue.push((source_field.to_owned(), 0));
        let mut affected: Vec<String> = Vec::new();
        let mut head: usize = 0;
        let mut max_d: usize = 0;
        let ghost mut n: nat = 0;
        assert(qview(queue@) =~= seq![(source_field@, 0nat)]);
        proof {
            let st0 = bfs_start(source_field@);
            assert(queued(st0.queue) =~= seq![source_field@]);
            assert((seq![source_field@] + all_sources(chains))[0] == source_field@);
            assert(string_views(affected@) =~= queued(qview(queue@)).drop_first());
        }
        while head < queue.len()
            invariant
                chains == store.chains(),
                impact_run(chains, bfs_start(source_field@), n) == (BfsState {
                    queue: qview(queue@),
                    head: head as nat,
                    visited: Seq::empty(),
                    max_d: max_d as nat,
                }),
                impact_inv(chains, source_field@, BfsState {
                    queue: qview(queue@),
                    head: head as nat,
                    visited: Seq::empty(),
                    max_d: max_d as nat,
                }),
                string_views(affected@) == queued(qview(queue@)).drop_first(),
            decreases all_sources(chains).len() + 1 - head,
        {
            let ghost st = BfsState {
                queue: qview(queue@),
                head: head as nat,
                visited: Seq::empty(),
                max_d: max_d as nat,
            };
            proof {
                lemma_impact_bound(chains, source_field@, st);
            }
            let field = queue[head].0.clone();
            let depth = queue[head].1;
            assert(st.queue[head as int] == (field@, depth as nat));
            assert(st.queue[head as int].1 <= head);
            head = head + 1;
            if depth <= 10 {
                if depth > max_d {
                    max_d = depth;
                }
                let ghost s2 = BfsState {
                    queue: qview(queue@),
                    head: head as nat,
                    visited: Seq::empty(),
                    max_d: max_d as nat,
                };
                assert(impact_inv(chains, source_field@, s2));
                match store.get_lineage(field.as_str()) {
                    Some(chain) => {
                        let ghost srcs = entry_sources(chain.entries@);
                        assert(srcs == chain_sources(chains, field@));
                        proof {
                            lemma_first_index(chain_targets(chains), field@);
                        }
                        assert forall|k: int| 0 <= k < srcs.len() implies all_sources(chains).contains(#[trigger] srcs[k]) by {
                            let ci = first_index(chain_targets(chains), field@)->0;
                            assert(chain_targets(chains).len() == chains.len());
                            assert(srcs[k] == chain.entries@[k].source@);
                            lemma_entry_sources_in_all(chains, ci, k);
                        }
                        assert(srcs.subrange(0, 0) =~= Seq::<Seq<char>>::empty());
                        let mut i: usize = 0;
                        while i < chain.entries.len()
                            invariant
                                i <= chain.entries@.len(),
                                srcs == entry_sources(chain.entries@),
                                forall|k: int| 0 <= k < srcs.len() ==> all_sources(chains).contains(#[trigger] srcs[k]),
                                scan_sources(srcs.subrange(0, i as int), depth as nat, s2) == (BfsState {
                                    queue: qview(queue@),
                                    head: head as nat,
                                    visited: Seq::empty(),
                                    max_d: max_d as nat,
                                }),
                                impact_inv(chains, source_field@, s2),
                                depth < head,
                                head <= queue@.len(),
                                s2.head == head,
                                s2.max_d == max_d,
                                string_views(affected@) == queued(qview(queue@)).drop_first(),
                            decreases chain.entries.len() - i,
                        {
                            let ghost before = BfsState {
                                queue: qview(queue@),
                                head: head as nat,
                                visited: Seq::empty(),
                                max_d: max_d as nat,
                            };
                            proof {
                                lemma_scan_sources_inv(srcs.subrange(0, i as int), chains, source_field@, depth as nat, s2);
                                lemma_impact_bound(chains, source_field@, before);
                            }
                            assert(srcs.subrange(0, i + 1).drop_last() =~= srcs.subrange(0, i as int));
                            assert(srcs.subrange(0, i + 1).last() == chain.entries@[i as int].source@);
                            let src = &chain.entries[i].source;
                            if !is_queued(&queue, src) {
                                let ghost q0 = queue@;
                                let ghost a0 = affected@;
                                queue.push((src.clone(), depth + 1));
                                affected.push(src.clone());
                                assert(qview(queue@) =~= qview(q0).push((src@, (depth + 1) as nat)));
                                assert(string_views(affected@) =~= string_views(a0).push(src@));
                                assert(queued(qview(queue@)) =~= queued(qview(q0)).push(src@));
                                assert(queued(qview(queue@)).drop_first() =~= queued(qview(q0)).drop_first().push(src@));
                            }
                            i = i + 1;
                        }
                        assert(srcs.subrange(0, srcs.len() as int) =~= srcs);
                        proof {
                            lemma_scan_sources_inv(srcs, chains, source_field@, depth as nat, s2);
                        }
                    },
                    None => {
                        assert(chain_sources(chains, field@) =~= Seq::<Seq<char>>::empty());
                    },
                }
            }
            proof {
                n = n + 1;
            }
        }
        proof {
            let stf = BfsState {
                queue: qview(queue@),
                head: head as nat,
                visited: Seq::empty(),
                max_d: max_d as nat,
            };
            assert(impact_run(chains, bfs_start(source_field@), n) == stf && stf.head == stf.queue.len());
            assert(impact_done(chains, source_field@, stf));
        }
        let total = affected.len();
        ImpactResult { affected, depth: max_d, total_downstream: total }
    }
}

// ---------------------------------------------------------------------------
// Relationship discovery
// ---------------------------------------------------------------------------
/// A candidate relationship; confidence in thousandths.
#[derive(Debug)]
pub struct RelationshipCandidate {
    pub from_node: String,
    pub from_field: String,
    pub to_node: String,
    pub to_field: String,
    pub confidence: u32,
    pub reason: String,
}

/// A candidate as plain values: from node and field, to node and field, confidence,
/// reason.
pub type CandidateView = (Seq<char>, Seq<char>, Seq<char>, Seq<char>, u32, Seq<char>);

/// View of a candidate.
pub open spec fn candidate_view(c: RelationshipCandidate) -> CandidateView {
    (c.from_node@, c.from_field@, c.to_node@, c.to_field@, c.confidence, c.reason@)
}

/// A node name in lower case without trailing `s`s (`orders` → `order`).
pub open spec fn singular(node: Seq<char>) -> Seq<char> {
    spec_to_lower(trim_end_char(node, 's'))
}

/// The relationship two fields of two nodes suggest: a field named after the other
/// node plus `_id` against an `id` of the same type (900), or the same field name
/// with the same type, other than `id` and `name` (600).
pub open spec fn relationship(na: Seq<char>, fa: Seq<char>, ta: FieldType, nb: Seq<char>, fb: Seq<char>, tb: FieldType) -> Option<CandidateView> {
    let al = spec_to_lower(fa);
    let bl = spec_to_lower(fb);
    if al == singular(nb) + "_id"@ && bl == "id"@ && types_equal(ta, tb) {
        Some((na, fa, nb, fb, 900u32, na + "."@ + fa + " looks like FK to "@ + nb + "."@ + fb))
    } else if bl == singular(na) + "_id"@ && al == "id"@ && types_equal(ta, tb) {
        Some((nb, fb, na, fa, 900u32, nb + "."@ + fb + " looks like FK to "@ + na + "."@ + fa))
    } else if fa == fb && types_equal(ta, tb) && fa != "id"@ && fa != "name"@ {
        Some((na, fa, nb, fb, 600u32, "Same field '"@ + fa + "' with same type in both tables"@))
    } else {
        None
    }
}

/// Check two fields for a relationship.
pub fn check_relationship(node_a: &str, field_a: &str, type_a: &FieldType, node_b: &str, field_b: &str, type_b: &FieldType) -> (r: Option<RelationshipCandidate>)
    ensures
        match r {
            Some(c) => relationship(node_a@, field_a@, *type_a, node_b@, field_b@, *type_b) == Some(candidate_view(c)),
            None => relationship(node_a@, field_a@, *type_a, node_b@, field_b@, *type_b) is None,
        },
{
    let al = to_lower(&chars_of(field_a));
    let bl = to_lower(&chars_of(field_b));
    let same = same_type(type_a, type_b);
    let mut sb = to_lower(&trim_end_char_exec(&chars_of(node_b), 's'));
    push_all(&mut sb, &chars_of("_id"));
    if chars_eq(&al, &sb) && eq_lit(&bl, "id") && same {
        let mut reason = chars_of(node_a);
        push_all(&mut reason, &chars_of("."));
        push_all(&mut reason, &chars_of(field_a));
        push_all(&mut reason, &chars_of(" looks like FK to "));
        push_all(&mut reason, &chars_of(node_b));
        push_all(&mut reason, &chars_of("."));
        push_all(&mut reason, &chars_of(field_b));
        return Some(RelationshipCandidate {
            from_node: node_a.to_owned(),
            from_field: field_a.to_owned(),
            to_node: node_b.to_owned(),
            to_field: field_b.to_owned(),
            confidence: 900,
            reason: string_of(&reason),
        });
    }
    let mut sa = to_lower(&trim_end_char_exec(&chars_of(node_a), 's'));
    push_all(&mut sa, &chars_of("_id"));
    if chars_eq(&bl, &sa) && eq_lit(&al, "id") && same {
        let mut reason = chars_of(node_b);
        push_all(&mut reason, &chars_of("."));
        push_all(&mut reason, &chars_of(field_b));
        push_all(&mut reason, &chars_of(" looks like FK to "));
        push_all(&mut reason, &chars_of(node_a));
        push_all(&mut reason, &chars_of("."));
        push_all(&mut reason, &chars_of(field_a));
        return Some(RelationshipCandidate {
            from_node: node_b.to_owned(),
            from_field: field_b.to_owned(),
            to_node: node_a.to_owned(),
            to_field: field_a.to_owned(),
            confidence: 900,
            reason: string_of(&reason),
        });
    }
    let fa = chars_of(field_a);
    if str_eq(field_a, field_b) && same && !eq_lit(&fa, "id") && !eq_lit(&fa, "name") {
        let mut reason = chars_of("Same field '");
        push_all(&mut reason, &fa);
        push_all(&mut reason, &chars_of("' with same type in both tables"));
        return Some(RelationshipCandidate {
            from_node: node_a.to_owned(),
            from_field: field_a.to_owned(),
            to_node: node_b.to_owned(),
            to_field: field_b.to_owned(),
            confidence: 600,
            reason: string_of(&reason),
        });
    }
    None
}

/// The relationships of one field of node `na` with each field of node `nb`.
pub open spec fn field_vs_fields(na: Seq<char>, fi: SchemaField, nb: Seq<char>, fbs: Seq<SchemaField>) -> Seq<CandidateView>
    decreases fbs.len(),
{
    if fbs.len() == 0 {
        Seq::empty()
    } else {
        field_vs_fields(na, fi, nb, fbs.drop_last()) + match relationship(
            na,
            fi.name@,
            fi.field_type,
            nb,
            fbs.last().name@,
            fbs.last().field_type,
        ) {
            Some(c) => seq![c],
            None => Seq::empty(),
        }
    }
}

/// The relationships of each field of node `a` with each field of node `b`.
pub open spec fn node_vs_node(a: SchemaNode, fas: Seq<SchemaField>, b: SchemaNode) -> Seq<CandidateView>
    decreases fas.len(),
{
    if fas.len() == 0 {
        Seq::empty()
    } else {
        node_vs_node(a, fas.drop_last(), b) + field_vs_fields(a.name@, fas.last(), b.name@, b.fields@)
    }
}

/// The relationships of node `i` with the nodes after it, up to node `j`.
pub open spec fn node_vs_later(nodes: Seq<SchemaNode>, i: int, j: int) -> Seq<CandidateView>
    decreases j - i,
{
    if j <= i + 1 {
        Seq::empty()
    } else {
        node_vs_later(nodes, i, j - 1) + node_vs_node(nodes[i], nodes[i].fields@, nodes[j - 1])
    }
}

/// The relationships of each pair of nodes whose first node is among the first `n`,
/// the earlier node first.
pub open spec fn schema_pairs(nodes: Seq<SchemaNode>, n: int) -> Seq<CandidateView>
    decreases n,
{
    if n <= 0 {
        Seq::empty()
    } else {
        schema_pairs(nodes, n - 1) + node_vs_later(nodes, n - 1, nodes.len() as int)
    }
}

/// The relationships of every schema, in order.
pub open spec fn discovered(schemas: Seq<UniversalSchema>) -> Seq<CandidateView>
    decreases schemas.len(),
{
    if schemas.len() == 0 {
        Seq::empty()
    } else {
        discovered(schemas.drop_last()) + schema_pairs(schemas.last().nodes@, schemas.last().nodes@.len() as int)
    }
}

/// Views of candidates.
pub open spec fn candidate_views(cs: Seq<RelationshipCandidate>) -> Seq<CandidateView> {
    cs.map_values(|c: RelationshipCandidate| candidate_view(c))
}

fn push_node_pair(out: &mut Vec<RelationshipCandidate>, a: &SchemaNode, b: &SchemaNode)
    ensures
        candidate_views(final(out)@) == candidate_views(old(out)@) + node_vs_node(*a, a.fields@, *b),
{
    let ghost base = candidate_views(out@);
    let mut p: usize = 0;
    assert(a.fields@.subrange(0, 0) =~= Seq::<SchemaField>::empty());
    assert(candidate_views(out@) =~= base + node_vs_node(*a, a.fields@.subrange(0, 0), *b));
    while p < a.fields.len()
        invariant
            p <= a.fields@.len(),
            candidate_views(out@) == base + node_vs_node(*a, a.fields@.subrange(0, p as int), *b),
        decreases a.fields.len() - p,
    {
        assert(a.fields@.subrange(0, p + 1).drop_last() =~= a.fields@.subrange(0, p as int));
        let fi = &a.fields[p];
        let ghost mid = candidate_views(out@);
        let mut q: usize = 0;
        assert(b.fields@.subrange(0, 0) =~= Seq::<SchemaField>::empty());
        assert(mid =~= mid + field_vs_fields(a.name@, *fi, b.name@, b.fields@.subrange(0, 0)));
        while q < b.fields.len()
            invariant
                q <= b.fields@.len(),
                candidate_views(out@) == mid + field_vs_fields(a.name@, *fi, b.name@, b.fields@.subrange(0, q as int)),
            decreases b.fields.len() - q,
        {
            assert(b.fields@.subrange(0, q + 1).drop_last() =~= b.fields@.subrange(0, q as int));
            let fj = &b.fields[q];
            let ghost o0 = candidate_views(out@);
            match check_relationship(a.name.as_str(), fi.name.as_str(), &fi.field_type, b.name.as_str(), fj.name.as_str(), &fj.field_type) {
                Some(c) => {
                    let ghost cv = candidate_view(c);
                    let ghost ov = out@;
                    out.push(c);
                    assert(candidate_views(out@) =~= candidate_views(ov).push(cv));
                },
                None => {},
            }
            assert(candidate_views(out@) =~= mid + field_vs_fields(a.name@, *fi, b.name@, b.fields@.subrange(0, q + 1)));
            q = q + 1;
        }
        assert(b.fields@.subrange(0, b.fields@.len() as int) =~= b.fields@);
        assert(candidate_views(out@) =~= base + node_vs_node(*a, a.fields@.subrange(0, p + 1), *b));
        p = p + 1;
    }
    assert(a.fields@.subrange(0, a.fields@.len() as int) =~= a.fields@);
}

impl GraphEngine {
    /// Discover candidate relationships between the nodes of each schema of the store,
    /// from the names and types of their fields.
    pub fn discover_relationships(store: &DataStore) -> (r: Vec<RelationshipCandidate>)
        ensures
            candidate_views(r@) == discovered(store.schemas()),
    {
        let schemas = store.all_schemas();
        let ghost sv = store.schemas();
        let mut out: Vec<RelationshipCandidate> = Vec::new();
        let mut k: usize = 0;
        assert(candidate_views(out@) =~= discovered(sv.subrange(0, 0)));
        while k < schemas.len()
            invariant
                k <= schemas@.len(),
                schemas@.len() == sv.len(),
                forall|q: int| 0 <= q < schemas@.len() ==> *(#[trigger] schemas@[q]) == sv[q],
                candidate_views(out@) == discovered(sv.subrange(0, k as int)),
            decreases schemas.len() - k,
        {
            assert(sv.subrange(0, k + 1).drop_last() =~= sv.subrange(0, k as int));
            assert(*schemas@[k as int] == sv[k as int]);
            let nodes = &schemas[k].nodes;
            let ghost ns = nodes@;
            let ghost base = candidate_views(out@);
            let mut i: usize = 0;
            assert(base =~= base + schema_pairs(ns, 0));
            while i < nodes.len()
                invariant
                    i <= ns.len(),
                    ns == nodes@,
                    candidate_views(out@) == base + schema_pairs(ns, i as int),
                decreases nodes.len() - i,
            {
                let ghost mid = candidate_views(out@);
                let mut j: usize = i + 1;
                assert(mid =~= mid + node_vs_later(ns, i as int, j as int));
                while j < nodes.len()
                    invariant
                        i < j <= ns.len(),
                        ns == nodes@,
                        candidate_views(out@) == mid + node_vs_later(ns, i as int, j as int),
                    decreases nodes.len() - j,
                {
                    let ghost o0 = candidate_views(out@);
                    push_node_pair(&mut out, &nodes[i], &nodes[j]);
                    assert(candidate_views(out@) =~= mid + node_vs_later(ns, i as int, j + 1));
                    j = j + 1;
                }
                assert(candidate_views(out@) =~= base + schema_pairs(ns, i + 1));
                i = i + 1;
            }
            assert(candidate_views(out@) =~= discovered(sv.subrange(0, k + 1)));
            k = k + 1;
        }
        assert(sv.subrange(0, sv.len() as int) =~= sv);
        out
    }
}

// ---------------------------------------------------------------------------
// Connected components
// ---------------------------------------------------------------------------
proof fn lemma_bfs_run_stable(edges: Seq<SchemaEdge>, dir: TraversalDirection, md: nat, st: BfsState, n1: nat, n2: nat)
    requires
        n1 <= n2,
        bfs_run(edges, dir, md, st, n1).head >= bfs_run(edges, dir, md, st, n1).queue.len(),
    ensures
        bfs_run(edges, dir, md, st, n2) == bfs_run(edges, dir, md, st, n1),
    decreases n2,
{
    if n2 > n1 {
        lemma_bfs_run_stable(edges, dir, md, st, n1, (n2 - 1) as nat);
    }
}

/// The visited list of the traversal from `start` (both directions, up to 100
/// levels).
pub open spec fn component_of(edges: Seq<SchemaEdge>, start: Seq<char>) -> Seq<Seq<char>> {
    (choose|st: BfsState| bfs_done(edges, TraversalDirection::Both, 100, start, st)).visited
}

/// The finished traversal is unique.
proof fn lemma_bfs_done_unique(edges: Seq<SchemaEdge>, dir: TraversalDirection, md: nat, start: Seq<char>, a: BfsState, b: BfsState)
    requires
        bfs_done(edges, dir, md, start, a),
        bfs_done(edges, dir, md, start, b),
    ensures
        a == b,
{
    let na = choose|n: nat| #[trigger] bfs_run(edges, dir, md, bfs_start(start), n) == a && a.head == a.queue.len();
    let nb = choose|n: nat| #[trigger] bfs_run(edges, dir, md, bfs_start(start), n) == b && b.head == b.queue.len();
    if na <= nb {
        lemma_bfs_run_stable(edges, dir, md, bfs_start(start), na, nb);
    } else {
        lemma_bfs_run_stable(edges, dir, md, bfs_start(start), nb, na);
    }
}

/// The components found from the first nodes, and the nodes seen so far: a node not
/// yet seen starts a new component, its traversal.
pub open spec fn components_state(nodes: Seq<SchemaNode>, edges: Seq<SchemaEdge>) -> (Seq<Seq<Seq<char>>>, Seq<Seq<char>>)
    decreases nodes.len(),
{
    if nodes.len() == 0 {
        (Seq::empty(), Seq::empty())
    } else {
        let (cs, seen) = components_state(nodes.drop_last(), edges);
        let name = nodes.last().name@;
        if seen.contains(name) {
            (cs, seen)
        } else {
            let c = component_of(edges, name);
            (cs.push(c), seen + c)
        }
    }
}

/// Views of a list of string lists.
pub open spec fn string_lists(v: Seq<Vec<String>>) -> Seq<Seq<Seq<char>>> {
    v.map_values(|x: Vec<String>| string_views(x@))
}

/// Whether a name is in a list.
fn in_list(list: &Vec<String>, name: &String) -> (r: bool)
    ensures
        r == string_views(list@).contains(name@),
{
    let ghost lv = string_views(list@);
    let mut i: usize = 0;
    while i < list.len()
        invariant
            i <= list@.len(),
            lv == string_views(list@),
            lv.len() == list@.len(),
            forall|k: int| 0 <= k < i ==> lv[k] != name@,
        decreases list.len() - i,
    {
        assert(lv[i as int] == list@[i as int]@);
        if str_eq(list[i].as_str(), name.as_str()) {
            return true;
        }
        i = i + 1;
    }
    false
}

/// The names of counts.
pub open spec fn count_names(m: Seq<(Seq<char>, nat)>) -> Seq<Seq<char>> {
    m.map_values(|p: (Seq<char>, nat)| p.0)
}

/// Counts by name: each node's name once, at 0, in the order of the nodes.
pub open spec fn seed_counts(ns: Seq<SchemaNode>) -> Seq<(Seq<char>, nat)>
    decreases ns.len(),
{
    if ns.len() == 0 {
        Seq::empty()
    } else {
        let m = seed_counts(ns.drop_last());
        if first_index(count_names(m), ns.last().name@) is Some {
            m
        } else {
            m.push((ns.last().name@, 0nat))
        }
    }
}

/// One more for the name `k`; a new name is added with 1.
pub open spec fn bump_count(m: Seq<(Seq<char>, nat)>, k: Seq<char>) -> Seq<(Seq<char>, nat)> {
    match first_index(count_names(m), k) {
        Some(i) => m.update(i, (k, m[i].1 + 1)),
        None => m.push((k, 1nat)),
    }
}

/// The number of edge ends at each node: the nodes' names first, then one more for
/// the node part of each edge's source and of its target, edge by edge.
pub open spec fn edge_end_counts(ns: Seq<SchemaNode>, es: Seq<SchemaEdge>) -> Seq<(Seq<char>, nat)>
    decreases es.len(),
{
    if es.len() == 0 {
        seed_counts(ns)
    } else {
        let m = edge_end_counts(ns, es.drop_last());
        bump_count(bump_count(m, node_name(es.last().from@)), node_name(es.last().to@))
    }
}

/// Views of counts.
pub open spec fn counts_view(v: Seq<(String, usize)>) -> Seq<(Seq<char>, nat)> {
    v.map_values(|p: (String, usize)| (p.0@, p.1 as nat))
}

fn count_pos(v: &Vec<(String, usize)>, k: &str) -> (r: Option<usize>)
    ensures
        match r {
            Some(i) => first_index(count_names(counts_view(v@)), k@) == Some(i as int) && i < v@.len(),
            None => first_index(count_names(counts_view(v@)), k@) is None,
        },
{
    let ghost names = count_names(counts_view(v@));
    let mut i: usize = 0;
    while i < v.len()
        invariant
            i <= v@.len(),
            names == count_names(counts_view(v@)),
            names.len() == v@.len(),
            forall|j: int| 0 <= j < i ==> names[j] != k@,
        decreases v.len() - i,
    {
        assert(names[i as int] == v@[i as int].0@);
        if str_eq(v[i].0.as_str(), k) {
            proof {
                lemma_first_index_at(names, k@, i as int);
            }
            return Some(i);
        }
        i = i + 1;
    }
    proof {
        lemma_first_index(names, k@);
    }
    None
}

fn bump_count_exec(v: &mut Vec<(String, usize)>, k: String, bound: Ghost<nat>)
    requires
        forall|j: int| 0 <= j < old(v)@.len() ==> old(v)@[j].1 < bound@,
        1 <= bound@ < usize::MAX,
    ensures
        counts_view(final(v)@) == bump_count(counts_view(old(v)@), k@),
        forall|j: int| 0 <= j < final(v)@.len() ==> final(v)@[j].1 <= bound@,
{
    let ghost m0 = counts_view(v@);
    match count_pos(v, k.as_str()) {
        Some(i) => {
            let n = v[i].1;
            proof {
                lemma_first_index(count_names(m0), k@);
            }
            let ghost v0 = v@;
            v.set(i, (k, n + 1));
            assert(counts_view(v@) =~= m0.update(i as int, (k@, m0[i as int].1 + 1)));
            assert forall|j: int| 0 <= j < v@.len() implies v@[j].1 <= bound@ by {
                if j != i {
                    assert(v@[j] == v0[j]);
                }
            }
        },
        None => {
            let ghost v0 = v@;
            v.push((k, 1));
            assert(counts_view(v@) =~= m0.push((k@, 1nat)));
            assert forall|j: int| 0 <= j < v@.len() implies v@[j].1 <= bound@ by {
                if j < v0.len() {
                    assert(v@[j] == v0[j]);
                }
            }
        },
    }
}

impl GraphEngine {
    /// The number of edge ends at each node: every node's name, then the node part of
    /// each edge's source and target, each counted once per edge end (the counts of
    /// which degree centrality is made).
    pub fn edge_end_counts(schema: &UniversalSchema) -> (r: Vec<(String, usize)>)
        requires
            2 * schema.edges@.len() < usize::MAX,
        ensures
            counts_view(r@) == edge_end_counts(schema.nodes@, schema.edges@),
    {
        let ghost ns = schema.nodes@;
        let ghost es = schema.edges@;
        let mut out: Vec<(String, usize)> = Vec::new();
        let mut i: usize = 0;
        assert(counts_view(out@) =~= seed_counts(ns.subrange(0, 0)));
        while i < schema.nodes.len()
            invariant
                i <= ns.len(),
                ns == schema.nodes@,
                counts_view(out@) == seed_counts(ns.subrange(0, i as int)),
                forall|j: int| 0 <= j < out@.len() ==> out@[j].1 == 0,
            decreases schema.nodes.len() - i,
        {
            assert(ns.subrange(0, i + 1).drop_last() =~= ns.subrange(0, i as int));
            let ghost m0 = counts_view(out@);
            let name = &schema.nodes[i].name;
            if count_pos(&out, name.as_str()).is_none() {
                out.push((name.clone(), 0));
                assert(counts_view(out@) =~= m0.push((name@, 0nat)));
            }
            i = i + 1;
        }
        assert(ns.subrange(0, ns.len() as int) =~= ns);
        let mut e: usize = 0;
        assert(es.subrange(0, 0) =~= Seq::<SchemaEdge>::empty());
        while e < schema.edges.len()
            invariant
                e <= es.len(),
                es == schema.edges@,
                ns == schema.nodes@,
                2 * es.len() < usize::MAX,
                counts_view(out@) == edge_end_counts(ns, es.subrange(0, e as int)),
                forall|j: int| 0 <= j < out@.len() ==> out@[j].1 <= 2 * e,
            decreases schema.edges.len() - e,
        {
            assert(es.subrange(0, e + 1).drop_last() =~= es.subrange(0, e as int));
            let from = node_name_exec(schema.edges[e].from.as_str());
            let to = node_name_exec(schema.edges[e].to.as_str());
            bump_count_exec(&mut out, from, Ghost((2 * e + 1) as nat));
            bump_count_exec(&mut out, to, Ghost((2 * e + 2) as nat));
            e = e + 1;
        }
        assert(es.subrange(0, es.len() as int) =~= es);
        out
    }
}

impl GraphEngine {
    /// The connected components of the schema graph: each node not yet reached starts
    /// a traversal in both directions, up to 100 levels.
    pub fn connected_components(schema: &UniversalSchema) -> (r: Vec<Vec<String>>)
        ensures
            string_lists(r@) == components_state(schema.nodes@, schema.edges@).0,
    {
        let ghost ns = schema.nodes@;
        let ghost es = schema.edges@;
        let mut seen: Vec<String> = Vec::new();
        let mut comps: Vec<Vec<String>> = Vec::new();
        let mut i: usize = 0;
        assert(ns.subrange(0, 0) =~= Seq::<SchemaNode>::empty());
        assert(string_lists(comps@) =~= Seq::<Seq<Seq<char>>>::empty());
        assert(string_views(seen@) =~= Seq::<Seq<char>>::empty());
        while i < schema.nodes.len()
            invariant
                i <= ns.len(),
                ns == schema.nodes@,
                es == schema.edges@,
                (string_lists(comps@), string_views(seen@)) == components_state(ns.subrange(0, i as int), es),
            decreases schema.nodes.len() - i,
        {
            assert(ns.subrange(0, i + 1).drop_last() =~= ns.subrange(0, i as int));
            let name = &schema.nodes[i].name;
            if !in_list(&seen, name) {
                let res = Self::traverse_schema(schema, name.as_str(), TraversalDirection::Both, 100);
                proof {
                    let st = choose|st: BfsState|
                        #[trigger] bfs_done(es, TraversalDirection::Both, 100, name@, st) && string_views(res.visited@)
                            == st.visited && res.edges_followed == st.queue.len() - 1 && res.depth_reached == st.max_d;
                    let st2 = choose|st: BfsState| bfs_done(es, TraversalDirection::Both, 100, name@, st);
                    lemma_bfs_done_unique(es, TraversalDirection::Both, 100, name@, st, st2);
                    assert(string_views(res.visited@) == component_of(es, name@));
                }
                let mut k: usize = 0;
                let ghost s0 = string_views(seen@);
                while k < res.visited.len()
                    invariant
                        k <= res.visited@.len(),
                        string_views(seen@) == s0 + string_views(res.visited@).subrange(0, k as int),
                    decreases res.visited.len() - k,
                {
                    let ghost sv0 = seen@;
                    assert(string_views(res.visited@)[k as int] == res.visited@[k as int]@);
                    seen.push(res.visited[k].clone());
                    assert(string_views(seen@) =~= string_views(sv0).push(res.visited@[k as int]@));
                    assert(string_views(seen@) =~= s0 + string_views(res.visited@).subrange(0, k + 1));
                    k = k + 1;
                }
                assert(string_views(res.visited@).subrange(0, res.visited@.len() as int) =~= string_views(res.visited@));
                let ghost c0 = string_lists(comps@);
                comps.push(res.visited);
                assert(string_lists(comps@) =~= c0.push(component_of(es, name@)));
            }
            i = i + 1;
        }
        assert(ns.subrange(0, ns.len() as int) =~= ns);
        comps
    }
}

} // verus!
