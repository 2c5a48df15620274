//! Region graph: a graph whose nodes are basic blocks or collapsed regions,
//! reduced step by step until one region remains.
use vstd::prelude::*;
use vstd::multiset::Multiset;
use vstd::std_specs::iter::IteratorSpec;

use std::collections::{HashMap, HashSet};

use crate::cfg::{Cfg, CfgEdge, EdgeKind, NodeId};
use crate::graph_store::{
    add_edge, add_node, edges_directed, graph_edges, graph_nodes, index_before_removal, new_graph,
    node_count, node_weight, remove_node, replace_node_weight, RegionDiGraph,
};
use crate::region::{region_terminates, region_within, is_sequence_of, Region};
use crate::region_dominance::{forward_adj, is_path, reaches};

verus! {

broadcast use {
    vstd::std_specs::vec::group_vec_axioms,
    vstd::std_specs::hash::group_hash_axioms,
    vstd::seq_lib::group_to_multiset_ensures,
    vstd::multiset::group_multiset_axioms,
};

/// A node in the region graph: an original block or a collapsed region.
#[derive(Debug)]
pub enum RegionNode {
    /// An original basic block of the control-flow graph.
    Block(NodeId),
    /// A collapsed region that replaced several nodes.
    Collapsed(Region),
}

/// The region a node stands for: a block's own region, or the collapsed one.
pub open spec fn node_region(n: RegionNode) -> Region {
    match n {
        RegionNode::Block(i) => Region::Block(i),
        RegionNode::Collapsed(r) => r,
    }
}

impl RegionNode {
    /// Check if this is an original block.
    pub fn is_block(&self) -> (res: bool)
        ensures
            res == (*self is Block),
    {
        matches!(self, RegionNode::Block(_))
    }

    /// Check if this node represents a terminating structure: a block that
    /// ends the function, or a collapsed region every path of which does.
    pub fn terminates(&self, cfg: &Cfg) -> (res: bool)
        requires
            region_within(node_region(*self), cfg.blocks.len() as nat),
        ensures
            res == region_terminates(node_region(*self), cfg.exit_flags()),
    {
        match self {
            RegionNode::Block(cfg_node) => cfg.blocks[*cfg_node].is_exit,
            RegionNode::Collapsed(region) => region.terminates(cfg),
        }
    }

    /// Check if this is a collapsed region.
    pub fn is_collapsed(&self) -> (res: bool)
        ensures
            res == (*self is Collapsed),
    {
        matches!(self, RegionNode::Collapsed(_))
    }

    /// Get the original block index if this is a Block node.
    pub fn as_block(&self) -> (res: Option<NodeId>)
        ensures
            res == match *self {
                RegionNode::Block(i) => Some(i),
                RegionNode::Collapsed(_) => None::<NodeId>,
            },
    {
        match self {
            RegionNode::Block(idx) => Some(*idx),
            RegionNode::Collapsed(_) => None,
        }
    }

    /// Get the region if this is a Collapsed node.
    pub fn as_region(&self) -> (res: Option<&Region>)
        ensures
            match *self {
                RegionNode::Block(_) => res is None,
                RegionNode::Collapsed(r) => res == Some(&r),
            },
    {
        match self {
            RegionNode::Block(_) => None,
            RegionNode::Collapsed(r) => Some(r),
        }
    }
}

/// The number of edges `a -> b` in `edges`, of any kind.
pub open spec fn edges_between(
    edges: Multiset<(NodeId, NodeId, EdgeKind)>,
    a: NodeId,
    b: NodeId,
) -> nat {
    edges.count((a, b, EdgeKind::FallThrough)) + edges.count((a, b, EdgeKind::Unconditional))
        + edges.count((a, b, EdgeKind::ConditionalTrue)) + edges.count(
        (a, b, EdgeKind::ConditionalFalse),
    ) + edges.count((a, b, EdgeKind::Switch)) + edges.count((a, b, EdgeKind::ExceptionHandler))
}

/// Adding edge `x` adds one to the count of edges between its endpoints.
pub proof fn lemma_edges_between_insert(
    m: Multiset<(NodeId, NodeId, EdgeKind)>,
    x: (NodeId, NodeId, EdgeKind),
    a: NodeId,
    b: NodeId,
)
    ensures
        edges_between(m.insert(x), a, b) == edges_between(m, a, b) + if x.0 == a && x.1 == b {
            1nat
        } else {
            0nat
        },
{
    match x.2 {
        EdgeKind::FallThrough => {},
        EdgeKind::Unconditional => {},
        EdgeKind::ConditionalTrue => {},
        EdgeKind::ConditionalFalse => {},
        EdgeKind::Switch => {},
        EdgeKind::ExceptionHandler => {},
    }
}

/// Two edge multisets with the same count of each kind of edge `a -> b`
/// have the same number of edges between `a` and `b`.
pub proof fn lemma_edges_between_same(
    m1: Multiset<(NodeId, NodeId, EdgeKind)>,
    m2: Multiset<(NodeId, NodeId, EdgeKind)>,
    a: NodeId,
    b: NodeId,
)
    requires
        forall|k: EdgeKind| #[trigger] m1.count((a, b, k)) == m2.count((a, b, k)),
    ensures
        edges_between(m1, a, b) == edges_between(m2, a, b),
{
    assert(m1.count((a, b, EdgeKind::FallThrough)) == m2.count((a, b, EdgeKind::FallThrough)));
    assert(m1.count((a, b, EdgeKind::Unconditional)) == m2.count((a, b, EdgeKind::Unconditional)));
    assert(m1.count((a, b, EdgeKind::ConditionalTrue)) == m2.count((a, b, EdgeKind::ConditionalTrue)));
    assert(m1.count((a, b, EdgeKind::ConditionalFalse)) == m2.count((a, b, EdgeKind::ConditionalFalse)));
    assert(m1.count((a, b, EdgeKind::Switch)) == m2.count((a, b, EdgeKind::Switch)));
    assert(m1.count((a, b, EdgeKind::ExceptionHandler)) == m2.count((a, b, EdgeKind::ExceptionHandler)));
}

/// `s` with its element `a` replaced by its last element, and shortened by
/// one: what petgraph's removal of node `a` does to the node order.
pub open spec fn swap_remove_seq(s: Seq<int>, a: int) -> Seq<int> {
    if a < s.len() - 1 {
        s.update(a, s.last()).drop_last()
    } else {
        s.drop_last()
    }
}

/// Removes, from index `i - 1` down to index 0, the indices in `removed`
/// from a node order `pre` (whose positions below `i` are untouched).
pub open spec fn survivors_from(pre: Seq<int>, removed: Set<NodeId>, i: int) -> Seq<int>
    decreases i,
{
    if i <= 0 {
        pre
    } else {
        let p = if removed.contains((i - 1) as NodeId) {
            swap_remove_seq(pre, i - 1)
        } else {
            pre
        };
        survivors_from(p, removed, i - 1)
    }
}

/// For each node left after removing the nodes in `removed` from an
/// `n`-node graph, highest index first, the index it had before.
pub open spec fn survivors(n: nat, removed: Set<NodeId>) -> Seq<int> {
    survivors_from(Seq::new(n, |j: int| j), removed, n as int)
}

/// The number of indices below `i` in `removed`.
pub open spec fn count_below(removed: Set<NodeId>, i: int) -> nat
    decreases i,
{
    if i <= 0 {
        0
    } else {
        count_below(removed, i - 1) + if removed.contains((i - 1) as NodeId) {
            1nat
        } else {
            0nat
        }
    }
}

/// The elements of `removed` below `i`.
pub open spec fn removed_below(removed: Set<NodeId>, i: int) -> Set<NodeId> {
    removed.filter(|x: NodeId| x < i)
}

/// `count_below` counts the elements below `i`; a set of indices below `n`
/// is finite and has `count_below(removed, n)` elements.
pub proof fn lemma_count_below(removed: Set<NodeId>, i: int)
    requires
        0 <= i <= usize::MAX + 1,
    ensures
        removed_below(removed, i).finite(),
        removed_below(removed, i).len() == count_below(removed, i),
    decreases i,
{
    if i == 0 {
        assert(removed_below(removed, i) =~= Set::<NodeId>::empty());
    } else {
        lemma_count_below(removed, i - 1);
        let prev = removed_below(removed, i - 1);
        assert(!prev.contains((i - 1) as NodeId));
        if removed.contains((i - 1) as NodeId) {
            assert(removed_below(removed, i) =~= prev.insert((i - 1) as NodeId));
        } else {
            assert(removed_below(removed, i) =~= prev);
        }
    }
}

/// `after` is `before` with the nodes of `removed` taken out: the others
/// are renumbered as petgraph renumbers them (`survivors`), keeping their
/// weights, blocks and edges; the blocks of the removed nodes are forgotten;
/// the entry and the generation stay.
pub open spec fn is_removal_of(before: RegionGraph, after: RegionGraph, removed: Set<NodeId>) -> bool {
    let n = before.nodes().len();
    let pre = survivors(n, removed);
    let m = pre.len();
    &&& after.nodes().len() == m
    &&& m == n - count_below(removed, n as int)
    &&& forall|j: int| 0 <= j < m ==> 0 <= #[trigger] pre[j] < n && !removed.contains(pre[j] as NodeId)
    &&& forall|j1: int, j2: int| 0 <= j1 < m && 0 <= j2 < m && j1 != j2 ==> #[trigger] pre[j1] != #[trigger] pre[j2]
    &&& forall|x: NodeId| x < n && !removed.contains(x) ==> exists|j: int| 0 <= j < m && #[trigger] pre[j] == x
    &&& forall|j: int| 0 <= j < m ==> #[trigger] after.nodes()[j] == before.nodes()[pre[j]]
    &&& forall|r: NodeId| r < m ==> #[trigger] after.groups()[r] == before.groups()[pre[r as int] as NodeId]
    &&& forall|c: NodeId| #[trigger] after.owners().dom().contains(c) <==> before.owners().dom().contains(c)
        && !removed.contains(before.owners()[c])
    &&& forall|e: (NodeId, NodeId, EdgeKind)| #[trigger] after.edges().count(e) == if e.0 < m && e.1 < m {
        before.edges().count((pre[e.0 as int] as NodeId, pre[e.1 as int] as NodeId, e.2))
    } else {
        0
    }
    &&& after.spec_entry() < m && pre[after.spec_entry() as int] == before.spec_entry()
    &&& after.spec_generation() == before.spec_generation()
}

/// Every index below `n` outside `removed` survives the removal.
proof fn lemma_survivors_cover_all(n: nat, removed: Set<NodeId>, pre: Seq<int>)
    requires
        n <= usize::MAX,
        pre == survivors(n, removed),
        forall|r: NodeId| #[trigger] removed.contains(r) ==> r < n,
        forall|j: int| 0 <= j < pre.len() ==> 0 <= #[trigger] pre[j] < n && !removed.contains(pre[j] as NodeId),
        forall|j1: int, j2: int| 0 <= j1 < pre.len() && 0 <= j2 < pre.len() && j1 != j2 ==> #[trigger] pre[j1] != #[trigger] pre[j2],
        pre.len() == n - count_below(removed, n as int),
    ensures
        forall|x: NodeId| x < n && !removed.contains(x) ==> exists|j: int| 0 <= j < pre.len() && #[trigger] pre[j] == x,
{
    let m = pre.len();
    let q = Seq::new(m, |j: int| pre[j] as NodeId);
    assert(q.no_duplicates()) by {
        assert forall|a: int, b: int| 0 <= a < b < q.len() implies q[a] != q[b] by {
            assert(pre[a] != pre[b]);
        }
    }
    q.unique_seq_to_set();
    let range = Set::<NodeId>::new(|x: NodeId| x < n);
    assert(range == <NodeId as vstd::set_lib::FiniteRange>::range_set(0, n as NodeId));
    <NodeId as vstd::set_lib::FiniteRange>::range_properties(0, n as NodeId);
    let outside = range.difference(removed);
    lemma_count_below(removed, n as int);
    assert(removed_below(removed, n as int) =~= removed);
    vstd::set_lib::lemma_len_subset(removed, range);
    vstd::set_lib::lemma_len_subset(outside, range);
    vstd::set_lib::lemma_set_disjoint_lens(outside, removed);
    assert(outside + removed =~= range);
    assert(outside.disjoint(removed));
    assert forall|x: NodeId| q.to_set().contains(x) implies outside.contains(x) by {
        let j = choose|j: int| 0 <= j < q.len() && q[j] == x;
        assert(0 <= pre[j] < n && !removed.contains(pre[j] as NodeId));
    }
    vstd::set_lib::lemma_subset_equality(q.to_set(), outside);
    assert forall|x: NodeId| x < n && !removed.contains(x) implies exists|j: int| 0 <= j < pre.len() && #[trigger] pre[j] == x by {
        assert(outside.contains(x));
        assert(q.to_set().contains(x));
        let j = choose|j: int| 0 <= j < q.len() && q[j] == x;
        assert(pre[j] == x);
    }
}

/// The edge `x -> y` when `incoming`, else the edge `y -> x`.
pub open spec fn crossing(x: NodeId, y: NodeId, k: EdgeKind, incoming: bool) -> (
    NodeId,
    NodeId,
    EdgeKind,
) {
    if incoming {
        (x, y, k)
    } else {
        (y, x, k)
    }
}

/// Whether an edge of kind `k` runs from `x` into the node set `inner`
/// (for `incoming`), or from `inner` to `x` (otherwise).
pub open spec fn crosses(
    edges: Multiset<(NodeId, NodeId, EdgeKind)>,
    inner: Set<NodeId>,
    x: NodeId,
    k: EdgeKind,
    incoming: bool,
) -> bool {
    exists|y: NodeId| inner.contains(y) && #[trigger] edges.count(crossing(x, y, k, incoming)) > 0
}

/// Whether an edge of any kind runs from `x` into `inner` (for `incoming`),
/// or from `inner` to `x` (otherwise).
pub open spec fn crosses_any(
    edges: Multiset<(NodeId, NodeId, EdgeKind)>,
    inner: Set<NodeId>,
    x: NodeId,
    incoming: bool,
) -> bool {
    exists|k: EdgeKind| #[trigger] crosses(edges, inner, x, k, incoming)
}

/// `after` is `before` with the nodes of `inner` collapsed into one node
/// holding `region`, at index `new_node`: see `RegionGraph::collapse`.
pub open spec fn is_collapse_of(
    before: RegionGraph,
    after: RegionGraph,
    inner: Set<NodeId>,
    region: Region,
    new_node: NodeId,
) -> bool {
    let n = before.nodes().len();
    let pre = survivors(n, inner);
    let m = pre.len();
    &&& new_node == m
    &&& m == n - count_below(inner, n as int)
    &&& after.nodes().len() == m + 1
    &&& forall|j: int| 0 <= j < m ==> 0 <= #[trigger] pre[j] < n && !inner.contains(pre[j] as NodeId)
    &&& forall|j1: int, j2: int| 0 <= j1 < m && 0 <= j2 < m && j1 != j2 ==> #[trigger] pre[j1] != #[trigger] pre[j2]
    &&& forall|j: int| 0 <= j < m ==> #[trigger] after.nodes()[j] == before.nodes()[pre[j]]
    &&& after.nodes()[m as int] == RegionNode::Collapsed(region)
    &&& forall|r: NodeId| r < m ==> #[trigger] after.groups()[r] == before.groups()[pre[r as int] as NodeId]
    &&& forall|c: NodeId| #[trigger] after.groups()[new_node].contains(c) <==> (before.owners().dom().contains(c)
        && inner.contains(before.owners()[c]))
    &&& forall|c: NodeId| #[trigger] after.owners().dom().contains(c) <==> before.owners().dom().contains(c)
    &&& forall|e: (NodeId, NodeId, EdgeKind)| e.0 < m && e.1 < m ==> #[trigger] after.edges().count(e)
        == before.edges().count((pre[e.0 as int] as NodeId, pre[e.1 as int] as NodeId, e.2))
    &&& forall|x: NodeId| x < m ==> #[trigger] edges_between(after.edges(), x, new_node) == if crosses_any(
        before.edges(),
        inner,
        pre[x as int] as NodeId,
        true,
    ) {
        1nat
    } else {
        0nat
    }
    &&& forall|x: NodeId| x < m ==> #[trigger] edges_between(after.edges(), new_node, x) == if crosses_any(
        before.edges(),
        inner,
        pre[x as int] as NodeId,
        false,
    ) {
        1nat
    } else {
        0nat
    }
    &&& forall|x: NodeId, k: EdgeKind| #[trigger] after.edges().count((x, new_node, k)) > 0 ==> x < m
        && crosses(before.edges(), inner, pre[x as int] as NodeId, k, true)
    &&& forall|x: NodeId, k: EdgeKind| #[trigger] after.edges().count((new_node, x, k)) > 0 ==> x < m
        && crosses(before.edges(), inner, pre[x as int] as NodeId, k, false)
    &&& if inner.contains(before.spec_entry()) {
        after.spec_entry() == new_node
    } else {
        after.spec_entry() < m && pre[after.spec_entry() as int] == before.spec_entry()
    }
    &&& after.spec_generation() == before.spec_generation() + 1
}

/// `a` has exactly one outgoing edge, and it leads to `b`.
pub open spec fn single_successor(
    edges: Multiset<(NodeId, NodeId, EdgeKind)>,
    a: NodeId,
    b: NodeId,
) -> bool {
    forall|t: NodeId| #[trigger] edges_between(edges, a, t) == if t == b { 1nat } else { 0nat }
}

/// `b` has exactly one incoming edge, and it comes from `a`.
pub open spec fn single_predecessor(
    edges: Multiset<(NodeId, NodeId, EdgeKind)>,
    b: NodeId,
    a: NodeId,
) -> bool {
    forall|p: NodeId| #[trigger] edges_between(edges, p, b) == if p == a { 1nat } else { 0nat }
}

/// Each node of `s` but the last has exactly one successor: the next node.
pub open spec fn is_successor_chain(edges: Multiset<(NodeId, NodeId, EdgeKind)>, s: Seq<NodeId>) -> bool {
    forall|i: int| 0 <= i < s.len() - 1 ==> #[trigger] single_successor(edges, s[i], s[i + 1])
}

/// `s` is straight-line code of the graph: at least two distinct nodes,
/// each but the last having the next as its only successor, and each but
/// the first having the previous as its only predecessor.
pub open spec fn is_straight_line(edges: Multiset<(NodeId, NodeId, EdgeKind)>, n: nat, s: Seq<NodeId>) -> bool {
    &&& s.len() >= 2
    &&& s.no_duplicates()
    &&& forall|i: int| 0 <= i < s.len() ==> #[trigger] s[i] < n
    &&& is_successor_chain(edges, s)
    &&& forall|i: int| 0 <= i < s.len() - 1 ==> #[trigger] single_predecessor(edges, s[i + 1], s[i])
}

/// Whether some sequence of `seqs` holds `x`.
pub open spec fn in_some_sequence(seqs: Seq<Seq<NodeId>>, x: NodeId) -> bool {
    exists|k: int| 0 <= k < seqs.len() && #[trigger] seqs[k].contains(x)
}

/// The state of the scan of `RegionGraph::find_sequences` once it has looked
/// at the nodes below `bound`: disjoint straight-line sequences `seqs`, in
/// increasing order of their first node (all below `bound`), each followed
/// as far as it goes, and none left to start at a node below `bound`.
pub open spec fn found_before(
    edges: Multiset<(NodeId, NodeId, EdgeKind)>,
    n: nat,
    seqs: Seq<Seq<NodeId>>,
    bound: int,
) -> bool {
    &&& forall|k: int| 0 <= k < seqs.len() ==> is_straight_line(edges, n, #[trigger] seqs[k])
    &&& forall|k: int| 0 <= k < seqs.len() ==> (#[trigger] seqs[k])[0] < bound
    &&& forall|k: int, l: int| 0 <= k < l < seqs.len() ==> (#[trigger] seqs[k])[0] < (#[trigger] seqs[l])[0]
    &&& forall|k: int, l: int, x: NodeId| 0 <= k < seqs.len() && 0 <= l < seqs.len() && k != l
        ==> !(#[trigger] seqs[k].contains(x) && #[trigger] seqs[l].contains(x))
    // A sequence stops where the next node is already taken or has other
    // predecessors.
    &&& forall|k: int, c: NodeId| 0 <= k < seqs.len() && #[trigger] single_successor(edges, seqs[k].last(), c)
        && single_predecessor(edges, c, seqs[k].last())
        ==> exists|j: int| 0 <= j <= k && #[trigger] seqs[j].contains(c)
    // A node left out starts no sequence: its only successor is itself, was
    // taken by a sequence that started before it, or has other predecessors.
    &&& forall|v: NodeId, c: NodeId| v < bound && !in_some_sequence(seqs, v) && #[trigger] single_successor(edges, v, c)
        && single_predecessor(edges, c, v)
        ==> c == v || exists|j: int| 0 <= j < seqs.len() && seqs[j][0] < v && #[trigger] seqs[j].contains(c)
}

/// `seqs` is what `RegionGraph::find_sequences` finds in a graph with `n`
/// nodes and these edges, scanning all of its nodes in index order.
pub open spec fn are_found_sequences(
    edges: Multiset<(NodeId, NodeId, EdgeKind)>,
    n: nat,
    seqs: Seq<Seq<NodeId>>,
) -> bool {
    found_before(edges, n, seqs, n as int)
}

/// A node has at most one only predecessor.
pub proof fn lemma_single_predecessor_unique(
    edges: Multiset<(NodeId, NodeId, EdgeKind)>,
    b: NodeId,
    a1: NodeId,
    a2: NodeId,
)
    requires
        single_predecessor(edges, b, a1),
        single_predecessor(edges, b, a2),
    ensures
        a1 == a2,
{
    assert(edges_between(edges, a1, b) == 1);
}

/// A node has at most one only successor.
pub proof fn lemma_single_successor_unique(
    edges: Multiset<(NodeId, NodeId, EdgeKind)>,
    a: NodeId,
    b1: NodeId,
    b2: NodeId,
)
    requires
        single_successor(edges, a, b1),
        single_successor(edges, a, b2),
    ensures
        b1 == b2,
{
    assert(edges_between(edges, a, b1) == 1);
}

/// A sequence of distinct indices below `n` has at most `n` elements.
pub proof fn lemma_distinct_below(s: Seq<NodeId>, n: nat)
    requires
        s.no_duplicates(),
        forall|i: int| 0 <= i < s.len() ==> #[trigger] s[i] < n,
        n <= usize::MAX,
    ensures
        s.len() <= n,
{
    s.unique_seq_to_set();
    let r = Set::<NodeId>::new(|x: NodeId| x < n);
    assert(r == <NodeId as vstd::set_lib::FiniteRange>::range_set(0, n as NodeId));
    <NodeId as vstd::set_lib::FiniteRange>::range_properties(0, n as NodeId);
    assert forall|x: NodeId| s.to_set().contains(x) implies r.contains(x) by {
        let i = choose|i: int| 0 <= i < s.len() && s[i] == x;
    }
    vstd::set_lib::lemma_len_subset(s.to_set(), r);
}

/// A set of indices below `n` has at most `n` elements and is finite.
pub proof fn lemma_visited_bound(s: Set<NodeId>, n: nat)
    requires
        forall|x: NodeId| #[trigger] s.contains(x) ==> x < n,
        n <= usize::MAX,
    ensures
        s.finite(),
        s.len() <= n,
{
    let r = Set::<NodeId>::new(|x: NodeId| x < n);
    assert(r == <NodeId as vstd::set_lib::FiniteRange>::range_set(0, n as NodeId));
    <NodeId as vstd::set_lib::FiniteRange>::range_properties(0, n as NodeId);
    vstd::set_lib::lemma_len_subset(s, r);
}

/// Two states that differ only in the weights of nodes of `inner` are
/// collapsed into the same state.
pub proof fn lemma_collapse_of_same_outside(
    before: RegionGraph,
    mid: RegionGraph,
    after: RegionGraph,
    inner: Set<NodeId>,
    region: Region,
    k: NodeId,
)
    requires
        is_collapse_of(mid, after, inner, region, k),
        mid.nodes().len() == before.nodes().len(),
        forall|q: int| 0 <= q < before.nodes().len() && !inner.contains(q as NodeId) ==> #[trigger] mid.nodes()[q] == before.nodes()[q],
        mid.edges() == before.edges(),
        mid.groups() == before.groups(),
        mid.owners() == before.owners(),
        mid.spec_entry() == before.spec_entry(),
        mid.spec_generation() == before.spec_generation(),
    ensures
        is_collapse_of(before, after, inner, region, k),
{
    let n = before.nodes().len();
    let pre = survivors(n, inner);
    assert forall|j: int| 0 <= j < pre.len() implies #[trigger] after.nodes()[j] == before.nodes()[pre[j]] by {
        assert(0 <= pre[j] < n && !inner.contains(pre[j] as NodeId));
        assert(mid.nodes()[pre[j]] == before.nodes()[pre[j]]);
    }
}

/// The state of a depth-first search: the stack of nodes being searched,
/// for each the index of its next successor to look at, the nodes met so
/// far, and the nodes finished, in the order they were finished.
pub type DfsState = (Seq<NodeId>, Seq<int>, Set<NodeId>, Seq<NodeId>);

/// The state of a depth-first search from `entry` before its first step.
pub open spec fn dfs_start(entry: NodeId) -> DfsState {
    (seq![entry], seq![0int], set![entry], Seq::empty())
}

/// One step of a depth-first search that takes the successors of node `x`
/// in the order of `lists[x]`: the node on top of the stack looks at its
/// next successor and pushes it if it was not met yet; a node with no
/// successor left is finished and popped.
pub open spec fn dfs_step(lists: Seq<Seq<NodeId>>, st: DfsState) -> DfsState {
    let (stack, idx, met, done) = st;
    let node = stack.last();
    let k = idx.last();
    let succs = lists[node as int];
    if 0 <= k < succs.len() {
        let v = succs[k];
        let idx2 = idx.update(idx.len() - 1, k + 1);
        if met.contains(v) {
            (stack, idx2, met, done)
        } else {
            (stack.push(v), idx2.push(0int), met.insert(v), done)
        }
    } else {
        (stack.drop_last(), idx.drop_last(), met, done.push(node))
    }
}

/// At most `fuel` steps of a depth-first search; it stops when the stack
/// is empty.
pub open spec fn dfs_run(lists: Seq<Seq<NodeId>>, st: DfsState, fuel: nat) -> DfsState
    decreases fuel,
{
    if fuel == 0 || st.0.len() == 0 {
        st
    } else {
        dfs_run(lists, dfs_step(lists, st), (fuel - 1) as nat)
    }
}

/// `res` is the reverse of the order in which a depth-first search from
/// `entry` finishes the nodes, where the search takes the successors of
/// each node `x` (of `n`) in some order `lists[x]` that holds each
/// successor as often as edges lead to it.
pub open spec fn is_dfs_reverse_postorder(
    edges: Multiset<(NodeId, NodeId, EdgeKind)>,
    n: nat,
    entry: NodeId,
    res: Seq<NodeId>,
) -> bool {
    exists|lists: Seq<Seq<NodeId>>, fuel: nat|
        #![trigger dfs_run(lists, dfs_start(entry), fuel)]
        lists.len() == n && (forall|x: NodeId, t: NodeId|
            x < n ==> #[trigger] lists[x as int].to_multiset().count(t) == edges_between(edges, x, t))
            && dfs_run(lists, dfs_start(entry), fuel).0.len() == 0 && res == dfs_run(
            lists,
            dfs_start(entry),
            fuel,
        ).3.reverse()
}

/// Running `a` steps and then `b` more is running `a + b` steps.
proof fn lemma_dfs_run_split(lists: Seq<Seq<NodeId>>, st: DfsState, a: nat, b: nat)
    ensures
        dfs_run(lists, st, a + b) == dfs_run(lists, dfs_run(lists, st, a), b),
    decreases a,
{
    if a > 0 && st.0.len() > 0 {
        lemma_dfs_run_split(lists, dfs_step(lists, st), (a - 1) as nat, b);
        assert((a - 1) as nat + b == (a + b - 1) as nat);
    }
}

/// The search state of the stacks and sets kept by the executable search.
pub open spec fn dfs_state_of(stack: Seq<NodeId>, idx: Seq<usize>, met: Set<NodeId>, done: Seq<NodeId>) -> DfsState {
    (stack, idx.map_values(|x: usize| x as int), met, done)
}

/// A copy of a list of node indices.
fn copy_ids(v: &Vec<NodeId>) -> (res: Vec<NodeId>)
    ensures
        res@ == v@,
{
    let mut res: Vec<NodeId> = Vec::new();
    let mut i: usize = 0;
    while i < v.len()
        invariant
            0 <= i <= v.len(),
            res@ == v@.take(i as int),
        decreases v.len() - i,
    {
        res.push(v[i]);
        assert(v@.take(i + 1) =~= v@.take(i as int).push(v@[i as int]));
        i += 1;
    }
    assert(v@.take(i as int) =~= v@);
    res
}

/// `res` lists the nodes reachable from `entry`, each once, the entry first,
/// in an order where an edge that does not lead to a later node leads to a
/// node that reaches back to its source (a reverse post-order of a
/// depth-first search).
pub open spec fn is_reverse_postorder(adj: spec_fn(NodeId, NodeId) -> bool, entry: NodeId, res: Seq<NodeId>) -> bool {
    &&& res.no_duplicates()
    &&& res.len() >= 1 && res[0] == entry
    &&& forall|x: NodeId| #[trigger] res.contains(x) <==> reaches(adj, entry, x)
    &&& forall|i: int, j: int| 0 <= j <= i < res.len() && #[trigger] adj(res[i], res[j]) ==> reaches(adj, res[j], res[i])
}

/// A set that holds `entry` and every successor of its members holds every
/// node reachable from `entry`.
pub proof fn lemma_closed_holds_reachable(adj: spec_fn(NodeId, NodeId) -> bool, entry: NodeId, s: Set<NodeId>, x: NodeId)
    requires
        s.contains(entry),
        forall|a: NodeId, b: NodeId| s.contains(a) && #[trigger] adj(a, b) ==> s.contains(b),
        reaches(adj, entry, x),
    ensures
        s.contains(x),
{
    let p = choose|p: Seq<NodeId>| #[trigger] is_path(adj, p) && p[0] == entry && p.last() == x;
    lemma_closed_holds_path(adj, s, p, p.len() - 1);
}

proof fn lemma_closed_holds_path(adj: spec_fn(NodeId, NodeId) -> bool, s: Set<NodeId>, p: Seq<NodeId>, k: int)
    requires
        is_path(adj, p),
        s.contains(p[0]),
        forall|a: NodeId, b: NodeId| s.contains(a) && #[trigger] adj(a, b) ==> s.contains(b),
        0 <= k < p.len(),
    ensures
        s.contains(p[k]),
    decreases k,
{
    if k > 0 {
        lemma_closed_holds_path(adj, s, p, k - 1);
        assert(adj(p[k - 1], p[k - 1 + 1]));
    }
}

/// A stretch of a path is a path.
proof fn lemma_path_stretch(adj: spec_fn(NodeId, NodeId) -> bool, p: Seq<NodeId>, i: int, j: int)
    requires
        is_path(adj, p),
        0 <= i <= j < p.len(),
    ensures
        reaches(adj, p[i], p[j]),
{
    let q = p.subrange(i, j + 1);
    assert forall|k: int| 0 <= k < q.len() - 1 implies #[trigger] adj(q[k], q[k + 1]) by {
        assert(q[k] == p[i + k] && q[k + 1] == p[i + k + 1]);
    }
    assert(is_path(adj, q) && q[0] == p[i] && q.last() == p[j]);
}

/// Collapsing `k` nodes of a graph leaves `k - 1` fewer nodes.
pub proof fn lemma_collapse_node_count(
    before: RegionGraph,
    after: RegionGraph,
    inner: Set<NodeId>,
    region: Region,
    new_node: NodeId,
)
    requires
        before.wf(),
        is_collapse_of(before, after, inner, region, new_node),
        forall|r: NodeId| #[trigger] inner.contains(r) ==> r < before.nodes().len(),
    ensures
        inner.finite(),
        after.nodes().len() == before.nodes().len() - inner.len() + 1,
{
    let n = before.nodes().len();
    lemma_count_below(inner, n as int);
    assert(removed_below(inner, n as int) =~= inner);
}

/// Every sequence `find_sequences` finds is one `collapse_sequence`
/// collapses: at least two distinct nodes forming a chain.
pub proof fn lemma_found_sequences_collapse(
    edges: Multiset<(NodeId, NodeId, EdgeKind)>,
    n: nat,
    seqs: Seq<Seq<NodeId>>,
    k: int,
)
    requires
        are_found_sequences(edges, n, seqs),
        0 <= k < seqs.len(),
    ensures
        seqs[k].len() >= 2,
        seqs[k].no_duplicates(),
        is_successor_chain(edges, seqs[k]),
{
    assert(is_straight_line(edges, n, seqs[k]));
}

/// The sequences `find_sequences` finds share no node.
pub proof fn lemma_found_sequences_disjoint(
    edges: Multiset<(NodeId, NodeId, EdgeKind)>,
    n: nat,
    seqs: Seq<Seq<NodeId>>,
    k: int,
    l: int,
    x: NodeId,
)
    requires
        are_found_sequences(edges, n, seqs),
        0 <= k < seqs.len(),
        0 <= l < seqs.len(),
        k != l,
        seqs[k].contains(x),
    ensures
        !seqs[l].contains(x),
{
}

/// The nodes left after removing `inner` from an `n`-node graph are
/// exactly the nodes of the graph outside `inner`: each of them is some
/// survivor.
proof fn lemma_survivors_onto(before: RegionGraph, after: RegionGraph, inner: Set<NodeId>, region: Region, k: NodeId, v: NodeId)
    requires
        before.wf(),
        is_collapse_of(before, after, inner, region, k),
        forall|r: NodeId| #[trigger] inner.contains(r) ==> r < before.nodes().len(),
        v < before.nodes().len(),
        !inner.contains(v),
    ensures
        exists|j: int| 0 <= j < survivors(before.nodes().len(), inner).len() && #[trigger] survivors(
            before.nodes().len(),
            inner,
        )[j] == v,
{
    let n = before.nodes().len();
    let pre = survivors(n, inner);
    let m = pre.len();
    let q = Seq::new(m, |j: int| pre[j] as NodeId);
    assert(q.no_duplicates()) by {
        assert forall|a: int, b: int| 0 <= a < b < q.len() implies q[a] != q[b] by {
            assert(pre[a] != pre[b]);
        }
    }
    q.unique_seq_to_set();
    let range = Set::<NodeId>::new(|x: NodeId| x < n);
    assert(range == <NodeId as vstd::set_lib::FiniteRange>::range_set(0, n as NodeId));
    <NodeId as vstd::set_lib::FiniteRange>::range_properties(0, n as NodeId);
    let outside = range.difference(inner);
    lemma_count_below(inner, n as int);
    assert(removed_below(inner, n as int) =~= inner);
    vstd::set_lib::lemma_len_subset(inner, range);
    vstd::set_lib::lemma_len_subset(outside, range);
    vstd::set_lib::lemma_set_disjoint_lens(outside, inner);
    assert(outside + inner =~= range);
    assert(outside.disjoint(inner));
    assert forall|x: NodeId| q.to_set().contains(x) implies outside.contains(x) by {
        let j = choose|j: int| 0 <= j < q.len() && q[j] == x;
        assert(0 <= pre[j] < n && !inner.contains(pre[j] as NodeId));
    }
    vstd::set_lib::lemma_subset_equality(q.to_set(), outside);
    assert(outside.contains(v));
    assert(q.to_set().contains(v));
    let j = choose|j: int| 0 <= j < q.len() && q[j] == v;
    assert(pre[j] == v);
}

/// Adding one step to a path keeps the target reachable.
proof fn lemma_reaches_step(adj: spec_fn(NodeId, NodeId) -> bool, a: NodeId, b: NodeId, c: NodeId)
    requires
        reaches(adj, a, b),
        b == c || adj(b, c),
    ensures
        reaches(adj, a, c),
{
    if b != c {
        let p = choose|p: Seq<NodeId>| #[trigger] is_path(adj, p) && p[0] == a && p.last() == b;
        let p2 = p.push(c);
        assert forall|i: int| 0 <= i < p2.len() - 1 implies #[trigger] adj(p2[i], p2[i + 1]) by {
            if i < p.len() - 1 {
                assert(adj(p[i], p[i + 1]));
            }
        }
        assert(is_path(adj, p2) && p2[0] == a && p2.last() == c);
    }
}

/// Where node `v` of the graph before a collapse went: the collapsed node
/// for a node of `inner`, else the index it survived at.
spec fn collapsed_index(before: RegionGraph, inner: Set<NodeId>, k: NodeId, v: NodeId) -> NodeId {
    if inner.contains(v) {
        k
    } else {
        (choose|j: int| 0 <= j < survivors(before.nodes().len(), inner).len() && #[trigger] survivors(
            before.nodes().len(),
            inner,
        )[j] == v) as NodeId
    }
}

/// An edge of the graph before a collapse leads, after it, from where its
/// source went to where its target went (or both went to the collapsed
/// node).
proof fn lemma_collapse_maps_edge(
    before: RegionGraph,
    after: RegionGraph,
    inner: Set<NodeId>,
    region: Region,
    k: NodeId,
    u: NodeId,
    w: NodeId,
)
    requires
        before.wf(),
        is_collapse_of(before, after, inner, region, k),
        forall|r: NodeId| #[trigger] inner.contains(r) ==> r < before.nodes().len(),
        edges_between(before.edges(), u, w) > 0,
    ensures
        ({
            let fu = collapsed_index(before, inner, k, u);
            let fw = collapsed_index(before, inner, k, w);
            fu == fw || forward_adj(after.edges())(fu, fw)
        }),
{
    let n = before.nodes().len();
    let pre = survivors(n, inner);
    let e = before.edges();
    let kind = if e.count((u, w, EdgeKind::FallThrough)) > 0 {
        EdgeKind::FallThrough
    } else if e.count((u, w, EdgeKind::Unconditional)) > 0 {
        EdgeKind::Unconditional
    } else if e.count((u, w, EdgeKind::ConditionalTrue)) > 0 {
        EdgeKind::ConditionalTrue
    } else if e.count((u, w, EdgeKind::ConditionalFalse)) > 0 {
        EdgeKind::ConditionalFalse
    } else if e.count((u, w, EdgeKind::Switch)) > 0 {
        EdgeKind::Switch
    } else {
        EdgeKind::ExceptionHandler
    };
    assert(e.count((u, w, kind)) > 0);
    assert(u < n && w < n);
    let fu = collapsed_index(before, inner, k, u);
    let fw = collapsed_index(before, inner, k, w);
    if !inner.contains(u) {
        lemma_survivors_onto(before, after, inner, region, k, u);
    }
    if !inner.contains(w) {
        lemma_survivors_onto(before, after, inner, region, k, w);
    }
    if !inner.contains(u) && !inner.contains(w) {
        assert(pre[fu as int] == u && pre[fw as int] == w);
        assert(after.edges().count((fu, fw, kind)) == e.count((u, w, kind)));
    } else if !inner.contains(u) && inner.contains(w) {
        assert(crossing(u, w, kind, true) == (u, w, kind));
        assert(crosses(e, inner, u, kind, true));
        assert(crosses_any(e, inner, pre[fu as int] as NodeId, true));
        assert(edges_between(after.edges(), fu, k) == 1);
    } else if inner.contains(u) && !inner.contains(w) {
        assert(crossing(w, u, kind, false) == (u, w, kind));
        assert(crosses(e, inner, w, kind, false));
        assert(crosses_any(e, inner, pre[fw as int] as NodeId, false));
        assert(edges_between(after.edges(), k, fw) == 1);
    }
}

/// Lifts a path of the graph before a collapse, prefix by prefix.
proof fn lemma_collapse_maps_path(
    before: RegionGraph,
    after: RegionGraph,
    inner: Set<NodeId>,
    region: Region,
    k: NodeId,
    p: Seq<NodeId>,
    i: int,
)
    requires
        before.wf(),
        is_collapse_of(before, after, inner, region, k),
        forall|r: NodeId| #[trigger] inner.contains(r) ==> r < before.nodes().len(),
        is_path(forward_adj(before.edges()), p),
        reaches(forward_adj(after.edges()), after.spec_entry(), collapsed_index(before, inner, k, p[0])),
        0 <= i < p.len(),
    ensures
        reaches(forward_adj(after.edges()), after.spec_entry(), collapsed_index(before, inner, k, p[i])),
    decreases i,
{
    if i > 0 {
        lemma_collapse_maps_path(before, after, inner, region, k, p, i - 1);
        assert(forward_adj(before.edges())(p[i - 1], p[i - 1 + 1]));
        lemma_collapse_maps_edge(before, after, inner, region, k, p[i - 1], p[i]);
        lemma_reaches_step(
            forward_adj(after.edges()),
            after.spec_entry(),
            collapsed_index(before, inner, k, p[i - 1]),
            collapsed_index(before, inner, k, p[i]),
        );
    }
}

/// A collapse keeps every block with the node that held it: a block held
/// by a collapsed node is now held by the new node, and any other block by
/// the node that its old holder became, which holds the same blocks.
pub proof fn lemma_collapse_keeps_owners(
    before: RegionGraph,
    after: RegionGraph,
    inner: Set<NodeId>,
    region: Region,
    k: NodeId,
    c: NodeId,
)
    requires
        before.wf(),
        after.wf(),
        is_collapse_of(before, after, inner, region, k),
        forall|r: NodeId| #[trigger] inner.contains(r) ==> r < before.nodes().len(),
        before.owners().dom().contains(c),
    ensures
        after.owners().dom().contains(c),
        inner.contains(before.owners()[c]) ==> after.owners()[c] == k,
        !inner.contains(before.owners()[c]) ==> after.owners()[c] < k && survivors(before.nodes().len(), inner)[after.owners()[c] as int]
            == before.owners()[c] && after.groups()[after.owners()[c]] == before.groups()[before.owners()[c]],
{
    let n = before.nodes().len();
    let pre = survivors(n, inner);
    let o = before.owners()[c];
    if inner.contains(o) {
        assert(after.groups()[k].contains(c));
    } else {
        lemma_survivors_onto(before, after, inner, region, k, o);
        let j = choose|j: int| 0 <= j < pre.len() && #[trigger] pre[j] == o;
        assert(after.groups()[j as NodeId] == before.groups()[pre[j] as NodeId]);
        assert(before.groups()[o].contains(c));
        assert(after.groups()[j as NodeId].contains(c));
    }
}

/// A collapse leaves no node orphaned: where every node was reachable from
/// the entry before, every node is after.
pub proof fn lemma_collapse_keeps_reachability(
    before: RegionGraph,
    after: RegionGraph,
    inner: Set<NodeId>,
    region: Region,
    k: NodeId,
    y: NodeId,
)
    requires
        before.wf(),
        is_collapse_of(before, after, inner, region, k),
        inner != Set::<NodeId>::empty(),
        forall|r: NodeId| #[trigger] inner.contains(r) ==> r < before.nodes().len(),
        forall|v: NodeId| v < before.nodes().len() ==> #[trigger] reaches(forward_adj(before.edges()), before.spec_entry(), v),
        y < after.nodes().len(),
    ensures
        reaches(forward_adj(after.edges()), after.spec_entry(), y),
{
    let n = before.nodes().len();
    let pre = survivors(n, inner);
    let m = pre.len();
    let adj_b = forward_adj(before.edges());
    let adj_a = forward_adj(after.edges());
    // The entry goes to the entry.
    let entry = before.spec_entry();
    assert(collapsed_index(before, inner, k, entry) == after.spec_entry()) by {
        if !inner.contains(entry) {
            lemma_survivors_onto(before, after, inner, region, k, entry);
            let j = collapsed_index(before, inner, k, entry);
            assert(pre[j as int] == entry);
            assert(pre[after.spec_entry() as int] == entry);
        }
    }
    assert(is_path(adj_a, seq![after.spec_entry()]));
    assert(reaches(adj_a, after.spec_entry(), after.spec_entry()));
    // The node `y` is where some node `v` went.
    let v: NodeId = if y < m {
        pre[y as int] as NodeId
    } else {
        choose|r: NodeId| inner.contains(r)
    };
    if y >= m {
        if !exists|r: NodeId| inner.contains(r) {
            assert(inner =~= Set::<NodeId>::empty());
        }
    }
    assert(collapsed_index(before, inner, k, v) == y) by {
        if y < m {
            lemma_survivors_onto(before, after, inner, region, k, v);
            let j = collapsed_index(before, inner, k, v);
            assert(pre[j as int] == pre[y as int]);
        }
    }
    assert(v < n);
    assert(reaches(adj_b, entry, v));
    let p = choose|p: Seq<NodeId>| #[trigger] is_path(adj_b, p) && p[0] == entry && p.last() == v;
    lemma_collapse_maps_path(before, after, inner, region, k, p, p.len() - 1);
}

/// Whether `x` occurs in `v`.
pub(crate) fn contains_node(v: &Vec<NodeId>, x: NodeId) -> (res: bool)
    ensures
        res == v@.contains(x),
{
    let mut i: usize = 0;
    while i < v.len()
        invariant
            0 <= i <= v.len(),
            forall|j: int| 0 <= j < i ==> v@[j] != x,
        decreases v.len() - i,
    {
        if v[i] == x {
            return true;
        }
        i += 1;
    }
    false
}

/// The elements of a set, each once, in some order.
pub(crate) fn set_to_vec(s: &HashSet<NodeId>) -> (res: Vec<NodeId>)
    ensures
        res@.to_set() == s@,
        res@.no_duplicates(),
{
    let mut res: Vec<NodeId> = Vec::new();
    let ghost ks = vstd::std_specs::hash::spec_hash_keys_iter(s).remaining();
    for x in it: s.iter()
        invariant
            it.seq() == ks,
            res@ == it.seq().take(it.index() as int).map_values(|r: &NodeId| *r),
    {
        let ghost before = res@;
        res.push(*x);
        proof {
            assert(it.seq().take(it.index() as int + 1).map_values(|r: &NodeId| *r)
                =~= before.push(*x));
        }
    }
    proof {
        let keys = ks.map_values(|r: &NodeId| *r);
        assert(res@ =~= keys);
        assert(keys =~= ks.unref());
    }
    res
}


/// A virtual graph that supports iterative region collapsing.
///
/// Initially it mirrors the control-flow graph; nodes are then collapsed
/// into region nodes as patterns are recognized.
pub struct RegionGraph {
    /// The graph structure with mixed Block/Collapsed nodes.
    graph: RegionDiGraph,
    /// Entry node of the graph.
    entry: NodeId,
    /// Maps each original CFG block to the region graph node that holds it.
    cfg_to_region: HashMap<NodeId, NodeId>,
    /// Maps each region graph node to the original CFG blocks it holds.
    region_to_cfg: HashMap<NodeId, HashSet<NodeId>>,
    /// Incremented on each collapse, so that cached analyses can tell they
    /// are stale.
    generation: u64,
}

impl RegionGraph {
    /// The node weights, node `i` first at index `i`.
    pub closed spec fn nodes(&self) -> Seq<RegionNode> {
        graph_nodes(self.graph)
    }

    /// The edges `(source, target, kind)`.
    pub closed spec fn edges(&self) -> Multiset<(NodeId, NodeId, EdgeKind)> {
        graph_edges(self.graph)
    }

    /// The entry node.
    pub closed spec fn spec_entry(&self) -> NodeId {
        self.entry
    }

    /// The collapse counter.
    pub closed spec fn spec_generation(&self) -> u64 {
        self.generation
    }

    /// For each node, the original CFG blocks it holds.
    pub closed spec fn groups(&self) -> Map<NodeId, Set<NodeId>> {
        self.region_to_cfg@.map_values(|s: HashSet<NodeId>| s@)
    }

    /// For each original CFG block, the node that holds it.
    pub closed spec fn owners(&self) -> Map<NodeId, NodeId> {
        self.cfg_to_region@
    }

    /// The graph is well formed: there is at least one node (and no more
    /// than an index can count), the entry is one of them; the nodes' block
    /// sets partition the blocks that `owners` knows, each node holding at
    /// least one block; every edge joins nodes.
    pub open spec fn wf(&self) -> bool {
        let n = self.nodes().len();
        &&& 1 <= n <= usize::MAX
        &&& self.spec_entry() < n
        &&& forall|r: NodeId| #[trigger] self.groups().dom().contains(r) <==> r < n
        &&& forall|r: NodeId| r < n ==> #[trigger] self.groups()[r] != Set::<NodeId>::empty()
        &&& forall|c: NodeId| #[trigger]
            self.owners().dom().contains(c) ==> self.owners()[c] < n && self.groups()[self.owners()[c]].contains(c)
        &&& forall|r: NodeId, c: NodeId|
            r < n && #[trigger] self.groups()[r].contains(c) ==> self.owners().dom().contains(c)
                && self.owners()[c] == r
        &&& forall|e: (NodeId, NodeId, EdgeKind)| #[trigger]
            self.edges().count(e) > 0 ==> e.0 < n && e.1 < n
    }

    /// Create a RegionGraph from a CFG: block `i` becomes node `i`, every
    /// CFG edge becomes an edge.
    #[verifier::loop_isolation(false)]
    pub fn from_cfg(cfg: &Cfg) -> (res: Self)
        requires
            cfg.wf(),
        ensures
            res.wf(),
            res.nodes().len() == cfg.blocks.len(),
            forall|i: int| 0 <= i < cfg.blocks.len() ==> res.nodes()[i] == RegionNode::Block(i as NodeId),
            forall|c: NodeId| #[trigger] res.owners().dom().contains(c) <==> c < cfg.blocks.len(),
            forall|c: NodeId| c < cfg.blocks.len() ==> #[trigger] res.owners()[c] == c,
            forall|r: NodeId| r < cfg.blocks.len() ==> #[trigger] res.groups()[r] == set![r],
            res.edges() == cfg.edges@.map_values(|e: CfgEdge| (e.source, e.target, e.kind)).to_multiset(),
            res.spec_entry() == cfg.entry,
            res.spec_generation() == 0,
    {
        let mut graph = new_graph();
        let mut cfg_to_region: HashMap<NodeId, NodeId> = HashMap::new();
        let mut region_to_cfg: HashMap<NodeId, HashSet<NodeId>> = HashMap::new();
        let n = cfg.blocks.len();
        let mut i: usize = 0;
        while i < n
            invariant
                n == cfg.blocks.len(),
                0 <= i <= n,
                graph_nodes(graph).len() == i,
                forall|j: int| 0 <= j < i ==> graph_nodes(graph)[j] == RegionNode::Block(j as NodeId),
                graph_edges(graph) == Multiset::<(NodeId, NodeId, EdgeKind)>::empty(),
                forall|c: NodeId| #[trigger] cfg_to_region@.dom().contains(c) <==> c < i,
                forall|c: NodeId| c < i ==> #[trigger] cfg_to_region@[c] == c,
                forall|r: NodeId| #[trigger] region_to_cfg@.dom().contains(r) <==> r < i,
                forall|r: NodeId| r < i ==> #[trigger] region_to_cfg@[r]@ == set![r],
            decreases n - i,
        {
            let region_node = add_node(&mut graph, RegionNode::Block(i));
            cfg_to_region.insert(i, region_node);
            let mut cfg_set: HashSet<NodeId> = HashSet::new();
            cfg_set.insert(i);
            region_to_cfg.insert(region_node, cfg_set);
            i += 1;
        }
        let m = cfg.edges.len();
        let ghost triple = |e: CfgEdge| (e.source, e.target, e.kind);
        let mut k: usize = 0;
        while k < m
            invariant
                n == cfg.blocks.len(),
                m == cfg.edges.len(),
                cfg.wf(),
                0 <= k <= m,
                graph_nodes(graph).len() == n,
                forall|j: int| 0 <= j < n ==> graph_nodes(graph)[j] == RegionNode::Block(j as NodeId),
                graph_edges(graph) == cfg.edges@.take(k as int).map_values(triple).to_multiset(),
            decreases m - k,
        {
            let e = cfg.edges[k];
            proof {
                assert(cfg.edges@[k as int] == e);
            }
            add_edge(&mut graph, e.source, e.target, e.kind);
            proof {
                let prev = cfg.edges@.take(k as int).map_values(triple);
                assert(cfg.edges@.take(k + 1).map_values(triple) =~= prev.push(triple(e)));
                assert(prev.push(triple(e)).to_multiset() =~= prev.to_multiset().insert(triple(e)));
                assert(triple(e) == (e.source, e.target, e.kind));
                assert(graph_edges(graph) == prev.to_multiset().insert(triple(e)));
            }
            k += 1;
        }
        assert(cfg.edges@.take(m as int) =~= cfg.edges@);
        let res = RegionGraph { graph, entry: cfg.entry, cfg_to_region, region_to_cfg, generation: 0 };
        proof {
            let es = cfg.edges@.map_values(triple);
            assert forall|e: (NodeId, NodeId, EdgeKind)| #[trigger]
                res.edges().count(e) > 0 implies e.0 < n && e.1 < n by {
                assert(es.contains(e));
                let j = choose|j: int| 0 <= j < es.len() && es[j] == e;
                assert(cfg.edges@[j].source < n);
            }
            assert forall|r: NodeId| r < n implies #[trigger] res.groups()[r] != Set::<
                NodeId,
            >::empty() by {
                assert(res.region_to_cfg@.dom().contains(r));
                assert(res.groups()[r].contains(r));
            }
            assert forall|r: NodeId| r < n implies #[trigger] res.groups()[r] == set![r] by {
                assert(res.region_to_cfg@.dom().contains(r));
            }
        }
        res
    }

    /// Get the current generation counter.
    pub fn generation(&self) -> (res: u64)
        ensures
            res == self.spec_generation(),
    {
        self.generation
    }

    /// Check if a node exists in the current graph.
    pub fn contains(&self, node: NodeId) -> (res: bool)
        ensures
            res == (node < self.nodes().len()),
    {
        node_weight(&self.graph, node).is_some()
    }

    /// Get the region node that owns a CFG block, if the block is known.
    pub fn cfg_owner(&self, cfg_node: NodeId) -> (res: Option<NodeId>)
        ensures
            res == (if self.owners().dom().contains(cfg_node) {
                Some(self.owners()[cfg_node])
            } else {
                None
            }),
    {
        match self.cfg_to_region.get(&cfg_node) {
            Some(r) => Some(*r),
            None => None,
        }
    }

    /// Get the entry node.
    pub fn entry(&self) -> (res: NodeId)
        ensures
            res == self.spec_entry(),
    {
        self.entry
    }

    /// Number of nodes in the graph.
    pub fn node_count(&self) -> (res: usize)
        ensures
            res == self.nodes().len(),
    {
        node_count(&self.graph)
    }

    /// Check if the graph has been fully reduced to a single node.
    pub fn is_fully_reduced(&self) -> (res: bool)
        ensures
            res == (self.nodes().len() == 1),
    {
        node_count(&self.graph) == 1
    }

    /// Get a node by its index.
    pub fn get_node(&self, idx: NodeId) -> (res: Option<&RegionNode>)
        ensures
            idx < self.nodes().len() ==> res == Some(&self.nodes()[idx as int]),
            idx >= self.nodes().len() ==> res is None,
    {
        node_weight(&self.graph, idx)
    }

    /// All node indices, in increasing order.
    pub fn node_indices(&self) -> (res: Vec<NodeId>)
        ensures
            res@ == Seq::new(self.nodes().len(), |i: int| i as NodeId),
    {
        let n = node_count(&self.graph);
        let mut res: Vec<NodeId> = Vec::new();
        let mut i: usize = 0;
        while i < n
            invariant
                0 <= i <= n,
                res@ =~= Seq::new(i as nat, |j: int| j as NodeId),
            decreases n - i,
        {
            res.push(i);
            i += 1;
        }
        res
    }

    /// The edges leaving (or, for `incoming`, entering) `node`, as
    /// `(source, target, kind)` triples, each once.
    fn edges_of(&self, node: NodeId, incoming: bool) -> (res: Vec<
        (NodeId, NodeId, EdgeKind),
    >)
        ensures
            forall|e: (NodeId, NodeId, EdgeKind)| #[trigger]
                res@.to_multiset().count(e) == if (incoming && e.1 == node) || (!incoming && e.0
                    == node) {
                    self.edges().count(e)
                } else {
                    0
                },
            forall|i: int| 0 <= i < res.len() ==> if incoming {
                (#[trigger] res@[i]).1 == node
            } else {
                res@[i].0 == node
            },
    {
        let res = edges_directed(&self.graph, node, incoming);
        proof {
            assert forall|i: int| 0 <= i < res.len() implies if incoming {
                (#[trigger] res@[i]).1 == node
            } else {
                res@[i].0 == node
            } by {
                assert(res@.to_multiset().count(res@[i]) > 0);
            }
        }
        res
    }

    /// Successor nodes, each as often as there are edges to it.
    pub fn successors(&self, node: NodeId) -> (res: Vec<NodeId>)
        ensures
            forall|t: NodeId| #[trigger]
                res@.to_multiset().count(t) == edges_between(self.edges(), node, t),
    {
        let es = self.edges_of(node, false);
        let mut res: Vec<NodeId> = Vec::new();
        let mut i: usize = 0;
        while i < es.len()
            invariant
                0 <= i <= es.len(),
                forall|j: int| 0 <= j < es.len() ==> (#[trigger] es@[j]).0 == node,
                forall|t: NodeId| #[trigger]
                    res@.to_multiset().count(t) == edges_between(es@.take(i as int).to_multiset(), node, t),
            decreases es.len() - i,
        {
            let ghost before = res@;
            let x = es[i];
            res.push(x.1);
            proof {
                let prev = es@.take(i as int);
                assert(es@.take(i + 1) =~= prev.push(x));
                assert(prev.push(x).to_multiset() =~= prev.to_multiset().insert(x));
                assert(before.push(x.1).to_multiset() =~= before.to_multiset().insert(x.1));
                assert(x == es@[i as int]);
                assert(x.0 == node);
                assert forall|t: NodeId| #[trigger]
                    res@.to_multiset().count(t) == edges_between(
                        es@.take(i + 1).to_multiset(),
                        node,
                        t,
                    ) by {
                    lemma_edges_between_insert(prev.to_multiset(), x, node, t);
                    assert(before.to_multiset().count(t) == edges_between(prev.to_multiset(), node, t));
                }
            }
            i += 1;
        }
        assert(es@.take(i as int) =~= es@);
        proof {
            assert forall|t: NodeId| #[trigger]
                res@.to_multiset().count(t) == edges_between(self.edges(), node, t) by {
                assert(es@.to_multiset().count((node, t, EdgeKind::FallThrough)) == self.edges().count((node, t, EdgeKind::FallThrough)));
                assert(es@.to_multiset().count((node, t, EdgeKind::Unconditional)) == self.edges().count((node, t, EdgeKind::Unconditional)));
                assert(es@.to_multiset().count((node, t, EdgeKind::ConditionalTrue)) == self.edges().count((node, t, EdgeKind::ConditionalTrue)));
                assert(es@.to_multiset().count((node, t, EdgeKind::ConditionalFalse)) == self.edges().count((node, t, EdgeKind::ConditionalFalse)));
                assert(es@.to_multiset().count((node, t, EdgeKind::Switch)) == self.edges().count((node, t, EdgeKind::Switch)));
                assert(es@.to_multiset().count((node, t, EdgeKind::ExceptionHandler)) == self.edges().count((node, t, EdgeKind::ExceptionHandler)));
            }
        }
        res
    }

    /// Predecessor nodes, each as often as there are edges from it.
    pub fn predecessors(&self, node: NodeId) -> (res: Vec<NodeId>)
        ensures
            forall|p: NodeId| #[trigger]
                res@.to_multiset().count(p) == edges_between(self.edges(), p, node),
    {
        let es = self.edges_of(node, true);
        let mut res: Vec<NodeId> = Vec::new();
        let mut i: usize = 0;
        while i < es.len()
            invariant
                0 <= i <= es.len(),
                forall|j: int| 0 <= j < es.len() ==> (#[trigger] es@[j]).1 == node,
                forall|p: NodeId| #[trigger]
                    res@.to_multiset().count(p) == edges_between(es@.take(i as int).to_multiset(), p, node),
            decreases es.len() - i,
        {
            let ghost before = res@;
            let x = es[i];
            res.push(x.0);
            proof {
                let prev = es@.take(i as int);
                assert(es@.take(i + 1) =~= prev.push(x));
                assert(prev.push(x).to_multiset() =~= prev.to_multiset().insert(x));
                assert(before.push(x.0).to_multiset() =~= before.to_multiset().insert(x.0));
                assert(x == es@[i as int]);
                assert forall|p: NodeId| #[trigger]
                    res@.to_multiset().count(p) == edges_between(
                        es@.take(i + 1).to_multiset(),
                        p,
                        node,
                    ) by {
                    lemma_edges_between_insert(prev.to_multiset(), x, p, node);
                    assert(before.to_multiset().count(p) == edges_between(prev.to_multiset(), p, node));
                }
            }
            i += 1;
        }
        assert(es@.take(i as int) =~= es@);
        proof {
            assert forall|p: NodeId| #[trigger]
                res@.to_multiset().count(p) == edges_between(self.edges(), p, node) by {
                assert(es@.to_multiset().count((p, node, EdgeKind::FallThrough)) == self.edges().count((p, node, EdgeKind::FallThrough)));
                assert(es@.to_multiset().count((p, node, EdgeKind::Unconditional)) == self.edges().count((p, node, EdgeKind::Unconditional)));
                assert(es@.to_multiset().count((p, node, EdgeKind::ConditionalTrue)) == self.edges().count((p, node, EdgeKind::ConditionalTrue)));
                assert(es@.to_multiset().count((p, node, EdgeKind::ConditionalFalse)) == self.edges().count((p, node, EdgeKind::ConditionalFalse)));
                assert(es@.to_multiset().count((p, node, EdgeKind::Switch)) == self.edges().count((p, node, EdgeKind::Switch)));
                assert(es@.to_multiset().count((p, node, EdgeKind::ExceptionHandler)) == self.edges().count((p, node, EdgeKind::ExceptionHandler)));
            }
        }
        res
    }

    /// Get successors with their edge kinds, each edge once.
    pub fn successors_with_edges(&self, node: NodeId) -> (res: Vec<(NodeId, EdgeKind)>)
        ensures
            forall|t: NodeId, k: EdgeKind| #[trigger]
                res@.to_multiset().count((t, k)) == self.edges().count((node, t, k)),
    {
        let es = self.edges_of(node, false);
        let mut res: Vec<(NodeId, EdgeKind)> = Vec::new();
        let mut i: usize = 0;
        while i < es.len()
            invariant
                0 <= i <= es.len(),
                forall|j: int| 0 <= j < es.len() ==> (#[trigger] es@[j]).0 == node,
                forall|t: NodeId, k: EdgeKind| #[trigger]
                    res@.to_multiset().count((t, k)) == es@.take(i as int).to_multiset().count((node, t, k)),
            decreases es.len() - i,
        {
            let ghost before = res@;
            let x = es[i];
            res.push((x.1, x.2));
            proof {
                let prev = es@.take(i as int);
                assert(es@.take(i + 1) =~= prev.push(x));
                assert(prev.push(x).to_multiset() =~= prev.to_multiset().insert(x));
                assert(before.push((x.1, x.2)).to_multiset() =~= before.to_multiset().insert((x.1, x.2)));
                assert(x == es@[i as int]);
                assert forall|t: NodeId, k: EdgeKind| #[trigger]
                    res@.to_multiset().count((t, k)) == es@.take(i + 1).to_multiset().count((node, t, k)) by {
                    assert(before.to_multiset().count((t, k)) == prev.to_multiset().count((node, t, k)));
                    assert(x == (node, x.1, x.2));
                }
            }
            i += 1;
        }
        assert(es@.take(i as int) =~= es@);
        res
    }

    /// Get successors excluding exception handler edges, each as often as
    /// there are such edges to it.
    pub fn successors_no_exceptions(&self, node: NodeId) -> (res: Vec<NodeId>)
        ensures
            forall|t: NodeId| #[trigger]
                res@.to_multiset().count(t) == edges_between(self.edges(), node, t)
                    - self.edges().count((node, t, EdgeKind::ExceptionHandler)),
    {
        let es = self.edges_of(node, false);
        let mut res: Vec<NodeId> = Vec::new();
        let mut i: usize = 0;
        while i < es.len()
            invariant
                0 <= i <= es.len(),
                forall|j: int| 0 <= j < es.len() ==> (#[trigger] es@[j]).0 == node,
                forall|t: NodeId| #[trigger]
                    res@.to_multiset().count(t) == edges_between(es@.take(i as int).to_multiset(), node, t)
                        - es@.take(i as int).to_multiset().count((node, t, EdgeKind::ExceptionHandler)),
            decreases es.len() - i,
        {
            let ghost before = res@;
            let x = es[i];
            if !matches!(x.2, EdgeKind::ExceptionHandler) {
                res.push(x.1);
            }
            proof {
                let prev = es@.take(i as int);
                assert(es@.take(i + 1) =~= prev.push(x));
                assert(prev.push(x).to_multiset() =~= prev.to_multiset().insert(x));
                assert(before.push(x.1).to_multiset() =~= before.to_multiset().insert(x.1));
                assert(x == es@[i as int]);
                assert forall|t: NodeId| #[trigger]
                    res@.to_multiset().count(t) == edges_between(es@.take(i + 1).to_multiset(), node, t)
                        - es@.take(i + 1).to_multiset().count((node, t, EdgeKind::ExceptionHandler)) by {
                    lemma_edges_between_insert(prev.to_multiset(), x, node, t);
                    assert(before.to_multiset().count(t) == edges_between(prev.to_multiset(), node, t)
                        - prev.to_multiset().count((node, t, EdgeKind::ExceptionHandler)));
                    assert(x == (node, x.1, x.2));
                }
            }
            i += 1;
        }
        assert(es@.take(i as int) =~= es@);
        proof {
            assert forall|t: NodeId| #[trigger]
                res@.to_multiset().count(t) == edges_between(self.edges(), node, t)
                    - self.edges().count((node, t, EdgeKind::ExceptionHandler)) by {
                assert(es@.to_multiset().count((node, t, EdgeKind::FallThrough)) == self.edges().count((node, t, EdgeKind::FallThrough)));
                assert(es@.to_multiset().count((node, t, EdgeKind::Unconditional)) == self.edges().count((node, t, EdgeKind::Unconditional)));
                assert(es@.to_multiset().count((node, t, EdgeKind::ConditionalTrue)) == self.edges().count((node, t, EdgeKind::ConditionalTrue)));
                assert(es@.to_multiset().count((node, t, EdgeKind::ConditionalFalse)) == self.edges().count((node, t, EdgeKind::ConditionalFalse)));
                assert(es@.to_multiset().count((node, t, EdgeKind::Switch)) == self.edges().count((node, t, EdgeKind::Switch)));
                assert(es@.to_multiset().count((node, t, EdgeKind::ExceptionHandler)) == self.edges().count((node, t, EdgeKind::ExceptionHandler)));
            }
        }
        res
    }

    /// Get the RegionGraph node index for an original CFG node.
    pub fn get_region_node(&self, cfg_node: NodeId) -> (res: Option<NodeId>)
        ensures
            res == (if self.owners().dom().contains(cfg_node) {
                Some(self.owners()[cfg_node])
            } else {
                None
            }),
    {
        self.cfg_owner(cfg_node)
    }

    /// Get all original CFG nodes contained in a RegionGraph node.
    pub fn get_cfg_nodes(&self, region_node: NodeId) -> (res: Option<&HashSet<NodeId>>)
        ensures
            match res {
                Some(s) => self.groups().dom().contains(region_node) && s@ == self.groups()[region_node],
                None => !self.groups().dom().contains(region_node),
            },
    {
        self.region_to_cfg.get(&region_node)
    }

    /// Point every CFG block of `blocks` at node `target`.
    fn reassign_owner(&mut self, blocks: &Vec<NodeId>, target: NodeId)
        ensures
            final(self).graph == old(self).graph,
            final(self).entry == old(self).entry,
            final(self).region_to_cfg == old(self).region_to_cfg,
            final(self).generation == old(self).generation,
            forall|c: NodeId| #[trigger]
                final(self).cfg_to_region@.dom().contains(c) <==> (old(self).cfg_to_region@.dom().contains(c)
                    || blocks@.contains(c)),
            forall|c: NodeId| #[trigger]
                final(self).cfg_to_region@.dom().contains(c) ==> final(self).cfg_to_region@[c] == if blocks@.contains(c) {
                    target
                } else {
                    old(self).cfg_to_region@[c]
                },
    {
        let mut i: usize = 0;
        while i < blocks.len()
            invariant
                0 <= i <= blocks.len(),
                self.graph == old(self).graph,
                self.entry == old(self).entry,
                self.region_to_cfg == old(self).region_to_cfg,
                self.generation == old(self).generation,
                forall|c: NodeId| #[trigger]
                    self.cfg_to_region@.dom().contains(c) <==> (old(self).cfg_to_region@.dom().contains(c)
                        || blocks@.take(i as int).contains(c)),
                forall|c: NodeId| #[trigger]
                    self.cfg_to_region@.dom().contains(c) ==> self.cfg_to_region@[c] == if blocks@.take(i as int).contains(c) {
                        target
                    } else {
                        old(self).cfg_to_region@[c]
                    },
            decreases blocks.len() - i,
        {
            self.cfg_to_region.insert(blocks[i], target);
            proof {
                assert forall|c: NodeId| #[trigger] blocks@.take(i + 1).contains(c) == (blocks@.take(
                    i as int,
                ).contains(c) || c == blocks@[i as int]) by {
                    if blocks@.take(i + 1).contains(c) {
                        let j = choose|j: int| 0 <= j < i + 1 && #[trigger] blocks@.take(i + 1)[j] == c;
                        if j < i {
                            assert(blocks@.take(i as int)[j] == c);
                        }
                    }
                    if c == blocks@[i as int] {
                        assert(blocks@.take(i + 1)[i as int] == c);
                    }
                    if blocks@.take(i as int).contains(c) {
                        let j = choose|j: int| 0 <= j < i && #[trigger] blocks@.take(i as int)[j] == c;
                        assert(blocks@.take(i + 1)[j] == c);
                    }
                }
            }
            i += 1;
        }
        assert(blocks@.take(i as int) =~= blocks@);
    }

    /// Remove the nodes of `removed` (the entry not among them) and forget
    /// the blocks they held: the other nodes keep their weights, blocks and
    /// edges, renumbered as petgraph renumbers them (see `survivors`).
    pub fn remove_nodes(&mut self, removed: &HashSet<NodeId>)
        requires
            old(self).wf(),
            forall|r: NodeId| #[trigger] removed@.contains(r) ==> r < old(self).nodes().len(),
            !removed@.contains(old(self).spec_entry()),
        ensures
            final(self).wf(),
            is_removal_of(*old(self), *final(self), removed@),
    {
        let ghost before = *self;
        let dropped = self.union_groups(removed);
        self.remove_nodes_descending(removed);
        let ghost mid = *self;
        let blocks = set_to_vec(&dropped);
        let mut i: usize = 0;
        while i < blocks.len()
            invariant
                0 <= i <= blocks@.len(),
                blocks@.to_set() == dropped@,
                self.nodes() == mid.nodes(),
                self.edges() == mid.edges(),
                self.groups() == mid.groups(),
                self.spec_entry() == mid.spec_entry(),
                self.spec_generation() == mid.spec_generation(),
                forall|c: NodeId| #[trigger] self.owners().dom().contains(c) <==> mid.owners().dom().contains(c)
                    && !blocks@.take(i as int).contains(c),
                forall|c: NodeId| #[trigger] self.owners().dom().contains(c) ==> self.owners()[c] == mid.owners()[c],
            decreases blocks@.len() - i,
        {
            let ghost o0 = self.cfg_to_region@;
            proof {
                assert(o0 == self.owners());
                assert forall|c: NodeId| #[trigger] o0.dom().contains(c) <==> mid.owners().dom().contains(c)
                    && !blocks@.take(i as int).contains(c) by {
                    assert(self.owners().dom().contains(c) == o0.dom().contains(c));
                }
                assert forall|c: NodeId| #[trigger] o0.dom().contains(c) implies o0[c] == mid.owners()[c] by {
                    assert(self.owners().dom().contains(c));
                }
            }
            self.cfg_to_region.remove(&blocks[i]);
            proof {
                assert(self.owners() == o0.remove(blocks@[i as int]));
                assert(blocks@.take(i + 1) =~= blocks@.take(i as int).push(blocks@[i as int]));
                assert forall|c: NodeId| #[trigger] blocks@.take(i + 1).contains(c) <==> blocks@.take(i as int).contains(c)
                    || c == blocks@[i as int] by {
                    if blocks@.take(i + 1).contains(c) && c != blocks@[i as int] {
                        let t1 = blocks@.take(i + 1);
                        let q = choose|q: int| 0 <= q < t1.len() && t1[q] == c;
                        assert(blocks@.take(i as int)[q] == c);
                    }
                    if blocks@.take(i as int).contains(c) {
                        let t0 = blocks@.take(i as int);
                        let q = choose|q: int| 0 <= q < t0.len() && t0[q] == c;
                        assert(blocks@.take(i + 1)[q] == c);
                    }
                    assert(blocks@.take(i + 1)[i as int] == blocks@[i as int]);
                }
                assert forall|c: NodeId| #[trigger] self.owners().dom().contains(c) <==> mid.owners().dom().contains(c)
                    && !blocks@.take(i + 1).contains(c) by {
                    assert(o0.dom().contains(c) <==> mid.owners().dom().contains(c) && !blocks@.take(i as int).contains(c));
                }
                assert forall|c: NodeId| #[trigger] self.owners().dom().contains(c) implies self.owners()[c] == mid.owners()[c] by {
                    assert(o0.dom().contains(c));
                    assert(o0[c] == mid.owners()[c]);
                }
            }
            i += 1;
        }
        proof {
            assert(blocks@.take(i as int) =~= blocks@);
            let n = before.nodes().len();
            let pre = survivors(n, removed@);
            let m = pre.len();
            assert forall|c: NodeId| #[trigger] self.owners().dom().contains(c) <==> before.owners().dom().contains(c)
                && !removed@.contains(before.owners()[c]) by {
                assert(blocks@.contains(c) <==> dropped@.contains(c)) by {
                    assert(blocks@.to_set().contains(c) == blocks@.contains(c));
                }
            }
            lemma_survivors_cover_all(n, removed@, pre);
            assert forall|r: NodeId, c: NodeId| r < m && #[trigger] self.groups()[r].contains(c)
                implies self.owners().dom().contains(c) && self.owners()[c] == r by {
                let o = pre[r as int] as NodeId;
                assert(before.groups()[o].contains(c));
                assert(before.owners()[c] == o);
                assert(self.owners().dom().contains(c));
                assert(self.owners()[c] == mid.owners()[c]);
                let j = mid.owners()[c];
                assert(j < m && pre[j as int] == before.owners()[c]);
                assert(pre[j as int] == pre[r as int]);
            }
            assert(self.wf());
        }
    }

    /// Remove the nodes of `removed`, from the highest index down, keeping
    /// the block maps and the entry in step with petgraph's renumbering.
    #[verifier::rlimit(50)]
    fn remove_nodes_descending(&mut self, removed: &HashSet<NodeId>)
        requires
            old(self).wf(),
            forall|r: NodeId| #[trigger] removed@.contains(r) ==> r < old(self).nodes().len(),
        ensures
            ({
                let n = old(self).nodes().len();
                let pre = survivors(n, removed@);
                &&& final(self).nodes().len() == pre.len()
                &&& forall|j: int| 0 <= j < pre.len() ==> 0 <= #[trigger] pre[j] < n && !removed@.contains(pre[j] as NodeId)
                &&& forall|j1: int, j2: int| 0 <= j1 < pre.len() && 0 <= j2 < pre.len() && j1 != j2 ==> #[trigger] pre[j1] != #[trigger] pre[j2]
                &&& forall|j: int| 0 <= j < pre.len() ==> #[trigger] final(self).nodes()[j] == old(self).nodes()[pre[j]]
                &&& forall|e: (NodeId, NodeId, EdgeKind)| #[trigger] final(self).edges().count(e) == if e.0 < pre.len() && e.1 < pre.len() {
                    old(self).edges().count((pre[e.0 as int] as NodeId, pre[e.1 as int] as NodeId, e.2))
                } else {
                    0
                }
                &&& forall|r: NodeId| #[trigger] final(self).groups().dom().contains(r) <==> r < pre.len()
                &&& forall|r: NodeId| r < pre.len() ==> #[trigger] final(self).groups()[r] == old(self).groups()[pre[r as int] as NodeId]
                &&& forall|c: NodeId| #[trigger] final(self).owners().dom().contains(c) <==> old(self).owners().dom().contains(c)
                &&& forall|c: NodeId| #[trigger] old(self).owners().dom().contains(c) && !removed@.contains(old(self).owners()[c])
                    ==> final(self).owners()[c] < pre.len() && pre[final(self).owners()[c] as int] == old(self).owners()[c]
                &&& !removed@.contains(old(self).spec_entry()) ==> final(self).spec_entry() < pre.len() && pre[final(self).spec_entry() as int] == old(self).spec_entry()
                &&& final(self).spec_generation() == old(self).spec_generation()
                &&& pre.len() == n - count_below(removed@, n as int)
            }),
    {
        let ghost n = self.nodes().len();
        let ghost r_set = removed@;
        let ghost old_nodes = self.nodes();
        let ghost old_edges = self.edges();
        let ghost old_groups = self.groups();
        let ghost old_owners = self.owners();
        let ghost old_entry = self.entry;
        let ghost mut pre: Seq<int> = Seq::new(n, |j: int| j);
        let mut x: usize = node_count(&self.graph);
        proof {
            assert forall|e: (NodeId, NodeId, EdgeKind)| #[trigger] self.edges().count(e) == if e.0 < pre.len() && e.1 < pre.len() {
                old_edges.count((pre[e.0 as int] as NodeId, pre[e.1 as int] as NodeId, e.2))
            } else {
                0
            } by {
                if e.0 < pre.len() && e.1 < pre.len() {
                    assert((pre[e.0 as int] as NodeId, pre[e.1 as int] as NodeId, e.2) == e);
                }
            }
        }
        while x > 0
            invariant
                old(self).wf(),
                n == old(self).nodes().len(),
                n <= usize::MAX,
                r_set == removed@,
                forall|r: NodeId| #[trigger] r_set.contains(r) ==> r < n,
                old_nodes == old(self).nodes(),
                old_edges == old(self).edges(),
                old_groups == old(self).groups(),
                old_owners == old(self).owners(),
                old_entry == old(self).spec_entry(),
                self.generation == old(self).generation,
                pre.len() == self.nodes().len(),
                x <= pre.len(),
                forall|j: int| 0 <= j < x ==> #[trigger] pre[j] == j,
                forall|j: int| x <= j < pre.len() ==> x <= #[trigger] pre[j] < n && !r_set.contains(pre[j] as NodeId),
                forall|j1: int, j2: int| 0 <= j1 < pre.len() && 0 <= j2 < pre.len() && j1 != j2 ==> #[trigger] pre[j1] != #[trigger] pre[j2],
                forall|j: int| 0 <= j < pre.len() ==> #[trigger] self.nodes()[j] == old_nodes[pre[j]],
                forall|e: (NodeId, NodeId, EdgeKind)| #[trigger] self.edges().count(e) == if e.0 < pre.len() && e.1 < pre.len() {
                    old_edges.count((pre[e.0 as int] as NodeId, pre[e.1 as int] as NodeId, e.2))
                } else {
                    0
                },
                forall|r: NodeId| #[trigger] self.groups().dom().contains(r) <==> r < pre.len(),
                forall|r: NodeId| r < pre.len() ==> #[trigger] self.groups()[r] == old_groups[pre[r as int] as NodeId],
                forall|c: NodeId| #[trigger] self.owners().dom().contains(c) <==> old_owners.dom().contains(c),
                forall|c: NodeId| #[trigger] old_owners.dom().contains(c) && (!r_set.contains(old_owners[c]) || old_owners[c] < x)
                    ==> self.owners()[c] < pre.len() && pre[self.owners()[c] as int] == old_owners[c],
                (!r_set.contains(old_entry) || old_entry < x) ==> self.entry < pre.len() && pre[self.entry as int] == old_entry,
                survivors_from(pre, r_set, x as int) == survivors(n, r_set),
                pre.len() == n - (count_below(r_set, n as int) - count_below(r_set, x as int)),
                count_below(r_set, x as int) <= count_below(r_set, n as int),
            decreases x,
        {
            x -= 1;
            let a = x;
            if removed.contains(&a) {
                let ghost len = pre.len();
                let ghost pre0 = pre;
                let ghost groups0 = self.groups();
                let ghost owners0 = self.owners();
                let ghost edges0 = self.edges();
                let ghost nodes0 = self.nodes();
                let ghost r2c0 = self.region_to_cfg@;
                let node_count_before = node_count(&self.graph);
                proof {
                    assert(groups0.dom().contains(a));
                    assert(r2c0.dom().contains(a));
                    if (a as int) < len - 1 {
                        assert(groups0.dom().contains((len - 1) as NodeId));
                        assert(r2c0.dom().contains((len - 1) as NodeId));
                    }
                }
                self.region_to_cfg.remove(&a);
                let _ = remove_node(&mut self.graph, a);
                proof {
                    pre = swap_remove_seq(pre0, a as int);
                }
                if a < node_count_before - 1 {
                    let old_last = node_count_before - 1;
                    if let Some(cfg_nodes) = self.region_to_cfg.remove(&old_last) {
                        let blocks = set_to_vec(&cfg_nodes);
                        let ghost owners1 = self.cfg_to_region@;
                        self.reassign_owner(&blocks, a);
                        proof {
                            assert(cfg_nodes@ == groups0[old_last]);
                            assert forall|c: NodeId| #[trigger] self.cfg_to_region@.dom().contains(c)
                                implies self.cfg_to_region@[c] == if groups0[old_last].contains(c) {
                                a
                            } else {
                                owners0[c]
                            } by {
                                assert(blocks@.contains(c) == blocks@.to_set().contains(c));
                            }
                            assert forall|c: NodeId| #[trigger] self.cfg_to_region@.dom().contains(c)
                                implies owners0.dom().contains(c) by {
                                assert(blocks@.contains(c) == blocks@.to_set().contains(c));
                                if groups0[old_last].contains(c) {
                                    assert(old_groups[pre0[old_last as int] as NodeId].contains(c));
                                }
                            }
                        }
                        self.region_to_cfg.insert(a, cfg_nodes);
                    }
                    if self.entry == old_last {
                        self.entry = a;
                    }
                }
                proof {
                    let l = len as int;
                    assert(pre.len() == l - 1);
                    assert forall|y: int| 0 <= y < l - 1 implies #[trigger] pre[y] == pre0[index_before_removal(y, a as int, l)] by {}
                    assert forall|j: int| 0 <= j < pre.len() implies #[trigger] self.nodes()[j] == old_nodes[pre[j]] by {
                        assert(self.nodes()[j] == nodes0[index_before_removal(j, a as int, l)]);
                    }
                    assert forall|e: (NodeId, NodeId, EdgeKind)| #[trigger] self.edges().count(e) == if e.0 < pre.len() && e.1 < pre.len() {
                        old_edges.count((pre[e.0 as int] as NodeId, pre[e.1 as int] as NodeId, e.2))
                    } else {
                        0
                    } by {
                        if e.0 < pre.len() && e.1 < pre.len() {
                            let u = index_before_removal(e.0 as int, a as int, l);
                            let v = index_before_removal(e.1 as int, a as int, l);
                            assert(self.edges().count(e) == edges0.count((u as NodeId, v as NodeId, e.2)));
                            assert(pre[e.0 as int] == pre0[u]);
                            assert(pre[e.1 as int] == pre0[v]);
                        }
                    }
                        if (a as int) < l - 1 {
                        assert(self.region_to_cfg@ =~= r2c0.remove(a).remove((l - 1) as NodeId).insert(a, r2c0[(l - 1) as NodeId]));
                    } else {
                        assert(self.region_to_cfg@ =~= r2c0.remove(a));
                    }
                    assert forall|r: NodeId| #[trigger] self.groups().dom().contains(r) <==> r < pre.len() by {
                        assert(self.groups().dom().contains(r) == self.region_to_cfg@.dom().contains(r));
                        assert(groups0.dom().contains(r) == r2c0.dom().contains(r));
                    }
                    assert forall|r: NodeId| r < pre.len() implies #[trigger] self.groups()[r] == old_groups[pre[r as int] as NodeId] by {
                        assert(groups0.dom().contains(r));
                        assert(r2c0.dom().contains(r));
                        assert(self.region_to_cfg@.dom().contains(r));
                        assert(self.groups()[r] == self.region_to_cfg@[r]@);
                        if r == a && (a as int) < l - 1 {
                            assert(groups0[(l - 1) as NodeId] == r2c0[(l - 1) as NodeId]@);
                            assert(groups0[(l - 1) as NodeId] == old_groups[pre0[l - 1] as NodeId]);
                        } else {
                            assert(groups0[r] == r2c0[r]@);
                            assert(groups0[r] == old_groups[pre0[r as int] as NodeId]);
                        }
                    }
                    assert forall|c: NodeId| #[trigger] old_owners.dom().contains(c) && (!r_set.contains(old_owners[c]) || old_owners[c] < a)
                        implies self.owners()[c] < pre.len() && pre[self.owners()[c] as int] == old_owners[c] by {
                        let o = old_owners[c];
                        let q = owners0[c];
                        assert(q < l && pre0[q as int] == o);
                        if (a as int) < l - 1 {
                            assert(a + 1 <= pre0[l - 1] < n);
                            assert(groups0[(l - 1) as NodeId] == old_groups[pre0[l - 1] as NodeId]);
                        }
                        assert(owners0.dom().contains(c));
                        assert(self.cfg_to_region@.dom().contains(c));
                        if (a as int) < l - 1 && old_groups[pre0[l - 1] as NodeId].contains(c) {
                            assert(pre0[l - 1] < n);
                            assert(o == pre0[l - 1]);
                            assert(self.cfg_to_region@[c] == a);
                            assert(pre[a as int] == pre0[l - 1]);
                        } else {
                            if q == a {
                                assert(pre0[a as int] == a);
                            }
                            if q as int == l - 1 {
                                assert(old_groups[o].contains(c));
                            }
                            assert(self.cfg_to_region@[c] == q);
                            assert(pre[q as int] == pre0[q as int]);
                        }
                    }
                    if !r_set.contains(old_entry) || old_entry < a {
                        let q = self.entry;
                        if old(self).entry != q {
                        }
                    }
                    assert((!r_set.contains(old_entry) || old_entry < a) ==> self.entry < pre.len() && pre[self.entry as int] == old_entry);
                    assert(survivors_from(pre0, r_set, a + 1) == survivors_from(pre, r_set, a as int));
                }
            }
            proof {
                assert(count_below(r_set, a + 1) == count_below(r_set, a as int) + if r_set.contains(a) { 1nat } else { 0nat });
                if !r_set.contains(a) {
                    assert(survivors_from(pre, r_set, a + 1) == survivors_from(pre, r_set, a as int));
                }
            }
        }
        proof {
            assert(survivors_from(pre, r_set, 0) == pre);
        }
    }

    /// The CFG blocks held by the nodes of `inner`.
    fn union_groups(&self, inner: &HashSet<NodeId>) -> (res: HashSet<NodeId>)
        requires
            self.wf(),
        ensures
            forall|c: NodeId| #[trigger] res@.contains(c) <==> (self.owners().dom().contains(c)
                && inner@.contains(self.owners()[c])),
    {
        let n = node_count(&self.graph);
        let mut res: HashSet<NodeId> = HashSet::new();
        let mut r: usize = 0;
        while r < n
            invariant
                self.wf(),
                n == self.nodes().len(),
                0 <= r <= n,
                forall|c: NodeId| #[trigger] res@.contains(c) <==> (self.owners().dom().contains(c)
                    && inner@.contains(self.owners()[c]) && self.owners()[c] < r),
            decreases n - r,
        {
            if inner.contains(&r) {
                assert(self.groups().dom().contains(r));
                let group = self.region_to_cfg.get(&r).unwrap();
                let blocks = set_to_vec(group);
                let ghost before = res@;
                let mut i: usize = 0;
                while i < blocks.len()
                    invariant
                        0 <= i <= blocks.len(),
                        forall|c: NodeId| #[trigger] res@.contains(c) <==> (before.contains(c)
                            || blocks@.take(i as int).contains(c)),
                    decreases blocks.len() - i,
                {
                    res.insert(blocks[i]);
                    proof {
                        assert forall|c: NodeId| #[trigger] blocks@.take(i + 1).contains(c) == (blocks@.take(i as int).contains(c) || c == blocks@[i as int]) by {
                            if blocks@.take(i + 1).contains(c) {
                                let j = choose|j: int| 0 <= j < i + 1 && #[trigger] blocks@.take(i + 1)[j] == c;
                                if j < i {
                                    assert(blocks@.take(i as int)[j] == c);
                                }
                            }
                            if c == blocks@[i as int] {
                                assert(blocks@.take(i + 1)[i as int] == c);
                            }
                            if blocks@.take(i as int).contains(c) {
                                let j = choose|j: int| 0 <= j < i && #[trigger] blocks@.take(i as int)[j] == c;
                                assert(blocks@.take(i + 1)[j] == c);
                            }
                        }
                    }
                    i += 1;
                }
                proof {
                    assert(blocks@.take(i as int) =~= blocks@);
                    assert forall|c: NodeId| #[trigger] res@.contains(c) <==> (self.owners().dom().contains(c)
                        && inner@.contains(self.owners()[c]) && self.owners()[c] < r + 1) by {
                        assert(blocks@.contains(c) == group@.contains(c));
                        assert(group@ == self.groups()[r]);
                    }
                }
            }
            r += 1;
        }
        res
    }

    /// The edges that cross into (for `incoming`) or out of the node set
    /// `inner`, each as a block of the outside node and the edge's kind.
    fn boundary_edges(&self, inner: &HashSet<NodeId>, incoming: bool) -> (res: Vec<
        (NodeId, EdgeKind),
    >)
        requires
            self.wf(),
        ensures
            forall|i: int| #![trigger res@[i]] 0 <= i < res.len() ==> {
                &&& self.owners().dom().contains(res@[i].0)
                &&& !inner@.contains(self.owners()[res@[i].0])
                &&& crosses(self.edges(), inner@, self.owners()[res@[i].0], res@[i].1, incoming)
            },
            forall|x: NodeId, y: NodeId, k: EdgeKind|
                inner@.contains(y) && !inner@.contains(x) && #[trigger] self.edges().count(
                    crossing(x, y, k, incoming),
                ) > 0 ==> exists|i: int| 0 <= i < res.len() && (#[trigger] res@[i]).1 == k
                    && self.owners()[res@[i].0] == x,
    {
        let n = node_count(&self.graph);
        let mut res: Vec<(NodeId, EdgeKind)> = Vec::new();
        let mut r: usize = 0;
        while r < n
            invariant
                self.wf(),
                n == self.nodes().len(),
                0 <= r <= n,
                forall|i: int| #![trigger res@[i]] 0 <= i < res.len() ==> {
                    &&& self.owners().dom().contains(res@[i].0)
                    &&& !inner@.contains(self.owners()[res@[i].0])
                    &&& crosses(self.edges(), inner@, self.owners()[res@[i].0], res@[i].1, incoming)
                },
                forall|x: NodeId, y: NodeId, k: EdgeKind|
                    y < r && inner@.contains(y) && !inner@.contains(x) && #[trigger] self.edges().count(
                        crossing(x, y, k, incoming),
                    ) > 0 ==> exists|i: int| 0 <= i < res.len() && (#[trigger] res@[i]).1 == k
                        && self.owners()[res@[i].0] == x,
            decreases n - r,
        {
            if inner.contains(&r) {
                let es = self.edges_of(r, incoming);
                let ghost before = res@;
                let mut j: usize = 0;
                while j < es.len()
                    invariant
                        self.wf(),
                        n == self.nodes().len(),
                        r < n,
                        inner@.contains(r),
                        0 <= j <= es.len(),
                        forall|e: (NodeId, NodeId, EdgeKind)| #[trigger]
                            es@.to_multiset().count(e) == if (incoming && e.1 == r) || (!incoming && e.0 == r) {
                                self.edges().count(e)
                            } else {
                                0
                            },
                        forall|i: int| 0 <= i < es.len() ==> if incoming {
                            (#[trigger] es@[i]).1 == r
                        } else {
                            es@[i].0 == r
                        },
                        before.len() <= res.len(),
                        forall|i: int| 0 <= i < before.len() ==> res@[i] == before[i],
                        forall|i: int| #![trigger res@[i]] 0 <= i < res.len() ==> {
                            &&& self.owners().dom().contains(res@[i].0)
                            &&& !inner@.contains(self.owners()[res@[i].0])
                            &&& crosses(self.edges(), inner@, self.owners()[res@[i].0], res@[i].1, incoming)
                        },
                        forall|jj: int| 0 <= jj < j ==> {
                            let e = #[trigger] es@[jj];
                            let x = if incoming { e.0 } else { e.1 };
                            !inner@.contains(x) ==> exists|i: int| 0 <= i < res.len() && (#[trigger] res@[i]).1 == e.2
                                && self.owners()[res@[i].0] == x
                        },
                    decreases es.len() - j,
                {
                    let e = es[j];
                    let other = if incoming { e.0 } else { e.1 };
                    let ghost res0 = res@;
                    proof {
                        assert(es@.to_multiset().count(e) > 0);
                        assert(self.edges().count(e) > 0);
                        assert(e == crossing(other, r, e.2, incoming));
                    }
                    if !inner.contains(&other) {
                        assert(self.groups().dom().contains(other));
                        let group = self.region_to_cfg.get(&other).unwrap();
                        let blocks = set_to_vec(group);
                        proof {
                            assert(group@ == self.groups()[other]);
                            assert(group@ != Set::<NodeId>::empty());
                            if blocks@.len() == 0 {
                                assert(blocks@.to_set() =~= Set::<NodeId>::empty());
                            }
                            assert(blocks@.to_set().contains(blocks@[0]));
                        }
                        let rep = blocks[0];
                        res.push((rep, e.2));
                        proof {
                            assert(self.groups()[other].contains(rep));
                            assert(self.owners()[rep] == other);
                            let last = res@.len() - 1;
                            assert(res@[last] == (rep, e.2));
                            assert(self.edges().count(crossing(other, r, e.2, incoming)) > 0);
                        }
                    }
                    proof {
                        assert forall|jj: int| 0 <= jj < j + 1 implies {
                            let e = #[trigger] es@[jj];
                            let x = if incoming { e.0 } else { e.1 };
                            !inner@.contains(x) ==> exists|i: int| 0 <= i < res.len() && (#[trigger] res@[i]).1 == e.2
                                && self.owners()[res@[i].0] == x
                        } by {
                            let e2 = es@[jj];
                            let x2 = if incoming { e2.0 } else { e2.1 };
                            if !inner@.contains(x2) {
                                if jj < j {
                                    let i0 = choose|i: int| 0 <= i < res0.len() && (#[trigger] res0[i]).1 == e2.2
                                        && self.owners()[res0[i].0] == x2;
                                    assert(res@[i0] == res0[i0]);
                                } else {
                                    let last = res@.len() - 1;
                                    assert(res@[last].1 == e2.2);
                                }
                            }
                        }
                    }
                    j += 1;
                }
                proof {
                    assert forall|x: NodeId, y: NodeId, k: EdgeKind|
                        y < r + 1 && inner@.contains(y) && !inner@.contains(x) && #[trigger] self.edges().count(
                            crossing(x, y, k, incoming),
                        ) > 0 implies exists|i: int| 0 <= i < res.len() && (#[trigger] res@[i]).1 == k
                            && self.owners()[res@[i].0] == x by {
                        if y < r {
                            let i0 = choose|i: int| 0 <= i < before.len() && (#[trigger] before[i]).1 == k
                                && self.owners()[before[i].0] == x;
                            assert(res@[i0] == before[i0]);
                        } else {
                            let e = crossing(x, y, k, incoming);
                            assert(es@.to_multiset().count(e) > 0);
                            assert(es@.contains(e));
                            let jj = choose|jj: int| 0 <= jj < es.len() && es@[jj] == e;
                            assert(es@[jj] == e);
                        }
                    }
                }
            }
            r += 1;
        }
        proof {
            assert forall|x: NodeId, y: NodeId, k: EdgeKind|
                inner@.contains(y) && !inner@.contains(x) && #[trigger] self.edges().count(
                    crossing(x, y, k, incoming),
                ) > 0 implies exists|i: int| 0 <= i < res.len() && (#[trigger] res@[i]).1 == k
                    && self.owners()[res@[i].0] == x by {
                assert(y < n);
            }
        }
        res
    }

    /// Add one edge between `new_node` and the node owning each listed
    /// block (into `new_node` for `incoming`, out of it otherwise), skipping
    /// nodes already joined; each edge takes the kind listed first for its
    /// node.
    fn add_boundary_edges(&mut self, list: &Vec<(NodeId, EdgeKind)>, new_node: NodeId, incoming: bool)
        requires
            new_node + 1 == old(self).nodes().len(),
            forall|i: int| #![trigger list@[i]] 0 <= i < list.len() ==> old(self).owners().dom().contains(list@[i].0)
                && old(self).owners()[list@[i].0] < new_node,
            forall|x: NodeId, k: EdgeKind| #[trigger] old(self).edges().count(crossing(x, new_node, k, incoming)) == 0,
        ensures
            final(self).nodes() == old(self).nodes(),
            final(self).groups() == old(self).groups(),
            final(self).owners() == old(self).owners(),
            final(self).spec_entry() == old(self).spec_entry(),
            final(self).spec_generation() == old(self).spec_generation(),
            forall|e: (NodeId, NodeId, EdgeKind)| #![trigger final(self).edges().count(e)]
                (if incoming { e.1 != new_node || e.0 == new_node } else { e.0 != new_node || e.1 == new_node })
                ==> final(self).edges().count(e) == old(self).edges().count(e),
            forall|x: NodeId| x < new_node ==> #[trigger] edges_between(final(self).edges(), crossing(x, new_node, EdgeKind::FallThrough, incoming).0, crossing(x, new_node, EdgeKind::FallThrough, incoming).1)
                == if exists|i: int| 0 <= i < list.len() && old(self).owners()[(#[trigger] list@[i]).0] == x { 1nat } else { 0nat },
            forall|x: NodeId, k: EdgeKind| #[trigger] final(self).edges().count(crossing(x, new_node, k, incoming)) > 0
                ==> x < new_node && exists|i: int| 0 <= i < list.len() && (#[trigger] list@[i]).1 == k
                    && old(self).owners()[list@[i].0] == x,
    {
        let mut added: HashSet<NodeId> = HashSet::new();
        let mut i: usize = 0;
        let ghost e0 = self.edges();
        let ghost owners = self.owners();
        proof {
            assert forall|x: NodeId| x < new_node implies #[trigger] edges_between(self.edges(), crossing(x, new_node, EdgeKind::FallThrough, incoming).0, crossing(x, new_node, EdgeKind::FallThrough, incoming).1)
                == if added@.contains(x) { 1nat } else { 0nat } by {
                assert(e0.count(crossing(x, new_node, EdgeKind::FallThrough, incoming)) == 0);
                assert(e0.count(crossing(x, new_node, EdgeKind::Unconditional, incoming)) == 0);
                assert(e0.count(crossing(x, new_node, EdgeKind::ConditionalTrue, incoming)) == 0);
                assert(e0.count(crossing(x, new_node, EdgeKind::ConditionalFalse, incoming)) == 0);
                assert(e0.count(crossing(x, new_node, EdgeKind::Switch, incoming)) == 0);
                assert(e0.count(crossing(x, new_node, EdgeKind::ExceptionHandler, incoming)) == 0);
            }
        }
        while i < list.len()
            invariant
                0 <= i <= list.len(),
                new_node + 1 == self.nodes().len(),
                self.nodes() == old(self).nodes(),
                self.groups() == old(self).groups(),
                self.owners() == old(self).owners(),
                owners == old(self).owners(),
                e0 == old(self).edges(),
                self.spec_entry() == old(self).spec_entry(),
                self.spec_generation() == old(self).spec_generation(),
                forall|j: int| #![trigger list@[j]] 0 <= j < list.len() ==> owners.dom().contains(list@[j].0)
                    && owners[list@[j].0] < new_node,
                forall|x: NodeId| #[trigger] added@.contains(x) <==> exists|j: int| 0 <= j < i && owners[(#[trigger] list@[j]).0] == x,
                forall|e: (NodeId, NodeId, EdgeKind)| #![trigger self.edges().count(e)]
                    (if incoming { e.1 != new_node || e.0 == new_node } else { e.0 != new_node || e.1 == new_node })
                    ==> self.edges().count(e) == e0.count(e),
                forall|x: NodeId| x < new_node ==> #[trigger] edges_between(self.edges(), crossing(x, new_node, EdgeKind::FallThrough, incoming).0, crossing(x, new_node, EdgeKind::FallThrough, incoming).1)
                    == if added@.contains(x) { 1nat } else { 0nat },
                forall|x: NodeId, k: EdgeKind| #[trigger] self.edges().count(crossing(x, new_node, k, incoming)) > 0
                    ==> x < new_node && exists|j: int| 0 <= j < i && (#[trigger] list@[j]).1 == k
                        && owners[list@[j].0] == x,
            decreases list.len() - i,
        {
            let (c, k) = list[i];
            proof {
                assert(owners.dom().contains(list@[i as int].0));
            }
            let ghost e1 = self.edges();
            let ghost added0 = added@;
            if let Some(other) = self.cfg_to_region.get(&c) {
                let other = *other;
                if other != new_node && !added.contains(&other) {
                    if incoming {
                        add_edge(&mut self.graph, other, new_node, k);
                    } else {
                        add_edge(&mut self.graph, new_node, other, k);
                    }
                    added.insert(other);
                }
            }
            proof {
                let o = owners[c];
                assert(o == owners[list@[i as int].0]);
                assert forall|x: NodeId| #[trigger] added@.contains(x) <==> exists|j: int| 0 <= j < i + 1 && owners[(#[trigger] list@[j]).0] == x by {
                    if added@.contains(x) && !added0.contains(x) {
                        assert(owners[list@[i as int].0] == x);
                    }
                    if exists|j: int| 0 <= j < i + 1 && owners[(#[trigger] list@[j]).0] == x {
                        let j = choose|j: int| 0 <= j < i + 1 && owners[(#[trigger] list@[j]).0] == x;
                        if j < i {
                            assert(added0.contains(x));
                        }
                    }
                }
                let ins = crossing(o, new_node, k, incoming);
                assert forall|x: NodeId| x < new_node implies #[trigger] edges_between(self.edges(), crossing(x, new_node, EdgeKind::FallThrough, incoming).0, crossing(x, new_node, EdgeKind::FallThrough, incoming).1)
                    == if added@.contains(x) { 1nat } else { 0nat } by {
                    let a = crossing(x, new_node, EdgeKind::FallThrough, incoming).0;
                    let b = crossing(x, new_node, EdgeKind::FallThrough, incoming).1;
                    if added@.contains(o) && !added0.contains(o) {
                        assert(self.edges() == e1.insert(ins));
                        lemma_edges_between_insert(e1, ins, a, b);
                    }
                }
                assert forall|x: NodeId, kk: EdgeKind| #[trigger] self.edges().count(crossing(x, new_node, kk, incoming)) > 0
                    implies x < new_node && exists|j: int| 0 <= j < i + 1 && (#[trigger] list@[j]).1 == kk
                        && owners[list@[j].0] == x by {
                    if e1.count(crossing(x, new_node, kk, incoming)) > 0 {
                        let j = choose|j: int| 0 <= j < i && (#[trigger] list@[j]).1 == kk && owners[list@[j].0] == x;
                        assert(list@[j].1 == kk);
                    } else {
                        assert(crossing(x, new_node, kk, incoming) == ins);
                        assert(list@[i as int].1 == kk);
                    }
                }
            }
            i += 1;
        }
        proof {
            assert forall|x: NodeId| x < new_node implies #[trigger] edges_between(self.edges(), crossing(x, new_node, EdgeKind::FallThrough, incoming).0, crossing(x, new_node, EdgeKind::FallThrough, incoming).1)
                == if exists|j: int| 0 <= j < list.len() && old(self).owners()[(#[trigger] list@[j]).0] == x { 1nat } else { 0nat } by {
                assert(added@.contains(x) == exists|j: int| 0 <= j < list.len() && owners[(#[trigger] list@[j]).0] == x);
            }
        }
    }

    /// Collapse a set of nodes into a single region node.
    ///
    /// The nodes are removed (highest index first; petgraph moves the last
    /// node into each freed index), a node holding `region` is added at the
    /// end, and every edge that crossed the boundary of the set is rerouted
    /// to it, one edge per outside node and direction. Returns the index of
    /// the new node.
    #[verifier::rlimit(80)]
    pub fn collapse(&mut self, nodes: &HashSet<NodeId>, region: Region) -> (res: NodeId)
        requires
            old(self).wf(),
            nodes@ != Set::<NodeId>::empty(),
            forall|r: NodeId| #[trigger] nodes@.contains(r) ==> r < old(self).nodes().len(),
            old(self).spec_generation() < u64::MAX,
        ensures
            final(self).wf(),
            is_collapse_of(*old(self), *final(self), nodes@, region, res),
    {
        let ghost n = self.nodes().len();
        let ghost r_set = nodes@;
        let ghost pre = survivors(n, r_set);
        let ghost old_self_nodes = self.nodes();
        let ghost old_edges = self.edges();
        let ghost old_groups = self.groups();
        let ghost old_owners = self.owners();
        let ghost old_entry = self.entry;
        proof {
            if !exists|r: NodeId| r_set.contains(r) {
                assert(r_set =~= Set::<NodeId>::empty());
            }
        }
        let entry_is_collapsed = nodes.contains(&self.entry);
        let all_cfg_nodes = self.union_groups(nodes);
        let ghost all_set = all_cfg_nodes@;
        let incoming = self.boundary_edges(nodes, true);
        let outgoing = self.boundary_edges(nodes, false);
        self.remove_nodes_descending(nodes);
        let ghost m = pre.len();
        let ghost nodes1 = self.nodes();
        let ghost edges1 = self.edges();
        let ghost owners1 = self.owners();
        let ghost groups1 = self.groups();
        let ghost r2c1 = self.region_to_cfg@;
        let new_node = add_node(&mut self.graph, RegionNode::Collapsed(region));
        let blocks = set_to_vec(&all_cfg_nodes);
        self.reassign_owner(&blocks, new_node);
        self.region_to_cfg.insert(new_node, all_cfg_nodes);
        let ghost owners2 = self.owners();
        let ghost edges2 = self.edges();
        let ghost groups2 = self.groups();
        proof {
            assert(self.region_to_cfg@ == r2c1.insert(new_node, all_cfg_nodes));
            assert(groups2 =~= groups1.insert(new_node, all_set));
            assert forall|c: NodeId| #[trigger] owners2.dom().contains(c) <==> old_owners.dom().contains(c) by {
                assert(blocks@.contains(c) == blocks@.to_set().contains(c));
            }
            assert forall|c: NodeId| #[trigger] old_owners.dom().contains(c) implies
                owners2[c] == if r_set.contains(old_owners[c]) { new_node } else { owners1[c] } by {
                assert(blocks@.contains(c) == blocks@.to_set().contains(c));
                assert(owners2.dom().contains(c));
            }
            assert forall|i: int| #![trigger incoming@[i]] 0 <= i < incoming.len() implies owners2.dom().contains(incoming@[i].0)
                && owners2[incoming@[i].0] < new_node by {
                let c = incoming@[i].0;
                assert(old_owners.dom().contains(c));
            }
            assert forall|x: NodeId, k: EdgeKind| #[trigger] edges2.count(crossing(x, new_node, k, true)) == 0 by {}
        }
        self.add_boundary_edges(&incoming, new_node, true);
        let ghost edges3 = self.edges();
        proof {
            assert forall|i: int| #![trigger outgoing@[i]] 0 <= i < outgoing.len() implies owners2.dom().contains(outgoing@[i].0)
                && owners2[outgoing@[i].0] < new_node by {
                let c = outgoing@[i].0;
                assert(old_owners.dom().contains(c));
            }
            assert forall|x: NodeId, k: EdgeKind| #[trigger] edges3.count(crossing(x, new_node, k, false)) == 0 by {
                assert(edges3.count((new_node, x, k)) == edges2.count((new_node, x, k)));
            }
        }
        self.add_boundary_edges(&outgoing, new_node, false);
        let ghost edges4 = self.edges();
        let ghost nodes4 = self.nodes();
        if entry_is_collapsed {
            self.entry = new_node;
        }
        self.generation = self.generation + 1;
        proof {
            assert(self.edges() == edges4);
            assert(self.nodes() == nodes4);
            assert(new_node == m);
            assert(m + 1 <= n) by {
                lemma_count_below(r_set, n as int);
                let r0 = choose|r: NodeId| r_set.contains(r);
                assert(removed_below(r_set, n as int).contains(r0));
            }
            assert(self.nodes() == nodes1.push(RegionNode::Collapsed(region)));
            assert(self.groups() == groups2);
            assert(self.owners() == owners2);
            // An outside block's owner after the collapse is the survivor
            // standing for its owner before.
            assert forall|c: NodeId| #[trigger] old_owners.dom().contains(c) && !r_set.contains(old_owners[c])
                implies owners2[c] < m && pre[owners2[c] as int] == old_owners[c] by {}
            // Edges that do not touch the new node are those left by the removal.
            assert forall|e: (NodeId, NodeId, EdgeKind)| e.0 != new_node && e.1 != new_node implies
                #[trigger] edges4.count(e) == edges1.count(e) by {
                assert(edges4.count(e) == edges3.count(e));
            }
            assert forall|e: (NodeId, NodeId, EdgeKind)| #[trigger] edges4.count(e) > 0 implies
                e.0 < m + 1 && e.1 < m + 1 by {
                if e.0 == new_node && e.1 != new_node {
                    assert(edges4.count(crossing(e.1, new_node, e.2, false)) > 0);
                } else {
                    assert(edges4.count(e) == edges3.count(e));
                    if e.1 == new_node && e.0 != new_node {
                        assert(edges3.count(crossing(e.0, new_node, e.2, true)) > 0);
                    } else {
                        assert(edges3.count(e) == edges2.count(e));
                    }
                }
            }
            // The new node holds at least one block.
            let r0 = choose|r: NodeId| r_set.contains(r);
            assert(r_set.contains(r0));
            assert(old_groups[r0] != Set::<NodeId>::empty());
            assert(exists|c: NodeId| old_groups[r0].contains(c)) by {
                if !exists|c: NodeId| old_groups[r0].contains(c) {
                    assert(old_groups[r0] =~= Set::<NodeId>::empty());
                }
            }
            let c0 = choose|c: NodeId| old_groups[r0].contains(c);
            assert(all_set.contains(c0));
            assert forall|r: NodeId| #[trigger] self.groups().dom().contains(r) <==> r < m + 1 by {}
            assert forall|r: NodeId| r < m + 1 implies #[trigger] self.groups()[r] != Set::<NodeId>::empty() by {
                if r < m {
                    assert(pre[r as int] < n);
                    assert(old_groups[pre[r as int] as NodeId] != Set::<NodeId>::empty());
                } else {
                    assert(self.groups()[r].contains(c0));
                }
            }
            assert forall|c: NodeId| #[trigger] self.owners().dom().contains(c) implies
                self.owners()[c] < m + 1 && self.groups()[self.owners()[c]].contains(c) by {
                if !r_set.contains(old_owners[c]) {
                    let q = owners2[c];
                    assert(groups1[q] == old_groups[pre[q as int] as NodeId]);
                }
            }
            assert forall|r: NodeId, c: NodeId| r < m + 1 && #[trigger] self.groups()[r].contains(c) implies
                self.owners().dom().contains(c) && self.owners()[c] == r by {
                if r < m {
                    let o = pre[r as int] as NodeId;
                    assert(groups1[r] == old_groups[o]);
                    assert(old_owners.dom().contains(c) && old_owners[c] == o);
                    assert(!r_set.contains(o));
                    let q = owners2[c];
                    assert(q < m && pre[q as int] == pre[r as int]);
                }
            }
            assert(self.wf());
            // Edges into the new node.
            assert forall|x: NodeId| x < m implies #[trigger] edges_between(edges4, x, new_node) == if crosses_any(
                old_edges, r_set, pre[x as int] as NodeId, true) { 1nat } else { 0nat } by {
                lemma_edges_between_same(edges4, edges3, x, new_node);
                assert(crossing(x, new_node, EdgeKind::FallThrough, true) == (x, new_node, EdgeKind::FallThrough));
                let px = pre[x as int] as NodeId;
                if exists|i: int| 0 <= i < incoming.len() && owners2[(#[trigger] incoming@[i]).0] == x {
                    let i = choose|i: int| 0 <= i < incoming.len() && owners2[(#[trigger] incoming@[i]).0] == x;
                    let c = incoming@[i].0;
                    assert(crosses(old_edges, r_set, old_owners[c], incoming@[i].1, true));
                    assert(old_owners[c] == px);
                }
                if crosses_any(old_edges, r_set, px, true) {
                    let k = choose|k: EdgeKind| #[trigger] crosses(old_edges, r_set, px, k, true);
                    let y = choose|y: NodeId| r_set.contains(y) && #[trigger] old_edges.count(crossing(px, y, k, true)) > 0;
                    assert(!r_set.contains(px));
                    let i = choose|i: int| 0 <= i < incoming.len() && (#[trigger] incoming@[i]).1 == k
                        && old_owners[incoming@[i].0] == px;
                    let c = incoming@[i].0;
                    assert(owners2[c] < m && pre[owners2[c] as int] == px);
                    assert(owners2[incoming@[i].0] == x);
                }
            }
            // Edges out of the new node.
            assert forall|x: NodeId| x < m implies #[trigger] edges_between(edges4, new_node, x) == if crosses_any(
                old_edges, r_set, pre[x as int] as NodeId, false) { 1nat } else { 0nat } by {
                assert(crossing(x, new_node, EdgeKind::FallThrough, false) == (new_node, x, EdgeKind::FallThrough));
                let px = pre[x as int] as NodeId;
                if exists|i: int| 0 <= i < outgoing.len() && owners2[(#[trigger] outgoing@[i]).0] == x {
                    let i = choose|i: int| 0 <= i < outgoing.len() && owners2[(#[trigger] outgoing@[i]).0] == x;
                    let c = outgoing@[i].0;
                    assert(crosses(old_edges, r_set, old_owners[c], outgoing@[i].1, false));
                    assert(old_owners[c] == px);
                }
                if crosses_any(old_edges, r_set, px, false) {
                    let k = choose|k: EdgeKind| #[trigger] crosses(old_edges, r_set, px, k, false);
                    let y = choose|y: NodeId| r_set.contains(y) && #[trigger] old_edges.count(crossing(px, y, k, false)) > 0;
                    assert(!r_set.contains(px));
                    let i = choose|i: int| 0 <= i < outgoing.len() && (#[trigger] outgoing@[i]).1 == k
                        && old_owners[outgoing@[i].0] == px;
                    let c = outgoing@[i].0;
                    assert(owners2[c] < m && pre[owners2[c] as int] == px);
                    assert(owners2[outgoing@[i].0] == x);
                }
            }
            assert forall|x: NodeId, k: EdgeKind| #[trigger] edges4.count((x, new_node, k)) > 0 implies
                x < m && crosses(old_edges, r_set, pre[x as int] as NodeId, k, true) by {
                assert(edges4.count((x, new_node, k)) == edges3.count((x, new_node, k)));
                if x == new_node {
                    assert(edges3.count((x, new_node, k)) == edges2.count((x, new_node, k)));
                } else {
                    assert(edges3.count(crossing(x, new_node, k, true)) > 0);
                    let i = choose|i: int| 0 <= i < incoming.len() && (#[trigger] incoming@[i]).1 == k
                        && owners2[incoming@[i].0] == x;
                    let c = incoming@[i].0;
                    assert(crosses(old_edges, r_set, old_owners[c], k, true));
                }
            }
            assert forall|x: NodeId, k: EdgeKind| #[trigger] edges4.count((new_node, x, k)) > 0 implies
                x < m && crosses(old_edges, r_set, pre[x as int] as NodeId, k, false) by {
                if x == new_node {
                    assert(edges4.count((x, new_node, k)) == edges3.count((x, new_node, k)));
                    assert(edges3.count((x, new_node, k)) == edges2.count((x, new_node, k)));
                } else {
                    assert(edges4.count(crossing(x, new_node, k, false)) > 0);
                    let i = choose|i: int| 0 <= i < outgoing.len() && (#[trigger] outgoing@[i]).1 == k
                        && owners2[outgoing@[i].0] == x;
                    let c = outgoing@[i].0;
                    assert(crosses(old_edges, r_set, old_owners[c], k, false));
                }
            }
            assert forall|e: (NodeId, NodeId, EdgeKind)| e.0 < m && e.1 < m implies #[trigger] edges4.count(e)
                == old_edges.count((pre[e.0 as int] as NodeId, pre[e.1 as int] as NodeId, e.2)) by {
                assert(edges4.count(e) == edges1.count(e));
            }
        }
        new_node
    }

    /// The only successor of `a`, if it has exactly one outgoing edge.
    fn sole_successor(&self, a: NodeId) -> (res: Option<NodeId>)
        ensures
            match res {
                Some(b) => single_successor(self.edges(), a, b),
                None => forall|b: NodeId| !#[trigger] single_successor(self.edges(), a, b),
            },
    {
        let succs = self.successors(a);
        let ghost ms = succs@.to_multiset();
        if succs.len() == 1 {
            let b = succs[0];
            proof {
                assert(succs@ =~= Seq::<NodeId>::empty().push(b));
                assert(ms =~= Multiset::<NodeId>::empty().insert(b));
                assert forall|t: NodeId| #[trigger] edges_between(self.edges(), a, t) == if t == b { 1nat } else { 0nat } by {
                    assert(ms.count(t) == edges_between(self.edges(), a, t));
                }
            }
            Some(b)
        } else {
            proof {
                assert forall|b: NodeId| !#[trigger] single_successor(self.edges(), a, b) by {
                    if single_successor(self.edges(), a, b) {
                        assert forall|t: NodeId| ms.count(t) == Multiset::<NodeId>::singleton(b).count(t) by {
                            assert(ms.count(t) == edges_between(self.edges(), a, t));
                        }
                        assert(ms =~= Multiset::<NodeId>::singleton(b));
                        assert(ms.len() == 1);
                    }
                }
            }
            None
        }
    }

    /// The only predecessor of `b`, if it has exactly one incoming edge.
    fn sole_predecessor(&self, b: NodeId) -> (res: Option<NodeId>)
        ensures
            match res {
                Some(a) => single_predecessor(self.edges(), b, a),
                None => forall|a: NodeId| !#[trigger] single_predecessor(self.edges(), b, a),
            },
    {
        let preds = self.predecessors(b);
        let ghost ms = preds@.to_multiset();
        if preds.len() == 1 {
            let a = preds[0];
            proof {
                assert(preds@ =~= Seq::<NodeId>::empty().push(a));
                assert(ms =~= Multiset::<NodeId>::empty().insert(a));
                assert forall|p: NodeId| #[trigger] edges_between(self.edges(), p, b) == if p == a { 1nat } else { 0nat } by {
                    assert(ms.count(p) == edges_between(self.edges(), p, b));
                }
            }
            Some(a)
        } else {
            proof {
                assert forall|a: NodeId| !#[trigger] single_predecessor(self.edges(), b, a) by {
                    if single_predecessor(self.edges(), b, a) {
                        assert forall|p: NodeId| ms.count(p) == Multiset::<NodeId>::singleton(a).count(p) by {
                            assert(ms.count(p) == edges_between(self.edges(), p, b));
                        }
                        assert(ms =~= Multiset::<NodeId>::singleton(a));
                        assert(ms.len() == 1);
                    }
                }
            }
            None
        }
    }

    /// Collapse a sequence of nodes into a Sequence region.
    ///
    /// The nodes must form a linear chain: distinct, each but the last
    /// having exactly one successor, the next node. Otherwise nothing
    /// changes and `None` is returned. The new node holds the sequence of
    /// the nodes' regions, in order.
    #[verifier::loop_isolation(false)]
    pub fn collapse_sequence(&mut self, nodes: Vec<NodeId>) -> (res: Option<NodeId>)
        requires
            old(self).wf(),
            old(self).spec_generation() < u64::MAX,
        ensures
            final(self).wf(),
            res is Some <==> (nodes.len() >= 2 && nodes@.no_duplicates() && is_successor_chain(
                old(self).edges(),
                nodes@,
            )),
            res is None ==> *final(self) == *old(self),
            match res {
                Some(k) => final(self).nodes()[k as int] matches RegionNode::Collapsed(r)
                    && is_sequence_of(r, nodes@.map_values(|x: NodeId| node_region(old(self).nodes()[x as int])))
                    && is_collapse_of(*old(self), *final(self), nodes@.to_set(), r, k),
                None => true,
            },
    {
        if nodes.len() < 2 {
            return None;
        }
        let ghost e = self.edges();
        let mut seen: HashSet<NodeId> = HashSet::new();
        let mut i: usize = 0;
        while i < nodes.len()
            invariant
                0 <= i <= nodes.len(),
                seen@ == nodes@.take(i as int).to_set(),
                nodes@.take(i as int).no_duplicates(),
                forall|j: int| 0 <= j < i && j < nodes.len() - 1 ==> #[trigger] single_successor(e, nodes@[j], nodes@[j + 1]),
            decreases nodes.len() - i,
        {
            let x = nodes[i];
            if seen.contains(&x) {
                proof {
                    let j = choose|j: int| 0 <= j < i && nodes@.take(i as int)[j] == x;
                    assert(nodes@[j] == nodes@[i as int]);
                }
                return None;
            }
            seen.insert(x);
            proof {
                assert(nodes@.take(i + 1) =~= nodes@.take(i as int).push(x));
                nodes@.take(i as int).lemma_push_to_set_commute(x);
            }
            if i + 1 < nodes.len() {
                let next = nodes[i + 1];
                match self.sole_successor(x) {
                    Some(s) => {
                        if s != next {
                            proof {
                                if single_successor(e, x, next) {
                                    lemma_single_successor_unique(e, x, s, next);
                                }
                                assert(!single_successor(e, nodes@[i as int], nodes@[i + 1]));
                            }
                            return None;
                        }
                    },
                    None => {
                        proof {
                            assert(!single_successor(e, nodes@[i as int], nodes@[i + 1]));
                        }
                        return None;
                    },
                }
            }
            i += 1;
        }
        proof {
            assert(nodes@.take(nodes.len() as int) =~= nodes@);
            // Every node of the chain is in the graph.
            assert forall|j: int| 0 <= j < nodes.len() implies #[trigger] nodes@[j] < self.nodes().len() by {
                if j < nodes.len() - 1 {
                    assert(single_successor(e, nodes@[j], nodes@[j + 1]));
                    assert(edges_between(e, nodes@[j], nodes@[j + 1]) == 1);
                } else {
                    let jj = j - 1;
                    assert(single_successor(e, nodes@[jj], nodes@[jj + 1]));
                    assert(edges_between(e, nodes@[jj], nodes@[jj + 1]) == 1);
                }
            }
        }
        let ghost before = *self;
        let ghost pieces_spec = nodes@.map_values(|x: NodeId| node_region(before.nodes()[x as int]));
        let mut pieces: Vec<Region> = Vec::new();
        let mut j: usize = 0;
        while j < nodes.len()
            invariant
                0 <= j <= nodes.len(),
                nodes@.no_duplicates(),
                forall|q: int| 0 <= q < nodes.len() ==> #[trigger] nodes@[q] < before.nodes().len(),
                pieces@ == pieces_spec.take(j as int),
                self.nodes().len() == before.nodes().len(),
                forall|q: int| 0 <= q < before.nodes().len() && !nodes@.take(j as int).contains(q as NodeId)
                    ==> #[trigger] self.nodes()[q] == before.nodes()[q],
                self.edges() == before.edges(),
                self.groups() == before.groups(),
                self.owners() == before.owners(),
                self.entry == before.entry,
                self.generation == before.generation,
            decreases nodes.len() - j,
        {
            let x = nodes[j];
            proof {
                assert(!nodes@.take(j as int).contains(x)) by {
                    if nodes@.take(j as int).contains(x) {
                        let q = choose|q: int| 0 <= q < j && nodes@.take(j as int)[q] == x;
                        assert(nodes@[q] == nodes@[j as int]);
                    }
                }
                assert(self.nodes()[x as int] == before.nodes()[x as int]);
            }
            let w = replace_node_weight(&mut self.graph, x, RegionNode::Block(0));
            match w {
                RegionNode::Block(c) => pieces.push(Region::Block(c)),
                RegionNode::Collapsed(r) => pieces.push(r),
            }
            proof {
                assert(pieces_spec.take(j + 1) =~= pieces_spec.take(j as int).push(node_region(before.nodes()[x as int])));
                assert(nodes@.take(j + 1) =~= nodes@.take(j as int).push(x));
                assert forall|q: int| 0 <= q < before.nodes().len() && !nodes@.take(j + 1).contains(q as NodeId)
                    implies #[trigger] self.nodes()[q] == before.nodes()[q] by {
                    assert(!nodes@.take(j as int).contains(q as NodeId));
                    assert(q != x);
                }
            }
            j += 1;
        }
        proof {
            assert(pieces_spec.take(nodes.len() as int) =~= pieces_spec);
            assert(nodes@.take(nodes.len() as int) =~= nodes@);
        }
        let region = Region::sequence(pieces);
        let ghost the_region = region;
        let ghost mid = *self;
        proof {
            assert(seen@ == nodes@.to_set());
            assert forall|r: NodeId| #[trigger] seen@.contains(r) implies r < self.nodes().len() by {
                let q = choose|q: int| 0 <= q < nodes.len() && nodes@[q] == r;
            }
            assert(seen@.contains(nodes@[0]));
            assert(seen@ != Set::<NodeId>::empty());
        }
        let k = self.collapse(&seen, region);
        proof {
            assert forall|q: int| 0 <= q < before.nodes().len() && !seen@.contains(q as NodeId)
                implies #[trigger] mid.nodes()[q] == before.nodes()[q] by {
                assert(!nodes@.contains(q as NodeId));
            }
            lemma_collapse_of_same_outside(before, mid, *self, seen@, the_region, k);
        }
        Some(k)
    }

    /// Get nodes in reverse post-order (good for dataflow analysis): a
    /// depth-first search from the entry, following each node's successors
    /// in order, lists the nodes as it finishes them; the list reversed
    /// puts each node before its successors, but for edges back to a node
    /// still being searched.
    #[verifier::loop_isolation(false)]
    pub fn nodes_in_reverse_postorder(&self) -> (res: Vec<NodeId>)
        requires
            self.wf(),
        ensures
            is_reverse_postorder(forward_adj(self.edges()), self.spec_entry(), res@),
            is_dfs_reverse_postorder(self.edges(), self.nodes().len(), self.spec_entry(), res@),
    {
        let n = node_count(&self.graph);
        let mut all_succs: Vec<Vec<NodeId>> = Vec::new();
        let mut q: usize = 0;
        while q < n
            invariant
                n == self.nodes().len(),
                0 <= q <= n,
                all_succs@.len() == q,
                forall|x: int, t: NodeId| 0 <= x < q ==> #[trigger] all_succs@[x]@.to_multiset().count(t)
                    == edges_between(self.edges(), x as NodeId, t),
            decreases n - q,
        {
            all_succs.push(self.successors(q));
            q += 1;
        }
        let ghost lists = all_succs@.map_values(|v: Vec<NodeId>| v@);
        assert forall|x: NodeId, t: NodeId| x < n implies #[trigger] lists[x as int].to_multiset().count(t)
            == edges_between(self.edges(), x, t) by {
            assert(lists[x as int] == all_succs@[x as int]@);
        }
        let ghost mut steps: nat = 0;
        let ghost e = self.edges();
        let ghost adj = forward_adj(e);
        let ghost nn = n as nat;
        let entry = self.entry;
        let mut postorder: Vec<NodeId> = Vec::new();
        let mut visited: HashSet<NodeId> = HashSet::new();
        let mut stack_nodes: Vec<NodeId> = Vec::new();
        let mut stack_succs: Vec<Vec<NodeId>> = Vec::new();
        let mut stack_idx: Vec<usize> = Vec::new();
        visited.insert(entry);
        stack_nodes.push(entry);
        stack_succs.push(copy_ids(&all_succs[entry]));
        stack_idx.push(0);
        proof {
            assert(stack_idx@.map_values(|x: usize| x as int) =~= seq![0int]);
            assert(visited@ =~= set![entry]);
            assert(dfs_run(lists, dfs_start(entry), 0) == dfs_state_of(stack_nodes@, stack_idx@, visited@, postorder@));
            let p = seq![entry];
            assert(is_path(adj, p));
            assert(reaches(adj, entry, entry));
            assert(stack_nodes@ =~= Seq::<NodeId>::empty().push(entry));
            Seq::<NodeId>::empty().lemma_push_to_set_commute(entry);
            assert(Seq::<NodeId>::empty().to_set() =~= Set::<NodeId>::empty());
            assert(postorder@.to_set() =~= Set::<NodeId>::empty());
            assert(visited@ =~= postorder@.to_set().union(stack_nodes@.to_set()));
        }
        while stack_nodes.len() > 0
            invariant
                n == self.nodes().len(),
                e == self.edges(),
                stack_nodes@.len() == stack_succs@.len() == stack_idx@.len(),
                forall|i: int, t: NodeId| 0 <= i < stack_succs@.len() ==> #[trigger] stack_succs@[i]@.to_multiset().count(t)
                    == edges_between(e, stack_nodes@[i], t),
                forall|i: int| 0 <= i < stack_idx@.len() ==> #[trigger] stack_idx@[i] <= stack_succs@[i]@.len(),
                forall|i: int, j: int| 0 <= i < stack_idx@.len() && 0 <= j < stack_idx@[i] ==> visited@.contains(
                    #[trigger] stack_succs@[i]@[j]),
                visited@ == postorder@.to_set().union(stack_nodes@.to_set()),
                forall|x: NodeId| !(postorder@.contains(x) && #[trigger] stack_nodes@.contains(x)),
                postorder@.no_duplicates(),
                stack_nodes@.no_duplicates(),
                stack_nodes@.len() > 0 ==> stack_nodes@[0] == entry && is_path(adj, stack_nodes@),
                stack_nodes@.len() == 0 ==> postorder@.len() >= 1 && postorder@.last() == entry,
                forall|x: NodeId| #[trigger] visited@.contains(x) ==> reaches(adj, entry, x) && x < nn,
                forall|k: int, v: NodeId| 0 <= k < postorder@.len() && #[trigger] adj(postorder@[k], v) ==> visited@.contains(v)
                    && ((exists|k2: int| 0 <= k2 < k && #[trigger] postorder@[k2] == v) || reaches(adj, v, postorder@[k])),
                forall|i: int| 0 <= i < stack_succs@.len() ==> #[trigger] stack_succs@[i]@ == lists[stack_nodes@[i] as int],
                dfs_run(lists, dfs_start(entry), steps) == dfs_state_of(stack_nodes@, stack_idx@, visited@, postorder@),
            decreases nn - visited@.len(), stack_nodes@.len(),
        {
            let top = stack_nodes.len() - 1;
            let node = stack_nodes[top];
            let mut j = stack_idx[top];
            let succs = &stack_succs[top];
            proof {
                assert(stack_idx@.update(top as int, j) =~= stack_idx@);
                assert(succs@ == lists[node as int]);
            }
            while j < succs.len() && visited.contains(&succs[j])
                invariant
                    stack_idx@[top as int] <= j <= succs@.len(),
                    forall|jj: int| 0 <= jj < j ==> visited@.contains(#[trigger] succs@[jj]),
                    dfs_run(lists, dfs_start(entry), steps) == dfs_state_of(stack_nodes@, stack_idx@.update(top as int, j), visited@, postorder@),
                decreases succs.len() - j,
            {
                proof {
                    let cur = dfs_state_of(stack_nodes@, stack_idx@.update(top as int, j), visited@, postorder@);
                    lemma_dfs_run_split(lists, dfs_start(entry), steps, 1);
                    assert(cur.0.last() == node);
                    assert(cur.1.last() == j as int);
                    assert(dfs_step(lists, cur) == dfs_state_of(stack_nodes@, stack_idx@.update(top as int, (j + 1) as usize), visited@, postorder@)) by {
                        assert(cur.1.update(cur.1.len() - 1, j + 1) =~= stack_idx@.update(top as int, (j + 1) as usize).map_values(|x: usize| x as int));
                    }
                    assert(cur.0.len() > 0);
                    reveal_with_fuel(dfs_run, 2);
                    assert(dfs_run(lists, cur, 1) == dfs_step(lists, cur));
                    steps = steps + 1;
                }
                j += 1;
            }
            proof {
                lemma_dfs_run_split(lists, dfs_start(entry), steps, 1);
            }
            let ghost cur = dfs_state_of(stack_nodes@, stack_idx@.update(top as int, j), visited@, postorder@);
            proof {
                assert(cur.0.last() == node);
                assert(cur.1.last() == j as int);
                assert(cur.0.len() > 0);
                    reveal_with_fuel(dfs_run, 2);
                    assert(dfs_run(lists, cur, 1) == dfs_step(lists, cur));
                steps = steps + 1;
            }
            if j < succs.len() {
                let s = succs[j];
                proof {
                    assert(succs@.to_multiset().count(s) > 0);
                    assert(edges_between(e, node, s) > 0);
                    assert(s < nn) by {
                        if e.count((node, s, EdgeKind::FallThrough)) > 0 {
                        } else if e.count((node, s, EdgeKind::Unconditional)) > 0 {
                        } else if e.count((node, s, EdgeKind::ConditionalTrue)) > 0 {
                        } else if e.count((node, s, EdgeKind::ConditionalFalse)) > 0 {
                        } else if e.count((node, s, EdgeKind::Switch)) > 0 {
                        } else {
                            assert(e.count((node, s, EdgeKind::ExceptionHandler)) > 0);
                        }
                    }
                }
                let ghost v0 = visited@;
                let ghost s0 = stack_nodes@;
                let ghost ss0 = stack_succs@;
                let ghost i0 = stack_idx@;
                stack_idx.set(top, j + 1);
                visited.insert(s);
                let next_succs = copy_ids(&all_succs[s]);
                proof {
                    assert(next_succs@ == lists[s as int]);
                    assert forall|t: NodeId| #[trigger] next_succs@.to_multiset().count(t) == edges_between(e, s, t) by {
                        assert(lists[s as int].to_multiset().count(t) == edges_between(self.edges(), s, t));
                    }
                }
                stack_nodes.push(s);
                stack_succs.push(next_succs);
                stack_idx.push(0);
                proof {
                    assert(adj(node, s));
                    assert(s0.last() == node);
                    // The stack is still a path from the entry.
                    assert(is_path(adj, stack_nodes@)) by {
                        assert forall|i: int| 0 <= i < stack_nodes@.len() - 1 implies #[trigger] adj(stack_nodes@[i], stack_nodes@[i + 1]) by {
                            if i < s0.len() - 1 {
                                assert(adj(s0[i], s0[i + 1]));
                            }
                        }
                    }
                    assert(reaches(adj, entry, s)) by {
                        lemma_path_stretch(adj, stack_nodes@, 0, stack_nodes@.len() - 1);
                    }
                    assert(stack_nodes@ == s0.push(s));
                    s0.lemma_push_to_set_commute(s);
                    assert(stack_nodes@.to_set() =~= s0.to_set().insert(s));
                    assert(visited@ =~= postorder@.to_set().union(stack_nodes@.to_set()));
                    assert(stack_nodes@.no_duplicates()) by {
                        assert(!s0.contains(s));
                    }
                    assert forall|i: int, jj: int| 0 <= i < stack_idx@.len() && 0 <= jj < stack_idx@[i] implies visited@.contains(
                        #[trigger] stack_succs@[i]@[jj]) by {
                        if i < top {
                            assert(stack_succs@[i] == ss0[i]);
                            assert(v0.contains(ss0[i]@[jj]));
                        } else if i == top {
                            assert(stack_succs@[i] == ss0[i]);
                            if jj < j {
                                assert(v0.contains(succs@[jj]));
                            }
                        }
                    }
                    assert forall|i: int, t: NodeId| 0 <= i < stack_succs@.len() implies #[trigger] stack_succs@[i]@.to_multiset().count(t)
                        == edges_between(e, stack_nodes@[i], t) by {
                        if i < top + 1 {
                            assert(stack_succs@[i] == ss0[i]);
                        }
                    }
                    assert forall|k: int, v: NodeId| 0 <= k < postorder@.len() && #[trigger] adj(postorder@[k], v) implies visited@.contains(v)
                        && ((exists|k2: int| 0 <= k2 < k && #[trigger] postorder@[k2] == v) || reaches(adj, v, postorder@[k])) by {
                        assert(v0.contains(v));
                    }
                    lemma_visited_bound(v0, nn);
                    lemma_visited_bound(visited@, nn);
                    assert(!v0.contains(s));
                    assert forall|x: NodeId| !(postorder@.contains(x) && #[trigger] stack_nodes@.contains(x)) by {
                        if stack_nodes@.contains(x) && postorder@.contains(x) {
                            assert(postorder@.to_set().contains(x));
                            if x != s {
                                let i = choose|i: int| 0 <= i < stack_nodes@.len() && stack_nodes@[i] == x;
                                assert(s0[i] == x);
                                assert(s0.contains(x));
                            }
                        }
                    }
                }
                proof {
                    assert(stack_idx@.map_values(|x: usize| x as int) =~= i0.update(top as int, j).map_values(|x: usize| x as int).update(
                        top as int,
                        j + 1,
                    ).push(0int));
                    assert(dfs_step(lists, cur) == dfs_state_of(stack_nodes@, stack_idx@, visited@, postorder@));
                    assert forall|i: int| 0 <= i < stack_succs@.len() implies #[trigger] stack_succs@[i]@ == lists[stack_nodes@[i] as int] by {
                        if i < top + 1 {
                            assert(stack_succs@[i] == ss0[i]);
                        }
                    }
                }
            } else {
                let ghost s0 = stack_nodes@;
                let ghost p0 = postorder@;
                let ghost ss0 = stack_succs@;
                let ghost i0 = stack_idx@;
                proof {
                    // Every successor of the finished node has been visited;
                    // those on the stack reach it.
                    assert forall|v: NodeId| #[trigger] adj(node, v) implies visited@.contains(v)
                        && (p0.contains(v) || reaches(adj, v, node)) by {
                        assert(edges_between(e, node, v) > 0);
                        assert(succs@.to_multiset().count(v) > 0);
                        assert(succs@.contains(v));
                        let jj = choose|jj: int| 0 <= jj < succs@.len() && succs@[jj] == v;
                        assert(visited@.contains(succs@[jj]));
                        if !p0.contains(v) {
                            assert(s0.to_set().contains(v));
                            let i = choose|i: int| 0 <= i < s0.len() && s0[i] == v;
                            lemma_path_stretch(adj, s0, i, top as int);
                        }
                    }
                }
                postorder.push(node);
                stack_nodes.pop();
                stack_succs.pop();
                stack_idx.pop();
                proof {
                    assert(i0.update(top as int, j).map_values(|x: usize| x as int).drop_last() =~= stack_idx@.map_values(
                        |x: usize| x as int,
                    ));
                    assert(s0.drop_last() =~= stack_nodes@);
                    assert(dfs_step(lists, cur) == dfs_state_of(stack_nodes@, stack_idx@, visited@, postorder@));
                    assert forall|i: int| 0 <= i < stack_succs@.len() implies #[trigger] stack_succs@[i]@ == lists[stack_nodes@[i] as int] by {
                        assert(stack_succs@[i] == ss0[i]);
                    }
                }
                proof {
                    assert(stack_nodes@ =~= s0.drop_last());
                    assert(s0 =~= stack_nodes@.push(node));
                    assert(postorder@ == p0.push(node));
                    p0.lemma_push_to_set_commute(node);
                    stack_nodes@.lemma_push_to_set_commute(node);
                    assert(postorder@.to_set() =~= p0.to_set().insert(node));
                    assert(s0.to_set() =~= stack_nodes@.to_set().insert(node));
                    assert(s0[top as int] == node);
                    assert(s0.contains(node));
                    assert(!stack_nodes@.contains(node)) by {
                        if stack_nodes@.contains(node) {
                            let i = choose|i: int| 0 <= i < stack_nodes@.len() && stack_nodes@[i] == node;
                            assert(s0[i] == s0[top as int]);
                        }
                    }
                    assert(visited@ =~= postorder@.to_set().union(stack_nodes@.to_set()));
                    assert(postorder@.no_duplicates()) by {
                        assert(!p0.contains(node));
                    }
                    assert(stack_nodes@.no_duplicates()) by {
                        assert forall|a: int, b: int| 0 <= a < b < stack_nodes@.len() implies stack_nodes@[a] != stack_nodes@[b] by {
                            assert(stack_nodes@[a] == s0[a] && stack_nodes@[b] == s0[b]);
                        }
                    }
                    assert forall|x: NodeId| !(postorder@.contains(x) && #[trigger] stack_nodes@.contains(x)) by {
                        if stack_nodes@.contains(x) {
                            let i = choose|i: int| 0 <= i < stack_nodes@.len() && stack_nodes@[i] == x;
                            assert(s0[i] == x);
                            assert(s0.contains(x));
                            assert(x != node);
                            if postorder@.contains(x) {
                                let k = choose|k: int| 0 <= k < postorder@.len() && postorder@[k] == x;
                                assert(k < p0.len());
                                assert(p0[k] == x);
                                assert(p0.contains(x));
                            }
                        }
                    }
                    if stack_nodes@.len() > 0 {
                        assert forall|i: int| 0 <= i < stack_nodes@.len() - 1 implies #[trigger] adj(stack_nodes@[i], stack_nodes@[i + 1]) by {
                            assert(adj(s0[i], s0[i + 1]));
                        }
                    } else {
                        assert(node == entry);
                    }
                    assert forall|i: int, t: NodeId| 0 <= i < stack_succs@.len() implies #[trigger] stack_succs@[i]@.to_multiset().count(t)
                        == edges_between(e, stack_nodes@[i], t) by {
                        assert(stack_succs@[i] == ss0[i]);
                    }
                    assert forall|i: int, jj: int| 0 <= i < stack_idx@.len() && 0 <= jj < stack_idx@[i] implies visited@.contains(
                        #[trigger] stack_succs@[i]@[jj]) by {
                        assert(stack_succs@[i] == ss0[i] && stack_idx@[i] == i0[i]);
                    }
                    assert forall|i: int| 0 <= i < stack_idx@.len() implies #[trigger] stack_idx@[i] <= stack_succs@[i]@.len() by {
                        assert(stack_succs@[i] == ss0[i] && stack_idx@[i] == i0[i]);
                    }
                    let last = p0.len() as int;
                    assert forall|k: int, v: NodeId| 0 <= k < postorder@.len() && #[trigger] adj(postorder@[k], v) implies visited@.contains(v)
                        && ((exists|k2: int| 0 <= k2 < k && #[trigger] postorder@[k2] == v) || reaches(adj, v, postorder@[k])) by {
                        if k < last {
                            assert(postorder@[k] == p0[k]);
                            if exists|k2: int| 0 <= k2 < k && #[trigger] p0[k2] == v {
                                let k2 = choose|k2: int| 0 <= k2 < k && #[trigger] p0[k2] == v;
                                assert(postorder@[k2] == v);
                            }
                        } else {
                            assert(postorder@[k] == node);
                            if p0.contains(v) {
                                let k2 = choose|k2: int| 0 <= k2 < p0.len() && p0[k2] == v;
                                assert(postorder@[k2] == v);
                            }
                        }
                    }
                }
            }
        }
        proof {
            let pset = postorder@.to_set();
            assert(visited@ =~= pset);
            assert(postorder@.contains(entry)) by {
                assert(postorder@[postorder@.len() - 1] == entry);
            }
            assert forall|a: NodeId, b: NodeId| pset.contains(a) && #[trigger] adj(a, b) implies pset.contains(b) by {
                let k = choose|k: int| 0 <= k < postorder@.len() && postorder@[k] == a;
                assert(adj(postorder@[k], b));
            }
        }
        let mut res: Vec<NodeId> = Vec::new();
        let len = postorder.len();
        let mut i: usize = len;
        while i > 0
            invariant
                0 <= i <= len,
                len == postorder@.len(),
                res@.len() == len - i,
                forall|k: int| 0 <= k < res@.len() ==> #[trigger] res@[k] == postorder@[len - 1 - k],
            decreases i,
        {
            i -= 1;
            res.push(postorder[i]);
        }
        proof {
            let p = postorder@;
            let r = res@;
            assert(r =~= p.reverse());
            assert(dfs_run(lists, dfs_start(entry), steps).0.len() == 0);
            assert(lists.len() == n);
            assert(is_dfs_reverse_postorder(self.edges(), self.nodes().len(), self.spec_entry(), res@));
            assert(r[0] == p[len - 1]);
            assert forall|a: int, b: int| 0 <= a < b < r.len() implies r[a] != r[b] by {
                assert(r[a] == p[len - 1 - a] && r[b] == p[len - 1 - b]);
            }
            assert forall|x: NodeId| #[trigger] r.contains(x) <==> reaches(adj, entry, x) by {
                if r.contains(x) {
                    let k = choose|k: int| 0 <= k < r.len() && r[k] == x;
                    assert(p[len - 1 - k] == x);
                    assert(visited@.contains(x));
                }
                if reaches(adj, entry, x) {
                    lemma_closed_holds_reachable(adj, entry, p.to_set(), x);
                    let k = choose|k: int| 0 <= k < p.len() && p[k] == x;
                    assert(r[len - 1 - k] == x);
                }
            }
            assert forall|a: int, b: int| 0 <= b <= a < r.len() && #[trigger] adj(r[a], r[b]) implies reaches(adj, r[b], r[a]) by {
                let ka = len - 1 - a;
                let kb = len - 1 - b;
                assert(r[a] == p[ka] && r[b] == p[kb]);
                assert(adj(p[ka], r[b]));
                if exists|k2: int| 0 <= k2 < ka && #[trigger] p[k2] == r[b] {
                    let k2 = choose|k2: int| 0 <= k2 < ka && #[trigger] p[k2] == r[b];
                    assert(p[k2] == p[kb]);
                }
            }
        }
        res
    }

    /// Find linear sequences that can be collapsed: runs of 2+ nodes that
    /// form straight-line code. The nodes are scanned in index order; from
    /// each node not yet in a sequence that has exactly one successor, the
    /// chain is followed while the next node is new and has the current
    /// node as its only predecessor.
    #[verifier::loop_isolation(false)]
    pub fn find_sequences(&self) -> (res: Vec<Vec<NodeId>>)
        requires
            self.wf(),
        ensures
            are_found_sequences(self.edges(), self.nodes().len(), res@.map_values(|s: Vec<NodeId>| s@)),
    {
        let n = node_count(&self.graph);
        let ghost e = self.edges();
        let ghost nn = n as nat;
        let mut sequences: Vec<Vec<NodeId>> = Vec::new();
        let mut in_sequence: HashSet<NodeId> = HashSet::new();
        let ghost mut seqs: Seq<Seq<NodeId>> = Seq::empty();
        let mut node: usize = 0;
        while node < n
            invariant
                n == self.nodes().len(),
                0 <= node <= n,
                sequences@.map_values(|s: Vec<NodeId>| s@) == seqs,
                forall|x: NodeId| #[trigger] in_sequence@.contains(x) <==> in_some_sequence(seqs, x),
                found_before(e, nn, seqs, node as int),
            decreases n - node,
        {
            if !in_sequence.contains(&node) {
                if let Some(first) = self.sole_successor(node) {
                    let mut sequence: Vec<NodeId> = vec![node];
                    let mut current = first;
                    proof {
                        assert(edges_between(e, node, first) == 1);
                    }
                    loop
                        invariant
                            n == self.nodes().len(),
                            sequence@.len() >= 1,
                            sequence@[0] == node,
                            sequence@.no_duplicates(),
                            forall|i: int| 0 <= i < sequence@.len() ==> #[trigger] sequence@[i] < nn,
                            forall|i: int| 0 <= i < sequence@.len() ==> !in_some_sequence(seqs, #[trigger] sequence@[i]),
                            forall|i: int| 0 <= i < sequence@.len() - 1 ==> #[trigger] single_successor(e, sequence@[i], sequence@[i + 1]),
                            forall|i: int| 0 <= i < sequence@.len() - 1 ==> #[trigger] single_predecessor(e, sequence@[i + 1], sequence@[i]),
                            single_successor(e, sequence@.last(), current),
                            current < nn,
                        decreases nn - sequence@.len(),
                    {
                        let last = sequence[sequence.len() - 1];
                        if in_sequence.contains(&current) || contains_node(&sequence, current) {
                            proof {
                                assert forall|c: NodeId| #[trigger] single_successor(e, last, c)
                                    implies in_some_sequence(seqs, c) || sequence@.contains(c) by {
                                    lemma_single_successor_unique(e, last, c, current);
                                }
                            }
                            break;
                        }
                        let only_pred = self.sole_predecessor(current);
                        let is_only_pred = match only_pred {
                            Some(p) => p == last,
                            None => false,
                        };
                        if !is_only_pred {
                            proof {
                                assert forall|c: NodeId| #[trigger] single_successor(e, last, c)
                                    && single_predecessor(e, c, last) implies in_some_sequence(seqs, c) || sequence@.contains(c) by {
                                    lemma_single_successor_unique(e, last, c, current);
                                    if let Some(p) = only_pred {
                                        lemma_single_predecessor_unique(e, current, p, last);
                                    }
                                }
                            }
                            break;
                        }
                        let ghost before = sequence@;
                        sequence.push(current);
                        proof {
                            assert(single_predecessor(e, current, last));
                            assert(sequence@ == before.push(current));
                            assert(sequence@.no_duplicates()) by {
                                assert forall|i: int, j: int| 0 <= i < j < sequence@.len() implies sequence@[i] != sequence@[j] by {
                                    if j == sequence@.len() - 1 {
                                        assert(before.contains(before[i]));
                                    }
                                }
                            }
                            assert forall|i: int| 0 <= i < sequence@.len() - 1 implies #[trigger] single_successor(e, sequence@[i], sequence@[i + 1]) by {
                                if i < before.len() - 1 {
                                    assert(single_successor(e, before[i], before[i + 1]));
                                }
                            }
                            assert forall|i: int| 0 <= i < sequence@.len() - 1 implies #[trigger] single_predecessor(e, sequence@[i + 1], sequence@[i]) by {
                                if i < before.len() - 1 {
                                    assert(single_predecessor(e, before[i + 1], before[i]));
                                }
                            }
                            assert forall|i: int| 0 <= i < sequence@.len() implies #[trigger] sequence@[i] < nn
                                && !in_some_sequence(seqs, sequence@[i]) by {
                                if i < before.len() {
                                    assert(sequence@[i] == before[i]);
                                }
                            }
                            lemma_distinct_below(sequence@, nn);
                        }
                        match self.sole_successor(current) {
                            Some(next) => {
                                proof {
                                    assert(edges_between(e, current, next) == 1);
                                }
                                current = next;
                            },
                            None => {
                                break;
                            },
                        }
                    }
                    let ghost chain = sequence@;
                    proof {
                        // Where the chain stopped, nothing could extend it.
                        assert(forall|c: NodeId| #[trigger] single_successor(e, chain.last(), c)
                            && single_predecessor(e, c, chain.last()) ==> in_some_sequence(seqs, c) || chain.contains(c));
                    }
                    if sequence.len() >= 2 {
                        let ghost old_seqs = seqs;
                        let mut t: usize = 0;
                        while t < sequence.len()
                            invariant
                                0 <= t <= sequence.len(),
                                sequence@ == chain,
                                forall|x: NodeId| #[trigger] in_sequence@.contains(x) <==> (in_some_sequence(old_seqs, x)
                                    || chain.take(t as int).contains(x)),
                            decreases sequence.len() - t,
                        {
                            in_sequence.insert(sequence[t]);
                            proof {
                                assert(chain.take(t + 1) =~= chain.take(t as int).push(chain[t as int]));
                                assert forall|x: NodeId| #[trigger] in_sequence@.contains(x) <==> (in_some_sequence(old_seqs, x)
                                    || chain.take(t + 1).contains(x)) by {
                                    if chain.take(t + 1).contains(x) && !chain.take(t as int).contains(x) {
                                        let q = choose|q: int| 0 <= q < t + 1 && #[trigger] chain.take(t + 1)[q] == x;
                                        assert(q == t);
                                    }
                                    if chain.take(t as int).contains(x) {
                                        let q = choose|q: int| 0 <= q < t && #[trigger] chain.take(t as int)[q] == x;
                                        assert(chain.take(t + 1)[q] == x);
                                    }
                                    if x == chain[t as int] {
                                        assert(chain.take(t + 1)[t as int] == x);
                                    }
                                }
                            }
                            t += 1;
                        }
                        sequences.push(sequence);
                        proof {
                            assert(chain.take(chain.len() as int) =~= chain);
                            seqs = old_seqs.push(chain);
                            assert(sequences@.map_values(|s: Vec<NodeId>| s@) =~= seqs);
                            let last_k = old_seqs.len() as int;
                            assert(seqs[last_k] == chain);
                            assert forall|x: NodeId| in_some_sequence(seqs, x) <==> (in_some_sequence(old_seqs, x) || chain.contains(x)) by {
                                if in_some_sequence(seqs, x) {
                                    let k = choose|k: int| 0 <= k < seqs.len() && #[trigger] seqs[k].contains(x);
                                    if k < last_k {
                                        assert(old_seqs[k].contains(x));
                                    }
                                }
                                if in_some_sequence(old_seqs, x) {
                                    let k = choose|k: int| 0 <= k < old_seqs.len() && #[trigger] old_seqs[k].contains(x);
                                    assert(seqs[k].contains(x));
                                }
                                if chain.contains(x) {
                                    assert(seqs[last_k].contains(x));
                                }
                            }
                            assert(is_straight_line(e, nn, chain));
                            assert forall|k: int, l: int, x: NodeId| 0 <= k < seqs.len() && 0 <= l < seqs.len() && k != l
                                implies !(#[trigger] seqs[k].contains(x) && #[trigger] seqs[l].contains(x)) by {
                                if k == last_k && seqs[k].contains(x) && seqs[l].contains(x) {
                                    let q = choose|q: int| 0 <= q < chain.len() && #[trigger] chain[q] == x;
                                    assert(!in_some_sequence(old_seqs, chain[q]));
                                    assert(old_seqs[l].contains(x));
                                }
                                if l == last_k && seqs[k].contains(x) && seqs[l].contains(x) {
                                    let q = choose|q: int| 0 <= q < chain.len() && #[trigger] chain[q] == x;
                                    assert(!in_some_sequence(old_seqs, chain[q]));
                                    assert(old_seqs[k].contains(x));
                                }
                            }
                            assert forall|k: int, c: NodeId| 0 <= k < seqs.len() && #[trigger] single_successor(e, seqs[k].last(), c)
                                && single_predecessor(e, c, seqs[k].last())
                                implies exists|j: int| 0 <= j <= k && #[trigger] seqs[j].contains(c) by {
                                if k == last_k {
                                    if in_some_sequence(old_seqs, c) {
                                        let j = choose|j: int| 0 <= j < old_seqs.len() && #[trigger] old_seqs[j].contains(c);
                                        assert(seqs[j].contains(c));
                                    } else {
                                        assert(seqs[k].contains(c));
                                    }
                                } else {
                                    assert(old_seqs[k] == seqs[k]);
                                    let j = choose|j: int| 0 <= j <= k && #[trigger] old_seqs[j].contains(c);
                                    assert(seqs[j].contains(c));
                                }
                            }
                            assert forall|v: NodeId, c: NodeId| v < node + 1 && !in_some_sequence(seqs, v) && #[trigger] single_successor(e, v, c)
                                && single_predecessor(e, c, v)
                                implies c == v || exists|j: int| 0 <= j < seqs.len() && seqs[j][0] < v && #[trigger] seqs[j].contains(c) by {
                                assert(seqs[last_k][0] == node);
                                assert(seqs[last_k].contains(node));
                                assert(!in_some_sequence(old_seqs, v));
                                if c != v {
                                    let j = choose|j: int| 0 <= j < old_seqs.len() && old_seqs[j][0] < v && #[trigger] old_seqs[j].contains(c);
                                    assert(seqs[j].contains(c));
                                }
                            }
                        }
                    } else {
                        proof {
                            assert(chain =~= seq![node]);
                            assert forall|v: NodeId, c: NodeId| v < node + 1 && !in_some_sequence(seqs, v) && #[trigger] single_successor(e, v, c)
                                && single_predecessor(e, c, v)
                                implies c == v || exists|j: int| 0 <= j < seqs.len() && seqs[j][0] < v && #[trigger] seqs[j].contains(c) by {
                                if v == node && c != v {
                                    assert(chain.last() == node);
                                    assert(in_some_sequence(seqs, c) || chain.contains(c));
                                    if chain.contains(c) {
                                        assert(chain[0] == c);
                                    }
                                    let j = choose|j: int| 0 <= j < seqs.len() && #[trigger] seqs[j].contains(c);
                                    assert(seqs[j][0] < node);
                                }
                            }
                        }
                    }
                } else {
                    proof {
                        assert forall|v: NodeId, c: NodeId| v < node + 1 && !in_some_sequence(seqs, v) && #[trigger] single_successor(e, v, c)
                            && single_predecessor(e, c, v)
                            implies c == v || exists|j: int| 0 <= j < seqs.len() && seqs[j][0] < v && #[trigger] seqs[j].contains(c) by {
                            if v == node {
                                assert(!single_successor(e, node, c));
                            }
                        }
                    }
                }
            } else {
                proof {
                    assert(in_some_sequence(seqs, node));
                }
            }
            node += 1;
        }
        sequences
    }

    /// Take the weight out of node `idx`, leaving a placeholder block in its
    /// place; the edges and block maps are unchanged.
    pub(crate) fn take_node(&mut self, idx: NodeId) -> (res: RegionNode)
        requires
            idx < old(self).nodes().len(),
        ensures
            res == old(self).nodes()[idx as int],
            final(self).nodes() == old(self).nodes().update(idx as int, RegionNode::Block(0)),
            final(self).edges() == old(self).edges(),
            final(self).groups() == old(self).groups(),
            final(self).owners() == old(self).owners(),
            final(self).spec_entry() == old(self).spec_entry(),
            final(self).spec_generation() == old(self).spec_generation(),
    {
        replace_node_weight(&mut self.graph, idx, RegionNode::Block(0))
    }

    /// Convert the fully reduced graph to a Region: the region of its one
    /// node, or `None` while more than one node is left.
    pub fn into_region(self) -> (res: Option<Region>)
        ensures
            res == if self.nodes().len() == 1 {
                Some(node_region(self.nodes()[0]))
            } else {
                None::<Region>
            },
    {
        if node_count(&self.graph) != 1 {
            return None;
        }
        let mut graph = self.graph;
        match remove_node(&mut graph, 0) {
            Some(RegionNode::Block(cfg_idx)) => Some(Region::Block(cfg_idx)),
            Some(RegionNode::Collapsed(region)) => Some(region),
            None => None,
        }
    }
}

} // verus!
