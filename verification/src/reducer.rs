//! Steps of the iterative reduction of a region graph: reachability, the
//! collapse of straight-line code, of if/else patterns, loops, switches and
//! OR chains, and the fallback that makes progress when no pattern matches.
use vstd::prelude::*;
use vstd::std_specs::iter::IteratorSpec;

use std::collections::{HashMap, HashSet};

use crate::ast::{Constant, Expr, RefInt};
use crate::cfg::{Cfg, CfgEdge, EdgeKind, NodeId};
use crate::patterns::{
    cfg_reaches, nested_view, nodes_within, succ_blocks, IfPattern, IfPatternView, LoopPattern, LoopPatternView,
    OrChainPattern, OrChainView, SwitchPattern, SwitchPatternView,
};
use crate::region::{copy_region, is_sequence_of, region_copy, region_within, Region, SwitchCase};
use crate::region_dominance::{forward_adj, is_path, reaches};
use crate::region_graph::{
    are_found_sequences, edges_between, is_collapse_of, lemma_closed_holds_reachable,
    lemma_collapse_of_same_outside, lemma_visited_bound, node_region, single_predecessor,
    RegionGraph, RegionNode,
};

verus! {

broadcast use {
    vstd::std_specs::vec::group_vec_axioms,
    vstd::std_specs::hash::group_hash_axioms,
    vstd::seq_lib::group_to_multiset_ensures,
    vstd::multiset::group_multiset_axioms,
};

/// An edge from `a` to `b` joins two nodes of a well-formed graph.
proof fn lemma_edge_in_graph(graph: RegionGraph, a: NodeId, b: NodeId)
    requires
        graph.wf(),
        edges_between(graph.edges(), a, b) > 0,
    ensures
        a < graph.nodes().len(),
        b < graph.nodes().len(),
{
    let e = graph.edges();
    if e.count((a, b, EdgeKind::FallThrough)) > 0 {
    } else if e.count((a, b, EdgeKind::Unconditional)) > 0 {
    } else if e.count((a, b, EdgeKind::ConditionalTrue)) > 0 {
    } else if e.count((a, b, EdgeKind::ConditionalFalse)) > 0 {
    } else if e.count((a, b, EdgeKind::Switch)) > 0 {
    } else {
        assert(e.count((a, b, EdgeKind::ExceptionHandler)) > 0);
    }
}

/// Compute all nodes reachable from the entry node, by a worklist search.
#[verifier::loop_isolation(false)]
pub fn compute_reachable_nodes(graph: &RegionGraph) -> (res: HashSet<NodeId>)
    requires
        graph.wf(),
    ensures
        forall|x: NodeId| #[trigger] res@.contains(x) <==> reaches(forward_adj(graph.edges()), graph.spec_entry(), x),
{
    let ghost adj = forward_adj(graph.edges());
    let ghost nn = graph.nodes().len();
    let entry = graph.entry();
    let mut reachable: HashSet<NodeId> = HashSet::new();
    let mut queue: Vec<NodeId> = Vec::new();
    queue.push(entry);
    proof {
        let p = seq![entry];
        assert(is_path(adj, p));
        assert(queue@[0] == entry);
    }
    while queue.len() > 0
        invariant
            reachable@.contains(entry) || queue@.contains(entry),
            forall|i: int| 0 <= i < queue@.len() ==> reaches(adj, entry, #[trigger] queue@[i]) && queue@[i] < nn,
            forall|x: NodeId| #[trigger] reachable@.contains(x) ==> reaches(adj, entry, x) && x < nn,
            forall|x: NodeId, v: NodeId| #[trigger] reachable@.contains(x) && #[trigger] adj(x, v) ==> reachable@.contains(v)
                || queue@.contains(v),
        decreases nn - reachable@.len(), queue@.len(),
    {
        let ghost qold = queue@;
        let node = queue.pop().unwrap();
        let ghost q0 = queue@.push(node);
        proof {
            assert(q0 =~= qold);
            assert(q0[q0.len() - 1] == node);
            lemma_visited_bound(reachable@, nn);
        }
        if !reachable.contains(&node) {
            let ghost r0 = reachable@;
            reachable.insert(node);
            let succs = graph.successors(node);
            let mut i: usize = 0;
            while i < succs.len()
                invariant
                    0 <= i <= succs@.len(),
                    reachable@ == r0.insert(node),
                    forall|t: NodeId| #[trigger] succs@.to_multiset().count(t) == edges_between(graph.edges(), node, t),
                    forall|k: int| 0 <= k < queue@.len() ==> reaches(adj, entry, #[trigger] queue@[k]) && queue@[k] < nn,
                    forall|x: NodeId, v: NodeId| #[trigger] r0.contains(x) && #[trigger] adj(x, v) ==> reachable@.contains(v)
                        || q0.contains(v) || queue@.contains(v),
                    forall|v: NodeId| q0.contains(v) && v != node ==> #[trigger] queue@.contains(v),
                    forall|k: int| 0 <= k < i ==> reachable@.contains(#[trigger] succs@[k]) || queue@.contains(succs@[k]),
                decreases succs@.len() - i,
            {
                let s = succs[i];
                proof {
                    assert(succs@.to_multiset().count(s) > 0);
                    lemma_edge_in_graph(*graph, node, s);
                    let p = choose|p: Seq<NodeId>| #[trigger] is_path(adj, p) && p[0] == entry && p.last() == node;
                    let p2 = p.push(s);
                    assert(adj(node, s));
                    assert forall|k: int| 0 <= k < p2.len() - 1 implies #[trigger] adj(p2[k], p2[k + 1]) by {
                        if k < p.len() - 1 {
                            assert(adj(p[k], p[k + 1]));
                        }
                    }
                    assert(is_path(adj, p2) && p2[0] == entry && p2.last() == s);
                }
                let ghost qb = queue@;
                if !reachable.contains(&s) {
                    queue.push(s);
                    proof {
                        assert(queue@.last() == s);
                        assert forall|v: NodeId| qb.contains(v) implies #[trigger] queue@.contains(v) by {
                            let k = choose|k: int| 0 <= k < qb.len() && qb[k] == v;
                            assert(queue@[k] == v);
                        }
                    }
                }
                proof {
                    assert forall|k: int| 0 <= k < i + 1 implies reachable@.contains(#[trigger] succs@[k]) || queue@.contains(succs@[k]) by {
                        if k < i {
                            if queue@.len() > qb.len() && qb.contains(succs@[k]) {
                                let kk = choose|kk: int| 0 <= kk < qb.len() && qb[kk] == succs@[k];
                                assert(queue@[kk] == succs@[k]);
                            }
                        } else if !reachable@.contains(s) {
                            assert(queue@[queue@.len() - 1] == s);
                        }
                    }
                }
                i += 1;
            }
            proof {
                assert forall|x: NodeId, v: NodeId| #[trigger] reachable@.contains(x) && #[trigger] adj(x, v) implies reachable@.contains(v)
                    || queue@.contains(v) by {
                    if x == node {
                        assert(edges_between(graph.edges(), node, v) > 0);
                        assert(succs@.to_multiset().count(v) > 0);
                        assert(succs@.contains(v));
                        let k = choose|k: int| 0 <= k < succs@.len() && succs@[k] == v;
                        assert(reachable@.contains(succs@[k]) || queue@.contains(succs@[k]));
                    } else {
                        assert(r0.contains(x));
                        if q0.contains(v) && v != node {
                            assert(queue@.contains(v));
                        }
                    }
                }
                if !reachable@.contains(entry) {
                    assert(q0.contains(entry));
                    assert(entry != node);
                    assert(queue@.contains(entry));
                }
                lemma_visited_bound(reachable@, nn);
            }
        } else {
            proof {
                assert forall|x: NodeId, v: NodeId| #[trigger] reachable@.contains(x) && #[trigger] adj(x, v) implies reachable@.contains(v)
                    || queue@.contains(v) by {
                    if q0.contains(v) && v != node {
                        let k = choose|k: int| 0 <= k < q0.len() && q0[k] == v;
                        assert(queue@[k] == v);
                    }
                }
                if queue@.len() < q0.len() && q0.contains(entry) && entry != node {
                    let k = choose|k: int| 0 <= k < q0.len() && q0[k] == entry;
                    assert(queue@[k] == entry);
                }
            }
        }
    }
    proof {
        assert forall|x: NodeId| #[trigger] reachable@.contains(x) <==> reaches(adj, entry, x) by {
            if reaches(adj, entry, x) {
                lemma_closed_holds_reachable(adj, entry, reachable@, x);
            }
        }
    }
    reachable
}

/// Collapse the first linear sequence of the graph, if there is one.
///
/// A sequence is a chain of nodes where each has exactly one successor,
/// the next node of the chain (see `RegionGraph::find_sequences`).
/// Returns true if a sequence was collapsed.
pub fn collapse_sequences(graph: &mut RegionGraph) -> (res: bool)
    requires
        old(graph).wf(),
        old(graph).spec_generation() < u64::MAX,
    ensures
        final(graph).wf(),
        exists|seqs: Seq<Seq<NodeId>>| #![trigger are_found_sequences(old(graph).edges(), old(graph).nodes().len(), seqs)]
            {
            &&& are_found_sequences(old(graph).edges(), old(graph).nodes().len(), seqs)
            &&& res == (seqs.len() > 0)
            &&& !res ==> *final(graph) == *old(graph)
            &&& res ==> exists|k: NodeId, r: Region| is_sequence_of(
                r,
                seqs[0].map_values(|x: NodeId| node_region(old(graph).nodes()[x as int])),
            ) && is_collapse_of(*old(graph), *final(graph), seqs[0].to_set(), r, k)
        },
{
    let ghost before = *graph;
    let mut sequences = graph.find_sequences();
    let ghost seqs = sequences@.map_values(|s: Vec<NodeId>| s@);
    if sequences.len() > 0 {
        let sequence = sequences.remove(0);
        proof {
            assert(seqs[0] == sequence@);
            assert(sequence@.len() >= 2);
            assert(sequence@.no_duplicates());
        }
        if sequence.len() >= 2 {
            let k = graph.collapse_sequence(sequence);
            proof {
                let k = k.unwrap();
                let r = graph.nodes()[k as int]->Collapsed_0;
                assert(is_sequence_of(r, seqs[0].map_values(|x: NodeId| node_region(before.nodes()[x as int]))));
            }
            return true;
        }
    }
    false
}

/// Create a fallback region when reduction fails: the sequence of the
/// regions of all remaining nodes, in index order.
pub fn create_fallback_region(graph: RegionGraph) -> (res: Region)
    ensures
        is_sequence_of(res, graph.nodes().map_values(|n: RegionNode| node_region(n))),
{
    let ghost nodes = graph.nodes();
    let n = graph.node_count();
    let mut graph = graph;
    let mut regions: Vec<Region> = Vec::new();
    let mut i: usize = 0;
    while i < n
        invariant
            0 <= i <= n,
            n == nodes.len(),
            graph.nodes().len() == nodes.len(),
            forall|q: int| i <= q < nodes.len() ==> #[trigger] graph.nodes()[q] == nodes[q],
            regions@ == nodes.map_values(|n: RegionNode| node_region(n)).take(i as int),
        decreases n - i,
    {
        match graph.take_node(i) {
            RegionNode::Block(cfg_idx) => regions.push(Region::Block(cfg_idx)),
            RegionNode::Collapsed(r) => regions.push(r),
        }
        proof {
            assert(nodes.map_values(|n: RegionNode| node_region(n)).take(i + 1) =~= nodes.map_values(
                |n: RegionNode| node_region(n),
            ).take(i as int).push(node_region(nodes[i as int])));
        }
        i += 1;
    }
    proof {
        assert(nodes.map_values(|n: RegionNode| node_region(n)).take(n as int) =~= nodes.map_values(
            |n: RegionNode| node_region(n),
        ));
    }
    Region::sequence(regions)
}

/// `node` has more than one incoming edge: neither none nor exactly one.
pub open spec fn has_several_predecessors(edges: vstd::multiset::Multiset<(NodeId, NodeId, EdgeKind)>, node: NodeId) -> bool {
    &&& !forall|p: NodeId| #[trigger] edges_between(edges, p, node) == 0
    &&& !exists|a: NodeId| #[trigger] single_predecessor(edges, node, a)
}

/// The block a goto to `n` targets: the block of a block node, block 0
/// for a collapsed region.
pub open spec fn goto_target(n: RegionNode) -> NodeId {
    match n {
        RegionNode::Block(c) => c,
        RegionNode::Collapsed(_) => 0,
    }
}

/// `node` is the first node with several predecessors.
pub open spec fn is_first_join(graph: RegionGraph, node: NodeId) -> bool {
    &&& node < graph.nodes().len()
    &&& has_several_predecessors(graph.edges(), node)
    &&& forall|m: NodeId| m < node ==> !#[trigger] has_several_predecessors(graph.edges(), m)
}

/// Virtualize an edge to make progress where no pattern matches.
///
/// At the first node with several incoming edges, one of its predecessors
/// is collapsed alone into a goto to that node's block. Where no node has
/// several incoming edges, the first two nodes are collapsed into a
/// sequence; a graph of one node is left as it is.
pub fn virtualize_edge(graph: &mut RegionGraph)
    requires
        old(graph).wf(),
        old(graph).spec_generation() < u64::MAX,
    ensures
        final(graph).wf(),
        forall|node: NodeId| #[trigger] is_first_join(*old(graph), node) ==> exists|p: NodeId, k: NodeId|
            edges_between(old(graph).edges(), p, node) > 0 && is_collapse_of(
                *old(graph),
                *final(graph),
                set![p],
                Region::Goto { target: goto_target(old(graph).nodes()[node as int]) },
                k,
            ),
        (forall|node: NodeId| !#[trigger] is_first_join(*old(graph), node)) && old(graph).nodes().len() >= 2
            ==> exists|k: NodeId, r: Region| is_sequence_of(
            r,
            seq![node_region(old(graph).nodes()[0]), node_region(old(graph).nodes()[1])],
        ) && is_collapse_of(*old(graph), *final(graph), set![0, 1], r, k),
        (forall|node: NodeId| !#[trigger] is_first_join(*old(graph), node)) && old(graph).nodes().len() < 2
            ==> *final(graph) == *old(graph),
{
    let ghost before = *graph;
    let n = graph.node_count();
    let mut node: usize = 0;
    while node < n
        invariant
            *graph == before,
            before == *old(graph),
            n == before.nodes().len(),
            before.wf(),
            before.spec_generation() < u64::MAX,
            0 <= node <= n,
            forall|m: NodeId| m < node ==> !#[trigger] has_several_predecessors(before.edges(), m),
        decreases n - node,
    {
        let preds = graph.predecessors(node);
        let ghost ms = preds@.to_multiset();
        proof {
            if preds.len() == 0 {
                assert forall|p: NodeId| #[trigger] edges_between(before.edges(), p, node) == 0 by {
                    assert(ms.count(p) == edges_between(before.edges(), p, node));
                }
            } else if preds.len() == 1 {
                let a = preds@[0];
                assert(preds@ =~= Seq::<NodeId>::empty().push(a));
                assert(ms =~= vstd::multiset::Multiset::<NodeId>::empty().insert(a));
                assert forall|p: NodeId| #[trigger] edges_between(before.edges(), p, node) == if p == a { 1nat } else { 0nat } by {
                    assert(ms.count(p) == edges_between(before.edges(), p, node));
                }
                assert(single_predecessor(before.edges(), node, a));
            } else {
                assert(ms.len() == preds@.len());
                assert(!forall|p: NodeId| #[trigger] edges_between(before.edges(), p, node) == 0) by {
                    if forall|p: NodeId| #[trigger] edges_between(before.edges(), p, node) == 0 {
                        assert forall|p: NodeId| ms.count(p) == vstd::multiset::Multiset::<NodeId>::empty().count(p) by {
                            assert(ms.count(p) == edges_between(before.edges(), p, node));
                        }
                        assert(ms =~= vstd::multiset::Multiset::<NodeId>::empty());
                        assert(ms.len() == 0);
                    }
                }
                assert(!exists|a: NodeId| #[trigger] single_predecessor(before.edges(), node, a)) by {
                    if exists|a: NodeId| #[trigger] single_predecessor(before.edges(), node, a) {
                        let a = choose|a: NodeId| #[trigger] single_predecessor(before.edges(), node, a);
                        assert forall|p: NodeId| ms.count(p) == vstd::multiset::Multiset::<NodeId>::singleton(a).count(p) by {
                            assert(ms.count(p) == edges_between(before.edges(), p, node));
                        }
                        assert(ms =~= vstd::multiset::Multiset::<NodeId>::singleton(a));
                        assert(ms.len() == 1);
                    }
                }
                assert(has_several_predecessors(before.edges(), node));
            }
        }
        if preds.len() > 1 {
            let pred = preds[1];
            let target = match graph.get_node(node) {
                Some(RegionNode::Block(cfg_idx)) => *cfg_idx,
                _ => 0,
            };
            proof {
                assert(ms.count(pred) > 0);
                lemma_edge_in_graph(before, pred, node);
                assert(is_first_join(before, node));
                assert forall|other: NodeId| #[trigger] is_first_join(before, other) implies other == node by {
                    if other < node {
                        assert(!has_several_predecessors(before.edges(), other));
                    } else if other > node {
                        assert(!has_several_predecessors(before.edges(), node));
                    }
                }
            }
            let mut collapse_set: HashSet<NodeId> = HashSet::new();
            collapse_set.insert(pred);
            proof {
                assert(collapse_set@ =~= set![pred]);
            }
            let k = graph.collapse(&collapse_set, Region::Goto { target });
            proof {
                let goto = Region::Goto { target: goto_target(before.nodes()[node as int]) };
                assert(is_collapse_of(before, *graph, set![pred], goto, k));
                assert(edges_between(before.edges(), pred, node) > 0);
                assert forall|nd: NodeId| #[trigger] is_first_join(before, nd) implies exists|p: NodeId, k: NodeId|
                    edges_between(before.edges(), p, nd) > 0 && is_collapse_of(
                        before,
                        *graph,
                        set![p],
                        Region::Goto { target: goto_target(before.nodes()[nd as int]) },
                        k,
                    ) by {
                    assert(nd == node);
                }
            }
            return;
        }
        node += 1;
    }
    proof {
        assert forall|other: NodeId| !#[trigger] is_first_join(before, other) by {
            if other < n {
                assert(!has_several_predecessors(before.edges(), other));
            }
        }
    }
    if n >= 2 {
        let first = graph.take_node(0);
        let second = graph.take_node(1);
        let region1 = match first {
            RegionNode::Block(idx) => Region::Block(idx),
            RegionNode::Collapsed(r) => r,
        };
        let region2 = match second {
            RegionNode::Block(idx) => Region::Block(idx),
            RegionNode::Collapsed(r) => r,
        };
        let ghost pieces = seq![region1, region2];
        let mut pair: Vec<Region> = Vec::new();
        pair.push(region1);
        pair.push(region2);
        proof {
            assert(pair@ =~= pieces);
            assert(pieces =~= seq![node_region(before.nodes()[0]), node_region(before.nodes()[1])]);
        }
        let sequence = Region::sequence(pair);
        let ghost the_region = sequence;
        let ghost mid = *graph;
        let mut collapse_set: HashSet<NodeId> = HashSet::new();
        collapse_set.insert(0);
        collapse_set.insert(1);
        proof {
            assert(collapse_set@ =~= set![0usize, 1usize]);
        }
        let k = graph.collapse(&collapse_set, sequence);
        proof {
            assert forall|q: int| 0 <= q < before.nodes().len() && !collapse_set@.contains(q as NodeId)
                implies #[trigger] mid.nodes()[q] == before.nodes()[q] by {}
            lemma_collapse_of_same_outside(before, mid, *graph, collapse_set@, the_region, k);
        }
    }
}

/// The sort key of a node: the smallest block it holds, or its own index
/// where it is no node of the graph.
pub open spec fn node_sort_key(graph: RegionGraph, node: NodeId) -> NodeId {
    if node < graph.nodes().len() {
        choose|c: NodeId| graph.groups()[node].contains(c) && forall|d: NodeId| #[trigger] graph.groups()[node].contains(d) ==> c <= d
    } else {
        node
    }
}

/// A deterministic sort key for a region graph node: the smallest CFG block
/// it holds (the earliest in the bytecode), or the node's own index.
pub fn region_node_sort_key(graph: &RegionGraph, node: NodeId) -> (res: usize)
    requires
        graph.wf(),
    ensures
        node < graph.nodes().len() ==> graph.groups()[node].contains(res) && forall|c: NodeId|
            #[trigger] graph.groups()[node].contains(c) ==> res <= c,
        node >= graph.nodes().len() ==> res == node,
        res == node_sort_key(*graph, node),
{
    match graph.get_cfg_nodes(node) {
        Some(cfg_nodes) => {
            let blocks = crate::region_graph::set_to_vec(cfg_nodes);
            proof {
                assert(cfg_nodes@ == graph.groups()[node]);
                assert(graph.groups()[node] != Set::<NodeId>::empty());
                if blocks@.len() == 0 {
                    assert(blocks@.to_set() =~= Set::<NodeId>::empty());
                }
            }
            let mut best = blocks[0];
            let mut i: usize = 1;
            while i < blocks.len()
                invariant
                    1 <= i <= blocks.len(),
                    blocks@.contains(best),
                    forall|j: int| 0 <= j < i ==> best <= #[trigger] blocks@[j],
                decreases blocks.len() - i,
            {
                if blocks[i] < best {
                    best = blocks[i];
                }
                i += 1;
            }
            proof {
                assert(blocks@.to_set().contains(best));
                assert forall|c: NodeId| #[trigger] graph.groups()[node].contains(c) implies best <= c by {
                    assert(blocks@.to_set().contains(c));
                    let j = choose|j: int| 0 <= j < blocks@.len() && blocks@[j] == c;
                }
                let k = node_sort_key(*graph, node);
                assert(graph.groups()[node].contains(k) && best <= k && k <= best);
            }
            best
        },
        None => node,
    }
}

/// The edges of the graph between nodes of the graph other than `merge`.
pub open spec fn path_adj(graph: RegionGraph, merge: NodeId) -> spec_fn(NodeId, NodeId) -> bool {
    |a: NodeId, b: NodeId| forward_adj(graph.edges())(a, b) && a < graph.nodes().len() && a != merge
        && b < graph.nodes().len() && b != merge
}

/// Collect all nodes on the paths from `start` to `merge`, leaving `merge`
/// out: the nodes reached from `start` without passing through `merge`.
#[verifier::loop_isolation(false)]
pub fn collect_path_nodes(graph: &RegionGraph, start: NodeId, merge: NodeId) -> (res: HashSet<NodeId>)
    requires
        graph.wf(),
    ensures
        forall|y: NodeId| #[trigger] res@.contains(y) <==> (start < graph.nodes().len() && start != merge && reaches(
            path_adj(*graph, merge),
            start,
            y,
        )),
{
    let ghost adj = path_adj(*graph, merge);
    let ghost nn = graph.nodes().len();
    let ghost ok = |x: NodeId| x < nn && x != merge;
    let mut nodes: HashSet<NodeId> = HashSet::new();
    let mut queue: Vec<NodeId> = Vec::new();
    let mut visited: HashSet<NodeId> = HashSet::new();
    queue.push(start);
    visited.insert(merge);
    proof {
        assert(queue@[0] == start);
        assert(is_path(adj, seq![start]));
    }
    while queue.len() > 0
        invariant
            visited@.contains(merge),
            forall|x: NodeId| #[trigger] nodes@.contains(x) ==> visited@.contains(x) && ok(x) && ok(start) && reaches(adj, start, x),
            forall|x: NodeId| #[trigger] visited@.contains(x) && ok(x) ==> nodes@.contains(x),
            forall|i: int| 0 <= i < queue@.len() ==> #[trigger] queue@[i] == start || exists|x: NodeId| nodes@.contains(x)
                && #[trigger] forward_adj(graph.edges())(x, queue@[i]),
            ok(start) ==> nodes@.contains(start) || queue@.contains(start),
            forall|x: NodeId, v: NodeId| #[trigger] nodes@.contains(x) && #[trigger] adj(x, v) ==> nodes@.contains(v)
                || queue@.contains(v),
        decreases nn + 1 - (visited@.filter(|x: NodeId| x < nn).len() as int), queue@.len(),
    {
        let ghost qold = queue@;
        let node = queue.pop().unwrap();
        let ghost q0 = queue@.push(node);
        let ghost vis_in = visited@.filter(|x: NodeId| x < nn);
        proof {
            assert(q0 =~= qold);
            assert(q0[q0.len() - 1] == node);
            lemma_visited_bound(vis_in, nn);
            assert forall|v: NodeId| q0.contains(v) && v != node implies #[trigger] queue@.contains(v) by {
                let k = choose|k: int| 0 <= k < q0.len() && q0[k] == v;
                assert(queue@[k] == v);
            }
        }
        if visited.contains(&node) {
            continue;
        }
        visited.insert(node);
        if !graph.contains(node) {
            proof {
                assert(visited@.filter(|x: NodeId| x < nn) =~= vis_in);
            }
            continue;
        }
        proof {
            assert(visited@.filter(|x: NodeId| x < nn) =~= vis_in.insert(node));
            lemma_visited_bound(visited@.filter(|x: NodeId| x < nn), nn);
            assert(ok(node));
        }
        let ghost n0 = nodes@;
        nodes.insert(node);
        proof {
            if node != start {
                let k = choose|k: int| 0 <= k < q0.len() && q0[k] == node;
                let x = choose|x: NodeId| n0.contains(x) && #[trigger] forward_adj(graph.edges())(x, q0[k]);
                assert(adj(x, node));
                let p = choose|p: Seq<NodeId>| #[trigger] is_path(adj, p) && p[0] == start && p.last() == x;
                let p2 = p.push(node);
                assert forall|i: int| 0 <= i < p2.len() - 1 implies #[trigger] adj(p2[i], p2[i + 1]) by {
                    if i < p.len() - 1 {
                        assert(adj(p[i], p[i + 1]));
                    }
                }
                assert(is_path(adj, p2) && p2[0] == start && p2.last() == node);
            } else {
                assert(is_path(adj, seq![start]));
            }
        }
        let succs = graph.successors(node);
        let mut i: usize = 0;
        while i < succs.len()
            invariant
                0 <= i <= succs@.len(),
                nodes@ == n0.insert(node),
                forall|t: NodeId| #[trigger] succs@.to_multiset().count(t) == edges_between(graph.edges(), node, t),
                forall|k: int| 0 <= k < queue@.len() ==> #[trigger] queue@[k] == start || exists|x: NodeId| nodes@.contains(x)
                    && #[trigger] forward_adj(graph.edges())(x, queue@[k]),
                forall|v: NodeId| q0.contains(v) && v != node ==> #[trigger] queue@.contains(v),
                forall|x: NodeId, v: NodeId| #[trigger] n0.contains(x) && #[trigger] adj(x, v) ==> nodes@.contains(v)
                    || q0.contains(v) || queue@.contains(v),
                forall|k: int| 0 <= k < i ==> visited@.contains(#[trigger] succs@[k]) || queue@.contains(succs@[k]),
            decreases succs@.len() - i,
        {
            let s = succs[i];
            let ghost qb = queue@;
            if !visited.contains(&s) {
                queue.push(s);
                proof {
                    assert(succs@.to_multiset().count(s) > 0);
                    assert(forward_adj(graph.edges())(node, s));
                    assert(nodes@.contains(node));
                    assert(queue@[queue@.len() - 1] == s);
                    assert forall|v: NodeId| qb.contains(v) implies #[trigger] queue@.contains(v) by {
                        let k = choose|k: int| 0 <= k < qb.len() && qb[k] == v;
                        assert(queue@[k] == v);
                    }
                }
            }
            proof {
                assert forall|k: int| 0 <= k < i + 1 implies visited@.contains(#[trigger] succs@[k]) || queue@.contains(succs@[k]) by {
                    if k < i {
                        if queue@.len() > qb.len() && qb.contains(succs@[k]) {
                            let kk = choose|kk: int| 0 <= kk < qb.len() && qb[kk] == succs@[k];
                            assert(queue@[kk] == succs@[k]);
                        }
                    } else if !visited@.contains(s) {
                        assert(queue@[queue@.len() - 1] == s);
                    }
                }
            }
            i += 1;
        }
        proof {
            assert forall|x: NodeId, v: NodeId| #[trigger] nodes@.contains(x) && #[trigger] adj(x, v) implies nodes@.contains(v)
                || queue@.contains(v) by {
                if x == node {
                    assert(edges_between(graph.edges(), node, v) > 0);
                    assert(succs@.to_multiset().count(v) > 0);
                    assert(succs@.contains(v));
                    let k = choose|k: int| 0 <= k < succs@.len() && succs@[k] == v;
                    assert(visited@.contains(succs@[k]) || queue@.contains(succs@[k]));
                } else {
                    assert(n0.contains(x));
                    if q0.contains(v) && v != node {
                        assert(queue@.contains(v));
                    }
                }
            }
        }
    }
    proof {
        assert forall|y: NodeId| #[trigger] nodes@.contains(y) <==> (start < nn && start != merge && reaches(adj, start, y)) by {
            if start < nn && start != merge && reaches(adj, start, y) {
                assert(nodes@.contains(start));
                lemma_closed_holds_reachable(adj, start, nodes@, y);
            }
        }
    }
    nodes
}


/// The regions of the nodes of `order` that are nodes of the graph, in
/// order.
pub open spec fn order_regions(g: RegionGraph, order: Seq<NodeId>) -> Seq<Region> {
    order.filter_map(|x: NodeId| if x < g.nodes().len() {
        Some(node_region(g.nodes()[x as int]))
    } else {
        None
    })
}

/// `r` is the region built from a set of nodes: nothing for no node; the
/// region of a single node (nothing where it is no node of the graph);
/// otherwise the sequence of the nodes' regions in flow order.
pub open spec fn is_region_of_nodes(g: RegionGraph, nodes: Set<NodeId>, r: Region) -> bool {
    if nodes.len() == 0 {
        r == Region::Empty
    } else if nodes.len() == 1 {
        r == if nodes.choose() < g.nodes().len() {
            node_region(g.nodes()[nodes.choose() as int])
        } else {
            Region::Empty
        }
    } else {
        is_sequence_of(r, order_regions(g, crate::flow_order::flow_order(g, nodes)))
    }
}

/// `after` is `before` with the weights of the nodes of `taken` replaced;
/// edges, block maps, entry and generation are unchanged.
pub open spec fn same_but_weights(before: RegionGraph, after: RegionGraph, taken: Set<NodeId>) -> bool {
    &&& after.nodes().len() == before.nodes().len()
    &&& forall|q: int| 0 <= q < before.nodes().len() && !taken.contains(q as NodeId) ==> #[trigger] after.nodes()[q] == before.nodes()[q]
    &&& after.edges() == before.edges()
    &&& after.groups() == before.groups()
    &&& after.owners() == before.owners()
    &&& after.spec_entry() == before.spec_entry()
    &&& after.spec_generation() == before.spec_generation()
}

/// Build the region of a set of nodes (see `is_region_of_nodes`) for the
/// graph `g0`, the nodes taken in `order`, its flow order. The nodes'
/// regions are taken out of the graph, whose nodes of the set still hold
/// their weights of `g0`: the nodes are about to be collapsed, their
/// weights are left as placeholders.
fn build_region_in_order(graph: &mut RegionGraph, nodes: &HashSet<NodeId>, order: &Vec<NodeId>, Ghost(g0): Ghost<RegionGraph>) -> (res: Region)
    requires
        g0.wf(),
        old(graph).wf(),
        order@ == crate::flow_order::flow_order(g0, nodes@),
        order@.no_duplicates(),
        forall|x: NodeId| #[trigger] order@.contains(x) <==> nodes@.contains(x),
        old(graph).nodes().len() == g0.nodes().len(),
        forall|q: NodeId| #[trigger] nodes@.contains(q) && q < g0.nodes().len() ==> old(graph).nodes()[q as int] == g0.nodes()[q as int],
    ensures
        is_region_of_nodes(g0, nodes@, res),
        same_but_weights(*old(graph), *final(graph), nodes@),
        final(graph).wf(),
{
    let ghost gs = *graph;
    if nodes.len() == 0 {
        return Region::Empty;
    }
    if nodes.len() == 1 {
        let v = crate::region_graph::set_to_vec(nodes);
        proof {
            v@.unique_seq_to_set();
        }
        let node = v[0];
        proof {
            assert(v@.to_set().contains(node));
            assert(nodes@.contains(nodes@.choose()));
            assert(nodes@.choose() == node) by {
                let k = choose|k: int| 0 <= k < v@.len() && v@[k] == nodes@.choose();
                assert(k == 0);
            }
        }
        if node < graph.node_count() {
            let w = graph.take_node(node);
            let r = match w {
                RegionNode::Block(c) => Region::Block(c),
                RegionNode::Collapsed(r) => r,
            };
            return r;
        } else {
            return Region::Empty;
        }
    }
    let ghost f = |x: NodeId| if x < g0.nodes().len() {
        Some(node_region(g0.nodes()[x as int]))
    } else {
        None
    };
    let n = graph.node_count();
    let mut regions: Vec<Region> = Vec::new();
    let mut i: usize = 0;
    while i < order.len()
        invariant
            n == g0.nodes().len(),
            gs.wf(),
            gs.nodes().len() == n,
            forall|q: NodeId| #[trigger] nodes@.contains(q) && q < n ==> gs.nodes()[q as int] == g0.nodes()[q as int],
            order@.no_duplicates(),
            forall|x: NodeId| #[trigger] order@.contains(x) <==> nodes@.contains(x),
            0 <= i <= order@.len(),
            regions@ == order@.take(i as int).filter_map(f),
            same_but_weights(gs, *graph, order@.take(i as int).to_set()),
            f == (|x: NodeId| if x < g0.nodes().len() {
                Some(node_region(g0.nodes()[x as int]))
            } else {
                None
            }),
        decreases order@.len() - i,
    {
        let x = order[i];
        let ghost t0 = order@.take(i as int);
        let ghost t1 = order@.take(i + 1);
        proof {
            assert(t1.drop_last() =~= t0);
            assert(t1.last() == x);
            assert(!t0.contains(x)) by {
                if t0.contains(x) {
                    let q = choose|q: int| 0 <= q < t0.len() && t0[q] == x;
                    assert(order@[q] == order@[i as int]);
                }
            }
            assert(t1.to_set() =~= t0.to_set().insert(x));
            assert(order@.contains(x));
        }
        if x < n {
            proof {
                assert(!t0.to_set().contains(x));
                assert(graph.nodes()[x as int] == g0.nodes()[x as int]);
            }
            let w = graph.take_node(x);
            match w {
                RegionNode::Block(c) => regions.push(Region::Block(c)),
                RegionNode::Collapsed(r) => regions.push(r),
            }
            proof {
                assert(f(x) == Some(node_region(g0.nodes()[x as int])));
                assert(t1.filter_map(f) == t0.filter_map(f) + seq![node_region(g0.nodes()[x as int])]);
                assert(regions@ =~= t0.filter_map(f) + seq![node_region(g0.nodes()[x as int])]);
            }
        } else {
            proof {
                assert(f(x) is None);
                assert(t1.filter_map(f) == t0.filter_map(f));
            }
        }
        proof {
            assert forall|q: int| 0 <= q < gs.nodes().len() && !t1.to_set().contains(q as NodeId) implies #[trigger] graph.nodes()[q]
                == gs.nodes()[q] by {
                assert(!t0.to_set().contains(q as NodeId));
            }
        }
        i += 1;
    }
    proof {
        assert(order@.take(i as int) =~= order@);
        assert(order@.to_set() =~= nodes@);
        assert(regions@ == order_regions(g0, order@));
    }
    Region::sequence(regions)
}

/// Build a region from a set of nodes (see `is_region_of_nodes`), taking
/// the nodes' regions out of the graph: the nodes are about to be
/// collapsed, their weights are left as placeholders.
pub fn build_region_from_nodes(graph: &mut RegionGraph, nodes: &HashSet<NodeId>, _entry_hint: NodeId) -> (res: Region)
    requires
        old(graph).wf(),
    ensures
        is_region_of_nodes(*old(graph), nodes@, res),
        same_but_weights(*old(graph), *final(graph), nodes@),
        final(graph).wf(),
{
    let ghost g0 = *graph;
    let order = crate::flow_order::order_nodes_by_flow(graph, nodes);
    build_region_in_order(graph, nodes, &order, Ghost(g0))
}

/// A block that ends in a jump out of a node: a block of the node with two
/// successors, one of them outside the node.
pub open spec fn is_exit_candidate(g: RegionGraph, cfg: Cfg, node: NodeId, c: NodeId) -> bool {
    &&& g.groups()[node].contains(c)
    &&& succ_blocks(cfg, c).len() == 2
    &&& (!g.groups()[node].contains(succ_blocks(cfg, c)[0]) || !g.groups()[node].contains(succ_blocks(cfg, c)[1]))
}

/// `cb` is the block holding the condition of node `node`: a block node's
/// own block; for a collapsed node, a block of it that jumps out of it,
/// the latest in the bytecode (none where there is no such block).
pub open spec fn is_cond_block(g: RegionGraph, cfg: Cfg, node: NodeId, cb: Option<NodeId>) -> bool {
    if node >= g.nodes().len() {
        cb is None
    } else {
        match g.nodes()[node as int] {
            RegionNode::Block(c) => cb == Some(c),
            RegionNode::Collapsed(_) => match cb {
                None => !exists|c: NodeId| #[trigger] is_exit_candidate(g, cfg, node, c),
                Some(c) => is_exit_candidate(g, cfg, node, c) && c < cfg.blocks.len() && forall|d: NodeId|
                    #[trigger] is_exit_candidate(g, cfg, node, d) && d < cfg.blocks.len() ==> cfg.blocks@[d as int].start
                        <= cfg.blocks@[c as int].start,
            },
        }
    }
}

/// A block with an outgoing edge is a block of the graph.
proof fn lemma_out_edges_source(cfg: Cfg, c: NodeId)
    requires
        cfg.wf(),
        cfg.out_edges(c).len() > 0,
    ensures
        c < cfg.blocks.len(),
{
    broadcast use vstd::seq_lib::group_filter_ensures;
    let r = cfg.edges@.reverse();
    let pred = |e: CfgEdge| e.source == c;
    let fl = r.filter(pred);
    assert(cfg.out_edges(c) == fl.map_values(|e: CfgEdge| (e.target, e.kind)));
    assert(pred(fl[0]));
    assert(fl.contains(fl[0]));
    r.lemma_filter_contains_rev(pred, fl[0]);
    let j = choose|j: int| 0 <= j < r.len() && r[j] == fl[0];
    assert(r[j] == cfg.edges@[cfg.edges.len() - 1 - j]);
}

/// Find the block holding the condition of a node (see `is_cond_block`).
fn find_cond_block(graph: &RegionGraph, cfg: &Cfg, node: NodeId) -> (res: Option<NodeId>)
    requires
        graph.wf(),
        cfg.wf(),
    ensures
        is_cond_block(*graph, *cfg, node, res),
{
    let ghost g = *graph;
    match graph.get_node(node) {
        Some(RegionNode::Block(c)) => Some(*c),
        Some(RegionNode::Collapsed(_)) => {
            let group = match graph.get_cfg_nodes(node) {
                Some(gr) => gr,
                None => {
                    return None;
                },
            };
            let blocks = crate::region_graph::set_to_vec(group);
            let mut best: Option<NodeId> = None;
            let mut i: usize = 0;
            while i < blocks.len()
                invariant
                    g == *graph,
                    cfg.wf(),
                    group@ == g.groups()[node],
                    blocks@.to_set() == group@,
                    0 <= i <= blocks@.len(),
                    match best {
                        None => forall|j: int| 0 <= j < i ==> !#[trigger] is_exit_candidate(g, *cfg, node, blocks@[j]),
                        Some(c) => is_exit_candidate(g, *cfg, node, c) && c < cfg.blocks.len() && forall|j: int|
                            0 <= j < i && #[trigger] is_exit_candidate(g, *cfg, node, blocks@[j]) ==> blocks@[j] < cfg.blocks.len()
                                && cfg.blocks@[blocks@[j] as int].start <= cfg.blocks@[c as int].start,
                    },
                decreases blocks@.len() - i,
            {
                let c = blocks[i];
                let succs = cfg.successors(c);
                proof {
                    assert(blocks@.to_set().contains(c));
                }
                if succs.len() == 2 && (!group.contains(&succs[0]) || !group.contains(&succs[1])) {
                    proof {
                        assert(is_exit_candidate(g, *cfg, node, c));
                        assert(cfg.out_edges(c).len() == 2);
                        lemma_out_edges_source(*cfg, c);
                    }
                    match best {
                        None => {
                            best = Some(c);
                        },
                        Some(b) => {
                            if cfg.blocks[c].start > cfg.blocks[b].start {
                                best = Some(c);
                            }
                        },
                    }
                } else {
                    proof {
                        assert(!is_exit_candidate(g, *cfg, node, c));
                    }
                }
                i += 1;
            }
            proof {
                match best {
                    None => {
                        assert forall|c: NodeId| !#[trigger] is_exit_candidate(g, *cfg, node, c) by {
                            if is_exit_candidate(g, *cfg, node, c) {
                                assert(blocks@.to_set().contains(c));
                                let j = choose|j: int| 0 <= j < blocks@.len() && blocks@[j] == c;
                            }
                        }
                    },
                    Some(b) => {
                        assert forall|d: NodeId| #[trigger] is_exit_candidate(g, *cfg, node, d) && d < cfg.blocks.len() implies cfg.blocks@[d as int].start
                            <= cfg.blocks@[b as int].start by {
                            assert(blocks@.to_set().contains(d));
                            let j = choose|j: int| 0 <= j < blocks@.len() && blocks@[j] == d;
                        }
                    },
                }
            }
            best
        },
        None => None,
    }
}

/// The nodes an if pattern collapses: its condition and both branches.
pub open spec fn if_collapse_set(p: IfPatternView) -> Set<NodeId> {
    p.1.union(p.2).insert(p.0)
}

/// The then region of an if pattern before normalization: where the then
/// branch has no node, a block for its exit target, or nothing.
pub open spec fn is_then_region(g: RegionGraph, p: IfPatternView, t: Region) -> bool {
    if p.1.len() == 0 {
        t == match p.5 {
            Some(e) => Region::Block(e),
            None => Region::Empty,
        }
    } else {
        is_region_of_nodes(g, p.1, t)
    }
}

/// The else region of an if pattern before normalization.
pub open spec fn is_else_region(g: RegionGraph, p: IfPatternView, e: Option<Region>) -> bool {
    if p.2.len() == 0 {
        e is None
    } else {
        e matches Some(r) && is_region_of_nodes(g, p.2, r)
    }
}

/// `r` is the if-then-else region of the pattern: the condition is read
/// from the condition block when lowering (the expression is a
/// placeholder); where the then region is empty and there is an else
/// region, the branches are swapped and the condition negated.
pub open spec fn is_if_region_of(g: RegionGraph, cfg: Cfg, p: IfPatternView, r: Region) -> bool {
    exists|t: Region, e: Option<Region>| #[trigger] is_then_region(g, p, t) && #[trigger] is_else_region(g, p, e) && {
        let negated = t is Empty && e is Some;
        &&& r matches Region::IfThenElse { cond, cond_block, then_region, else_region, merge, negated: neg }
        &&& cond == Expr::Constant(Constant::Bool(true))
        &&& is_cond_block(g, cfg, p.0, cond_block)
        &&& merge == p.3
        &&& neg == negated
        &&& if negated {
            *then_region == e->0 && else_region is None
        } else {
            *then_region == t && else_region == match e {
                Some(x) => Some(Box::new(x)),
                None => None,
            }
        }
    }
}

/// Collapse an if-then-else pattern into a `Region::IfThenElse` node: the
/// condition and both branches, where there are two nodes or more to
/// collapse (otherwise nothing changes). Returns whether it collapsed.
pub fn collapse_if(graph: &mut RegionGraph, cfg: &Cfg, pattern: &IfPattern) -> (res: bool)
    requires
        old(graph).wf(),
        cfg.wf(),
        old(graph).spec_generation() < u64::MAX,
        pattern@.0 < old(graph).nodes().len(),
        forall|x: NodeId| #[trigger] if_collapse_set(pattern@).contains(x) ==> x < old(graph).nodes().len(),
        pattern@.1.disjoint(pattern@.2),
        !pattern@.1.contains(pattern@.0),
        !pattern@.2.contains(pattern@.0),
    ensures
        final(graph).wf(),
        res == (if_collapse_set(pattern@).len() >= 2),
        !res ==> *final(graph) == *old(graph),
        res ==> exists|k: NodeId, r: Region| is_if_region_of(*old(graph), *cfg, pattern@, r) && is_collapse_of(
            *old(graph),
            *final(graph),
            if_collapse_set(pattern@),
            r,
            k,
        ),
        res ==> final(graph).nodes().len() + if_collapse_set(pattern@).len() == old(graph).nodes().len() + 1,
{
    let ghost g0 = *graph;
    let ghost p = pattern@;
    let mut nodes_to_collapse: HashSet<NodeId> = HashSet::new();
    nodes_to_collapse.insert(pattern.condition_node);
    let then_list = crate::region_graph::set_to_vec(&pattern.then_nodes);
    let mut i: usize = 0;
    while i < then_list.len()
        invariant
            0 <= i <= then_list@.len(),
            nodes_to_collapse@ == then_list@.take(i as int).to_set().insert(p.0),
        decreases then_list@.len() - i,
    {
        nodes_to_collapse.insert(then_list[i]);
        proof {
            assert(then_list@.take(i + 1) =~= then_list@.take(i as int).push(then_list@[i as int]));
            then_list@.take(i as int).lemma_push_to_set_commute(then_list@[i as int]);
            assert(nodes_to_collapse@ =~= then_list@.take(i + 1).to_set().insert(p.0));
        }
        i += 1;
    }
    let else_list = crate::region_graph::set_to_vec(&pattern.else_nodes);
    let mut i: usize = 0;
    proof {
        assert(then_list@.take(then_list@.len() as int) =~= then_list@);
    }
    while i < else_list.len()
        invariant
            0 <= i <= else_list@.len(),
            then_list@.to_set() == p.1,
            nodes_to_collapse@ == p.1.union(else_list@.take(i as int).to_set()).insert(p.0),
        decreases else_list@.len() - i,
    {
        nodes_to_collapse.insert(else_list[i]);
        proof {
            assert(else_list@.take(i + 1) =~= else_list@.take(i as int).push(else_list@[i as int]));
            else_list@.take(i as int).lemma_push_to_set_commute(else_list@[i as int]);
            assert(nodes_to_collapse@ =~= p.1.union(else_list@.take(i + 1).to_set()).insert(p.0));
        }
        i += 1;
    }
    proof {
        assert(else_list@.take(else_list@.len() as int) =~= else_list@);
        assert(nodes_to_collapse@ =~= if_collapse_set(p));
    }
    if nodes_to_collapse.len() < 2 {
        return false;
    }
    let cond_block = find_cond_block(graph, cfg, pattern.condition_node);
    // The branches' regions, taken out of the graph, each in its flow
    // order in the graph as it is now.
    let then_order = crate::flow_order::order_nodes_by_flow(graph, &pattern.then_nodes);
    let else_order = crate::flow_order::order_nodes_by_flow(graph, &pattern.else_nodes);
    let mut then_region = if pattern.then_nodes.len() == 0 {
        match pattern.then_exit_target {
            Some(exit_target) => Region::Block(exit_target),
            None => Region::Empty,
        }
    } else {
        build_region_in_order(graph, &pattern.then_nodes, &then_order, Ghost(g0))
    };
    let ghost g1 = *graph;
    let ghost t0 = then_region;
    let mut else_region = if pattern.else_nodes.len() == 0 {
        None
    } else {
        proof {
            assert forall|q: NodeId| #[trigger] p.2.contains(q) && q < g0.nodes().len() implies g1.nodes()[q as int] == g0.nodes()[q as int] by {
                assert(!p.1.contains(q));
            }
        }
        Some(build_region_in_order(graph, &pattern.else_nodes, &else_order, Ghost(g0)))
    };
    let ghost e0 = else_region;
    let negated = matches!(then_region, Region::Empty) && else_region.is_some();
    if negated {
        then_region = match else_region {
            Some(e) => e,
            None => Region::Empty,
        };
        else_region = None;
    }
    let cond = Expr::Constant(Constant::Bool(true));
    let if_region = Region::IfThenElse {
        cond,
        cond_block,
        then_region: Box::new(then_region),
        else_region: match else_region {
            Some(e) => Some(Box::new(e)),
            None => None,
        },
        merge: pattern.merge,
        negated,
    };
    let ghost the_region = if_region;
    let ghost mid = *graph;
    proof {
        assert(is_then_region(g0, p, t0));
        assert(is_else_region(g0, p, e0));
        assert(is_if_region_of(g0, *cfg, p, the_region));
        assert(mid.wf());
        assert forall|r: NodeId| #[trigger] nodes_to_collapse@.contains(r) implies r < mid.nodes().len() by {}
        assert(nodes_to_collapse@.contains(p.0));
        assert(nodes_to_collapse@ != Set::<NodeId>::empty());
        assert forall|q: int| 0 <= q < g0.nodes().len() && !nodes_to_collapse@.contains(q as NodeId) implies #[trigger] mid.nodes()[q]
            == g0.nodes()[q] by {
            assert(!p.1.contains(q as NodeId) && !p.2.contains(q as NodeId));
        }
    }
    let k = graph.collapse(&nodes_to_collapse, if_region);
    proof {
        lemma_collapse_of_same_outside(g0, mid, *graph, nodes_to_collapse@, the_region, k);
        crate::region_graph::lemma_collapse_node_count(g0, *graph, nodes_to_collapse@, the_region, k);
    }
    true
}


/// The node holding block `c`, if any.
pub open spec fn owner_of(g: RegionGraph, c: NodeId) -> Option<NodeId> {
    if g.owners().dom().contains(c) {
        Some(g.owners()[c])
    } else {
        None
    }
}

/// The node left out of a loop's collapse: the one holding the exit block
/// (node 0 where no node holds it).
pub open spec fn loop_exit_node(g: RegionGraph, p: LoopPatternView) -> NodeId {
    match owner_of(g, p.2) {
        Some(r) => r,
        None => 0,
    }
}

/// The nodes a loop pattern collapses: its body but the exit's node.
pub open spec fn loop_collapse_set(g: RegionGraph, p: LoopPatternView) -> Set<NodeId> {
    p.1.remove(loop_exit_node(g, p))
}

/// The nodes of a loop's body region: the body but the header's node,
/// which lowering reads the condition from.
pub open spec fn loop_body_set(g: RegionGraph, p: LoopPatternView) -> Set<NodeId> {
    Set::new(|x: NodeId| p.1.contains(x) && Some(x) != owner_of(g, p.0))
}

/// `r` is the loop region of the pattern; the condition is read from the
/// header when lowering.
pub open spec fn is_loop_region_of(g: RegionGraph, p: LoopPatternView, r: Region) -> bool {
    &&& r matches Region::Loop { kind, header, condition, body, exit }
    &&& kind == p.3
    &&& header == p.0
    &&& condition is None
    &&& exit == p.2
    &&& is_region_of_nodes(g, loop_body_set(g, p), *body)
}

/// Collapse a loop pattern into a `Region::Loop` node: the body but the
/// exit's node, where there are two nodes or more to collapse (otherwise
/// nothing changes). Returns whether it collapsed.
pub fn collapse_loop(graph: &mut RegionGraph, _cfg: &Cfg, pattern: &LoopPattern) -> (res: bool)
    requires
        old(graph).wf(),
        old(graph).spec_generation() < u64::MAX,
        forall|x: NodeId| #[trigger] pattern@.1.contains(x) ==> x < old(graph).nodes().len(),
        !loop_body_set(*old(graph), pattern@).contains(loop_exit_node(*old(graph), pattern@)),
    ensures
        final(graph).wf(),
        res == (loop_collapse_set(*old(graph), pattern@).len() >= 2),
        !res ==> *final(graph) == *old(graph),
        res ==> exists|k: NodeId, r: Region| is_loop_region_of(*old(graph), pattern@, r) && is_collapse_of(
            *old(graph),
            *final(graph),
            loop_collapse_set(*old(graph), pattern@),
            r,
            k,
        ),
        res ==> final(graph).nodes().len() + loop_collapse_set(*old(graph), pattern@).len() == old(graph).nodes().len() + 1,
{
    let ghost g0 = *graph;
    let ghost p = pattern@;
    let header_region_node = graph.get_region_node(pattern.header);
    let exit_node = match graph.get_region_node(pattern.exit) {
        Some(r) => r,
        None => 0,
    };
    let body = crate::region_graph::set_to_vec(&pattern.body_nodes);
    let mut body_without_header: HashSet<NodeId> = HashSet::new();
    let mut nodes_to_collapse: HashSet<NodeId> = HashSet::new();
    let mut i: usize = 0;
    while i < body.len()
        invariant
            0 <= i <= body@.len(),
            body@.to_set() == p.1,
            header_region_node == owner_of(g0, p.0),
            exit_node == loop_exit_node(g0, p),
            forall|x: NodeId| #[trigger] body_without_header@.contains(x) <==> body@.take(i as int).contains(x) && Some(x)
                != header_region_node,
            forall|x: NodeId| #[trigger] nodes_to_collapse@.contains(x) <==> body@.take(i as int).contains(x) && x != exit_node,
        decreases body@.len() - i,
    {
        let x = body[i];
        if header_region_node != Some(x) {
            body_without_header.insert(x);
        }
        if x != exit_node {
            nodes_to_collapse.insert(x);
        }
        proof {
            let t0 = body@.take(i as int);
            let t1 = body@.take(i + 1);
            assert(t1 =~= t0.push(x));
            assert forall|y: NodeId| #[trigger] t1.contains(y) <==> t0.contains(y) || y == x by {
                if t1.contains(y) && y != x {
                    let q = choose|q: int| 0 <= q < t1.len() && t1[q] == y;
                    assert(t0[q] == y);
                }
                if t0.contains(y) {
                    let q = choose|q: int| 0 <= q < t0.len() && t0[q] == y;
                    assert(t1[q] == y);
                }
                assert(t1[i as int] == x);
            }
        }
        i += 1;
    }
    proof {
        assert(body@.take(i as int) =~= body@);
        assert(body_without_header@ =~= loop_body_set(g0, p)) by {
            assert forall|x: NodeId| body@.contains(x) <==> p.1.contains(x) by {
                assert(body@.to_set().contains(x) == body@.contains(x));
            }
        }
        assert(nodes_to_collapse@ =~= loop_collapse_set(g0, p)) by {
            assert forall|x: NodeId| body@.contains(x) <==> p.1.contains(x) by {
                assert(body@.to_set().contains(x) == body@.contains(x));
            }
        }
    }
    if nodes_to_collapse.len() < 2 {
        return false;
    }
    let body_region = build_region_from_nodes(graph, &body_without_header, pattern.header);
    let loop_region = Region::Loop {
        kind: pattern.kind,
        header: pattern.header,
        condition: None,
        body: Box::new(body_region),
        exit: pattern.exit,
    };
    let ghost the_region = loop_region;
    let ghost mid = *graph;
    proof {
        assert(is_loop_region_of(g0, p, the_region));
        assert forall|r: NodeId| #[trigger] nodes_to_collapse@.contains(r) implies r < mid.nodes().len() by {}
        assert(nodes_to_collapse@ != Set::<NodeId>::empty()) by {
            if nodes_to_collapse@ == Set::<NodeId>::empty() {
                assert(nodes_to_collapse@.len() == 0);
            }
        }
        assert forall|q: int| 0 <= q < g0.nodes().len() && !nodes_to_collapse@.contains(q as NodeId) implies #[trigger] mid.nodes()[q]
            == g0.nodes()[q] by {
            assert(!body_without_header@.contains(q as NodeId));
        }
    }
    let k = graph.collapse(&nodes_to_collapse, loop_region);
    proof {
        lemma_collapse_of_same_outside(g0, mid, *graph, nodes_to_collapse@, the_region, k);
        crate::region_graph::lemma_collapse_node_count(g0, *graph, nodes_to_collapse@, the_region, k);
    }
    true
}


/// The first members of the pairs of `s`.
pub open spec fn pair_firsts(s: Seq<(NodeId, NodeId)>) -> Seq<NodeId> {
    s.map_values(|p: (NodeId, NodeId)| p.0)
}

/// The block of a block node.
pub open spec fn node_block(n: RegionNode) -> NodeId {
    match n {
        RegionNode::Block(c) => c,
        RegionNode::Collapsed(_) => 0,
    }
}

/// `ns` lists the block nodes of `nodes`, each once, by their blocks.
pub open spec fn is_block_order(g: RegionGraph, nodes: Set<NodeId>, ns: Seq<NodeId>) -> bool {
    &&& ns.no_duplicates()
    &&& forall|r: NodeId| #[trigger] ns.contains(r) <==> nodes.contains(r) && r < g.nodes().len() && g.nodes()[r as int] is Block
    &&& forall|i: int, j: int| 0 <= i < j < ns.len() ==> node_block(g.nodes()[#[trigger] ns[i] as int]) <= node_block(
        g.nodes()[#[trigger] ns[j] as int],
    )
}

/// Collapse the nodes holding an inline expansion's blocks into one
/// sequence of their blocks in opcode order, where there are two such
/// blocks and two such nodes or more (otherwise nothing changes).
/// Collapsed nodes among them leave no region in the sequence.
pub fn collapse_inline_expansion(graph: &mut RegionGraph, cfg_nodes: &HashSet<NodeId>) -> (res: bool)
    requires
        old(graph).wf(),
        old(graph).spec_generation() < u64::MAX,
    ensures
        final(graph).wf(),
        res == (cfg_nodes@.len() >= 2 && crate::patterns::owned_nodes(*old(graph), cfg_nodes@).len() >= 2),
        !res ==> *final(graph) == *old(graph),
        res ==> exists|k: NodeId, ns: Seq<NodeId>, r: Region| is_block_order(*old(graph), crate::patterns::owned_nodes(*old(graph), cfg_nodes@), ns)
            && is_sequence_of(r, ns.map_values(|x: NodeId| Region::Block(node_block(old(graph).nodes()[x as int]))))
            && is_collapse_of(*old(graph), *final(graph), crate::patterns::owned_nodes(*old(graph), cfg_nodes@), r, k),
        res ==> final(graph).nodes().len() + crate::patterns::owned_nodes(*old(graph), cfg_nodes@).len() == old(graph).nodes().len() + 1,
{
    let ghost g = *graph;
    if cfg_nodes.len() < 2 {
        return false;
    }
    let region_nodes = crate::patterns::owners_of_set(graph, cfg_nodes);
    let ghost rs = region_nodes@;
    if region_nodes.len() < 2 {
        return false;
    }
    // The block nodes, by block.
    let list = crate::region_graph::set_to_vec(&region_nodes);
    let mut ordered: Vec<(NodeId, NodeId)> = Vec::new();
    let mut i: usize = 0;
    while i < list.len()
        invariant
            g == *graph,
            g.wf(),
            list@.to_set() == rs,
            list@.no_duplicates(),
            0 <= i <= list@.len(),
            forall|t: int| 0 <= t < ordered@.len() ==> (#[trigger] ordered@[t]).0 < g.nodes().len() && g.nodes()[ordered@[t].0 as int]
                == RegionNode::Block(ordered@[t].1),
            pair_firsts(ordered@).no_duplicates(),
            forall|r: NodeId| #[trigger] pair_firsts(ordered@).contains(r) <==> list@.take(i as int).contains(r)
                && r < g.nodes().len() && g.nodes()[r as int] is Block,
            forall|a: int, b: int| 0 <= a < b < ordered@.len() ==> (#[trigger] ordered@[a]).1 <= (#[trigger] ordered@[b]).1,
        decreases list@.len() - i,
    {
        let r = list[i];
        let ghost o0 = ordered@;
        let ghost m0 = pair_firsts(o0);
        let ghost t0 = list@.take(i as int);
        let ghost t1 = list@.take(i + 1);
        proof {
            assert(t1 =~= t0.push(r));
            assert(!t0.contains(r)) by {
                if t0.contains(r) {
                    let q = choose|q: int| 0 <= q < t0.len() && t0[q] == r;
                    assert(list@[q] == list@[i as int]);
                }
            }
            assert forall|y: NodeId| #[trigger] t1.contains(y) <==> t0.contains(y) || y == r by {
                if t1.contains(y) && y != r {
                    let q = choose|q: int| 0 <= q < t1.len() && t1[q] == y;
                    assert(t0[q] == y);
                }
                if t0.contains(y) {
                    let q = choose|q: int| 0 <= q < t0.len() && t0[q] == y;
                    assert(t1[q] == y);
                }
                assert(t1[i as int] == r);
            }
        }
        match graph.get_node(r) {
            Some(RegionNode::Block(c)) => {
                let c = *c;
                let mut j: usize = ordered.len();
                while j > 0 && ordered[j - 1].1 > c
                    invariant
                        0 <= j <= ordered@.len(),
                        ordered@ == o0,
                        forall|t: int| j <= t < ordered@.len() ==> (#[trigger] ordered@[t]).1 > c,
                    decreases j,
                {
                    j -= 1;
                }
                ordered.insert(j, (r, c));
                proof {
                    let o1 = ordered@;
                    assert(o1 == o0.insert(j as int, (r, c)));
                    let m1 = pair_firsts(o1);
                    assert(m1 =~= m0.insert(j as int, r));
                    assert(!m0.contains(r));
                    assert forall|t: int| 0 <= t < o1.len() implies (#[trigger] o1[t]).0 < g.nodes().len() && g.nodes()[o1[t].0 as int]
                        == RegionNode::Block(o1[t].1) by {
                        if t < j {
                            assert(o1[t] == o0[t]);
                        } else if t > j {
                            assert(o1[t] == o0[t - 1]);
                        }
                    }
                    assert forall|y: NodeId| #[trigger] m1.contains(y) <==> m0.contains(y) || y == r by {
                        if m1.contains(y) && y != r {
                            let q = choose|q: int| 0 <= q < m1.len() && m1[q] == y;
                            if q < j {
                                assert(m0[q] == y);
                            } else {
                                assert(m0[q - 1] == y);
                            }
                        }
                        if m0.contains(y) {
                            let q = choose|q: int| 0 <= q < m0.len() && m0[q] == y;
                            if q < j {
                                assert(m1[q] == y);
                            } else {
                                assert(m1[q + 1] == y);
                            }
                        }
                        assert(m1[j as int] == r);
                    }
                    assert(m1.no_duplicates()) by {
                        assert forall|a: int, b: int| 0 <= a < b < m1.len() implies m1[a] != m1[b] by {
                            if a == j {
                                assert(m1[b] == m0[b - 1]);
                                assert(m0.contains(m0[b - 1]));
                            } else if b == j {
                                assert(m1[a] == m0[a]);
                                assert(m0.contains(m0[a]));
                            } else {
                                let a0 = if a < j { a } else { a - 1 };
                                let b0 = if b < j { b } else { b - 1 };
                                assert(m1[a] == m0[a0] && m1[b] == m0[b0]);
                            }
                        }
                    }
                    assert forall|a: int, b: int| 0 <= a < b < o1.len() implies (#[trigger] o1[a]).1 <= (#[trigger] o1[b]).1 by {
                        if a < j && b < j {
                            assert(o1[a] == o0[a] && o1[b] == o0[b]);
                        } else if a < j && b == j {
                            assert(o1[a] == o0[a]);
                            if a < j - 1 {
                                assert(o0[a].1 <= o0[j - 1].1);
                            }
                        } else if a < j && b > j {
                            assert(o1[a] == o0[a] && o1[b] == o0[b - 1]);
                        } else if a == j {
                            assert(o1[b] == o0[b - 1]);
                        } else {
                            assert(o1[a] == o0[a - 1] && o1[b] == o0[b - 1]);
                        }
                    }
                }
            },
            _ => {
                proof {
                    let m0 = pair_firsts(ordered@);
                    assert forall|y: NodeId| #[trigger] m0.contains(y) <==> t1.contains(y) && y < g.nodes().len() && g.nodes()[y as int] is Block by {
                        if y == r {
                            assert(!(r < g.nodes().len() && g.nodes()[r as int] is Block));
                        }
                    }
                }
            },
        }
        i += 1;
    }
    proof {
        assert(list@.take(i as int) =~= list@);
    }
    let ghost ns = pair_firsts(ordered@);
    let mut regions: Vec<Region> = Vec::new();
    let mut t: usize = 0;
    while t < ordered.len()
        invariant
            0 <= t <= ordered@.len(),
            ns == pair_firsts(ordered@),
            forall|q: int| 0 <= q < ordered@.len() ==> (#[trigger] ordered@[q]).0 < g.nodes().len() && g.nodes()[ordered@[q].0 as int]
                == RegionNode::Block(ordered@[q].1),
            regions@ == ns.take(t as int).map_values(|x: NodeId| Region::Block(node_block(g.nodes()[x as int]))),
        decreases ordered@.len() - t,
    {
        regions.push(Region::Block(ordered[t].1));
        proof {
            assert(ns.take(t + 1) =~= ns.take(t as int).push(ns[t as int]));
            assert(ns[t as int] == ordered@[t as int].0);
            assert(regions@ =~= ns.take(t + 1).map_values(|x: NodeId| Region::Block(node_block(g.nodes()[x as int]))));
        }
        t += 1;
    }
    proof {
        assert(ns.take(t as int) =~= ns);
        assert(is_block_order(g, rs, ns)) by {
            assert forall|r: NodeId| #[trigger] ns.contains(r) <==> rs.contains(r) && r < g.nodes().len() && g.nodes()[r as int] is Block by {
                assert(list@.to_set().contains(r) == list@.contains(r));
            }
            assert forall|a: int, b: int| 0 <= a < b < ns.len() implies node_block(g.nodes()[#[trigger] ns[a] as int]) <= node_block(
                g.nodes()[#[trigger] ns[b] as int],
            ) by {
                assert(ordered@[a].1 <= ordered@[b].1);
            }
        }
    }
    let sequence = Region::sequence(regions);
    proof {
        assert forall|r: NodeId| #[trigger] region_nodes@.contains(r) implies r < g.nodes().len() by {
            let c = choose|c: NodeId| #[trigger] cfg_nodes@.contains(c) && crate::patterns::block_owner(g, c) == Some(r);
        }
        assert(region_nodes@ != Set::<NodeId>::empty()) by {
            if region_nodes@ == Set::<NodeId>::empty() {
                assert(region_nodes@.len() == 0);
            }
        }
    }
    let ghost the_region = sequence;
    let k = graph.collapse(&region_nodes, sequence);
    proof {
        crate::region_graph::lemma_collapse_node_count(g, *graph, region_nodes@, the_region, k);
    }
    true
}


// ---------------------------------------------------------------------
// Switches.
// ---------------------------------------------------------------------

/// The nodes of a branch from `start` up to `merge`: those reached from
/// `start` without passing through the merge; none where `start` is the
/// merge.
pub open spec fn branch_nodes(g: RegionGraph, start: NodeId, merge: NodeId) -> Set<NodeId> {
    Set::new(|y: NodeId| start < g.nodes().len() && start != merge && reaches(path_adj(g, merge), start, y))
}

/// `b` holds a copy of each region of `a`, in order.
pub open spec fn regions_copied(a: Seq<Region>, b: Seq<Region>) -> bool {
    a.len() == b.len() && forall|i: int| 0 <= i < a.len() ==> region_copy(#[trigger] a[i], b[i])
}

/// `r` is a copy of the region of a set of nodes (see `is_region_of_nodes`):
/// nothing for no node; a copy of the region of a single node; otherwise
/// the sequence of copies of the nodes' regions in flow order.
pub open spec fn is_copied_region_of_nodes(g: RegionGraph, nodes: Set<NodeId>, r: Region) -> bool {
    if nodes.len() == 0 {
        r == Region::Empty
    } else if nodes.len() == 1 {
        if nodes.choose() < g.nodes().len() {
            region_copy(node_region(g.nodes()[nodes.choose() as int]), r)
        } else {
            r == Region::Empty
        }
    } else {
        exists|rs: Seq<Region>| #[trigger] is_sequence_of(r, rs) && regions_copied(
            order_regions(g, crate::flow_order::flow_order(g, nodes)),
            rs,
        )
    }
}

/// The values of a switch case, as the constants of its patterns: the
/// case values that lead to the case node, none where they are unknown.
pub open spec fn case_constants(p: SwitchPatternView, case: NodeId) -> Seq<Constant> {
    if p.7.dom().contains(case) {
        p.7[case].map_values(|v: i32| Constant::InlineInt(v as usize))
    } else {
        Seq::empty()
    }
}

/// The nodes a switch pattern collapses: its selector and its body.
pub open spec fn switch_collapse_set(p: SwitchPatternView) -> Set<NodeId> {
    p.5.insert(p.0)
}

/// `r` is the switch region of the pattern: over the selector register
/// (a placeholder constant where it is unknown), one case per case node
/// with its values and a copy of the region of its nodes, a copy of the
/// default node's region (or nothing), meeting again at the merge.
pub open spec fn is_switch_region_of(g: RegionGraph, p: SwitchPatternView, r: Region) -> bool {
    &&& r matches Region::Switch { selector, selector_block, cases, default, merge }
    &&& selector == match p.6 {
        Some(reg) => Expr::Variable(reg, None),
        None => Expr::Constant(Constant::Int(RefInt(0))),
    }
    &&& selector_block == Some(p.1)
    &&& merge == p.4
    &&& cases.len() == p.2.len()
    &&& forall|i: int|
        0 <= i < p.2.len() ==> (#[trigger] cases@[i]).patterns@ == case_constants(p, p.2[i]) && is_copied_region_of_nodes(
            g,
            branch_nodes(g, p.2[i], p.4),
            cases@[i].body,
        )
    &&& match p.3 {
        Some(d) => if d < g.nodes().len() {
            region_copy(node_region(g.nodes()[d as int]), *default)
        } else {
            *default == Region::Empty
        },
        None => *default == Region::Empty,
    }
}

/// A copy of the region of node `x`; nothing where `x` is no node.
fn copy_node_region(graph: &RegionGraph, cfg: &Cfg, x: NodeId) -> (res: Region)
    requires
        nodes_within(*graph, *cfg),
    ensures
        x < graph.nodes().len() ==> region_copy(node_region(graph.nodes()[x as int]), res),
        x >= graph.nodes().len() ==> res == Region::Empty,
        region_within(res, cfg.blocks.len() as nat),
{
    match graph.get_node(x) {
        Some(RegionNode::Block(c)) => {
            proof {
                assert(region_within(node_region(graph.nodes()[x as int]), cfg.blocks.len() as nat));
            }
            Region::Block(*c)
        },
        Some(RegionNode::Collapsed(r)) => {
            proof {
                assert(region_within(node_region(graph.nodes()[x as int]), cfg.blocks.len() as nat));
            }
            copy_region(r, Ghost(cfg.blocks.len() as nat))
        },
        None => Region::Empty,
    }
}

/// A copy of the region of a set of nodes (see `is_copied_region_of_nodes`).
fn copy_region_of_nodes(graph: &RegionGraph, cfg: &Cfg, nodes: &HashSet<NodeId>) -> (res: Region)
    requires
        graph.wf(),
        nodes_within(*graph, *cfg),
    ensures
        is_copied_region_of_nodes(*graph, nodes@, res),
        region_within(res, cfg.blocks.len() as nat),
{
    let ghost g = *graph;
    let ghost nb = cfg.blocks.len() as nat;
    if nodes.len() == 0 {
        return Region::Empty;
    }
    if nodes.len() == 1 {
        let v = crate::region_graph::set_to_vec(nodes);
        proof {
            v@.unique_seq_to_set();
        }
        let node = v[0];
        proof {
            assert(v@.to_set().contains(node));
            assert(nodes@.contains(nodes@.choose()));
            assert(nodes@.choose() == node) by {
                let k = choose|k: int| 0 <= k < v@.len() && v@[k] == nodes@.choose();
                assert(k == 0);
            }
        }
        return copy_node_region(graph, cfg, node);
    }
    let order = crate::flow_order::order_nodes_by_flow(graph, nodes);
    let ghost f = |x: NodeId| if x < g.nodes().len() {
        Some(node_region(g.nodes()[x as int]))
    } else {
        None
    };
    let n = graph.node_count();
    let mut regions: Vec<Region> = Vec::new();
    let mut i: usize = 0;
    while i < order.len()
        invariant
            *graph == g,
            n == g.nodes().len(),
            nodes_within(g, *cfg),
            nb == cfg.blocks.len(),
            0 <= i <= order@.len(),
            regions_copied(order@.take(i as int).filter_map(f), regions@),
            forall|k: int| 0 <= k < regions@.len() ==> region_within(#[trigger] regions@[k], nb),
            f == (|x: NodeId| if x < g.nodes().len() {
                Some(node_region(g.nodes()[x as int]))
            } else {
                None
            }),
        decreases order@.len() - i,
    {
        let x = order[i];
        let ghost t0 = order@.take(i as int);
        let ghost t1 = order@.take(i + 1);
        let ghost r0 = regions@;
        proof {
            assert(t1.drop_last() =~= t0);
            assert(t1.last() == x);
        }
        if x < n {
            let c = copy_node_region(graph, cfg, x);
            regions.push(c);
            proof {
                assert(f(x) == Some(node_region(g.nodes()[x as int])));
                assert(t1.filter_map(f) == t0.filter_map(f) + seq![node_region(g.nodes()[x as int])]);
                let a = t1.filter_map(f);
                assert(regions@ == r0.push(c));
                assert forall|k: int| 0 <= k < a.len() implies region_copy(#[trigger] a[k], regions@[k]) by {
                    if k < r0.len() {
                        assert(a[k] == t0.filter_map(f)[k]);
                    }
                }
            }
        } else {
            proof {
                assert(f(x) is None);
                assert(t1.filter_map(f) == t0.filter_map(f));
            }
        }
        i += 1;
    }
    proof {
        assert(order@.take(i as int) =~= order@);
        assert(order@.take(i as int).filter_map(f) == order_regions(g, order@));
    }
    let res = Region::sequence(regions);
    proof {
        crate::reduction::lemma_sequence_within(res, regions@, nb);
        assert(is_sequence_of(res, regions@));
    }
    res
}

/// The case values of a case, as constants.
fn case_value_constants(values: &Vec<i32>) -> (res: Vec<Constant>)
    ensures
        res@ == values@.map_values(|v: i32| Constant::InlineInt(v as usize)),
{
    let mut res: Vec<Constant> = Vec::new();
    let mut i: usize = 0;
    while i < values.len()
        invariant
            0 <= i <= values.len(),
            res@ == values@.take(i as int).map_values(|v: i32| Constant::InlineInt(v as usize)),
        decreases values.len() - i,
    {
        let v = values[i];
        res.push(Constant::InlineInt(v as usize));
        proof {
            assert(values@.take(i + 1) =~= values@.take(i as int).push(v));
            assert(res@ =~= values@.take(i + 1).map_values(|v: i32| Constant::InlineInt(v as usize)));
        }
        i += 1;
    }
    proof {
        assert(values@.take(i as int) =~= values@);
    }
    res
}

/// Collapse a switch pattern into a `Region::Switch` node (see
/// `is_switch_region_of`): the selector and the switch body become one
/// node. The regions of the cases are copies, as a node may lie on the
/// path of several cases.
#[verifier::loop_isolation(false)]
pub fn collapse_switch(graph: &mut RegionGraph, cfg: &Cfg, pattern: &SwitchPattern)
    requires
        old(graph).wf(),
        nodes_within(*old(graph), *cfg),
        old(graph).spec_generation() < u64::MAX,
        forall|x: NodeId| #[trigger] switch_collapse_set(pattern@).contains(x) ==> x < old(graph).nodes().len(),
    ensures
        final(graph).wf(),
        exists|k: NodeId, r: Region| is_switch_region_of(*old(graph), pattern@, r) && region_within(
            r,
            cfg.blocks.len() as nat,
        ) && is_collapse_of(*old(graph), *final(graph), switch_collapse_set(pattern@), r, k),
{
    let ghost g0 = *graph;
    let ghost p = pattern@;
    let ghost nb = cfg.blocks.len() as nat;
    let mut cases: Vec<SwitchCase> = Vec::new();
    let mut i: usize = 0;
    while i < pattern.case_nodes.len()
        invariant
            *graph == g0,
            0 <= i <= p.2.len(),
            cases@.len() == i,
            forall|k: int|
                0 <= k < i ==> (#[trigger] cases@[k]).patterns@ == case_constants(p, p.2[k]) && is_copied_region_of_nodes(
                    g0,
                    branch_nodes(g0, p.2[k], p.4),
                    cases@[k].body,
                ) && region_within(cases@[k].body, nb),
        decreases p.2.len() - i,
    {
        let case_node = pattern.case_nodes[i];
        let body_nodes = collect_path_nodes(graph, case_node, pattern.merge);
        proof {
            assert(body_nodes@ =~= branch_nodes(g0, case_node, p.4));
        }
        let body = copy_region_of_nodes(graph, cfg, &body_nodes);
        let patterns = match pattern.case_values.get(&case_node) {
            Some(values) => case_value_constants(values),
            None => Vec::new(),
        };
        proof {
            assert(patterns@ == case_constants(p, case_node));
        }
        let ghost c0 = cases@;
        cases.push(SwitchCase { patterns, body });
        proof {
            assert forall|k: int| 0 <= k < i + 1 implies (#[trigger] cases@[k]).patterns@ == case_constants(p, p.2[k])
                && is_copied_region_of_nodes(g0, branch_nodes(g0, p.2[k], p.4), cases@[k].body) && region_within(
                cases@[k].body,
                nb,
            ) by {
                if k < i {
                    assert(cases@[k] == c0[k]);
                }
            }
        }
        i += 1;
    }
    let default = match pattern.default_node {
        Some(d) => copy_node_region(graph, cfg, d),
        None => Region::Empty,
    };
    let selector = match pattern.selector_reg {
        Some(reg) => Expr::Variable(reg, None),
        None => Expr::Constant(Constant::Int(RefInt(0))),
    };
    let ghost cs = cases@;
    proof {
        assert(crate::region::simple_expr(selector));
        assert(region_within(default, nb));
        assert forall|q: int| 0 <= q < cs.len() implies region_within(#[trigger] cs[q].body, nb) by {
            assert(region_within(cases@[q].body, nb));
        }
    }
    let switch_region = Region::Switch {
        selector,
        selector_block: Some(pattern.selector_cfg_block),
        cases,
        default: Box::new(default),
        merge: pattern.merge,
    };
    proof {
        assert(is_switch_region_of(g0, p, switch_region));
        assert(region_within(switch_region, nb));
    }
    let mut nodes_to_collapse: HashSet<NodeId> = HashSet::new();
    nodes_to_collapse.insert(pattern.selector_node);
    let body_list = crate::region_graph::set_to_vec(&pattern.body_nodes);
    let mut j: usize = 0;
    while j < body_list.len()
        invariant
            0 <= j <= body_list@.len(),
            nodes_to_collapse@ == body_list@.take(j as int).to_set().insert(p.0),
        decreases body_list@.len() - j,
    {
        nodes_to_collapse.insert(body_list[j]);
        proof {
            assert(body_list@.take(j + 1) =~= body_list@.take(j as int).push(body_list@[j as int]));
            body_list@.take(j as int).lemma_push_to_set_commute(body_list@[j as int]);
            assert(nodes_to_collapse@ =~= body_list@.take(j + 1).to_set().insert(p.0));
        }
        j += 1;
    }
    proof {
        assert(body_list@.take(body_list@.len() as int) =~= body_list@);
        assert(nodes_to_collapse@ =~= switch_collapse_set(p));
        assert(nodes_to_collapse@.contains(p.0));
    }
    let k = graph.collapse(&nodes_to_collapse, switch_region);
}


// ---------------------------------------------------------------------
// OR chains.
// ---------------------------------------------------------------------

/// The block of node `x`, where it is an uncollapsed block of the graph.
pub open spec fn block_of_node(g: RegionGraph, x: NodeId) -> Option<NodeId> {
    if x < g.nodes().len() {
        match g.nodes()[x as int] {
            RegionNode::Block(c) => Some(c),
            RegionNode::Collapsed(_) => None,
        }
    } else {
        None
    }
}

/// The blocks of the condition nodes that are uncollapsed blocks, in order.
pub open spec fn condition_blocks_of(g: RegionGraph, conds: Seq<NodeId>) -> Seq<NodeId> {
    conds.filter_map(|x: NodeId| block_of_node(g, x))
}

/// The nodes holding some block of `blocks`.
pub open spec fn holders(g: RegionGraph, blocks: Set<NodeId>) -> Set<NodeId> {
    Set::new(|r: NodeId| exists|c: NodeId| #[trigger] blocks.contains(c) && owner_of(g, c) == Some(r))
}

/// The blocks of the nested AND chains of an OR chain.
pub open spec fn nested_blocks(nested: Map<usize, Seq<NodeId>>) -> Set<NodeId> {
    Set::new(|b: NodeId| exists|k: usize| #![trigger nested[k].contains(b)] nested.dom().contains(k) && nested[k].contains(b))
}

/// The nodes holding the blocks of `blocks`, each once, in the order of
/// their first block.
pub open spec fn first_holders(g: RegionGraph, blocks: Seq<NodeId>) -> Seq<NodeId>
    decreases blocks.len(),
{
    if blocks.len() == 0 {
        Seq::empty()
    } else {
        let prev = first_holders(g, blocks.drop_last());
        match owner_of(g, blocks.last()) {
            Some(r) => if prev.contains(r) {
                prev
            } else {
                prev.push(r)
            },
            None => prev,
        }
    }
}

/// `r` is the region of the body of an OR chain whose blocks are `blocks`:
/// nothing where no node holds them, a copy of the region of the one node
/// that does, or the sequence of copies of the regions of the nodes that
/// do, in the order of their first block.
pub open spec fn is_body_region_of(g: RegionGraph, blocks: Seq<NodeId>, r: Region) -> bool {
    let hs = first_holders(g, blocks);
    if hs.len() == 0 {
        r == Region::Empty
    } else if hs.len() == 1 {
        region_copy(node_region(g.nodes()[hs[0] as int]), r)
    } else {
        r matches Region::Sequence(v) && regions_copied(hs.map_values(|x: NodeId| node_region(g.nodes()[x as int])), v@)
    }
}

/// `r` is the OR-chain region of pattern `p` with the branches `t` and `e`.
pub open spec fn is_or_chain_region_with(g: RegionGraph, p: OrChainView, t: Region, e: Option<Region>, r: Region) -> bool {
    &&& r matches Region::OrChain {
        condition_blocks,
        then_region,
        else_region,
        continuation,
        last_condition_inverted,
        nested_and_chains,
    }
    &&& condition_blocks@ == condition_blocks_of(g, p.0)
    &&& *then_region == t
    &&& else_region == match e {
        Some(x) => Some(Box::new(x)),
        None => None,
    }
    &&& continuation == p.3
    &&& last_condition_inverted == p.5
    &&& nested_view(nested_and_chains@) == p.6
}

/// An OR chain whose shared target neither ends the function nor has a
/// body: the shared target and the continuation are two branches that
/// meet again.
pub open spec fn is_if_else_or(p: OrChainView) -> bool {
    !p.4 && p.7.len() == 0
}

/// A block that both branches of an if-else OR chain reach: from the
/// continuation's block `cc` and from the shared target's block `sc`.
pub open spec fn is_meeting_block(cfg: Cfg, sc: NodeId, cc: NodeId, m: NodeId) -> bool {
    cfg_reaches(cfg, cc, m) && cfg_reaches(cfg, sc, m)
}

/// The nodes an if-else OR chain collapses where its branches meet at node
/// `mr`: the conditions, both branches, the meeting node and the nested AND
/// chains.
pub open spec fn or_if_else_set(g: RegionGraph, p: OrChainView, mr: NodeId) -> Set<NodeId> {
    p.0.to_set() + branch_nodes(g, p.1, mr) + branch_nodes(g, p.3, mr) + set![mr] + holders(g, nested_blocks(p.6))
}

/// The nodes any other OR chain collapses: the conditions, the shared
/// target, the body and the nested AND chains.
pub open spec fn or_body_set(g: RegionGraph, p: OrChainView) -> Set<NodeId> {
    p.0.to_set().insert(p.1) + holders(g, p.7.to_set()) + holders(g, nested_blocks(p.6))
}

/// The then region of an OR chain that is not an if-else one: the region
/// of its body, else a copy of the shared target's region.
pub open spec fn is_or_then_region(g: RegionGraph, p: OrChainView, t: Region) -> bool {
    if p.7.len() > 0 {
        is_body_region_of(g, p.7, t)
    } else {
        region_copy(node_region(g.nodes()[p.1 as int]), t)
    }
}

/// An if-else OR chain whose branches meet at node `mr` took `before` to
/// `after`, with result `res`.
pub open spec fn or_if_else_outcome(before: RegionGraph, after: RegionGraph, p: OrChainView, mr: NodeId, res: bool) -> bool {
    &&& res == (or_if_else_set(before, p, mr).len() >= 2)
    &&& !res ==> after == before
    &&& res ==> exists|t: Region, e: Region, r: Region, k: NodeId|
        is_copied_region_of_nodes(before, branch_nodes(before, p.1, mr), t)
        && is_copied_region_of_nodes(before, branch_nodes(before, p.3, mr), e)
        && #[trigger] is_or_chain_region_with(before, p, t, Some(e), r)
        && #[trigger] is_collapse_of(before, after, or_if_else_set(before, p, mr), r, k)
}

/// An if-else OR chain whose shared target is block `sc` and continuation
/// block `cc` took `before` to `after`, with result `res`: where a block
/// is reached from both, the first one the search meets (which one is left
/// open here) decides.
pub open spec fn or_if_else_collapse(before: RegionGraph, after: RegionGraph, cfg: Cfg, p: OrChainView, sc: NodeId, cc: NodeId, res: bool) -> bool {
    if exists|m: NodeId| #[trigger] is_meeting_block(cfg, sc, cc, m) {
        exists|m: NodeId| #[trigger] is_meeting_block(cfg, sc, cc, m) && match owner_of(before, m) {
            None => !res && after == before,
            Some(mr) => or_if_else_outcome(before, after, p, mr, res),
        }
    } else {
        !res && after == before
    }
}

/// `collapse_or_chain` of pattern `p` took `before` to `after`, with result
/// `res`. An if-else OR chain needs its shared target and continuation to
/// be uncollapsed blocks, and a block that both reach and some node holds:
/// the first such block a search from the continuation meets (which one is
/// left open here); its branches are the nodes from each up to that node.
/// Any other OR chain takes its body, or the shared target, as the then
/// branch. The collapse happens where there are two nodes or more.
pub open spec fn is_or_chain_collapse(before: RegionGraph, after: RegionGraph, cfg: Cfg, p: OrChainView, res: bool) -> bool {
    if is_if_else_or(p) {
        match block_of_node(before, p.1) {
            Some(sc) => match block_of_node(before, p.3) {
                Some(cc) => or_if_else_collapse(before, after, cfg, p, sc, cc, res),
                None => !res && after == before,
            },
            None => !res && after == before,
        }
    } else {
        &&& res == (or_body_set(before, p).len() >= 2)
        &&& !res ==> after == before
        &&& res ==> exists|t: Region, r: Region, k: NodeId| is_or_then_region(before, p, t)
            && #[trigger] is_or_chain_region_with(before, p, t, None, r)
            && #[trigger] is_collapse_of(before, after, or_body_set(before, p), r, k)
    }
}


/// The blocks of the condition nodes that are uncollapsed blocks, in order.
fn condition_blocks(graph: &RegionGraph, conds: &Vec<NodeId>) -> (res: Vec<NodeId>)
    ensures
        res@ == condition_blocks_of(*graph, conds@),
{
    let ghost f = |x: NodeId| block_of_node(*graph, x);
    let mut res: Vec<NodeId> = Vec::new();
    let mut i: usize = 0;
    while i < conds.len()
        invariant
            0 <= i <= conds.len(),
            res@ == conds@.take(i as int).filter_map(f),
            f == (|x: NodeId| block_of_node(*graph, x)),
        decreases conds.len() - i,
    {
        let x = conds[i];
        let ghost t0 = conds@.take(i as int);
        let ghost t1 = conds@.take(i + 1);
        proof {
            assert(t1.drop_last() =~= t0);
            assert(t1.last() == x);
        }
        match graph.get_node(x) {
            Some(RegionNode::Block(c)) => {
                res.push(*c);
                proof {
                    assert(f(x) == Some(*c));
                    assert(t1.filter_map(f) == t0.filter_map(f) + seq![*c]);
                }
            },
            _ => {
                proof {
                    assert(f(x) is None);
                    assert(t1.filter_map(f) == t0.filter_map(f));
                }
            },
        }
        i += 1;
    }
    proof {
        assert(conds@.take(i as int) =~= conds@);
    }
    res
}

/// Add the nodes of `v` to `set`.
fn add_nodes(set: &mut HashSet<NodeId>, v: &Vec<NodeId>)
    ensures
        final(set)@ == old(set)@ + v@.to_set(),
{
    let mut i: usize = 0;
    while i < v.len()
        invariant
            0 <= i <= v.len(),
            set@ == old(set)@ + v@.take(i as int).to_set(),
        decreases v.len() - i,
    {
        set.insert(v[i]);
        proof {
            assert(v@.take(i + 1) =~= v@.take(i as int).push(v@[i as int]));
            v@.take(i as int).lemma_push_to_set_commute(v@[i as int]);
            assert(set@ =~= old(set)@ + v@.take(i + 1).to_set());
        }
        i += 1;
    }
    proof {
        assert(v@.take(i as int) =~= v@);
    }
}

/// Add the nodes of `other` to `set`.
fn add_set(set: &mut HashSet<NodeId>, other: &HashSet<NodeId>)
    ensures
        final(set)@ == old(set)@ + other@,
{
    let v = crate::region_graph::set_to_vec(other);
    add_nodes(set, &v);
}

/// Add to `set` the nodes holding the blocks of `blocks`.
fn add_holders(graph: &RegionGraph, set: &mut HashSet<NodeId>, blocks: &Vec<NodeId>)
    ensures
        final(set)@ == old(set)@ + holders(*graph, blocks@.to_set()),
{
    let mut i: usize = 0;
    while i < blocks.len()
        invariant
            0 <= i <= blocks.len(),
            set@ == old(set)@ + holders(*graph, blocks@.take(i as int).to_set()),
        decreases blocks.len() - i,
    {
        let b = blocks[i];
        let ghost t0 = blocks@.take(i as int);
        let ghost t1 = blocks@.take(i + 1);
        proof {
            assert(t1 =~= t0.push(b));
            t0.lemma_push_to_set_commute(b);
        }
        match graph.get_region_node(b) {
            Some(r) => {
                set.insert(r);
                proof {
                    assert(owner_of(*graph, b) == Some(r));
                    assert forall|x: NodeId| #[trigger] holders(*graph, t1.to_set()).contains(x) <==> holders(*graph, t0.to_set()).insert(r).contains(x) by {
                        if holders(*graph, t1.to_set()).contains(x) {
                            let c = choose|c: NodeId| #[trigger] t1.to_set().contains(c) && owner_of(*graph, c) == Some(x);
                            if c != b {
                                assert(t0.to_set().contains(c));
                            }
                        }
                        if x == r {
                            assert(t1.to_set().contains(b));
                        }
                        if holders(*graph, t0.to_set()).contains(x) {
                            let c = choose|c: NodeId| #[trigger] t0.to_set().contains(c) && owner_of(*graph, c) == Some(x);
                            assert(t1.to_set().contains(c));
                        }
                    }
                    assert(holders(*graph, t1.to_set()) =~= holders(*graph, t0.to_set()).insert(r));
                    assert(set@ =~= old(set)@ + holders(*graph, t1.to_set()));
                }
            },
            None => {
                proof {
                    assert(owner_of(*graph, b) is None);
                    assert forall|x: NodeId| #[trigger] holders(*graph, t1.to_set()).contains(x) <==> holders(*graph, t0.to_set()).contains(x) by {
                        if holders(*graph, t1.to_set()).contains(x) {
                            let c = choose|c: NodeId| #[trigger] t1.to_set().contains(c) && owner_of(*graph, c) == Some(x);
                            assert(c != b);
                            assert(t0.to_set().contains(c));
                        }
                        if holders(*graph, t0.to_set()).contains(x) {
                            let c = choose|c: NodeId| #[trigger] t0.to_set().contains(c) && owner_of(*graph, c) == Some(x);
                            assert(t1.to_set().contains(c));
                        }
                    }
                    assert(holders(*graph, t1.to_set()) =~= holders(*graph, t0.to_set()));
                }
            },
        }
        i += 1;
    }
    proof {
        assert(blocks@.take(i as int) =~= blocks@);
    }
}

/// The keys of a map, each once.
fn map_keys(m: &HashMap<usize, Vec<NodeId>>) -> (res: Vec<usize>)
    ensures
        res@.to_set() == m@.dom(),
{
    let mut res: Vec<usize> = Vec::new();
    let ghost ks = vstd::std_specs::hash::spec_keys_iter(m).remaining();
    for x in it: m.keys()
        invariant
            it.seq() == ks,
            res@ == it.seq().take(it.index() as int).map_values(|r: &usize| *r),
    {
        let ghost before = res@;
        res.push(*x);
        proof {
            assert(it.seq().take(it.index() as int + 1).map_values(|r: &usize| *r) =~= before.push(*x));
        }
    }
    proof {
        let keys = ks.map_values(|r: &usize| *r);
        assert(res@ =~= keys);
        assert(keys =~= ks.unref());
    }
    res
}

/// The blocks of the nested AND chains listed under the first `i` keys of
/// `ks`.
spec fn chains_upto(nv: Map<usize, Seq<NodeId>>, ks: Seq<usize>, i: int) -> Set<NodeId> {
    Set::new(|b: NodeId| exists|j: int| 0 <= j < i && #[trigger] nv[ks[j]].contains(b))
}

/// Add to `set` the nodes holding the blocks of the nested AND chains.
fn add_nested_holders(graph: &RegionGraph, set: &mut HashSet<NodeId>, nested: &HashMap<usize, Vec<NodeId>>)
    ensures
        final(set)@ == old(set)@ + holders(*graph, nested_blocks(nested_view(nested@))),
{
    let keys = map_keys(nested);
    let ghost nv = nested_view(nested@);
    let mut all: Vec<NodeId> = Vec::new();
    let mut i: usize = 0;
    proof {
        assert(all@.to_set() =~= chains_upto(nv, keys@, 0));
    }
    while i < keys.len()
        invariant
            0 <= i <= keys.len(),
            keys@.to_set() == nested@.dom(),
            nv == nested_view(nested@),
            all@.to_set() == chains_upto(nv, keys@, i as int),
        decreases keys.len() - i,
    {
        let k = keys[i];
        proof {
            assert(keys@.to_set().contains(k));
        }
        let ghost a0 = all@;
        match nested.get(&k) {
            Some(v) => {
                proof {
                    assert(nv[k] == v@);
                }
                let mut j: usize = 0;
                while j < v.len()
                    invariant
                        0 <= j <= v.len(),
                        all@.to_set() == a0.to_set() + v@.take(j as int).to_set(),
                    decreases v.len() - j,
                {
                    let ghost a1 = all@;
                    all.push(v[j]);
                    proof {
                        assert(v@.take(j + 1) =~= v@.take(j as int).push(v@[j as int]));
                        v@.take(j as int).lemma_push_to_set_commute(v@[j as int]);
                        a1.lemma_push_to_set_commute(v@[j as int]);
                        assert(all@.to_set() =~= a0.to_set() + v@.take(j + 1).to_set());
                    }
                    j += 1;
                }
                proof {
                    assert(v@.take(j as int) =~= v@);
                    assert forall|b: NodeId| #[trigger] all@.to_set().contains(b) <==> chains_upto(nv, keys@, i + 1).contains(b) by {
                        if v@.contains(b) {
                            assert(nv[keys@[i as int]].contains(b));
                        }
                        if chains_upto(nv, keys@, i + 1).contains(b) {
                            let q = choose|q: int| 0 <= q < i + 1 && #[trigger] nv[keys@[q]].contains(b);
                            if q == i {
                                assert(v@.contains(b));
                            } else {
                                assert(chains_upto(nv, keys@, i as int).contains(b));
                            }
                        }
                    }
                    assert(all@.to_set() =~= chains_upto(nv, keys@, i + 1));
                }
            },
            None => {
                proof {
                    assert(false);
                }
            },
        }
        i += 1;
    }
    proof {
        assert forall|b: NodeId| #[trigger] all@.to_set().contains(b) <==> nested_blocks(nv).contains(b) by {
            if nested_blocks(nv).contains(b) {
                let k = choose|k: usize| #![trigger nv[k].contains(b)] nv.dom().contains(k) && nv[k].contains(b);
                assert(keys@.to_set().contains(k));
                let j = choose|j: int| 0 <= j < keys@.len() && keys@[j] == k;
                assert(nv[keys@[j]].contains(b));
            }
            if all@.to_set().contains(b) {
                let j = choose|j: int| 0 <= j < i && #[trigger] nv[keys@[j]].contains(b);
                assert(keys@.to_set().contains(keys@[j]));
            }
        }
        assert(all@.to_set() =~= nested_blocks(nv));
    }
    add_holders(graph, set, &all);
}


/// The nodes of a branch are nodes of the graph.
proof fn lemma_branch_in_graph(g: RegionGraph, start: NodeId, merge: NodeId)
    ensures
        forall|y: NodeId| #[trigger] branch_nodes(g, start, merge).contains(y) ==> y < g.nodes().len(),
{
    assert forall|y: NodeId| #[trigger] branch_nodes(g, start, merge).contains(y) implies y < g.nodes().len() by {
        let adj = path_adj(g, merge);
        let q = choose|q: Seq<NodeId>| #[trigger] is_path(adj, q) && q[0] == start && q.last() == y;
        if q.len() > 1 {
            assert(adj(q[q.len() - 2], q[q.len() - 2 + 1]));
        }
    }
}

/// The nodes holding blocks are nodes of the graph.
proof fn lemma_holders_in_graph(g: RegionGraph, blocks: Set<NodeId>)
    requires
        g.wf(),
    ensures
        forall|r: NodeId| #[trigger] holders(g, blocks).contains(r) ==> r < g.nodes().len(),
{
    assert forall|r: NodeId| #[trigger] holders(g, blocks).contains(r) implies r < g.nodes().len() by {
        let c = choose|c: NodeId| #[trigger] blocks.contains(c) && owner_of(g, c) == Some(r);
        assert(g.owners().dom().contains(c));
    }
}

/// The region of the body of an OR chain (see `is_body_region_of`): the
/// regions of the nodes holding its blocks, copied, each node once.
#[verifier::loop_isolation(false)]
fn structure_body_subgraph(graph: &RegionGraph, cfg: &Cfg, body_cfg_nodes: &Vec<NodeId>) -> (res: Region)
    requires
        graph.wf(),
        nodes_within(*graph, *cfg),
    ensures
        is_body_region_of(*graph, body_cfg_nodes@, res),
        region_within(res, cfg.blocks.len() as nat),
{
    let ghost g = *graph;
    let ghost nb = cfg.blocks.len() as nat;
    let ghost f = |x: NodeId| node_region(g.nodes()[x as int]);
    let mut regions: Vec<Region> = Vec::new();
    let mut seen: HashSet<NodeId> = HashSet::new();
    let ghost mut hs: Seq<NodeId> = Seq::empty();
    let mut i: usize = 0;
    while i < body_cfg_nodes.len()
        invariant
            0 <= i <= body_cfg_nodes.len(),
            hs == first_holders(g, body_cfg_nodes@.take(i as int)),
            seen@ == hs.to_set(),
            regions_copied(hs.map_values(f), regions@),
            forall|q: int| 0 <= q < regions@.len() ==> region_within(#[trigger] regions@[q], nb),
            forall|q: int| 0 <= q < hs.len() ==> #[trigger] hs[q] < g.nodes().len(),
        decreases body_cfg_nodes.len() - i,
    {
        let b = body_cfg_nodes[i];
        proof {
            assert(body_cfg_nodes@.take(i + 1).drop_last() =~= body_cfg_nodes@.take(i as int));
            assert(body_cfg_nodes@.take(i + 1).last() == b);
        }
        match graph.get_region_node(b) {
            Some(r) => {
                proof {
                    assert(owner_of(g, b) == Some(r));
                    assert(g.owners().dom().contains(b));
                }
                if !seen.contains(&r) {
                    seen.insert(r);
                    let c = copy_node_region(graph, cfg, r);
                    let ghost r0 = regions@;
                    regions.push(c);
                    proof {
                        let h0 = hs;
                        hs = hs.push(r);
                        h0.lemma_push_to_set_commute(r);
                        assert(!h0.contains(r));
                        assert(hs.map_values(f) =~= h0.map_values(f).push(f(r)));
                        assert forall|q: int| 0 <= q < hs.len() implies region_copy(#[trigger] hs.map_values(f)[q], regions@[q]) by {
                            if q < h0.len() {
                                assert(hs.map_values(f)[q] == h0.map_values(f)[q]);
                                assert(regions@[q] == r0[q]);
                            }
                        }
                    }
                } else {
                    proof {
                        assert(hs.to_set().contains(r));
                        assert(hs.contains(r));
                    }
                }
            },
            None => {},
        }
        i += 1;
    }
    proof {
        assert(body_cfg_nodes@.take(i as int) =~= body_cfg_nodes@);
    }
    if regions.len() == 0 {
        Region::Empty
    } else if regions.len() == 1 {
        let r = regions.pop().unwrap();
        proof {
            assert(hs.map_values(f)[0] == f(hs[0]));
        }
        r
    } else {
        let res = Region::Sequence(regions);
        proof {
            assert(region_within(res, nb));
        }
        res
    }
}

/// Collapse an OR chain pattern into a `Region::OrChain` node (see
/// `is_or_chain_collapse`). An if-else OR chain takes both branches up to
/// where they meet, and the meeting node; any other takes its body, or the
/// shared target, as the then branch. The branch regions are copies.
/// Returns whether it collapsed.
#[verifier::loop_isolation(false)]
pub fn collapse_or_chain(graph: &mut RegionGraph, cfg: &Cfg, pattern: &OrChainPattern) -> (res: bool)
    requires
        old(graph).wf(),
        cfg.wf(),
        nodes_within(*old(graph), *cfg),
        old(graph).spec_generation() < u64::MAX,
        forall|i: int| 0 <= i < pattern@.0.len() ==> #[trigger] pattern@.0[i] < old(graph).nodes().len(),
        pattern@.1 < old(graph).nodes().len(),
        pattern@.3 < old(graph).nodes().len(),
    ensures
        final(graph).wf(),
        nodes_within(*final(graph), *cfg),
        is_or_chain_collapse(*old(graph), *final(graph), *cfg, pattern@, res),
        res ==> final(graph).nodes().len() < old(graph).nodes().len(),
        !res ==> *final(graph) == *old(graph),
        final(graph).spec_generation() <= old(graph).spec_generation() + 1,
        crate::reduction::all_reachable(*old(graph)) ==> crate::reduction::all_reachable(*final(graph)),
{
    let ghost g0 = *graph;
    let ghost p = pattern@;
    let ghost nb = cfg.blocks.len() as nat;
    let if_else_chain = !pattern.shared_target_terminates && pattern.body_cfg_nodes.len() == 0;
    let condition_cfg_nodes = condition_blocks(graph, &pattern.condition_nodes);
    proof {
        assert forall|x: NodeId| #[trigger] p.0.to_set().contains(x) implies x < g0.nodes().len() by {
            let q = choose|q: int| 0 <= q < p.0.len() && p.0[q] == x;
        }
        lemma_holders_in_graph(g0, nested_blocks(p.6));
    }
    if if_else_chain {
        let shared_cfg = match graph.get_node(pattern.shared_target) {
            Some(RegionNode::Block(c)) => *c,
            _ => {
                return false;
            },
        };
        let cont_cfg = match graph.get_node(pattern.continuation) {
            Some(RegionNode::Block(c)) => *c,
            _ => {
                return false;
            },
        };
        proof {
            assert(region_within(node_region(g0.nodes()[p.1 as int]), nb));
            assert(region_within(node_region(g0.nodes()[p.3 as int]), nb));
            assert(block_of_node(g0, p.1) == Some(shared_cfg));
            assert(block_of_node(g0, p.3) == Some(cont_cfg));
        }
        let empty: HashSet<NodeId> = HashSet::new();
        proof {
            assert(empty@ =~= Set::<NodeId>::empty());
        }
        let shared_reachable = crate::patterns::cfg_reach(cfg, shared_cfg, &empty);
        let merge_cfg = match crate::patterns::find_reached_block(cfg, cont_cfg, &shared_reachable) {
            Some(m) => m,
            None => {
                proof {
                    assert forall|m: NodeId| !#[trigger] is_meeting_block(*cfg, shared_cfg, cont_cfg, m) by {
                        if cfg_reaches(*cfg, cont_cfg, m) {
                            assert(!shared_reachable@.contains(m));
                        }
                    }
                }
                return false;
            },
        };
        proof {
            assert(is_meeting_block(*cfg, shared_cfg, cont_cfg, merge_cfg));
        }
        let merge_node = match graph.get_region_node(merge_cfg) {
            Some(n) => n,
            None => {
                proof {
                    assert(owner_of(g0, merge_cfg) is None);
                }
                return false;
            },
        };
        proof {
            assert(owner_of(g0, merge_cfg) == Some(merge_node));
            assert(g0.owners().dom().contains(merge_cfg));
            lemma_branch_in_graph(g0, p.1, merge_node);
            lemma_branch_in_graph(g0, p.3, merge_node);
        }
        let then_nodes = collect_path_nodes(graph, pattern.shared_target, merge_node);
        let then_region = copy_region_of_nodes(graph, cfg, &then_nodes);
        let else_nodes = collect_path_nodes(graph, pattern.continuation, merge_node);
        let else_region = copy_region_of_nodes(graph, cfg, &else_nodes);
        proof {
            assert(then_nodes@ =~= branch_nodes(g0, p.1, merge_node));
            assert(else_nodes@ =~= branch_nodes(g0, p.3, merge_node));
        }
        let ghost t = then_region;
        let ghost e = else_region;
        let region = Region::OrChain {
            condition_blocks: condition_cfg_nodes,
            then_region: Box::new(then_region),
            else_region: Some(Box::new(else_region)),
            continuation: pattern.continuation,
            last_condition_inverted: pattern.last_condition_inverted,
            nested_and_chains: pattern.nested_and_chains.clone(),
        };
        proof {
            assert(is_or_chain_region_with(g0, p, t, Some(e), region));
            assert(region_within(region, nb));
        }
        let mut set: HashSet<NodeId> = HashSet::new();
        add_nodes(&mut set, &pattern.condition_nodes);
        add_set(&mut set, &then_nodes);
        add_set(&mut set, &else_nodes);
        set.insert(merge_node);
        add_nested_holders(graph, &mut set, &pattern.nested_and_chains);
        proof {
            assert(set@ =~= or_if_else_set(g0, p, merge_node));
        }
        if set.len() >= 2 {
            let k = graph.collapse(&set, region);
            proof {
                crate::reduction::lemma_collapse_within(g0, *graph, *cfg, set@, region, k);
                crate::region_graph::lemma_collapse_node_count(g0, *graph, set@, region, k);
                crate::reduction::lemma_collapse_all_reachable(g0, *graph, set@, region, k);
                assert(is_collapse_of(g0, *graph, or_if_else_set(g0, p, merge_node), region, k));
                assert(is_or_chain_region_with(g0, p, t, Some(e), region));
                assert(or_if_else_outcome(g0, *graph, p, merge_node, true));
                assert(owner_of(g0, merge_cfg) == Some(merge_node));
                assert(or_if_else_collapse(g0, *graph, *cfg, p, shared_cfg, cont_cfg, true));
                assert(is_or_chain_collapse(g0, *graph, *cfg, p, true));
            }
            true
        } else {
            proof {
                assert(is_meeting_block(*cfg, shared_cfg, cont_cfg, merge_cfg) && owner_of(g0, merge_cfg) == Some(merge_node));
                assert(or_if_else_outcome(g0, *graph, p, merge_node, false));
                assert(is_or_chain_collapse(g0, *graph, *cfg, p, false));
            }
            false
        }
    } else {
        let then_region = if pattern.body_cfg_nodes.len() > 0 {
            structure_body_subgraph(graph, cfg, &pattern.body_cfg_nodes)
        } else {
            copy_node_region(graph, cfg, pattern.shared_target)
        };
        let ghost t = then_region;
        let region = Region::OrChain {
            condition_blocks: condition_cfg_nodes,
            then_region: Box::new(then_region),
            else_region: None,
            continuation: pattern.continuation,
            last_condition_inverted: pattern.last_condition_inverted,
            nested_and_chains: pattern.nested_and_chains.clone(),
        };
        proof {
            assert(is_or_then_region(g0, p, t));
            assert(is_or_chain_region_with(g0, p, t, None, region));
            assert(region_within(region, nb));
            lemma_holders_in_graph(g0, p.7.to_set());
        }
        let mut set: HashSet<NodeId> = HashSet::new();
        add_nodes(&mut set, &pattern.condition_nodes);
        set.insert(pattern.shared_target);
        add_holders(graph, &mut set, &pattern.body_cfg_nodes);
        add_nested_holders(graph, &mut set, &pattern.nested_and_chains);
        proof {
            assert(set@ =~= or_body_set(g0, p));
        }
        if set.len() >= 2 {
            let k = graph.collapse(&set, region);
            proof {
                crate::reduction::lemma_collapse_within(g0, *graph, *cfg, set@, region, k);
                crate::region_graph::lemma_collapse_node_count(g0, *graph, set@, region, k);
                crate::reduction::lemma_collapse_all_reachable(g0, *graph, set@, region, k);
                assert(is_collapse_of(g0, *graph, or_body_set(g0, p), region, k));
                assert(is_or_chain_region_with(g0, p, t, None, region));
                assert(is_or_chain_collapse(g0, *graph, *cfg, p, true));
            }
            true
        } else {
            proof {
                assert(is_or_chain_collapse(g0, *graph, *cfg, p, false));
            }
            false
        }
    }
}

} // verus!
