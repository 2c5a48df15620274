//! Region Dominators - dominance computed on the current region graph.
//!
//! After a collapse the dominance of the original control-flow graph is
//! stale: collapsed regions are atomic nodes now. These structures compute
//! dominators and post-dominators (with petgraph) on a region graph as it
//! stands, and remember its generation to tell when they are out of date.
//!
//! Dominance is defined by paths: `d` dominates `n` when `n` is reachable
//! from the root and every path from the root to `n` passes through `d`.
use vstd::prelude::*;
use vstd::multiset::Multiset;

use crate::cfg::{EdgeKind, NodeId};
use crate::graph_store::{
    dominator_map, dominator_root, immediate_dominator, new_plain_graph, plain_add_edge,
    plain_add_node, plain_adj, plain_edges, plain_size, simple_fast, PlainDiGraph,
    PlainDominators,
};
use crate::region::Region;
use crate::region_graph::{edges_between, is_collapse_of, RegionGraph};

verus! {

broadcast use {
    vstd::std_specs::vec::group_vec_axioms,
    vstd::seq_lib::group_to_multiset_ensures,
    vstd::multiset::group_multiset_axioms,
};

/// `p` is a path: at least one node, each joined to the next by an edge.
pub open spec fn is_path(adj: spec_fn(NodeId, NodeId) -> bool, p: Seq<NodeId>) -> bool {
    &&& p.len() >= 1
    &&& forall|i: int| 0 <= i < p.len() - 1 ==> #[trigger] adj(p[i], p[i + 1])
}

/// Some path leads from `a` to `b`.
pub open spec fn reaches(adj: spec_fn(NodeId, NodeId) -> bool, a: NodeId, b: NodeId) -> bool {
    exists|p: Seq<NodeId>| #[trigger] is_path(adj, p) && p[0] == a && p.last() == b
}

/// `d` dominates `n` from `root`: `n` is reachable, and every path from
/// `root` to `n` passes through `d`.
pub open spec fn dominates(
    adj: spec_fn(NodeId, NodeId) -> bool,
    root: NodeId,
    d: NodeId,
    n: NodeId,
) -> bool {
    &&& reaches(adj, root, n)
    &&& forall|p: Seq<NodeId>| #[trigger] is_path(adj, p) && p[0] == root && p.last() == n ==> p.contains(d)
}

/// `d` is the immediate dominator of `n`: it dominates `n`, is not `n`,
/// and is dominated by every other dominator of `n` but `n` itself.
pub open spec fn is_idom(
    adj: spec_fn(NodeId, NodeId) -> bool,
    root: NodeId,
    d: NodeId,
    n: NodeId,
) -> bool {
    &&& d != n
    &&& dominates(adj, root, d, n)
    &&& forall|c: NodeId| #[trigger] dominates(adj, root, c, n) && c != n ==> dominates(adj, root, c, d)
}

/// The dominators of `n`.
pub open spec fn dominator_set(
    adj: spec_fn(NodeId, NodeId) -> bool,
    root: NodeId,
    n: NodeId,
) -> Set<NodeId> {
    Set::new(|c: NodeId| dominates(adj, root, c, n))
}

/// `d` is petgraph's dominance relation of `adj` from `root`.
pub open spec fn is_dominance_of(
    d: PlainDominators,
    adj: spec_fn(NodeId, NodeId) -> bool,
    root: NodeId,
) -> bool {
    &&& dominator_root(d) == root
    &&& forall|x: NodeId| #[trigger] dominator_map(d).dom().contains(x) <==> reaches(adj, root, x)
    &&& forall|x: NodeId| #[trigger] dominator_map(d).dom().contains(x) && x != root ==> is_idom(
        adj,
        root,
        dominator_map(d)[x],
        x,
    )
}

/// The edges of a region graph, as a relation.
pub open spec fn forward_adj(edges: Multiset<(NodeId, NodeId, EdgeKind)>) -> spec_fn(
    NodeId,
    NodeId,
) -> bool {
    |s: NodeId, t: NodeId| edges_between(edges, s, t) > 0
}

/// `x` has no outgoing edge.
pub open spec fn no_successor(edges: Multiset<(NodeId, NodeId, EdgeKind)>, x: NodeId) -> bool {
    forall|t: NodeId| #[trigger] edges_between(edges, x, t) == 0
}

/// Some node below `n` has no outgoing edge.
pub open spec fn has_exit(edges: Multiset<(NodeId, NodeId, EdgeKind)>, n: nat) -> bool {
    exists|x: NodeId| x < n && #[trigger] no_successor(edges, x)
}

/// The graph post-dominance is computed on: the edges of the region graph
/// (nodes below `n`) reversed, and a virtual exit `n` with an edge to each
/// node without successors, or, where there is none, to the entry.
pub open spec fn post_adj(edges: Multiset<(NodeId, NodeId, EdgeKind)>, n: nat, entry: NodeId) -> spec_fn(
    NodeId,
    NodeId,
) -> bool {
    |s: NodeId, t: NodeId|
        (s < n && t < n && edges_between(edges, t, s) > 0) || (s == n && t < n && (no_successor(edges, t) || (
        !has_exit(edges, n) && t == entry)))
}

/// A prefix of a path is a path.
pub proof fn lemma_path_prefix(adj: spec_fn(NodeId, NodeId) -> bool, p: Seq<NodeId>, j: int)
    requires
        is_path(adj, p),
        0 <= j < p.len(),
    ensures
        is_path(adj, p.take(j + 1)),
        p.take(j + 1)[0] == p[0],
        p.take(j + 1).last() == p[j],
{
    let q = p.take(j + 1);
    assert forall|i: int| 0 <= i < q.len() - 1 implies #[trigger] adj(q[i], q[i + 1]) by {
        assert(q[i] == p[i] && q[i + 1] == p[i + 1]);
    }
}

/// A reachable node dominates itself.
pub proof fn lemma_dominates_self(adj: spec_fn(NodeId, NodeId) -> bool, root: NodeId, x: NodeId)
    requires
        reaches(adj, root, x),
    ensures
        dominates(adj, root, x, x),
{
    assert forall|p: Seq<NodeId>| #[trigger] is_path(adj, p) && p[0] == root && p.last() == x implies p.contains(x) by {
        assert(p[p.len() - 1] == x);
    }
}

/// A dominator is reachable.
pub proof fn lemma_dominator_reachable(
    adj: spec_fn(NodeId, NodeId) -> bool,
    root: NodeId,
    d: NodeId,
    n: NodeId,
)
    requires
        dominates(adj, root, d, n),
    ensures
        reaches(adj, root, d),
{
    let p = choose|p: Seq<NodeId>| #[trigger] is_path(adj, p) && p[0] == root && p.last() == n;
    assert(p.contains(d));
    let j = choose|j: int| 0 <= j < p.len() && p[j] == d;
    lemma_path_prefix(adj, p, j);
}

/// Dominance is transitive.
pub proof fn lemma_dominates_trans(
    adj: spec_fn(NodeId, NodeId) -> bool,
    root: NodeId,
    a: NodeId,
    b: NodeId,
    c: NodeId,
)
    requires
        dominates(adj, root, a, b),
        dominates(adj, root, b, c),
    ensures
        dominates(adj, root, a, c),
{
    assert forall|p: Seq<NodeId>| #[trigger] is_path(adj, p) && p[0] == root && p.last() == c implies p.contains(a) by {
        assert(p.contains(b));
        let j = choose|j: int| 0 <= j < p.len() && p[j] == b;
        lemma_path_prefix(adj, p, j);
        let q = p.take(j + 1);
        assert(q.contains(a));
        let k = choose|k: int| 0 <= k < q.len() && q[k] == a;
        assert(p[k] == a);
    }
}

/// Two nodes that dominate each other are the same node.
pub proof fn lemma_dominates_antisymmetric(
    adj: spec_fn(NodeId, NodeId) -> bool,
    root: NodeId,
    a: NodeId,
    b: NodeId,
)
    requires
        dominates(adj, root, a, b),
        dominates(adj, root, b, a),
    ensures
        a == b,
{
    if a != b {
        let p = choose|p: Seq<NodeId>| #[trigger] is_path(adj, p) && p[0] == root && p.last() == b;
        assert(p.contains(a));
        p.index_of_first_ensures(a);
        let ia = p.index_of_first(a).unwrap();
        lemma_path_prefix(adj, p, ia);
        let q = p.take(ia + 1);
        assert(q.contains(b));
        let j = choose|j: int| 0 <= j < q.len() && q[j] == b;
        assert(p[j] == b);
        assert(j < ia);
        lemma_path_prefix(adj, p, j);
        let r = p.take(j + 1);
        assert(r.contains(a));
        let k = choose|k: int| 0 <= k < r.len() && r[k] == a;
        assert(p[k] == a);
        assert(false);
    }
}

/// Only the root dominates the root.
pub proof fn lemma_root_dominators(adj: spec_fn(NodeId, NodeId) -> bool, root: NodeId, c: NodeId)
    requires
        dominates(adj, root, c, root),
    ensures
        c == root,
{
    let p = seq![root];
    assert(is_path(adj, p));
    assert(p.contains(c));
}

/// The root reaches itself.
pub proof fn lemma_root_reaches_itself(adj: spec_fn(NodeId, NodeId) -> bool, root: NodeId)
    ensures
        reaches(adj, root, root),
{
    let p = seq![root];
    assert(is_path(adj, p));
}

/// The dominators of a reachable node are finitely many.
pub proof fn lemma_dominator_set_finite(adj: spec_fn(NodeId, NodeId) -> bool, root: NodeId, n: NodeId)
    requires
        reaches(adj, root, n),
    ensures
        dominator_set(adj, root, n).finite(),
{
    let p = choose|p: Seq<NodeId>| #[trigger] is_path(adj, p) && p[0] == root && p.last() == n;
    assert(dominator_set(adj, root, n).subset_of(p.to_set()));
    vstd::seq_lib::seq_to_set_is_finite(p);
    vstd::set_lib::lemma_len_subset(dominator_set(adj, root, n), p.to_set());
}

/// The dominators of `n` are `n` and the dominators of its immediate
/// dominator, which has fewer dominators than `n`.
pub proof fn lemma_idom_step(
    adj: spec_fn(NodeId, NodeId) -> bool,
    root: NodeId,
    d: NodeId,
    n: NodeId,
)
    requires
        is_idom(adj, root, d, n),
    ensures
        forall|c: NodeId| #[trigger] dominates(adj, root, c, n) <==> (c == n || dominates(adj, root, c, d)),
        reaches(adj, root, d),
        dominator_set(adj, root, d).finite(),
        dominator_set(adj, root, d).len() < dominator_set(adj, root, n).len(),
{
    lemma_dominator_reachable(adj, root, d, n);
    lemma_dominates_self(adj, root, n);
    assert forall|c: NodeId| #[trigger] dominates(adj, root, c, n) <==> (c == n || dominates(adj, root, c, d)) by {
        if dominates(adj, root, c, d) {
            lemma_dominates_trans(adj, root, c, d, n);
        }
    }
    let sd = dominator_set(adj, root, d);
    let sn = dominator_set(adj, root, n);
    lemma_dominator_set_finite(adj, root, n);
    if dominates(adj, root, n, d) {
        lemma_dominates_antisymmetric(adj, root, n, d);
    }
    assert(sd.subset_of(sn.remove(n)));
    vstd::set_lib::lemma_len_subset(sd, sn.remove(n));
}

/// The immediate dominator of a node, where it has one, is unique.
pub proof fn lemma_idom_unique(
    adj: spec_fn(NodeId, NodeId) -> bool,
    root: NodeId,
    d1: NodeId,
    d2: NodeId,
    n: NodeId,
)
    requires
        is_idom(adj, root, d1, n),
        is_idom(adj, root, d2, n),
    ensures
        d1 == d2,
{
    assert(dominates(adj, root, d1, n) && d1 != n);
    assert(dominates(adj, root, d2, n) && d2 != n);
    lemma_dominates_antisymmetric(adj, root, d1, d2);
}

/// The root dominates every node it reaches.
pub proof fn lemma_root_dominates_reachable(adj: spec_fn(NodeId, NodeId) -> bool, root: NodeId, x: NodeId)
    requires
        reaches(adj, root, x),
    ensures
        dominates(adj, root, root, x),
{
    assert forall|p: Seq<NodeId>| #[trigger] is_path(adj, p) && p[0] == root && p.last() == x implies p.contains(root) by {
        assert(p[0] == root);
    }
}

/// Whether `a` is among the dominators of `b` that `doms` lists: the
/// nodes met going from `b` up its immediate dominators to the root.
fn chain_contains(
    doms: &PlainDominators,
    Ghost(adj): Ghost<spec_fn(NodeId, NodeId) -> bool>,
    root: NodeId,
    a: NodeId,
    b: NodeId,
) -> (res: bool)
    requires
        is_dominance_of(*doms, adj, root),
    ensures
        res == dominates(adj, root, a, b),
{
    proof {
        lemma_root_reaches_itself(adj, root);
    }
    if b != root && immediate_dominator(doms, b).is_none() {
        return false;
    }
    let mut x = b;
    loop
        invariant
            is_dominance_of(*doms, adj, root),
            reaches(adj, root, x),
            dominates(adj, root, a, b) <==> dominates(adj, root, a, x),
        decreases dominator_set(adj, root, x).len(),
    {
        if x == a {
            proof {
                lemma_dominates_self(adj, root, x);
            }
            return true;
        }
        match immediate_dominator(doms, x) {
            None => {
                proof {
                    if dominates(adj, root, a, x) {
                        lemma_root_dominators(adj, root, a);
                    }
                }
                return false;
            },
            Some(y) => {
                proof {
                    assert(dominator_map(*doms).dom().contains(x));
                    lemma_idom_step(adj, root, y, x);
                }
                x = y;
            },
        }
    }
}

/// A plain graph with one node for each of the `n` nodes of a region graph
/// and, for each of its edges `s -> t`, an edge `s -> t` (or, for
/// `reversed`, `t -> s`).
fn copy_edges(rg: &RegionGraph, g: &mut PlainDiGraph, n: usize, reversed: bool)
    requires
        rg.wf(),
        n == rg.nodes().len(),
        plain_size(*old(g)) >= n,
        forall|e: (NodeId, NodeId)| #[trigger] plain_edges(*old(g)).count(e) == 0,
    ensures
        plain_size(*final(g)) == plain_size(*old(g)),
        forall|s: NodeId, t: NodeId| #[trigger] plain_edges(*final(g)).count((s, t)) == if reversed {
            edges_between(rg.edges(), t, s)
        } else {
            edges_between(rg.edges(), s, t)
        },
{
    let ghost e = rg.edges();
    let ghost size = plain_size(*g);
    let mut node: usize = 0;
    while node < n
        invariant
            rg.wf(),
            e == rg.edges(),
            n == rg.nodes().len(),
            0 <= node <= n,
            plain_size(*g) == size,
            size >= n,
            forall|s: NodeId, t: NodeId| #[trigger] plain_edges(*g).count((s, t)) == {
                let (u, v) = if reversed { (t, s) } else { (s, t) };
                if u < node { edges_between(e, u, v) } else { 0 }
            },
        decreases n - node,
    {
        let succs = rg.successors(node);
        let ghost g0 = plain_edges(*g);
        let mut j: usize = 0;
        while j < succs.len()
            invariant
                rg.wf(),
                e == rg.edges(),
                n == rg.nodes().len(),
                node < n,
                0 <= j <= succs.len(),
                plain_size(*g) == size,
                size >= n,
                forall|t: NodeId| #[trigger] succs@.to_multiset().count(t) == edges_between(e, node, t),
                forall|s: NodeId, t: NodeId| #[trigger] plain_edges(*g).count((s, t)) == {
                    let (u, v) = if reversed { (t, s) } else { (s, t) };
                    if u < node { edges_between(e, u, v) } else if u == node { succs@.take(j as int).to_multiset().count(v) } else { 0 }
                },
            decreases succs.len() - j,
        {
            let t = succs[j];
            proof {
                assert(succs@.to_multiset().count(t) > 0);
                assert(edges_between(e, node, t) > 0);
                assert(t < n) by {
                    if e.count((node, t, EdgeKind::FallThrough)) > 0 {
                    } else if e.count((node, t, EdgeKind::Unconditional)) > 0 {
                    } else if e.count((node, t, EdgeKind::ConditionalTrue)) > 0 {
                    } else if e.count((node, t, EdgeKind::ConditionalFalse)) > 0 {
                    } else if e.count((node, t, EdgeKind::Switch)) > 0 {
                    } else {
                        assert(e.count((node, t, EdgeKind::ExceptionHandler)) > 0);
                    }
                }
            }
            let ghost before = plain_edges(*g);
            if reversed {
                plain_add_edge(g, t, node);
            } else {
                plain_add_edge(g, node, t);
            }
            proof {
                let prev = succs@.take(j as int);
                assert(succs@.take(j + 1) =~= prev.push(t));
                assert(prev.push(t).to_multiset() =~= prev.to_multiset().insert(t));
            }
            j += 1;
        }
        proof {
            assert(succs@.take(j as int) =~= succs@);
        }
        node += 1;
    }
    proof {
        assert forall|s: NodeId, t: NodeId| #[trigger] plain_edges(*g).count((s, t)) == if reversed {
            edges_between(e, t, s)
        } else {
            edges_between(e, s, t)
        } by {
            let (u, v) = if reversed { (t, s) } else { (s, t) };
            if u >= n {
                assert(e.count((u, v, EdgeKind::FallThrough)) == 0);
                assert(e.count((u, v, EdgeKind::Unconditional)) == 0);
                assert(e.count((u, v, EdgeKind::ConditionalTrue)) == 0);
                assert(e.count((u, v, EdgeKind::ConditionalFalse)) == 0);
                assert(e.count((u, v, EdgeKind::Switch)) == 0);
                assert(e.count((u, v, EdgeKind::ExceptionHandler)) == 0);
            }
        }
    }
}

/// A plain graph of `n` nodes and no edges.
fn plain_nodes(n: usize) -> (g: PlainDiGraph)
    ensures
        plain_size(g) == n,
        forall|e: (NodeId, NodeId)| #[trigger] plain_edges(g).count(e) == 0,
{
    let mut g = new_plain_graph();
    let mut i: usize = 0;
    while i < n
        invariant
            0 <= i <= n,
            plain_size(g) == i,
            plain_edges(g) == Multiset::<(NodeId, NodeId)>::empty(),
        decreases n - i,
    {
        plain_add_node(&mut g);
        i += 1;
    }
    g
}

/// Post-dominator tree computed on the region graph.
///
/// Unlike the post-dominators of the original control-flow graph, this
/// reflects the region graph after its collapses.
pub struct RegionPostDominators {
    /// The dominators of the reversed graph, from the virtual exit.
    dominators: PlainDominators,
    /// The number of region graph nodes; node `i` of the region graph is
    /// node `i` of the reversed graph.
    node_count: usize,
    /// The virtual exit node of the reversed graph.
    virtual_exit: NodeId,
    /// The edges of the region graph this was computed for.
    edges: Ghost<Multiset<(NodeId, NodeId, EdgeKind)>>,
    /// The entry of the region graph this was computed for.
    entry: Ghost<NodeId>,
}

impl RegionPostDominators {
    #[verifier::type_invariant]
    spec fn inv(self) -> bool {
        &&& self.virtual_exit == self.node_count
        &&& is_dominance_of(self.dominators, post_adj(self.edges@, self.node_count as nat, self.entry@), self.virtual_exit)
    }

    /// The edges of the region graph this was computed for.
    pub closed spec fn spec_edges(&self) -> Multiset<(NodeId, NodeId, EdgeKind)> {
        self.edges@
    }

    /// The number of nodes of the region graph this was computed for.
    pub closed spec fn spec_size(&self) -> nat {
        self.node_count as nat
    }

    /// The entry of the region graph this was computed for.
    pub closed spec fn spec_entry(&self) -> NodeId {
        self.entry@
    }

    /// The graph post-dominance is taken on (see `post_adj`).
    pub open spec fn adj(&self) -> spec_fn(NodeId, NodeId) -> bool {
        post_adj(self.spec_edges(), self.spec_size(), self.spec_entry())
    }

    /// Compute post-dominators on the region graph: dominators of the
    /// reversed graph with a virtual exit (see `post_adj`).
    pub fn compute(region_graph: &RegionGraph) -> (res: Self)
        requires
            region_graph.wf(),
        ensures
            res.spec_edges() == region_graph.edges(),
            res.spec_size() == region_graph.nodes().len(),
            res.spec_entry() == region_graph.spec_entry(),
    {
        let n = region_graph.node_count();
        let ghost e = region_graph.edges();
        let entry = region_graph.entry();
        let mut reverse_graph = plain_nodes(n);
        let virtual_exit = plain_add_node(&mut reverse_graph);
        copy_edges(region_graph, &mut reverse_graph, n, true);
        // Connect the virtual exit to the nodes with no successors.
        let mut found_exit = false;
        let mut node: usize = 0;
        while node < n
            invariant
                region_graph.wf(),
                n == region_graph.nodes().len(),
                e == region_graph.edges(),
                0 <= node <= n,
                virtual_exit == n,
                plain_size(reverse_graph) == n + 1,
                forall|s: NodeId, t: NodeId| s < n ==> #[trigger] plain_edges(reverse_graph).count((s, t))
                    == edges_between(e, t, s),
                forall|t: NodeId| #[trigger] plain_edges(reverse_graph).count((n, t))
                    == if t < node && no_successor(e, t) { 1nat } else { 0nat },
                forall|s: NodeId, t: NodeId| s > n ==> #[trigger] plain_edges(reverse_graph).count((s, t)) == 0,
                found_exit == exists|x: NodeId| x < node && #[trigger] no_successor(e, x),
            decreases n - node,
        {
            let succs = region_graph.successors(node);
            proof {
                if succs.len() == 0 {
                    assert forall|t: NodeId| #[trigger] edges_between(e, node, t) == 0 by {
                        assert(succs@.to_multiset().count(t) == 0);
                    }
                    assert(no_successor(e, node));
                } else {
                    assert(succs@.to_multiset().count(succs@[0]) > 0);
                    assert(!no_successor(e, node));
                }
            }
            if succs.len() == 0 {
                plain_add_edge(&mut reverse_graph, virtual_exit, node);
                found_exit = true;
            }
            node += 1;
        }
        if !found_exit {
            plain_add_edge(&mut reverse_graph, virtual_exit, entry);
        }
        proof {
            let adj = post_adj(e, n as nat, entry);
            assert forall|s: NodeId, t: NodeId| #[trigger] plain_adj(reverse_graph)(s, t) == adj(s, t) by {
                assert(found_exit == has_exit(e, n as nat));
                if s < n && t >= n {
                    assert(e.count((t, s, EdgeKind::FallThrough)) == 0);
                    assert(e.count((t, s, EdgeKind::Unconditional)) == 0);
                    assert(e.count((t, s, EdgeKind::ConditionalTrue)) == 0);
                    assert(e.count((t, s, EdgeKind::ConditionalFalse)) == 0);
                    assert(e.count((t, s, EdgeKind::Switch)) == 0);
                    assert(e.count((t, s, EdgeKind::ExceptionHandler)) == 0);
                }
            }
            assert(plain_adj(reverse_graph) =~= adj);
        }
        let dominators = simple_fast(&reverse_graph, virtual_exit);
        RegionPostDominators {
            dominators,
            node_count: n,
            virtual_exit,
            edges: Ghost(e),
            entry: Ghost(entry),
        }
    }

    /// Get the immediate post-dominator of a node in the region graph:
    /// `None` for a node outside the graph, one from which no exit is
    /// reached, or one whose immediate post-dominator is the virtual exit.
    pub fn immediate_post_dominator(&self, node: NodeId) -> (res: Option<NodeId>)
        ensures
            match res {
                Some(p) => p < self.spec_size() && is_idom(self.adj(), self.spec_size() as NodeId, p, node),
                None => node >= self.spec_size() || !reaches(self.adj(), self.spec_size() as NodeId, node)
                    || is_idom(self.adj(), self.spec_size() as NodeId, self.spec_size() as NodeId, node),
            },
    {
        proof {
            use_type_invariant(self);
        }
        if node >= self.node_count {
            return None;
        }
        match immediate_dominator(&self.dominators, node) {
            None => None,
            Some(p) => {
                if p == self.virtual_exit {
                    None
                } else {
                    proof {
                        let adj = self.adj();
                        assert(is_idom(adj, self.virtual_exit, p, node));
                        // Every node other than the virtual exit is below it.
                        if p > self.node_count {
                            let q = choose|q: Seq<NodeId>| #[trigger] is_path(adj, q) && q[0] == self.virtual_exit && q.last() == node;
                            assert(q.contains(p));
                            let j = choose|j: int| 0 <= j < q.len() && q[j] == p;
                            if j == 0 {
                            } else {
                                assert(adj(q[j - 1], q[j - 1 + 1]));
                            }
                        }
                    }
                    Some(p)
                }
            },
        }
    }

    /// Check if node `a` post-dominates node `b`: both are nodes of the
    /// graph, and every path from `b` to an exit passes through `a`.
    pub fn post_dominates(&self, a: NodeId, b: NodeId) -> (res: bool)
        ensures
            res == (a < self.spec_size() && b < self.spec_size() && dominates(
                self.adj(),
                self.spec_size() as NodeId,
                a,
                b,
            )),
    {
        proof {
            use_type_invariant(self);
        }
        if a >= self.node_count || b >= self.node_count {
            return false;
        }
        chain_contains(&self.dominators, Ghost(self.adj()), self.virtual_exit, a, b)
    }
}

/// Dominance computed on the current region graph state.
///
/// Caches dominance information and remembers the generation of the graph
/// it was computed for, to tell when recomputation is needed.
pub struct RegionDominators {
    /// Forward dominators (from entry).
    dominators: PlainDominators,
    /// Post-dominators.
    post_dominators: RegionPostDominators,
    /// Generation of the region graph when this was computed.
    generation: u64,
    /// The number of region graph nodes; node `i` of the region graph is
    /// node `i` of the graph the dominators were computed on.
    node_count: usize,
    /// The entry of the region graph.
    entry: NodeId,
    /// The edges of the region graph.
    edges: Ghost<Multiset<(NodeId, NodeId, EdgeKind)>>,
}

impl RegionDominators {
    #[verifier::type_invariant]
    spec fn inv(self) -> bool {
        &&& is_dominance_of(self.dominators, forward_adj(self.edges@), self.entry)
        &&& forall|e: (NodeId, NodeId, EdgeKind)| #[trigger] self.edges@.count(e) > 0 ==> e.0 < self.node_count
            && e.1 < self.node_count
        &&& self.post_dominators.spec_edges() == self.edges@
        &&& self.post_dominators.spec_size() == self.node_count
        &&& self.post_dominators.spec_entry() == self.entry
    }

    /// The edges of the region graph this was computed for.
    pub closed spec fn spec_edges(&self) -> Multiset<(NodeId, NodeId, EdgeKind)> {
        self.edges@
    }

    /// The number of nodes of the region graph this was computed for.
    pub closed spec fn spec_size(&self) -> nat {
        self.node_count as nat
    }

    /// The entry of the region graph this was computed for.
    pub closed spec fn spec_entry(&self) -> NodeId {
        self.entry
    }

    /// The generation of the region graph this was computed for.
    pub closed spec fn spec_generation(&self) -> u64 {
        self.generation
    }

    /// Compute dominators and post-dominators on the current region graph.
    pub fn compute(region_graph: &RegionGraph) -> (res: Self)
        requires
            region_graph.wf(),
        ensures
            res.spec_edges() == region_graph.edges(),
            res.spec_size() == region_graph.nodes().len(),
            res.spec_entry() == region_graph.spec_entry(),
            res.spec_generation() == region_graph.spec_generation(),
    {
        let n = region_graph.node_count();
        let ghost e = region_graph.edges();
        let mut graph = plain_nodes(n);
        copy_edges(region_graph, &mut graph, n, false);
        let entry = region_graph.entry();
        proof {
            assert(plain_adj(graph) =~= forward_adj(e));
        }
        let dominators = simple_fast(&graph, entry);
        let post_dominators = RegionPostDominators::compute(region_graph);
        RegionDominators {
            dominators,
            post_dominators,
            generation: region_graph.generation(),
            node_count: n,
            entry,
            edges: Ghost(e),
        }
    }

    /// Check if cached dominance data is stale: the graph has been
    /// collapsed since.
    pub fn is_stale(&self, region_graph: &RegionGraph) -> (res: bool)
        ensures
            res == (self.spec_generation() != region_graph.spec_generation()),
    {
        self.generation != region_graph.generation()
    }

    /// Check if node `a` dominates node `b`: both are nodes of the graph,
    /// and every path from the entry to `b` passes through `a`.
    pub fn dominates(&self, a: NodeId, b: NodeId) -> (res: bool)
        ensures
            res == (a < self.spec_size() && b < self.spec_size() && dominates(
                forward_adj(self.spec_edges()),
                self.spec_entry(),
                a,
                b,
            )),
    {
        proof {
            use_type_invariant(self);
        }
        if a >= self.node_count || b >= self.node_count {
            return false;
        }
        chain_contains(&self.dominators, Ghost(forward_adj(self.edges@)), self.entry, a, b)
    }

    /// Check if node `a` post-dominates node `b`.
    pub fn post_dominates(&self, a: NodeId, b: NodeId) -> (res: bool)
        ensures
            res == (a < self.spec_size() && b < self.spec_size() && dominates(
                post_adj(self.spec_edges(), self.spec_size(), self.spec_entry()),
                self.spec_size() as NodeId,
                a,
                b,
            )),
    {
        proof {
            use_type_invariant(self);
        }
        self.post_dominators.post_dominates(a, b)
    }

    /// Get the immediate post-dominator of a node.
    pub fn ipdom(&self, node: NodeId) -> (res: Option<NodeId>)
        ensures
            ({
                let adj = post_adj(self.spec_edges(), self.spec_size(), self.spec_entry());
                let exit = self.spec_size() as NodeId;
                match res {
                    Some(p) => p < self.spec_size() && is_idom(adj, exit, p, node),
                    None => node >= self.spec_size() || !reaches(adj, exit, node) || is_idom(adj, exit, exit, node),
                }
            }),
    {
        proof {
            use_type_invariant(self);
        }
        self.post_dominators.immediate_post_dominator(node)
    }

    /// Get the immediate dominator of a node: `None` for a node outside the
    /// graph, the entry, and a node the entry does not reach.
    pub fn idom(&self, node: NodeId) -> (res: Option<NodeId>)
        ensures
            match res {
                Some(d) => d < self.spec_size() && is_idom(forward_adj(self.spec_edges()), self.spec_entry(), d, node),
                None => node >= self.spec_size() || node == self.spec_entry() || !reaches(
                    forward_adj(self.spec_edges()),
                    self.spec_entry(),
                    node,
                ),
            },
    {
        proof {
            use_type_invariant(self);
        }
        if node >= self.node_count {
            return None;
        }
        let r = immediate_dominator(&self.dominators, node);
        proof {
            if let Some(d) = r {
                let adj = forward_adj(self.edges@);
                assert(is_idom(adj, self.entry, d, node));
                let q = choose|q: Seq<NodeId>| #[trigger] is_path(adj, q) && q[0] == self.entry && q.last() == node;
                assert(q.contains(d));
                let j = choose|j: int| 0 <= j < q.len() && q[j] == d;
                if j < q.len() - 1 {
                    assert(adj(q[j], q[j + 1]));
                    assert(edges_between(self.edges@, d, q[j + 1]) > 0);
                } else {
                    assert(d == node);
                }
            }
        }
        r
    }
}

/// Dominators computed on a graph go stale with any collapse of it: the
/// collapse moves the graph to the next generation.
pub proof fn lemma_collapse_makes_dominators_stale(
    d: RegionDominators,
    before: RegionGraph,
    after: RegionGraph,
    inner: Set<NodeId>,
    region: Region,
    k: NodeId,
)
    requires
        d.spec_generation() == before.spec_generation(),
        is_collapse_of(before, after, inner, region, k),
    ensures
        d.spec_generation() != after.spec_generation(),
{
}

} // verus!
