//! Ordering a set of region graph nodes along the control flow: a
//! topological order (Kahn's algorithm) that always takes the ready node
//! with the smallest sort key, the nodes left on cycles following by key.
use vstd::prelude::*;
use vstd::multiset::Multiset;

use std::collections::{HashMap, HashSet};

use crate::cfg::{EdgeKind, NodeId};
use crate::reducer::{node_sort_key, region_node_sort_key};
use crate::region_graph::{edges_between, set_to_vec, RegionGraph};

verus! {

broadcast use {
    vstd::std_specs::vec::group_vec_axioms,
    vstd::std_specs::hash::group_hash_axioms,
    vstd::seq_lib::group_to_multiset_ensures,
    vstd::multiset::group_multiset_axioms,
};

/// `v` lists the sources of the edges into `n`, each as often as there are
/// edges from it.
pub open spec fn is_pred_list(edges: Multiset<(NodeId, NodeId, EdgeKind)>, n: NodeId, v: Seq<NodeId>) -> bool {
    forall|p: NodeId| #[trigger] v.to_multiset().count(p) == edges_between(edges, p, n)
}

/// The number of entries of `v` that are in `s`.
pub open spec fn count_in(v: Seq<NodeId>, s: Set<NodeId>) -> nat
    decreases v.len(),
{
    if v.len() == 0 {
        0
    } else {
        count_in(v.drop_last(), s) + if s.contains(v.last()) { 1nat } else { 0nat }
    }
}

/// The number of edges into `n` whose source is in `s`.
pub open spec fn in_degree_from(edges: Multiset<(NodeId, NodeId, EdgeKind)>, s: Set<NodeId>, n: NodeId) -> nat {
    count_in(choose|v: Seq<NodeId>| is_pred_list(edges, n, v), s)
}

/// Taking `p` out of `s` takes its entries out of the count.
proof fn lemma_count_in_remove(v: Seq<NodeId>, s: Set<NodeId>, p: NodeId)
    ensures
        count_in(v, s) == count_in(v, s.remove(p)) + if s.contains(p) { v.to_multiset().count(p) } else { 0 },
    decreases v.len(),
{
    if v.len() > 0 {
        lemma_count_in_remove(v.drop_last(), s, p);
        assert(v.drop_last().push(v.last()) =~= v);
        assert(v.to_multiset() =~= v.drop_last().to_multiset().insert(v.last()));
    }
}

/// No entry is in the empty set.
proof fn lemma_count_in_empty(v: Seq<NodeId>, s: Set<NodeId>)
    requires
        s.len() == 0,
        s.finite(),
    ensures
        count_in(v, s) == 0,
    decreases v.len(),
{
    if v.len() > 0 {
        lemma_count_in_empty(v.drop_last(), s);
        assert(!s.contains(v.last())) by {
            if s.contains(v.last()) {
                vstd::set_lib::lemma_set_empty_equivalency_len(s);
            }
        }
    }
}

/// The count depends on the entries only, not on their order.
proof fn lemma_count_in_multiset(v1: Seq<NodeId>, v2: Seq<NodeId>, s: Set<NodeId>)
    requires
        v1.to_multiset() == v2.to_multiset(),
        s.finite(),
    ensures
        count_in(v1, s) == count_in(v2, s),
    decreases s.len(),
{
    if s.len() == 0 {
        lemma_count_in_empty(v1, s);
        lemma_count_in_empty(v2, s);
    } else {
        let p = s.choose();
        lemma_count_in_remove(v1, s, p);
        lemma_count_in_remove(v2, s, p);
        lemma_count_in_multiset(v1, v2, s.remove(p));
    }
}

/// The count is zero exactly when no entry is in `s`.
proof fn lemma_count_in_zero(v: Seq<NodeId>, s: Set<NodeId>)
    ensures
        (count_in(v, s) == 0) == (forall|p: NodeId| s.contains(p) ==> #[trigger] v.to_multiset().count(p) == 0),
    decreases v.len(),
{
    if v.len() == 0 {
        assert(v.to_multiset() =~= Multiset::<NodeId>::empty());
    } else {
        let d = v.drop_last();
        let x = v.last();
        lemma_count_in_zero(d, s);
        assert(d.push(x) =~= v);
        assert(v.to_multiset() =~= d.to_multiset().insert(x));
        if count_in(v, s) == 0 {
            assert forall|p: NodeId| s.contains(p) implies #[trigger] v.to_multiset().count(p) == 0 by {
                assert(d.to_multiset().count(p) == 0);
                assert(p != x);
            }
        }
        if forall|p: NodeId| s.contains(p) ==> #[trigger] v.to_multiset().count(p) == 0 {
            assert(!s.contains(x)) by {
                if s.contains(x) {
                    assert(v.to_multiset().count(x) == 0);
                }
            }
            assert forall|p: NodeId| s.contains(p) implies #[trigger] d.to_multiset().count(p) == 0 by {
                assert(v.to_multiset().count(p) == 0);
            }
        }
    }
}

/// The in-degree from `s` counted on any list of predecessors.
proof fn lemma_in_degree_from_list(edges: Multiset<(NodeId, NodeId, EdgeKind)>, s: Set<NodeId>, n: NodeId, v: Seq<NodeId>)
    requires
        is_pred_list(edges, n, v),
        s.finite(),
    ensures
        in_degree_from(edges, s, n) == count_in(v, s),
{
    let w = choose|w: Seq<NodeId>| is_pred_list(edges, n, w);
    assert(w.to_multiset() =~= v.to_multiset()) by {
        assert forall|p: NodeId| w.to_multiset().count(p) == v.to_multiset().count(p) by {
            assert(w.to_multiset().count(p) == edges_between(edges, p, n));
            assert(v.to_multiset().count(p) == edges_between(edges, p, n));
        }
    }
    lemma_count_in_multiset(w, v, s);
}

/// Visiting `p` lowers the in-degree from the unvisited nodes by the edges
/// from `p`.
proof fn lemma_in_degree_remove(edges: Multiset<(NodeId, NodeId, EdgeKind)>, s: Set<NodeId>, n: NodeId, p: NodeId)
    requires
        exists|v: Seq<NodeId>| is_pred_list(edges, n, v),
    ensures
        in_degree_from(edges, s, n) == in_degree_from(edges, s.remove(p), n) + if s.contains(p) {
            edges_between(edges, p, n)
        } else {
            0
        },
{
    let w = choose|w: Seq<NodeId>| is_pred_list(edges, n, w);
    lemma_count_in_remove(w, s, p);
    assert(w.to_multiset().count(p) == edges_between(edges, p, n));
}

/// The in-degree from `s` is zero exactly when no edge comes from `s`.
proof fn lemma_in_degree_zero(edges: Multiset<(NodeId, NodeId, EdgeKind)>, s: Set<NodeId>, n: NodeId)
    requires
        exists|v: Seq<NodeId>| is_pred_list(edges, n, v),
    ensures
        (in_degree_from(edges, s, n) == 0) == (forall|p: NodeId| s.contains(p) ==> #[trigger] edges_between(edges, p, n) == 0),
{
    let w = choose|w: Seq<NodeId>| is_pred_list(edges, n, w);
    lemma_count_in_zero(w, s);
    if forall|p: NodeId| s.contains(p) ==> #[trigger] w.to_multiset().count(p) == 0 {
        assert forall|p: NodeId| s.contains(p) implies #[trigger] edges_between(edges, p, n) == 0 by {
            assert(w.to_multiset().count(p) == edges_between(edges, p, n));
        }
    }
    if forall|p: NodeId| s.contains(p) ==> #[trigger] edges_between(edges, p, n) == 0 {
        assert forall|p: NodeId| s.contains(p) implies #[trigger] w.to_multiset().count(p) == 0 by {
            assert(w.to_multiset().count(p) == edges_between(edges, p, n));
        }
    }
}

/// The nodes of `s` not yet visited.
pub open spec fn unvisited(s: Set<NodeId>, visited: Seq<NodeId>) -> Set<NodeId> {
    Set::new(|x: NodeId| s.contains(x) && !visited.contains(x))
}

/// `w` is ready: a node of `s` not yet visited, with no edge into it from a
/// node of `s` not yet visited.
pub open spec fn is_ready(g: RegionGraph, s: Set<NodeId>, visited: Seq<NodeId>, w: NodeId) -> bool {
    &&& s.contains(w)
    &&& !visited.contains(w)
    &&& forall|p: NodeId| #[trigger] unvisited(s, visited).contains(p) ==> edges_between(g.edges(), p, w) == 0
}

/// `a` comes before `b` by sort key, then by index.
pub open spec fn key_before(g: RegionGraph, a: NodeId, b: NodeId) -> bool {
    node_sort_key(g, a) < node_sort_key(g, b) || (node_sort_key(g, a) == node_sort_key(g, b) && a < b)
}

/// `w` is the ready node that comes first by key.
pub open spec fn is_next_ready(g: RegionGraph, s: Set<NodeId>, visited: Seq<NodeId>, w: NodeId) -> bool {
    is_ready(g, s, visited, w) && forall|o: NodeId| #[trigger] is_ready(g, s, visited, o) && o != w ==> key_before(g, w, o)
}

/// From the nodes visited so far, take the ready node that comes first by
/// key, as long as there is one (`fuel` bounds the steps).
#[verifier::opaque]
pub open spec fn flow_from(g: RegionGraph, s: Set<NodeId>, visited: Seq<NodeId>, fuel: nat) -> Seq<NodeId>
    decreases fuel,
{
    if fuel > 0 && exists|w: NodeId| is_next_ready(g, s, visited, w) {
        flow_from(g, s, visited.push(choose|w: NodeId| is_next_ready(g, s, visited, w)), (fuel - 1) as nat)
    } else {
        visited
    }
}

/// One step of the flow order: the next ready node is taken.
proof fn lemma_flow_step(g: RegionGraph, s: Set<NodeId>, visited: Seq<NodeId>, fuel: nat, w: NodeId)
    requires
        is_next_ready(g, s, visited, w),
        fuel > 0,
    ensures
        flow_from(g, s, visited, fuel) == flow_from(g, s, visited.push(w), (fuel - 1) as nat),
{
    reveal(flow_from);
    let c = choose|c: NodeId| is_next_ready(g, s, visited, c);
    assert(c == w) by {
        if c != w {
            assert(key_before(g, c, w));
            assert(key_before(g, w, c));
        }
    }
}

/// Where no node is ready, the flow order ends.
proof fn lemma_flow_stop(g: RegionGraph, s: Set<NodeId>, visited: Seq<NodeId>, fuel: nat)
    requires
        !exists|w: NodeId| is_next_ready(g, s, visited, w),
    ensures
        flow_from(g, s, visited, fuel) == visited,
{
    reveal(flow_from);
}

/// With no fuel, the flow order ends.
proof fn lemma_flow_no_fuel(g: RegionGraph, s: Set<NodeId>, visited: Seq<NodeId>)
    ensures
        flow_from(g, s, visited, 0) == visited,
{
    reveal(flow_from);
}

/// `a` comes before `b` by in-degree from `s`, then by key, then by index.
pub open spec fn fallback_before(g: RegionGraph, s: Set<NodeId>, a: NodeId, b: NodeId) -> bool {
    let da = in_degree_from(g.edges(), s, a);
    let db = in_degree_from(g.edges(), s, b);
    da < db || (da == db && key_before(g, a, b))
}

/// Where no node of `s` is ready at the start (all lie on cycles), the
/// node of `s` with the smallest in-degree, then key, then index.
pub open spec fn fallback_node(g: RegionGraph, s: Set<NodeId>) -> NodeId {
    choose|f: NodeId| s.contains(f) && forall|o: NodeId| #[trigger] s.contains(o) && o != f ==> fallback_before(g, s, f, o)
}

/// The nodes taken in flow order: from no node, or, where none is ready,
/// from the fallback node.
#[verifier::opaque]
pub open spec fn flow_prefix(g: RegionGraph, s: Set<NodeId>) -> Seq<NodeId> {
    let start = if s.len() == 0 || exists|w: NodeId| is_ready(g, s, Seq::empty(), w) {
        Seq::empty()
    } else {
        seq![fallback_node(g, s)]
    };
    flow_from(g, s, start, s.len())
}

/// `rest` lists the nodes of `s` not in `prefix`, each once, by key.
pub open spec fn is_sorted_rest(g: RegionGraph, s: Set<NodeId>, prefix: Seq<NodeId>, rest: Seq<NodeId>) -> bool {
    &&& rest.no_duplicates()
    &&& forall|x: NodeId| #[trigger] rest.contains(x) <==> s.contains(x) && !prefix.contains(x)
    &&& forall|i: int, j: int| 0 <= i < j < rest.len() ==> key_before(g, #[trigger] rest[i], #[trigger] rest[j])
}


/// The state of the ordering: `ordered` lists the visited nodes, each once;
/// `visited` holds them; `deg` has an entry for every node of `s`, the
/// in-degree from the unvisited nodes for each unvisited one; the heap
/// entries are `(key, node)` of nodes of `s`, visited or ready, and every
/// ready node has its entry.
#[verifier::opaque]
pub open spec fn flow_state(
    g: RegionGraph,
    s: Set<NodeId>,
    deg: Map<NodeId, usize>,
    heap: Seq<(usize, NodeId)>,
    visited: Set<NodeId>,
    ordered: Seq<NodeId>,
) -> bool {
    &&& g.wf()
    &&& s.finite()
    &&& ordered.no_duplicates()
    &&& forall|x: NodeId| #[trigger] ordered.contains(x) ==> s.contains(x)
    &&& forall|x: NodeId| #[trigger] visited.contains(x) <==> ordered.contains(x)
    &&& forall|x: NodeId| #[trigger] deg.contains_key(x) <==> s.contains(x)
    &&& forall|w: NodeId| #[trigger] s.contains(w) ==> exists|v: Seq<NodeId>| is_pred_list(g.edges(), w, v)
    &&& forall|w: NodeId| s.contains(w) && !ordered.contains(w) ==> #[trigger] deg[w] == in_degree_from(
        g.edges(),
        unvisited(s, ordered),
        w,
    )
    &&& forall|i: int| 0 <= i < heap.len() ==> s.contains(#[trigger] heap[i].1) && heap[i].0 == node_sort_key(g, heap[i].1)
        && (ordered.contains(heap[i].1) || is_ready(g, s, ordered, heap[i].1))
    &&& forall|w: NodeId| #[trigger] is_ready(g, s, ordered, w) ==> heap.contains((node_sort_key(g, w) as usize, w))
}

/// A node is ready exactly when its in-degree from the unvisited nodes is
/// zero.
proof fn lemma_ready_iff_zero(g: RegionGraph, s: Set<NodeId>, ordered: Seq<NodeId>, w: NodeId)
    requires
        s.contains(w),
        !ordered.contains(w),
        exists|v: Seq<NodeId>| is_pred_list(g.edges(), w, v),
    ensures
        is_ready(g, s, ordered, w) == (in_degree_from(g.edges(), unvisited(s, ordered), w) == 0),
{
    lemma_in_degree_zero(g.edges(), unvisited(s, ordered), w);
}

/// Visit `node`: append it to the order and lower the in-degrees of its
/// successors, a successor whose in-degree drops to zero going into the
/// heap.
fn visit_node(
    graph: &RegionGraph,
    nodes: &HashSet<NodeId>,
    node: NodeId,
    deg: &mut HashMap<NodeId, usize>,
    heap: &mut Vec<(usize, NodeId)>,
    visited: &mut HashSet<NodeId>,
    ordered: &mut Vec<NodeId>,
)
    requires
        flow_state(*graph, nodes@, old(deg)@, old(heap)@, old(visited)@, old(ordered)@),
        nodes@.contains(node),
        !old(ordered)@.contains(node),
    ensures
        final(ordered)@ == old(ordered)@.push(node),
        flow_state(*graph, nodes@, final(deg)@, final(heap)@, final(visited)@, final(ordered)@),
        final(heap)@.len() >= old(heap)@.len(),
        final(heap)@.take(old(heap)@.len() as int) == old(heap)@,
        final(ordered)@.no_duplicates(),
        forall|x: NodeId| #[trigger] final(ordered)@.contains(x) ==> nodes@.contains(x),
        nodes@.finite(),
{
    reveal(flow_state);
    let ghost g = *graph;
    let ghost s = nodes@;
    let ghost v0 = ordered@;
    let ghost u0 = unvisited(s, v0);
    let ghost heap0 = heap@;
    ordered.push(node);
    visited.insert(node);
    let ghost v1 = ordered@;
    let ghost u1 = unvisited(s, v1);
    proof {
        assert(u1 =~= u0.remove(node)) by {
            assert forall|x: NodeId| #[trigger] u1.contains(x) <==> u0.remove(node).contains(x) by {
                assert(v1.contains(x) <==> v0.contains(x) || x == node) by {
                    if v1.contains(x) && x != node {
                        let q = choose|q: int| 0 <= q < v1.len() && v1[q] == x;
                        assert(v0[q] == x);
                    }
                    if v0.contains(x) {
                        let q = choose|q: int| 0 <= q < v0.len() && v0[q] == x;
                        assert(v1[q] == x);
                    }
                    assert(v1[v1.len() - 1] == node);
                }
            }
        }
        assert forall|x: NodeId| #[trigger] v1.contains(x) <==> v0.contains(x) || x == node by {
            if v1.contains(x) && x != node {
                let q = choose|q: int| 0 <= q < v1.len() && v1[q] == x;
                assert(v0[q] == x);
            }
            if v0.contains(x) {
                let q = choose|q: int| 0 <= q < v0.len() && v0[q] == x;
                assert(v1[q] == x);
            }
            assert(v1[v1.len() - 1] == node);
        }
        assert(u0.contains(node));
        assert forall|w: NodeId| #[trigger] s.contains(w) implies in_degree_from(g.edges(), u0, w) == in_degree_from(
            g.edges(),
            u1,
            w,
        ) + edges_between(g.edges(), node, w) by {
            lemma_in_degree_remove(g.edges(), u0, w, node);
        }
    }
    let succs = graph.successors(node);
    let mut j: usize = 0;
    proof {
        assert forall|w: NodeId| s.contains(w) && !v1.contains(w) && #[trigger] deg@[w] == 0 implies heap@.contains(
            (node_sort_key(g, w) as usize, w),
        ) by {
            lemma_ready_iff_zero(g, s, v0, w);
        }
        assert(succs@.take(0).to_multiset() =~= Multiset::<NodeId>::empty());
        assert(heap@.take(heap0.len() as int) =~= heap0);
    }
    while j < succs.len()
        invariant
            g == *graph,
            s == nodes@,
            flow_state(g, s, old(deg)@, heap0, old(visited)@, v0),
            ordered@ == v1,
            v1 == v0.push(node),
            forall|x: NodeId| #[trigger] v1.contains(x) <==> v0.contains(x) || x == node,
            forall|x: NodeId| #[trigger] visited@.contains(x) <==> v1.contains(x),
            u1 == unvisited(s, v1),
            forall|w: NodeId| #[trigger] s.contains(w) ==> in_degree_from(g.edges(), u0, w) == in_degree_from(g.edges(), u1, w)
                + edges_between(g.edges(), node, w),
            u0 == unvisited(s, v0),
            0 <= j <= succs@.len(),
            forall|t: NodeId| #[trigger] succs@.to_multiset().count(t) == edges_between(g.edges(), node, t),
            forall|x: NodeId| #[trigger] deg@.contains_key(x) <==> s.contains(x),
            forall|w: NodeId| s.contains(w) && !v1.contains(w) ==> #[trigger] deg@[w] + succs@.take(j as int).to_multiset().count(w)
                == in_degree_from(g.edges(), u0, w),
            forall|i: int| 0 <= i < heap@.len() ==> s.contains(#[trigger] heap@[i].1) && heap@[i].0 == node_sort_key(g, heap@[i].1)
                && (v1.contains(heap@[i].1) || is_ready(g, s, v1, heap@[i].1)),
            forall|w: NodeId| s.contains(w) && !v1.contains(w) && #[trigger] deg@[w] == 0 ==> heap@.contains((node_sort_key(g, w) as usize, w)),
            heap@.len() >= heap0.len(),
            heap@.take(heap0.len() as int) == heap0,
        decreases succs@.len() - j,
    {
        proof {
            reveal(flow_state);
        }
        let w = succs[j];
        let ghost d0 = deg@;
        let ghost h0 = heap@;
        proof {
            assert(succs@.take(j + 1) =~= succs@.take(j as int).push(w));
            assert(succs@.take(j + 1).to_multiset() =~= succs@.take(j as int).to_multiset().insert(w));
            assert(succs@.to_multiset().count(w) > 0) by {
                assert(succs@[j as int] == w);
            }
            // The processed entries are among all of them.
            assert(succs@.take(j + 1).to_multiset().count(w) <= succs@.to_multiset().count(w)) by {
                assert(succs@ =~= succs@.take(j + 1) + succs@.skip(j + 1));
                vstd::seq_lib::lemma_multiset_commutative(succs@.take(j + 1), succs@.skip(j + 1));
            }
        }
        match deg.get(&w) {
            Some(d) => {
                let d = *d;
                let nd: usize = if d > 0 {
                    d - 1
                } else {
                    0
                };
                deg.insert(w, nd);
                if nd == 0 && !visited.contains(&w) {
                    let key = region_node_sort_key(graph, w);
                    proof {
                        assert(s.contains(w) && !v1.contains(w));
                        assert(in_degree_from(g.edges(), u1, w) == 0);
                        lemma_ready_iff_zero(g, s, v1, w);
                    }
                    heap.push((key, w));
                    proof {
                        assert(heap@.take(heap0.len() as int) =~= h0.take(heap0.len() as int));
                        assert forall|x: (usize, NodeId)| h0.contains(x) implies #[trigger] heap@.contains(x) by {
                            let q = choose|q: int| 0 <= q < h0.len() && h0[q] == x;
                            assert(heap@[q] == x);
                        }
                        assert(heap@[heap@.len() - 1] == (key, w));
                    }
                }
            },
            None => {},
        }
        proof {
            assert forall|x: NodeId| s.contains(x) && !v1.contains(x) implies #[trigger] deg@[x] + succs@.take(j + 1).to_multiset().count(x)
                == in_degree_from(g.edges(), u0, x) by {
                if x != w {
                    assert(deg@[x] == d0[x]);
                }
            }
            assert forall|x: NodeId| s.contains(x) && !v1.contains(x) && #[trigger] deg@[x] == 0 implies heap@.contains(
                (node_sort_key(g, x) as usize, x),
            ) by {
                if x != w {
                    assert(deg@[x] == d0[x]);
                    assert(h0.contains((node_sort_key(g, x) as usize, x)));
                    let q = choose|q: int| 0 <= q < h0.len() && h0[q] == (node_sort_key(g, x) as usize, x);
                    assert(heap@[q] == h0[q]);
                }
            }
        }
        j += 1;
    }
    proof {
        assert(succs@.take(j as int) =~= succs@);
        assert forall|w: NodeId| s.contains(w) && !v1.contains(w) implies #[trigger] deg@[w] == in_degree_from(g.edges(), u1, w) by {}
        assert forall|w: NodeId| #[trigger] is_ready(g, s, v1, w) implies heap@.contains((node_sort_key(g, w) as usize, w)) by {
            lemma_ready_iff_zero(g, s, v1, w);
            assert(deg@[w] == 0);
        }
        assert(v1.no_duplicates()) by {
            assert forall|a: int, b: int| 0 <= a < b < v1.len() implies v1[a] != v1[b] by {
                if b == v1.len() - 1 {
                    assert(v0.contains(v0[a]));
                }
            }
        }
    }
}


/// The nodes of `(key, node)` pairs.
pub open spec fn pair_nodes(r: Seq<(usize, NodeId)>) -> Seq<NodeId> {
    r.map_values(|p: (usize, NodeId)| p.1)
}

/// A list of distinct nodes of a finite set is no longer than the set.
proof fn lemma_visited_fit(ordered: Seq<NodeId>, s: Set<NodeId>)
    requires
        ordered.no_duplicates(),
        s.finite(),
        forall|x: NodeId| #[trigger] ordered.contains(x) ==> s.contains(x),
    ensures
        ordered.len() <= s.len(),
{
    ordered.unique_seq_to_set();
    assert(ordered.to_set().subset_of(s));
    vstd::set_lib::lemma_len_subset(ordered.to_set(), s);
}

/// Removing an entry other than `x` keeps `x` in the sequence.
proof fn lemma_remove_keeps(h: Seq<(usize, NodeId)>, i: int, x: (usize, NodeId))
    requires
        0 <= i < h.len(),
        h.contains(x),
        h[i] != x,
    ensures
        h.remove(i).contains(x),
{
    let q = choose|q: int| 0 <= q < h.len() && h[q] == x;
    if q < i {
        assert(h.remove(i)[q] == x);
    } else {
        assert(h.remove(i)[q - 1] == x);
    }
}

/// The in-degree from the set of every node of the set.
fn in_degrees(graph: &RegionGraph, nodes: &HashSet<NodeId>, list: &Vec<NodeId>) -> (deg: HashMap<NodeId, usize>)
    requires
        list@.to_set() == nodes@,
        list@.no_duplicates(),
        nodes@.finite(),
    ensures
        forall|x: NodeId| #[trigger] deg@.contains_key(x) <==> nodes@.contains(x),
        forall|x: NodeId| #[trigger] deg@.contains_key(x) ==> deg@[x] == in_degree_from(graph.edges(), nodes@, x) && exists|v: Seq<NodeId>|
            is_pred_list(graph.edges(), x, v),
{
    let ghost g = *graph;
    let ghost s = nodes@;
    let mut deg: HashMap<NodeId, usize> = HashMap::new();
    let mut i: usize = 0;
    while i < list.len()
        invariant
            g == *graph,
            s == nodes@,
            list@.to_set() == s,
            list@.no_duplicates(),
            s.finite(),
            0 <= i <= list@.len(),
            forall|x: NodeId| #[trigger] deg@.contains_key(x) <==> list@.take(i as int).contains(x),
            forall|x: NodeId| #[trigger] deg@.contains_key(x) ==> deg@[x] == in_degree_from(g.edges(), s, x) && exists|v: Seq<NodeId>|
                is_pred_list(g.edges(), x, v),
        decreases list@.len() - i,
    {
        let n = list[i];
        let preds = graph.predecessors(n);
        let mut c: usize = 0;
        let mut t: usize = 0;
        while t < preds.len()
            invariant
                0 <= t <= preds@.len(),
                c <= t,
                c == count_in(preds@.take(t as int), s),
                s == nodes@,
            decreases preds@.len() - t,
        {
            proof {
                assert(preds@.take(t + 1).drop_last() =~= preds@.take(t as int));
                assert(preds@.take(t + 1).last() == preds@[t as int]);
            }
            if nodes.contains(&preds[t]) {
                c += 1;
            }
            t += 1;
        }
        proof {
            assert(preds@.take(t as int) =~= preds@);
            assert(is_pred_list(g.edges(), n, preds@));
            lemma_in_degree_from_list(g.edges(), s, n, preds@);
        }
        deg.insert(n, c);
        proof {
            let t1 = list@.take(i + 1);
            let t0 = list@.take(i as int);
            assert(t1 =~= t0.push(n));
            assert forall|x: NodeId| #[trigger] deg@.contains_key(x) <==> t1.contains(x) by {
                if t1.contains(x) && x != n {
                    let q = choose|q: int| 0 <= q < t1.len() && #[trigger] t1[q] == x;
                    assert(t0[q] == x);
                }
                if t0.contains(x) {
                    let q = choose|q: int| 0 <= q < t0.len() && #[trigger] t0[q] == x;
                    assert(t1[q] == x);
                }
                assert(t1[i as int] == n);
            }
        }
        i += 1;
    }
    proof {
        assert(list@.take(i as int) =~= list@);
    }
    deg
}

/// The entries `(key, node)` of the nodes ready at the start: those with
/// no incoming edge from the set.
fn ready_heap(graph: &RegionGraph, nodes: &HashSet<NodeId>, list: &Vec<NodeId>, deg: &HashMap<NodeId, usize>) -> (heap: Vec<(usize, NodeId)>)
    requires
        graph.wf(),
        list@.to_set() == nodes@,
        nodes@.finite(),
        forall|x: NodeId| #[trigger] deg@.contains_key(x) <==> nodes@.contains(x),
        forall|x: NodeId| #[trigger] deg@.contains_key(x) ==> deg@[x] == in_degree_from(graph.edges(), nodes@, x) && exists|v: Seq<NodeId>|
            is_pred_list(graph.edges(), x, v),
    ensures
        forall|q: int| 0 <= q < heap@.len() ==> nodes@.contains(#[trigger] heap@[q].1) && heap@[q].0 == node_sort_key(*graph, heap@[q].1)
            && is_ready(*graph, nodes@, Seq::empty(), heap@[q].1),
        forall|w: NodeId| #[trigger] is_ready(*graph, nodes@, Seq::empty(), w) ==> heap@.contains((node_sort_key(*graph, w) as usize, w)),
{
    let ghost g = *graph;
    let ghost s = nodes@;
    let ghost empty = Seq::<NodeId>::empty();
    proof {
        assert(unvisited(s, empty) =~= s);
    }
    let mut heap: Vec<(usize, NodeId)> = Vec::new();
    let mut i: usize = 0;
    while i < list.len()
        invariant
            g == *graph,
            s == nodes@,
            g.wf(),
            list@.to_set() == s,
            s.finite(),
            0 <= i <= list@.len(),
            forall|x: NodeId| #[trigger] deg@.contains_key(x) <==> s.contains(x),
            forall|x: NodeId| #[trigger] deg@.contains_key(x) ==> deg@[x] == in_degree_from(g.edges(), s, x) && exists|v: Seq<NodeId>|
                is_pred_list(g.edges(), x, v),
            unvisited(s, empty) == s,
            forall|q: int| 0 <= q < heap@.len() ==> s.contains(#[trigger] heap@[q].1) && heap@[q].0 == node_sort_key(g, heap@[q].1)
                && is_ready(g, s, empty, heap@[q].1),
            forall|j: int| 0 <= j < i && #[trigger] is_ready(g, s, empty, list@[j]) ==> heap@.contains(
                (node_sort_key(g, list@[j]) as usize, list@[j]),
            ),
        decreases list@.len() - i,
    {
        let n = list[i];
        proof {
            assert(list@.to_set().contains(n));
            assert(deg@.contains_key(n));
            lemma_ready_iff_zero(g, s, empty, n);
        }
        let d = match deg.get(&n) {
            Some(d) => *d,
            None => 0,
        };
        let ghost h0 = heap@;
        if d == 0 {
            let key = region_node_sort_key(graph, n);
            heap.push((key, n));
            proof {
                assert(heap@[heap@.len() - 1] == (key, n));
                assert forall|x: (usize, NodeId)| h0.contains(x) implies #[trigger] heap@.contains(x) by {
                    let q = choose|q: int| 0 <= q < h0.len() && h0[q] == x;
                    assert(heap@[q] == x);
                }
            }
        }
        i += 1;
    }
    proof {
        assert forall|w: NodeId| #[trigger] is_ready(g, s, empty, w) implies heap@.contains((node_sort_key(g, w) as usize, w)) by {
            assert(list@.to_set().contains(w));
            let j = choose|j: int| 0 <= j < list@.len() && list@[j] == w;
            assert(is_ready(g, s, empty, list@[j]));
        }
    }
    heap
}

/// The node to start from where none is ready: the fewest incoming edges
/// from the set, then the smallest key, then the smallest index.
fn fallback_start(graph: &RegionGraph, nodes: &HashSet<NodeId>, list: &Vec<NodeId>, deg: &HashMap<NodeId, usize>) -> (best: NodeId)
    requires
        graph.wf(),
        list@.to_set() == nodes@,
        list@.no_duplicates(),
        list@.len() > 0,
        forall|x: NodeId| #[trigger] deg@.contains_key(x) <==> nodes@.contains(x),
        forall|x: NodeId| #[trigger] deg@.contains_key(x) ==> deg@[x] == in_degree_from(graph.edges(), nodes@, x),
    ensures
        best == fallback_node(*graph, nodes@),
        nodes@.contains(best),
{
    let ghost g = *graph;
    let ghost s = nodes@;
    let mut best = list[0];
    proof {
        assert(list@.to_set().contains(best));
        assert(deg@.contains_key(best));
    }
    let mut best_deg = match deg.get(&best) {
        Some(d) => *d,
        None => 0,
    };
    let mut best_key = region_node_sort_key(graph, best);
    let mut k: usize = 1;
    proof {
        assert(list@.take(1)[0] == best);
    }
    while k < list.len()
        invariant
            g == *graph,
            s == nodes@,
            g.wf(),
            list@.to_set() == s,
            list@.no_duplicates(),
            1 <= k <= list@.len(),
            forall|x: NodeId| #[trigger] deg@.contains_key(x) <==> s.contains(x),
            forall|x: NodeId| #[trigger] deg@.contains_key(x) ==> deg@[x] == in_degree_from(g.edges(), s, x),
            exists|q: int| 0 <= q < k && #[trigger] list@[q] == best,
            best_deg == in_degree_from(g.edges(), s, best),
            best_key == node_sort_key(g, best),
            forall|j: int| 0 <= j < k && #[trigger] list@[j] != best ==> fallback_before(g, s, best, list@[j]),
        decreases list@.len() - k,
    {
        let n = list[k];
        proof {
            assert(list@.to_set().contains(n));
            assert(deg@.contains_key(n));
            let q = choose|q: int| 0 <= q < k && #[trigger] list@[q] == best;
            assert(n != best);
        }
        let d = match deg.get(&n) {
            Some(d) => *d,
            None => 0,
        };
        let key = region_node_sort_key(graph, n);
        if d < best_deg || (d == best_deg && (key < best_key || (key == best_key && n < best))) {
            best = n;
            best_deg = d;
            best_key = key;
        }
        proof {
            assert(list@[k as int] == n);
        }
        k += 1;
    }
    proof {
        assert(s.contains(best)) by {
            let q = choose|q: int| 0 <= q < k && #[trigger] list@[q] == best;
            assert(list@.to_set().contains(list@[q]));
        }
        assert forall|o: NodeId| #[trigger] s.contains(o) && o != best implies fallback_before(g, s, best, o) by {
            assert(list@.to_set().contains(o));
            let j = choose|j: int| 0 <= j < list@.len() && list@[j] == o;
        }
        let f = fallback_node(g, s);
        assert(f == best) by {
            assert(s.contains(f) && forall|o: NodeId| #[trigger] s.contains(o) && o != f ==> fallback_before(g, s, f, o));
            if f != best {
                assert(fallback_before(g, s, f, best));
                assert(fallback_before(g, s, best, f));
            }
        }
    }
    best
}

/// The position of the smallest `(key, node)` entry of a non-empty heap.
fn min_entry(heap: &Vec<(usize, NodeId)>) -> (mi: usize)
    requires
        heap@.len() > 0,
    ensures
        mi < heap@.len(),
        forall|t: int| 0 <= t < heap@.len() ==> (heap@[mi as int].0 < #[trigger] heap@[t].0 || (heap@[mi as int].0 == heap@[t].0
            && heap@[mi as int].1 <= heap@[t].1)),
{
    let mut mi: usize = 0;
    let mut k: usize = 1;
    while k < heap.len()
        invariant
            1 <= k <= heap@.len(),
            0 <= mi < k,
            forall|t: int| 0 <= t < k ==> (heap@[mi as int].0 < #[trigger] heap@[t].0 || (heap@[mi as int].0 == heap@[t].0
                && heap@[mi as int].1 <= heap@[t].1)),
        decreases heap@.len() - k,
    {
        if heap[k].0 < heap[mi].0 || (heap[k].0 == heap[mi].0 && heap[k].1 < heap[mi].1) {
            mi = k;
        }
        k += 1;
    }
    mi
}

/// The nodes of the set not visited, by key.
fn sorted_rest(graph: &RegionGraph, nodes: &HashSet<NodeId>, list: &Vec<NodeId>, visited: &HashSet<NodeId>) -> (rest: Vec<NodeId>)
    requires
        graph.wf(),
        list@.to_set() == nodes@,
        list@.no_duplicates(),
    ensures
        rest@.no_duplicates(),
        forall|x: NodeId| #[trigger] rest@.contains(x) <==> nodes@.contains(x) && !visited@.contains(x),
        forall|a: int, b: int| 0 <= a < b < rest@.len() ==> key_before(*graph, #[trigger] rest@[a], #[trigger] rest@[b]),
{
    let ghost g = *graph;
    let mut rest: Vec<(usize, NodeId)> = Vec::new();
    let mut i: usize = 0;
    while i < list.len()
        invariant
            g == *graph,
            g.wf(),
            list@.no_duplicates(),
            0 <= i <= list@.len(),
            forall|t: int| 0 <= t < rest@.len() ==> (#[trigger] rest@[t]).0 == node_sort_key(g, rest@[t].1),
            pair_nodes(rest@).no_duplicates(),
            forall|x: NodeId| #[trigger] pair_nodes(rest@).contains(x) <==> list@.take(i as int).contains(x) && !visited@.contains(x),
            forall|a: int, b: int| 0 <= a < b < rest@.len() ==> key_before(g, #[trigger] rest@[a].1, #[trigger] rest@[b].1),
        decreases list@.len() - i,
    {
        let n = list[i];
        let ghost rn = pair_nodes(rest@);
        let ghost t0 = list@.take(i as int);
        let ghost t1 = list@.take(i + 1);
        proof {
            assert(t1 =~= t0.push(n));
            assert(!t0.contains(n)) by {
                if t0.contains(n) {
                    let q = choose|q: int| 0 <= q < t0.len() && #[trigger] t0[q] == n;
                    assert(list@[q] == list@[i as int]);
                }
            }
            assert forall|x: NodeId| #[trigger] t1.contains(x) <==> t0.contains(x) || x == n by {
                if t1.contains(x) && x != n {
                    let q = choose|q: int| 0 <= q < t1.len() && #[trigger] t1[q] == x;
                    assert(t0[q] == x);
                }
                if t0.contains(x) {
                    let q = choose|q: int| 0 <= q < t0.len() && #[trigger] t0[q] == x;
                    assert(t1[q] == x);
                }
                assert(t1[i as int] == n);
            }
        }
        if !visited.contains(&n) {
            let key = region_node_sort_key(graph, n);
            let mut j: usize = rest.len();
            while j > 0 && (key < rest[j - 1].0 || (key == rest[j - 1].0 && n < rest[j - 1].1))
                invariant
                    0 <= j <= rest@.len(),
                    key == node_sort_key(g, n),
                    forall|t: int| 0 <= t < rest@.len() ==> (#[trigger] rest@[t]).0 == node_sort_key(g, rest@[t].1),
                    forall|t: int| j <= t < rest@.len() ==> key_before(g, n, #[trigger] rest@[t].1),
                decreases j,
            {
                j -= 1;
            }
            let ghost r0 = rest@;
            rest.insert(j, (key, n));
            proof {
                assert(!rn.contains(n));
                let r1 = rest@;
                assert(r1 == r0.insert(j as int, (key, n)));
                if j > 0 {
                    assert(r0[j - 1].1 != n) by {
                        assert(rn[j - 1] == r0[j - 1].1);
                    }
                    assert(key_before(g, r0[j - 1].1, n));
                }
                assert forall|t: int| 0 <= t < r1.len() implies (#[trigger] r1[t]).0 == node_sort_key(g, r1[t].1) by {
                    if t < j {
                        assert(r1[t] == r0[t]);
                    } else if t > j {
                        assert(r1[t] == r0[t - 1]);
                    }
                }
                assert forall|a: int, b: int| 0 <= a < b < r1.len() implies key_before(g, #[trigger] r1[a].1, #[trigger] r1[b].1) by {
                    if a < j && b < j {
                        assert(r1[a] == r0[a] && r1[b] == r0[b]);
                    } else if a < j && b == j {
                        assert(r1[a] == r0[a]);
                        if a < j - 1 {
                            assert(key_before(g, r0[a].1, r0[j - 1].1));
                        }
                    } else if a < j && b > j {
                        assert(r1[a] == r0[a] && r1[b] == r0[b - 1]);
                    } else if a == j {
                        assert(r1[b] == r0[b - 1]);
                    } else {
                        assert(r1[a] == r0[a - 1] && r1[b] == r0[b - 1]);
                    }
                }
                let rn1 = pair_nodes(r1);
                assert(rn1 =~= rn.insert(j as int, n));
                assert forall|x: NodeId| #[trigger] rn1.contains(x) <==> rn.contains(x) || x == n by {
                    if rn1.contains(x) && x != n {
                        let q = choose|q: int| 0 <= q < rn1.len() && rn1[q] == x;
                        if q < j {
                            assert(rn[q] == x);
                        } else {
                            assert(rn[q - 1] == x);
                        }
                    }
                    if rn.contains(x) {
                        let q = choose|q: int| 0 <= q < rn.len() && rn[q] == x;
                        if q < j {
                            assert(rn1[q] == x);
                        } else {
                            assert(rn1[q + 1] == x);
                        }
                    }
                    assert(rn1[j as int] == n);
                }
                assert(rn1.no_duplicates()) by {
                    assert forall|a: int, b: int| 0 <= a < b < rn1.len() implies rn1[a] != rn1[b] by {
                        assert(key_before(g, r1[a].1, r1[b].1));
                    }
                }
                assert forall|x: NodeId| #[trigger] rn1.contains(x) <==> t1.contains(x) && !visited@.contains(x) by {}
            }
        } else {
            proof {
                assert forall|x: NodeId| #[trigger] rn.contains(x) <==> t1.contains(x) && !visited@.contains(x) by {}
            }
        }
        i += 1;
    }
    proof {
        assert(list@.take(i as int) =~= list@);
    }
    let ghost rest_nodes = pair_nodes(rest@);
    let mut res: Vec<NodeId> = Vec::new();
    let mut t: usize = 0;
    while t < rest.len()
        invariant
            0 <= t <= rest@.len(),
            rest_nodes == pair_nodes(rest@),
            res@ == rest_nodes.take(t as int),
        decreases rest@.len() - t,
    {
        res.push(rest[t].1);
        proof {
            assert(rest_nodes.take(t + 1) =~= rest_nodes.take(t as int).push(rest@[t as int].1));
        }
        t += 1;
    }
    proof {
        assert(rest_nodes.take(t as int) =~= rest_nodes);
        assert forall|x: NodeId| #[trigger] rest_nodes.contains(x) <==> nodes@.contains(x) && !visited@.contains(x) by {
            if nodes@.contains(x) {
                assert(list@.to_set().contains(x));
            }
        }
        assert forall|a: int, b: int| 0 <= a < b < rest_nodes.len() implies key_before(g, #[trigger] rest_nodes[a], #[trigger] rest_nodes[b]) by {
            assert(key_before(g, rest@[a].1, rest@[b].1));
        }
    }
    res
}

/// Take the smallest entry off the heap; where its node is not visited
/// yet, visit it: it is then the ready node that comes first by key.
fn pop_and_visit(
    graph: &RegionGraph,
    nodes: &HashSet<NodeId>,
    deg: &mut HashMap<NodeId, usize>,
    heap: &mut Vec<(usize, NodeId)>,
    visited: &mut HashSet<NodeId>,
    ordered: &mut Vec<NodeId>,
)
    requires
        flow_state(*graph, nodes@, old(deg)@, old(heap)@, old(visited)@, old(ordered)@),
        old(heap)@.len() > 0,
    ensures
        flow_state(*graph, nodes@, final(deg)@, final(heap)@, final(visited)@, final(ordered)@),
        final(ordered)@ == old(ordered)@ && final(heap)@.len() < old(heap)@.len() || exists|w: NodeId|
            is_next_ready(*graph, nodes@, old(ordered)@, w) && final(ordered)@ == old(ordered)@.push(w),
        final(ordered)@.no_duplicates(),
        forall|x: NodeId| #[trigger] final(ordered)@.contains(x) ==> nodes@.contains(x),
{
    reveal(flow_state);
    let ghost g = *graph;
    let ghost s = nodes@;
        let mi = min_entry(heap);
        let node = heap[mi].1;
        let ghost h0 = heap@;
        let ghost o0 = ordered@;
        proof {
            assert(s.contains(h0[mi as int].1));
        }
        if !visited.contains(&node) {
            proof {
                assert(is_ready(g, s, o0, node));
                assert(h0[mi as int].0 == node_sort_key(g, node));
                assert forall|o: NodeId| #[trigger] is_ready(g, s, o0, o) && o != node implies key_before(g, node, o) by {
                    assert(h0.contains((node_sort_key(g, o) as usize, o)));
                    let q = choose|q: int| 0 <= q < h0.len() && h0[q] == (node_sort_key(g, o) as usize, o);
                    assert(h0[mi as int].0 < h0[q].0 || (h0[mi as int].0 == h0[q].0 && h0[mi as int].1 <= h0[q].1));
                }
                assert(is_next_ready(g, s, o0, node));
                let w = choose|w: NodeId| is_next_ready(g, s, o0, w);
                assert(w == node) by {
                    if w != node {
                        assert(key_before(g, node, w));
                        assert(key_before(g, w, node));
                    }
                }
                let o1 = o0.push(node);
                assert forall|x: NodeId| #[trigger] o1.contains(x) implies s.contains(x) by {
                    if x != node {
                        let q = choose|q: int| 0 <= q < o1.len() && o1[q] == x;
                        assert(o0[q] == x);
                        assert(o0.contains(x));
                    }
                }
                assert(o1.no_duplicates()) by {
                    assert forall|a: int, b: int| 0 <= a < b < o1.len() implies o1[a] != o1[b] by {
                        if b == o0.len() {
                            assert(o0.contains(o0[a]));
                        }
                    }
                }
            }
            visit_node(graph, nodes, node, deg, heap, visited, ordered);
            proof {
                assert(heap@[mi as int] == heap@.take(h0.len() as int)[mi as int]);
                assert(is_next_ready(g, s, o0, node) && ordered@ == o0.push(node));
            }
        }
        let ghost h1 = heap@;
        let ghost o2 = ordered@;
        let _ = heap.remove(mi);
        proof {
            assert(h1[mi as int] == h0[mi as int]);
            assert(o2.contains(node)) by {
                if o2 != o0 {
                    assert(o2[o2.len() - 1] == node);
                }
            }
            assert forall|q: int| 0 <= q < heap@.len() implies s.contains(#[trigger] heap@[q].1) && heap@[q].0 == node_sort_key(
                g,
                heap@[q].1,
            ) && (o2.contains(heap@[q].1) || is_ready(g, s, o2, heap@[q].1)) by {
                if q < mi {
                    assert(heap@[q] == h1[q]);
                } else {
                    assert(heap@[q] == h1[q + 1]);
                }
            }
            assert forall|w: NodeId| #[trigger] is_ready(g, s, o2, w) implies heap@.contains((node_sort_key(g, w) as usize, w)) by {
                lemma_remove_keeps(h1, mi as int, (node_sort_key(g, w) as usize, w));
            }
        }
}

/// The state at the start: nothing visited, every in-degree from the whole
/// set, the heap holding exactly the ready nodes.
proof fn lemma_initial_flow_state(g: RegionGraph, s: Set<NodeId>, deg: Map<NodeId, usize>, heap: Seq<(usize, NodeId)>)
    requires
        g.wf(),
        s.finite(),
        forall|x: NodeId| #[trigger] deg.contains_key(x) <==> s.contains(x),
        forall|x: NodeId| #[trigger] deg.contains_key(x) ==> deg[x] == in_degree_from(g.edges(), s, x) && exists|v: Seq<NodeId>|
            is_pred_list(g.edges(), x, v),
        forall|q: int| 0 <= q < heap.len() ==> s.contains(#[trigger] heap[q].1) && heap[q].0 == node_sort_key(g, heap[q].1)
            && is_ready(g, s, Seq::empty(), heap[q].1),
        forall|w: NodeId| #[trigger] is_ready(g, s, Seq::empty(), w) ==> heap.contains((node_sort_key(g, w) as usize, w)),
    ensures
        flow_state(g, s, deg, heap, Set::empty(), Seq::empty()),
{
    reveal(flow_state);
    let empty = Seq::<NodeId>::empty();
    assert(unvisited(s, empty) =~= s);
    assert forall|w: NodeId| s.contains(w) && !empty.contains(w) implies #[trigger] deg[w] == in_degree_from(
        g.edges(),
        unvisited(s, empty),
        w,
    ) by {
        assert(deg.contains_key(w));
    }
    assert forall|w: NodeId| #[trigger] s.contains(w) implies exists|v: Seq<NodeId>| is_pred_list(g.edges(), w, v) by {
        assert(deg.contains_key(w));
    }
}

/// With the heap empty, no node is ready.
proof fn lemma_empty_heap_done(
    g: RegionGraph,
    s: Set<NodeId>,
    deg: Map<NodeId, usize>,
    heap: Seq<(usize, NodeId)>,
    visited: Set<NodeId>,
    ordered: Seq<NodeId>,
)
    requires
        flow_state(g, s, deg, heap, visited, ordered),
        heap.len() == 0,
    ensures
        !exists|w: NodeId| is_next_ready(g, s, ordered, w),
{
    reveal(flow_state);
    if exists|w: NodeId| is_next_ready(g, s, ordered, w) {
        let w = choose|w: NodeId| is_next_ready(g, s, ordered, w);
        assert(heap.contains((node_sort_key(g, w) as usize, w)));
    }
}

/// The flow order starts from no node where some node is ready at the
/// start (the heap is not empty), else from the fallback node.
proof fn lemma_flow_start(g: RegionGraph, s: Set<NodeId>, heap: Seq<(usize, NodeId)>)
    requires
        s.len() > 0,
        forall|q: int| 0 <= q < heap.len() ==> s.contains(#[trigger] heap[q].1) && heap[q].0 == node_sort_key(g, heap[q].1)
            && is_ready(g, s, Seq::empty(), heap[q].1),
        forall|w: NodeId| #[trigger] is_ready(g, s, Seq::empty(), w) ==> heap.contains((node_sort_key(g, w) as usize, w)),
    ensures
        flow_prefix(g, s) == flow_from(g, s, if heap.len() == 0 {
            seq![fallback_node(g, s)]
        } else {
            Seq::empty()
        }, s.len()),
{
    reveal(flow_prefix);
    let empty = Seq::<NodeId>::empty();
    if heap.len() == 0 {
        assert(!exists|w: NodeId| is_ready(g, s, empty, w)) by {
            if exists|w: NodeId| is_ready(g, s, empty, w) {
                let w = choose|w: NodeId| is_ready(g, s, empty, w);
                assert(heap.contains((node_sort_key(g, w) as usize, w)));
            }
        }
    } else {
        assert(is_ready(g, s, empty, heap[0].1));
    }
}

/// The visited set holds exactly the ordered nodes.
proof fn lemma_state_visited(
    g: RegionGraph,
    s: Set<NodeId>,
    deg: Map<NodeId, usize>,
    heap: Seq<(usize, NodeId)>,
    visited: Set<NodeId>,
    ordered: Seq<NodeId>,
)
    requires
        flow_state(g, s, deg, heap, visited, ordered),
    ensures
        forall|x: NodeId| #[trigger] visited.contains(x) <==> ordered.contains(x),
{
    reveal(flow_state);
}

/// Two lists of the same nodes, each once, both by key, are equal.
proof fn lemma_sorted_unique(g: RegionGraph, a: Seq<NodeId>, b: Seq<NodeId>)
    requires
        a.no_duplicates(),
        b.no_duplicates(),
        forall|x: NodeId| #![trigger a.contains(x)] #![trigger b.contains(x)] a.contains(x) <==> b.contains(x),
        forall|i: int, j: int| 0 <= i < j < a.len() ==> key_before(g, #[trigger] a[i], #[trigger] a[j]),
        forall|i: int, j: int| 0 <= i < j < b.len() ==> key_before(g, #[trigger] b[i], #[trigger] b[j]),
    ensures
        a == b,
    decreases a.len(),
{
    if a.len() == 0 {
        if b.len() > 0 {
            assert(b.contains(b[0]));
        }
        assert(a =~= b);
    } else {
        assert(b.len() > 0) by {
            assert(a.contains(a[0]));
        }
        assert(a[0] == b[0]) by {
            if a[0] != b[0] {
                assert(b.contains(a[0]));
                let j = choose|j: int| 0 <= j < b.len() && b[j] == a[0];
                assert(a.contains(b[0]));
                let i = choose|i: int| 0 <= i < a.len() && a[i] == b[0];
                assert(key_before(g, b[0], b[j]));
                assert(key_before(g, a[0], a[i]));
            }
        }
        let a1 = a.drop_first();
        let b1 = b.drop_first();
        assert forall|x: NodeId| #![trigger a1.contains(x)] #![trigger b1.contains(x)] a1.contains(x) <==> b1.contains(x) by {
            if a1.contains(x) {
                let i = choose|i: int| 0 <= i < a1.len() && a1[i] == x;
                assert(a[i + 1] == x);
                assert(x != a[0]);
                assert(b.contains(x));
                let j = choose|j: int| 0 <= j < b.len() && b[j] == x;
                assert(j != 0);
                assert(b1[j - 1] == x);
            }
            if b1.contains(x) {
                let j = choose|j: int| 0 <= j < b1.len() && b1[j] == x;
                assert(b[j + 1] == x);
                assert(x != b[0]);
                assert(a.contains(x));
                let i = choose|i: int| 0 <= i < a.len() && a[i] == x;
                assert(i != 0);
                assert(a1[i - 1] == x);
            }
        }
        assert forall|i: int, j: int| 0 <= i < j < a1.len() implies key_before(g, #[trigger] a1[i], #[trigger] a1[j]) by {
            assert(a1[i] == a[i + 1] && a1[j] == a[j + 1]);
        }
        assert forall|i: int, j: int| 0 <= i < j < b1.len() implies key_before(g, #[trigger] b1[i], #[trigger] b1[j]) by {
            assert(b1[i] == b[i + 1] && b1[j] == b[j + 1]);
        }
        lemma_sorted_unique(g, a1, b1);
        assert(a1.len() == b1.len());
        assert(a.len() == b.len());
        assert(a =~= b) by {
            assert forall|k: int| 0 <= k < a.len() implies a[k] == b[k] by {
                if k > 0 {
                    assert(a[k] == a1[k - 1]);
                    assert(b[k] == b1[k - 1]);
                }
            }
        }
    }
}

/// The whole flow order of `s`: the flow prefix, then the other nodes by
/// key.
pub open spec fn flow_order(g: RegionGraph, s: Set<NodeId>) -> Seq<NodeId> {
    flow_prefix(g, s) + choose|rest: Seq<NodeId>| is_sorted_rest(g, s, flow_prefix(g, s), rest)
}

/// A list made of the flow prefix (distinct nodes of `s`) and the sorted
/// rest is the flow order; it holds each node of `s` once.
proof fn lemma_flow_order_of(g: RegionGraph, s: Set<NodeId>, res: Seq<NodeId>)
    requires
        res.len() >= flow_prefix(g, s).len(),
        res.take(flow_prefix(g, s).len() as int) == flow_prefix(g, s),
        is_sorted_rest(g, s, flow_prefix(g, s), res.skip(flow_prefix(g, s).len() as int)),
        flow_prefix(g, s).no_duplicates(),
        forall|x: NodeId| #[trigger] flow_prefix(g, s).contains(x) ==> s.contains(x),
    ensures
        res == flow_order(g, s),
        res.no_duplicates(),
        forall|x: NodeId| #[trigger] res.contains(x) <==> s.contains(x),
{
    let p = flow_prefix(g, s);
    let r = res.skip(p.len() as int);
    let c = choose|rest: Seq<NodeId>| is_sorted_rest(g, s, p, rest);
    lemma_sorted_unique(g, r, c);
    assert(res =~= p + r);
    assert forall|x: NodeId| #[trigger] res.contains(x) <==> p.contains(x) || r.contains(x) by {
        if res.contains(x) {
            let q = choose|q: int| 0 <= q < res.len() && res[q] == x;
            if q < p.len() {
                assert(p[q] == x);
            } else {
                assert(r[q - p.len()] == x);
            }
        }
        if p.contains(x) {
            let q = choose|q: int| 0 <= q < p.len() && p[q] == x;
            assert(res[q] == x);
        }
        if r.contains(x) {
            let q = choose|q: int| 0 <= q < r.len() && r[q] == x;
            assert(res[q + p.len()] == x);
        }
    }
    assert(res.no_duplicates()) by {
        assert forall|a: int, b: int| 0 <= a < b < res.len() implies res[a] != res[b] by {
            if b < p.len() {
                assert(res[a] == p[a] && res[b] == p[b]);
            } else if a >= p.len() {
                assert(res[a] == r[a - p.len()] && res[b] == r[b - p.len()]);
            } else {
                assert(res[a] == p[a]);
                assert(p.contains(p[a]));
                assert(res[b] == r[b - p.len()]);
                assert(r.contains(r[b - p.len()]));
            }
        }
    }
}

/// Order nodes by following the control flow edges (Kahn's algorithm):
/// the nodes of `flow_prefix` first, then the others (those left on
/// cycles) by key. Among the nodes ready to go, the one with the smallest
/// sort key (the earliest block) goes first; where none is ready at the
/// start, the node with the fewest incoming edges from the set does.
#[verifier::rlimit(80)]
#[verifier::spinoff_prover]
pub fn order_nodes_by_flow(graph: &RegionGraph, nodes: &HashSet<NodeId>) -> (res: Vec<NodeId>)
    requires
        graph.wf(),
    ensures
        res@.len() >= flow_prefix(*graph, nodes@).len(),
        res@.take(flow_prefix(*graph, nodes@).len() as int) == flow_prefix(*graph, nodes@),
        is_sorted_rest(*graph, nodes@, flow_prefix(*graph, nodes@), res@.skip(flow_prefix(*graph, nodes@).len() as int)),
        res@ == flow_order(*graph, nodes@),
        res@.no_duplicates(),
        forall|x: NodeId| #[trigger] res@.contains(x) <==> nodes@.contains(x),
{
    let ghost g = *graph;
    let ghost s = nodes@;
    let list = set_to_vec(nodes);
    proof {
        list@.unique_seq_to_set();
        vstd::seq_lib::seq_to_set_is_finite(list@);
    }
    if list.len() == 0 {
        proof {
            assert(s =~= Set::<NodeId>::empty()) by {
                assert forall|x: NodeId| !s.contains(x) by {
                    assert(!list@.to_set().contains(x));
                }
            }
            let empty = Seq::<NodeId>::empty();
            lemma_flow_no_fuel(g, s, empty);
            reveal(flow_prefix);
            assert(flow_prefix(g, s) == empty);
            assert(Seq::<NodeId>::empty().take(0) =~= empty);
            assert(Seq::<NodeId>::empty().skip(0) =~= empty);
            lemma_flow_order_of(g, s, empty);
        }
        return Vec::new();
    }
    let mut deg = in_degrees(graph, nodes, &list);
    let mut heap = ready_heap(graph, nodes, &list, &deg);
    let mut visited: HashSet<NodeId> = HashSet::new();
    let mut ordered: Vec<NodeId> = Vec::new();
    let ghost empty = Seq::<NodeId>::empty();
    proof {
        assert(ordered@ =~= empty);
        assert(visited@ =~= Set::<NodeId>::empty());
        lemma_initial_flow_state(g, s, deg@, heap@);
    }
    let ghost start: Seq<NodeId> = if heap@.len() == 0 {
        seq![fallback_node(g, s)]
    } else {
        empty
    };
    proof {
        assert(s.len() > 0) by {
            assert(s.contains(list@[0]));
        }
        lemma_flow_start(g, s, heap@);
    }
    if heap.len() == 0 {
        // No node is ready: start from the one with the fewest incoming
        // edges from the set.
        let best = fallback_start(graph, nodes, &list, &deg);
        visit_node(graph, nodes, best, &mut deg, &mut heap, &mut visited, &mut ordered);
        proof {
            assert(ordered@ =~= start);
        }
    }
    let ghost target = flow_prefix(g, s);
    let ghost mut fuel: nat = s.len();
    while heap.len() > 0
        invariant
            g == *graph,
            s == nodes@,
            flow_state(g, s, deg@, heap@, visited@, ordered@),
            ordered@.no_duplicates(),
            forall|x: NodeId| #[trigger] ordered@.contains(x) ==> s.contains(x),
            s.finite(),
            target == flow_from(g, s, ordered@, fuel),
            fuel + ordered@.len() == s.len() + start.len(),
            start.len() <= 1,
        decreases s.len() - ordered@.len(), heap@.len(),
    {
        proof {
            lemma_visited_fit(ordered@, s);
        }
        let ghost o0 = ordered@;
        let ghost hl = heap@.len();
        pop_and_visit(graph, nodes, &mut deg, &mut heap, &mut visited, &mut ordered);
        proof {
            if ordered@ != o0 {
                let w = choose|w: NodeId| is_next_ready(g, s, o0, w) && ordered@ == o0.push(w);
                lemma_visited_fit(ordered@, s);
                lemma_flow_step(g, s, o0, fuel, w);
                fuel = (fuel - 1) as nat;
            }
        }
    }
    proof {
        lemma_empty_heap_done(g, s, deg@, heap@, visited@, ordered@);
        lemma_flow_stop(g, s, ordered@, fuel);
        assert(target == ordered@);
        lemma_state_visited(g, s, deg@, heap@, visited@, ordered@);
    }
    let mut rest = sorted_rest(graph, nodes, &list, &visited);
    let ghost rest_nodes = rest@;
    let ghost plen = ordered@.len();
    let mut res = ordered;
    res.append(&mut rest);
    proof {
        assert(res@.take(plen as int) =~= target);
        assert(res@.skip(plen as int) =~= rest_nodes);
        assert forall|x: NodeId| #[trigger] rest_nodes.contains(x) <==> s.contains(x) && !target.contains(x) by {}
        assert(target.no_duplicates());
        lemma_flow_order_of(g, s, res@);
    }
    res
}


/// Each node of `v` from position `k` on comes after every node of `s`
/// with an edge into it.
pub open spec fn after_preds(g: RegionGraph, s: Set<NodeId>, v: Seq<NodeId>, k: int) -> bool {
    forall|j: int, a: NodeId| k <= j < v.len() && s.contains(a) && #[trigger] edges_between(g.edges(), a, v[j]) > 0 ==> v.take(
        j,
    ).contains(a)
}

/// Taking ready nodes keeps every node after the nodes with an edge into it.
proof fn lemma_flow_from_after_preds(g: RegionGraph, s: Set<NodeId>, v: Seq<NodeId>, fuel: nat, k: int)
    requires
        after_preds(g, s, v, k),
        0 <= k <= v.len(),
    ensures
        after_preds(g, s, flow_from(g, s, v, fuel), k),
    decreases fuel,
{
    reveal(flow_from);
    if fuel > 0 && exists|w: NodeId| is_next_ready(g, s, v, w) {
        let w = choose|w: NodeId| is_next_ready(g, s, v, w);
        let v1 = v.push(w);
        assert forall|j: int, a: NodeId| k <= j < v1.len() && s.contains(a) && #[trigger] edges_between(g.edges(), a, v1[j]) > 0 implies v1.take(
            j,
        ).contains(a) by {
            if j < v.len() {
                assert(v1[j] == v[j]);
                assert(v1.take(j) =~= v.take(j));
            } else {
                assert(v1[j] == w);
                assert(v1.take(j) =~= v);
                if !v.contains(a) {
                    assert(unvisited(s, v).contains(a));
                }
            }
        }
        lemma_flow_from_after_preds(g, s, v1, (fuel - 1) as nat, k);
    }
}

/// The flow order follows the edges: a node taken in the flow prefix comes
/// after every node of the set with an edge into it. Only a node the order
/// starts from because none was ready (the first, on a cycle) may have
/// such a node after it.
pub proof fn lemma_flow_order_respects_edges(g: RegionGraph, s: Set<NodeId>, a: NodeId, j: int)
    requires
        0 <= j < flow_prefix(g, s).len(),
        j > 0 || exists|w: NodeId| is_ready(g, s, Seq::empty(), w),
        s.contains(a),
        edges_between(g.edges(), a, flow_prefix(g, s)[j]) > 0,
    ensures
        flow_prefix(g, s).take(j).contains(a),
{
    reveal(flow_prefix);
    let empty = Seq::<NodeId>::empty();
    let start = if s.len() == 0 || exists|w: NodeId| is_ready(g, s, empty, w) {
        empty
    } else {
        seq![fallback_node(g, s)]
    };
    let k = start.len() as int;
    assert(after_preds(g, s, start, k));
    lemma_flow_from_after_preds(g, s, start, s.len(), k);
    if j < k {
        assert(exists|w: NodeId| is_ready(g, s, empty, w));
    }
}

} // verus!
