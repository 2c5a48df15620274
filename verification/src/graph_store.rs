//! The petgraph graph that holds a region graph's nodes and edges, and what
//! this library relies on of the petgraph calls it makes.
//!
//! A graph is described by the sequence of its node weights (node `i` is the
//! `i`-th) and the multiset of its edges `(source, target, kind)`.
use vstd::prelude::*;
use vstd::multiset::Multiset;

use crate::cfg::EdgeKind;
use crate::region_dominance::{is_idom, reaches};
use crate::region_graph::RegionNode;
use petgraph::algo::dominators::Dominators;
use petgraph::graph::Graph;
use petgraph::Directed;
use petgraph::visit::EdgeRef;

verus! {

#[verifier::external_type_specification]
#[verifier::external_body]
#[verifier::reject_recursive_types(N)]
#[verifier::reject_recursive_types(E)]
#[verifier::reject_recursive_types(Ty)]
#[verifier::reject_recursive_types(Ix)]
pub struct ExGraph<N, E, Ty, Ix>(petgraph::graph::Graph<N, E, Ty, Ix>);

#[verifier::external_type_specification]
#[verifier::external_body]
pub struct ExDirected(petgraph::Directed);

#[verifier::external_type_specification]
#[verifier::external_body]
#[verifier::reject_recursive_types(Ix)]
pub struct ExNodeIndex<Ix>(petgraph::graph::NodeIndex<Ix>);

#[verifier::external_type_specification]
#[verifier::external_body]
#[verifier::reject_recursive_types(N)]
pub struct ExDominators<N: Copy + Eq + std::hash::Hash>(petgraph::algo::dominators::Dominators<N>);

/// The petgraph graph of a region graph, indexed by `usize`.
pub type RegionDiGraph = Graph<RegionNode, EdgeKind, Directed, usize>;

/// The node weights of a graph, in node-index order.
pub uninterp spec fn graph_nodes(g: Graph<RegionNode, EdgeKind, Directed, usize>) -> Seq<
    RegionNode,
>;

/// The edges of a graph, as `(source, target, kind)` triples.
pub uninterp spec fn graph_edges(g: Graph<RegionNode, EdgeKind, Directed, usize>) -> Multiset<
    (usize, usize, EdgeKind),
>;

/// Where node `x` of the graph after removing node `a` of an `n`-node graph
/// was before: petgraph moves the last node into the freed index.
pub open spec fn index_before_removal(x: int, a: int, n: int) -> int {
    if x == a {
        n - 1
    } else {
        x
    }
}

/// Builds an empty graph (petgraph's `Graph::with_capacity(0, 0)`).
#[verifier::external_body]
pub(crate) fn new_graph() -> (g: RegionDiGraph)
    ensures
        graph_nodes(g) == Seq::<RegionNode>::empty(),
        graph_edges(g) == Multiset::<(usize, usize, EdgeKind)>::empty(),
{
    Graph::with_capacity(0, 0)
}

/// petgraph's `Graph::node_count`: the number of nodes.
#[verifier::external_body]
pub(crate) fn node_count(g: &RegionDiGraph) -> (res: usize)
    ensures
        res == graph_nodes(*g).len(),
{
    g.node_count()
}

/// petgraph's `Graph::add_node`: appends a node, whose index is returned;
/// the edges are unchanged.
#[verifier::external_body]
pub(crate) fn add_node(g: &mut RegionDiGraph, weight: RegionNode) -> (res: usize)
    ensures
        res == graph_nodes(*old(g)).len(),
        graph_nodes(*final(g)) == graph_nodes(*old(g)).push(weight),
        graph_edges(*final(g)) == graph_edges(*old(g)),
{
    g.add_node(weight).index()
}

/// petgraph's `Graph::add_edge`: adds one edge `a -> b` (parallel edges are
/// kept); the nodes are unchanged.
#[verifier::external_body]
pub(crate) fn add_edge(g: &mut RegionDiGraph, a: usize, b: usize, kind: EdgeKind)
    requires
        a < graph_nodes(*old(g)).len(),
        b < graph_nodes(*old(g)).len(),
    ensures
        graph_nodes(*final(g)) == graph_nodes(*old(g)),
        graph_edges(*final(g)) == graph_edges(*old(g)).insert((a, b, kind)),
{
    g.add_edge(petgraph::graph::NodeIndex::new(a), petgraph::graph::NodeIndex::new(b), kind);
}

/// petgraph's `Graph::remove_node`: removes node `a` and every edge touching
/// it, then moves the last node into index `a`; returns the removed weight.
#[verifier::external_body]
pub(crate) fn remove_node(g: &mut RegionDiGraph, a: usize) -> (res: Option<RegionNode>)
    requires
        a < graph_nodes(*old(g)).len(),
    ensures
        ({
            let n = graph_nodes(*old(g)).len() as int;
            &&& res == Some(graph_nodes(*old(g))[a as int])
            &&& graph_nodes(*final(g)) == (if a < n - 1 {
                graph_nodes(*old(g)).update(a as int, graph_nodes(*old(g)).last()).drop_last()
            } else {
                graph_nodes(*old(g)).drop_last()
            })
            &&& forall|e: (usize, usize, EdgeKind)| #[trigger]
                graph_edges(*final(g)).count(e) == if e.0 < n - 1 && e.1 < n - 1 {
                    graph_edges(*old(g)).count(
                        (
                            index_before_removal(e.0 as int, a as int, n) as usize,
                            index_before_removal(e.1 as int, a as int, n) as usize,
                            e.2,
                        ),
                    )
                } else {
                    0
                }
        }),
{
    g.remove_node(petgraph::graph::NodeIndex::new(a))
}

/// petgraph's `Graph::node_weight`: the weight of node `a`, if it exists.
#[verifier::external_body]
pub(crate) fn node_weight(g: &RegionDiGraph, a: usize) -> (res: Option<&RegionNode>)
    ensures
        a < graph_nodes(*g).len() ==> res == Some(&graph_nodes(*g)[a as int]),
        a >= graph_nodes(*g).len() ==> res is None,
{
    g.node_weight(petgraph::graph::NodeIndex::new(a))
}

/// petgraph's `IndexMut` on a graph: puts `weight` in node `a` and returns
/// the weight it held; the edges are unchanged.
#[verifier::external_body]
pub(crate) fn replace_node_weight(g: &mut RegionDiGraph, a: usize, weight: RegionNode) -> (res:
    RegionNode)
    requires
        a < graph_nodes(*old(g)).len(),
    ensures
        res == graph_nodes(*old(g))[a as int],
        graph_nodes(*final(g)) == graph_nodes(*old(g)).update(a as int, weight),
        graph_edges(*final(g)) == graph_edges(*old(g)),
{
    std::mem::replace(&mut g[petgraph::graph::NodeIndex::new(a)], weight)
}

/// petgraph's `Graph::edges_directed`: the edges leaving `a` or, for
/// `incoming`, entering `a`, each edge once, as `(source, target, kind)`.
/// The order is left unsaid.
#[verifier::external_body]
pub(crate) fn edges_directed(g: &RegionDiGraph, a: usize, incoming: bool) -> (res: Vec<
    (usize, usize, EdgeKind),
>)
    ensures
        forall|e: (usize, usize, EdgeKind)| #[trigger]
            res@.to_multiset().count(e) == if (incoming && e.1 == a) || (!incoming && e.0 == a) {
                graph_edges(*g).count(e)
            } else {
                0
            },
{
    let dir = if incoming {
        petgraph::Direction::Incoming
    } else {
        petgraph::Direction::Outgoing
    };
    g.edges_directed(petgraph::graph::NodeIndex::new(a), dir).map(
        |e| (e.source().index(), e.target().index(), *e.weight()),
    ).collect()
}

/// A graph of bare nodes and edges, for computing dominators; indexed by
/// `usize`.
pub type PlainDiGraph = Graph<(), (), Directed, usize>;

/// The dominance relation petgraph computes, over `usize` node indices.
pub type PlainDominators = Dominators<petgraph::graph::NodeIndex<usize>>;

/// The number of nodes of a plain graph.
pub uninterp spec fn plain_size(g: Graph<(), (), Directed, usize>) -> nat;

/// The edges `(source, target)` of a plain graph.
pub uninterp spec fn plain_edges(g: Graph<(), (), Directed, usize>) -> Multiset<(usize, usize)>;

/// Whether a plain graph has an edge `a -> b`.
pub open spec fn plain_adj(g: PlainDiGraph) -> spec_fn(usize, usize) -> bool {
    |a: usize, b: usize| plain_edges(g).count((a, b)) > 0
}

/// The root a dominance relation was computed from.
pub uninterp spec fn dominator_root(d: Dominators<petgraph::graph::NodeIndex<usize>>) -> usize;

/// What a dominance relation holds: each node reachable from the root,
/// mapped to its immediate dominator (the root to itself).
pub uninterp spec fn dominator_map(d: Dominators<petgraph::graph::NodeIndex<usize>>) -> Map<usize, usize>;

/// Builds an empty plain graph (petgraph's `Graph::with_capacity(0, 0)`).
#[verifier::external_body]
pub(crate) fn new_plain_graph() -> (g: PlainDiGraph)
    ensures
        plain_size(g) == 0,
        plain_edges(g) == Multiset::<(usize, usize)>::empty(),
{
    Graph::with_capacity(0, 0)
}

/// petgraph's `Graph::add_node` on a plain graph: one more node, whose
/// index is returned; the edges are unchanged.
#[verifier::external_body]
pub(crate) fn plain_add_node(g: &mut PlainDiGraph) -> (res: usize)
    ensures
        res == plain_size(*old(g)),
        plain_size(*final(g)) == plain_size(*old(g)) + 1,
        plain_edges(*final(g)) == plain_edges(*old(g)),
{
    g.add_node(()).index()
}

/// petgraph's `Graph::add_edge` on a plain graph: adds one edge `a -> b`.
#[verifier::external_body]
pub(crate) fn plain_add_edge(g: &mut PlainDiGraph, a: usize, b: usize)
    requires
        a < plain_size(*old(g)),
        b < plain_size(*old(g)),
    ensures
        plain_size(*final(g)) == plain_size(*old(g)),
        plain_edges(*final(g)) == plain_edges(*old(g)).insert((a, b)),
{
    g.add_edge(petgraph::graph::NodeIndex::new(a), petgraph::graph::NodeIndex::new(b), ());
}

/// petgraph's `algo::dominators::simple_fast`: the dominance relation of
/// the graph from `root`. It holds exactly the nodes reachable from the
/// root, and maps each of them but the root to its immediate dominator: the
/// strict dominator that every other strict dominator dominates (the
/// module's documentation defines dominance by paths from the root).
#[verifier::external_body]
pub(crate) fn simple_fast(g: &PlainDiGraph, root: usize) -> (res: PlainDominators)
    requires
        root < plain_size(*g),
    ensures
        dominator_root(res) == root,
        forall|x: usize| #[trigger] dominator_map(res).dom().contains(x) <==> reaches(plain_adj(*g), root, x),
        forall|x: usize| #[trigger] dominator_map(res).dom().contains(x) && x != root ==> is_idom(
            plain_adj(*g),
            root,
            dominator_map(res)[x],
            x,
        ),
{
    petgraph::algo::dominators::simple_fast(g, petgraph::graph::NodeIndex::new(root))
}

/// petgraph's `Dominators::immediate_dominator`: `None` for the root and
/// for nodes the relation does not hold, else the node's immediate
/// dominator.
#[verifier::external_body]
pub(crate) fn immediate_dominator(d: &PlainDominators, node: usize) -> (res: Option<usize>)
    ensures
        res == if node == dominator_root(*d) || !dominator_map(*d).dom().contains(node) {
            None::<usize>
        } else {
            Some(dominator_map(*d)[node])
        },
{
    match d.immediate_dominator(petgraph::graph::NodeIndex::new(node)) {
        Some(x) => Some(x.index()),
        None => None,
    }
}

} // verus!
