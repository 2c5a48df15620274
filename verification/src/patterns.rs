//! Pattern matchers for control flow structures.
//!
//! A matcher identifies a pattern in the region graph and returns the nodes
//! involved plus what is needed to build a region of it; the reducer then
//! collapses the graph. Collapsed regions are atomic: the matchers walk the
//! region graph, not the original control-flow graph, and use dominance
//! computed on the region graph.
use vstd::prelude::*;

use std::collections::{HashMap, HashSet};

use crate::cfg::{normal_targets, Cfg, CfgEdge, EdgeKind, NodeId};
use crate::region::{region_terminates, region_within};
use crate::region_dominance::{dominates, forward_adj, is_idom, is_path, lemma_idom_unique, post_adj, reaches, RegionDominators};
use crate::region_graph::{
    contains_node, edges_between, set_to_vec, is_reverse_postorder, is_dfs_reverse_postorder, lemma_distinct_below, single_successor, lemma_closed_holds_reachable, lemma_visited_bound,
    node_region, RegionGraph, RegionNode,
};

verus! {

broadcast use {
    vstd::std_specs::vec::group_vec_axioms,
    vstd::std_specs::hash::group_hash_axioms,
    vstd::seq_lib::group_to_multiset_ensures,
    vstd::multiset::group_multiset_axioms,
};

/// The target of the last edge of kind `k` in `succs`.
pub open spec fn last_of_kind(succs: Seq<(NodeId, EdgeKind)>, k: EdgeKind) -> Option<NodeId>
    decreases succs.len(),
{
    if succs.len() == 0 {
        None
    } else if succs.last().1 == k {
        Some(succs.last().0)
    } else {
        last_of_kind(succs.drop_last(), k)
    }
}

/// Identify which successor is the then branch and which is else: the
/// targets of the (last) true and false edges. Returns
/// `(then_target, else_target, negated)`; the then branch is the true one.
pub fn identify_branches(succs: &[(NodeId, EdgeKind)]) -> (res: Option<(NodeId, NodeId, bool)>)
    ensures
        res == match (last_of_kind(succs@, EdgeKind::ConditionalTrue), last_of_kind(succs@, EdgeKind::ConditionalFalse)) {
            (Some(t), Some(f)) => Some((t, f, false)),
            _ => None::<(NodeId, NodeId, bool)>,
        },
{
    let mut true_branch: Option<NodeId> = None;
    let mut false_branch: Option<NodeId> = None;
    let mut i: usize = 0;
    while i < succs.len()
        invariant
            0 <= i <= succs@.len(),
            true_branch == last_of_kind(succs@.take(i as int), EdgeKind::ConditionalTrue),
            false_branch == last_of_kind(succs@.take(i as int), EdgeKind::ConditionalFalse),
        decreases succs@.len() - i,
    {
        let (target, kind) = succs[i];
        match kind {
            EdgeKind::ConditionalTrue => true_branch = Some(target),
            EdgeKind::ConditionalFalse => false_branch = Some(target),
            _ => {},
        }
        proof {
            assert(succs@.take(i + 1).drop_last() =~= succs@.take(i as int));
            assert(succs@.take(i + 1).last() == succs@[i as int]);
        }
        i += 1;
    }
    proof {
        assert(succs@.take(i as int) =~= succs@);
    }
    match (true_branch, false_branch) {
        (Some(t), Some(f)) => Some((t, f, false)),
        _ => None,
    }
}

/// What pattern matching reads of the loop analysis of the control-flow
/// graph: the header block of each natural loop, and the blocks that jump
/// back to a header.
pub struct LoopInfo {
    pub headers: HashSet<NodeId>,
    pub back_edge_sources: HashSet<NodeId>,
}

/// A node that branch collection does not enter: a block that is a loop
/// header or jumps back to one.
pub open spec fn is_loop_barrier(n: RegionNode, headers: Set<NodeId>, back_edge_sources: Set<NodeId>) -> bool {
    match n {
        RegionNode::Block(c) => headers.contains(c) || back_edge_sources.contains(c),
        RegionNode::Collapsed(_) => false,
    }
}

/// Every node of the graph refers only to blocks of the control-flow graph.
pub open spec fn nodes_within(g: RegionGraph, cfg: Cfg) -> bool {
    forall|i: int| 0 <= i < g.nodes().len() ==> region_within(#[trigger] node_region(g.nodes()[i]), cfg.blocks.len() as nat)
}

/// Whether node `y` may belong to the branch from `start` of the
/// conditional at `condition` that meets again at `merge`: a node of the
/// graph other than `merge` and `condition`, not a loop barrier (unless it
/// is `start`), dominated by `condition`, and ending the function, or
/// jumping to `merge`, or post-dominated by `merge` (or the merge is a
/// placeholder equal to the condition).
pub open spec fn branch_member(
    g: RegionGraph,
    cfg: Cfg,
    headers: Set<NodeId>,
    back_edge_sources: Set<NodeId>,
    start: NodeId,
    merge: NodeId,
    condition: NodeId,
    y: NodeId,
) -> bool {
    let n = g.nodes().len();
    let e = g.edges();
    &&& y < n
    &&& y != merge && y != condition
    &&& y != start ==> !is_loop_barrier(g.nodes()[y as int], headers, back_edge_sources)
    &&& condition < n && dominates(forward_adj(e), g.spec_entry(), condition, y)
    &&& (region_terminates(node_region(g.nodes()[y as int]), cfg.exit_flags()) || merge == condition
        || edges_between(e, y, merge) > 0 || (merge < n && dominates(
        post_adj(e, n, g.spec_entry()),
        n as NodeId,
        merge,
        y,
    )))
}

/// The edges of the graph between branch members.
pub open spec fn branch_adj(
    g: RegionGraph,
    cfg: Cfg,
    headers: Set<NodeId>,
    back_edge_sources: Set<NodeId>,
    start: NodeId,
    merge: NodeId,
    condition: NodeId,
) -> spec_fn(NodeId, NodeId) -> bool {
    |a: NodeId, b: NodeId| forward_adj(g.edges())(a, b) && branch_member(g, cfg, headers, back_edge_sources, start, merge, condition, a)
        && branch_member(g, cfg, headers, back_edge_sources, start, merge, condition, b)
}

/// The nodes of the branch from `start`: the members reached from `start`
/// through members (none where `start` is not a member itself).
pub open spec fn branch_region(
    g: RegionGraph,
    cfg: Cfg,
    headers: Set<NodeId>,
    back_edge_sources: Set<NodeId>,
    start: NodeId,
    merge: NodeId,
    condition: NodeId,
) -> Set<NodeId> {
    Set::new(|y: NodeId| branch_member(g, cfg, headers, back_edge_sources, start, merge, condition, start)
        && reaches(branch_adj(g, cfg, headers, back_edge_sources, start, merge, condition), start, y))
}

/// The branch targets of a conditional: `(then, else, negated, the
/// then-block of the control-flow graph where a block gave them)`.
pub type BranchTargets = (NodeId, NodeId, bool, Option<NodeId>);

/// The targets of the conditional ending block `c`, read from the edges of
/// the control-flow graph and mapped to the nodes holding them.
pub open spec fn block_targets(g: RegionGraph, cfg: Cfg, c: NodeId) -> Option<BranchTargets> {
    let succs = cfg.out_edges(c);
    if succs.len() != 2 {
        None
    } else {
        match (last_of_kind(succs, EdgeKind::ConditionalTrue), last_of_kind(succs, EdgeKind::ConditionalFalse)) {
            (Some(t), Some(f)) => if g.owners().dom().contains(t) && g.owners().dom().contains(f) {
                Some((g.owners()[t], g.owners()[f], false, Some(t)))
            } else {
                None
            },
            _ => None,
        }
    }
}

/// The targets of a conditional collapsed node whose two outgoing edges
/// come in the order `succs`: the true and false edges where both are
/// there, else the first and second edge.
pub open spec fn collapsed_targets(succs: Seq<(NodeId, EdgeKind)>) -> Option<BranchTargets> {
    if succs.len() != 2 {
        None
    } else {
        match (last_of_kind(succs, EdgeKind::ConditionalTrue), last_of_kind(succs, EdgeKind::ConditionalFalse)) {
            (Some(t), Some(f)) => Some((t, f, false, None)),
            _ => Some((succs[0].0, succs[1].0, false, None)),
        }
    }
}

/// `succs` lists the outgoing edges of `node`, each once.
pub open spec fn lists_out_edges(
    edges: vstd::multiset::Multiset<(NodeId, NodeId, EdgeKind)>,
    node: NodeId,
    succs: Seq<(NodeId, EdgeKind)>,
) -> bool {
    forall|t: NodeId, k: EdgeKind| #[trigger] succs.to_multiset().count((t, k)) == edges.count((node, t, k))
}

/// `t` is what the branch targets of `node` may be: `None` outside the
/// graph; for a block, those of its control-flow graph edges; for a
/// collapsed node, those of its edges taken in some order.
pub open spec fn possible_targets(g: RegionGraph, cfg: Cfg, node: NodeId, t: Option<BranchTargets>) -> bool {
    if node >= g.nodes().len() {
        t is None
    } else {
        match g.nodes()[node as int] {
            RegionNode::Block(c) => t == block_targets(g, cfg, c),
            RegionNode::Collapsed(_) => exists|succs: Seq<(NodeId, EdgeKind)>| #[trigger] lists_out_edges(g.edges(), node, succs)
                && t == collapsed_targets(succs),
        }
    }
}

/// Node `x` is in the graph and every path through it ends the function.
pub open spec fn node_terminates(g: RegionGraph, cfg: Cfg, x: NodeId) -> bool {
    x < g.nodes().len() && region_terminates(node_region(g.nodes()[x as int]), cfg.exit_flags())
}

/// The immediate post-dominator of `node` in the graph, if it has one
/// other than the virtual exit.
pub open spec fn ipdom_of(g: RegionGraph, node: NodeId) -> Option<NodeId> {
    let n = g.nodes().len();
    let adj = post_adj(g.edges(), n, g.spec_entry());
    if exists|p: NodeId| p < n && #[trigger] is_idom(adj, n as NodeId, p, node) {
        Some(choose|p: NodeId| p < n && #[trigger] is_idom(adj, n as NodeId, p, node))
    } else {
        None
    }
}

/// The merge point of the conditional at `node` with these targets, and
/// whether one branch returns early: the immediate post-dominator where
/// there is one; else the target of the branch that does not end the
/// function where exactly one does; else the then target.
pub open spec fn merge_of(g: RegionGraph, cfg: Cfg, node: NodeId, then_t: NodeId, else_t: NodeId) -> (NodeId, bool) {
    let tt = node_terminates(g, cfg, then_t);
    let et = node_terminates(g, cfg, else_t);
    match ipdom_of(g, node) {
        Some(m) => (m, false),
        None => if tt && !et {
            (else_t, true)
        } else if et && !tt {
            (then_t, true)
        } else {
            (then_t, false)
        },
    }
}

/// Some edge leads from a node of `from` to a node of `to` that does not
/// end the function.
pub open spec fn crosses_into(g: RegionGraph, cfg: Cfg, from: Set<NodeId>, to: Set<NodeId>) -> bool {
    exists|x: NodeId, y: NodeId| from.contains(x) && to.contains(y) && #[trigger] edges_between(g.edges(), x, y) > 0
        && !node_terminates(g, cfg, y)
}

/// The if pattern `match_if_pattern_region` finds at `node`, given its
/// branch targets, as `(condition, then nodes, else nodes, merge, negated,
/// early-return target)`.
pub open spec fn if_pattern_at(
    g: RegionGraph,
    cfg: Cfg,
    headers: Set<NodeId>,
    back_edge_sources: Set<NodeId>,
    node: NodeId,
    targets: BranchTargets,
) -> Option<(NodeId, Set<NodeId>, Set<NodeId>, NodeId, bool, Option<NodeId>)> {
    let (then_t, else_t, negated, then_cfg) = targets;
    let (merge, early) = merge_of(g, cfg, node, then_t, else_t);
    if then_t == merge && else_t == merge {
        None
    } else {
        let then_nodes = branch_region(g, cfg, headers, back_edge_sources, then_t, merge, node);
        let else_nodes = branch_region(g, cfg, headers, back_edge_sources, else_t, merge, node);
        let else0 = else_nodes.difference(then_nodes).remove(then_t);
        let then1 = if then_nodes.is_empty() && then_t != merge && then_t < g.nodes().len()
            && g.nodes()[then_t as int] is Collapsed {
            set![then_t]
        } else {
            then_nodes
        };
        let else1 = if else0.is_empty() && else_t != merge && else_t < g.nodes().len()
            && g.nodes()[else_t as int] is Collapsed {
            set![else_t]
        } else {
            else0
        };
        let then_set = then1.remove(merge);
        let else_set = else1.remove(merge);
        if crosses_into(g, cfg, else_set, then_set) || crosses_into(g, cfg, then_set, else_set) {
            None
        } else {
            let exit_target = if then_set.is_empty() && node_terminates(g, cfg, then_t) && early {
                then_cfg
            } else {
                None
            };
            Some((node, then_set, else_set, merge, negated, exit_target))
        }
    }
}

/// The two branches of an if pattern share no node but, possibly, the
/// else target, and that only where the else branch had nothing of its own
/// and the then branch runs into the else target, or both targets are the
/// same node.
pub proof fn lemma_if_branches_disjoint(
    g: RegionGraph,
    cfg: Cfg,
    headers: Set<NodeId>,
    back_edge_sources: Set<NodeId>,
    node: NodeId,
    targets: BranchTargets,
    x: NodeId,
)
    requires
        if_pattern_at(g, cfg, headers, back_edge_sources, node, targets) is Some,
        ({
            let p = if_pattern_at(g, cfg, headers, back_edge_sources, node, targets).unwrap();
            p.1.contains(x) && p.2.contains(x)
        }),
    ensures
        x == targets.1,
        targets.0 == targets.1 || branch_region(
            g,
            cfg,
            headers,
            back_edge_sources,
            targets.0,
            merge_of(g, cfg, node, targets.0, targets.1).0,
            node,
        ).contains(x),
{
}

/// A detected if-then-else pattern ready for collapse.
#[derive(Debug)]
pub struct IfPattern {
    /// The condition node (holds the conditional branch).
    pub condition_node: NodeId,
    /// Nodes in the "then" branch.
    pub then_nodes: HashSet<NodeId>,
    /// Nodes in the "else" branch (empty for an if without else).
    pub else_nodes: HashSet<NodeId>,
    /// The merge point (immediate post-dominator of the condition).
    pub merge: NodeId,
    /// Whether the condition is negated (jump-on-true vs jump-on-false).
    pub negated: bool,
    /// For early-return patterns: the block the then branch jumps to, set
    /// when the then branch has no nodes of its own but ends the function.
    pub then_exit_target: Option<NodeId>,
}

impl View for IfPattern {
    type V = (NodeId, Set<NodeId>, Set<NodeId>, NodeId, bool, Option<NodeId>);

    open spec fn view(&self) -> Self::V {
        (self.condition_node, self.then_nodes@, self.else_nodes@, self.merge, self.negated, self.then_exit_target)
    }
}

/// Pattern matcher that uses the region graph as the single source of
/// truth.
///
/// It detects control flow patterns while treating collapsed regions as
/// atomic, opaque units.
pub struct PatternMatcher<'a> {
    /// The current state of the region graph.
    region_graph: &'a RegionGraph,
    /// The original control-flow graph (for block lookups only, not for
    /// traversal).
    cfg: &'a Cfg,
    /// The loops of the original control-flow graph.
    loops: &'a LoopInfo,
    /// Cached dominance computed on the region graph.
    region_dominators: Option<RegionDominators>,
}

impl<'a> PatternMatcher<'a> {
    #[verifier::type_invariant]
    spec fn inv(self) -> bool {
        &&& self.region_graph.wf()
        &&& nodes_within(*self.region_graph, *self.cfg)
        &&& match self.region_dominators {
            Some(d) => {
                &&& d.spec_edges() == self.region_graph.edges()
                &&& d.spec_size() == self.region_graph.nodes().len()
                &&& d.spec_entry() == self.region_graph.spec_entry()
            },
            None => true,
        }
    }

    /// The region graph matched on.
    pub closed spec fn graph(&self) -> RegionGraph {
        *self.region_graph
    }

    /// The control-flow graph the region graph was built from.
    pub closed spec fn spec_cfg(&self) -> Cfg {
        *self.cfg
    }

    /// The loop header blocks.
    pub closed spec fn headers(&self) -> Set<NodeId> {
        self.loops.headers@
    }

    /// The blocks that jump back to a loop header.
    pub closed spec fn back_edge_sources(&self) -> Set<NodeId> {
        self.loops.back_edge_sources@
    }

    /// Create a new pattern matcher.
    pub fn new(region_graph: &'a RegionGraph, cfg: &'a Cfg, loops: &'a LoopInfo) -> (res: Self)
        requires
            region_graph.wf(),
            nodes_within(*region_graph, *cfg),
        ensures
            res.graph() == *region_graph,
            res.spec_cfg() == *cfg,
            res.headers() == loops.headers@,
            res.back_edge_sources() == loops.back_edge_sources@,
    {
        PatternMatcher { region_graph, cfg, loops, region_dominators: None }
    }

    /// Ensure region dominance is computed and not stale.
    fn ensure_dominance(&mut self)
        ensures
            final(self).graph() == old(self).graph(),
            final(self).spec_cfg() == old(self).spec_cfg(),
            final(self).headers() == old(self).headers(),
            final(self).back_edge_sources() == old(self).back_edge_sources(),
            final(self).region_dominators is Some,
    {
        proof {
            use_type_invariant(&*self);
        }
        let needs_compute = match &self.region_dominators {
            Some(d) => d.is_stale(self.region_graph),
            None => true,
        };
        if needs_compute {
            self.region_dominators = Some(RegionDominators::compute(self.region_graph));
        }
    }

    /// Get the region dominators, computing them if needed.
    pub fn dominators(&mut self) -> (res: &RegionDominators)
        ensures
            final(self).graph() == old(self).graph(),
            res.spec_edges() == old(self).graph().edges(),
            res.spec_size() == old(self).graph().nodes().len(),
            res.spec_entry() == old(self).graph().spec_entry(),
    {
        self.ensure_dominance();
        proof {
            use_type_invariant(&*self);
        }
        self.region_dominators.as_ref().unwrap()
    }

    /// Collect the nodes of a branch by walking the region graph.
    ///
    /// From `start`, successors are followed through nodes that belong to
    /// the branch (see `branch_member`): collapsed regions are atomic, the
    /// walk stops at `merge` and `condition` and at loop headers and
    /// back-edge sources, and only nodes that `condition` dominates and
    /// that end the function, jump to `merge` or are post-dominated by it
    /// are taken.
    #[verifier::loop_isolation(false)]
    pub fn collect_branch_region(&mut self, start: NodeId, merge: NodeId, condition: NodeId) -> (res: HashSet<NodeId>)
        ensures
            final(self).graph() == old(self).graph(),
            final(self).spec_cfg() == old(self).spec_cfg(),
            final(self).headers() == old(self).headers(),
            final(self).back_edge_sources() == old(self).back_edge_sources(),
            res@ == branch_region(
                old(self).graph(),
                old(self).spec_cfg(),
                old(self).headers(),
                old(self).back_edge_sources(),
                start,
                merge,
                condition,
            ),
    {
        self.ensure_dominance();
        proof {
            use_type_invariant(&*self);
        }
        let g = self.region_graph;
        let cfg = self.cfg;
        let loops = self.loops;
        let dominators = match &self.region_dominators {
            Some(d) => d,
            None => {
                proof {
                    assert(false);
                }
                return HashSet::new();
            },
        };
        let ghost gg = *g;
        let ghost cc = *cfg;
        let ghost hs = loops.headers@;
        let ghost bs = loops.back_edge_sources@;
        let ghost member = |y: NodeId| branch_member(gg, cc, hs, bs, start, merge, condition, y);
        let ghost badj = branch_adj(gg, cc, hs, bs, start, merge, condition);
        let ghost nn = gg.nodes().len();
        let mut nodes: HashSet<NodeId> = HashSet::new();
        let mut worklist: Vec<NodeId> = Vec::new();
        let mut visited: HashSet<NodeId> = HashSet::new();
        worklist.push(start);
        proof {
            assert(worklist@[0] == start);
            assert(is_path(badj, seq![start]));
        }
        while worklist.len() > 0
            invariant
                forall|x: NodeId| #[trigger] nodes@.contains(x) ==> visited@.contains(x) && member(x) && member(start)
                    && reaches(badj, start, x),
                forall|x: NodeId| #[trigger] visited@.contains(x) ==> x < nn && (member(x) ==> nodes@.contains(x)),
                forall|i: int| 0 <= i < worklist@.len() ==> #[trigger] worklist@[i] == start || exists|x: NodeId|
                    nodes@.contains(x) && #[trigger] forward_adj(gg.edges())(x, worklist@[i]),
                member(start) ==> nodes@.contains(start) || worklist@.contains(start),
                forall|x: NodeId, v: NodeId| #[trigger] nodes@.contains(x) && #[trigger] badj(x, v) ==> nodes@.contains(v)
                    || worklist@.contains(v),
            decreases nn - visited@.len(), worklist@.len(),
        {
            let ghost wold = worklist@;
            let node = worklist.pop().unwrap();
            let ghost w0 = worklist@.push(node);
            proof {
                assert(w0 =~= wold);
                assert(w0[w0.len() - 1] == node);
                lemma_visited_bound(visited@, nn);
                // What leaves the worklist stays accounted for.
                assert forall|v: NodeId| w0.contains(v) && v != node implies #[trigger] worklist@.contains(v) by {
                    let k = choose|k: int| 0 <= k < w0.len() && w0[k] == v;
                    assert(worklist@[k] == v);
                }
            }
            if !g.contains(node) {
                proof {
                    assert(!member(node));
                }
                continue;
            }
            if visited.contains(&node) || node == merge || node == condition {
                continue;
            }
            if node != start {
                let barrier = match g.get_node(node) {
                    Some(RegionNode::Block(cfg_node)) => loops.headers.contains(cfg_node)
                        || loops.back_edge_sources.contains(cfg_node),
                    _ => false,
                };
                if barrier {
                    continue;
                }
            }
            let ghost v0 = visited@;
            visited.insert(node);
            proof {
                lemma_visited_bound(visited@, nn);
            }
            if !dominators.dominates(condition, node) {
                continue;
            }
            let is_terminating = match g.get_node(node) {
                Some(n) => {
                    proof {
                        assert(region_within(node_region(gg.nodes()[node as int]), cc.blocks.len() as nat));
                    }
                    n.terminates(cfg)
                },
                None => false,
            };
            let is_dummy_merge = merge == condition;
            let succs = g.successors(node);
            let jumps_to_merge = crate::region_graph::contains_node(&succs, merge);
            proof {
                assert(jumps_to_merge == (edges_between(gg.edges(), node, merge) > 0)) by {
                    if jumps_to_merge {
                        assert(succs@.to_multiset().count(merge) > 0);
                    } else if edges_between(gg.edges(), node, merge) > 0 {
                        assert(succs@.to_multiset().count(merge) > 0);
                    }
                }
            }
            if !is_terminating && !is_dummy_merge && !jumps_to_merge && !dominators.post_dominates(merge, node) {
                continue;
            }
            proof {
                assert(member(node));
            }
            let ghost n0 = nodes@;
            nodes.insert(node);
            proof {
                // `node` is reached from `start` through members.
                if node != start {
                    let k = choose|k: int| 0 <= k < w0.len() && w0[k] == node;
                    let x = choose|x: NodeId| n0.contains(x) && #[trigger] forward_adj(gg.edges())(x, w0[k]);
                    assert(badj(x, node));
                    let p = choose|p: Seq<NodeId>| #[trigger] is_path(badj, p) && p[0] == start && p.last() == x;
                    let p2 = p.push(node);
                    assert forall|i: int| 0 <= i < p2.len() - 1 implies #[trigger] badj(p2[i], p2[i + 1]) by {
                        if i < p.len() - 1 {
                            assert(badj(p[i], p[i + 1]));
                        }
                    }
                    assert(is_path(badj, p2) && p2[0] == start && p2.last() == node);
                    assert(member(start));
                } else {
                    assert(is_path(badj, seq![start]));
                }
            }
            let mut i: usize = 0;
            while i < succs.len()
                invariant
                    0 <= i <= succs@.len(),
                    nodes@ == n0.insert(node),
                    forall|t: NodeId| #[trigger] succs@.to_multiset().count(t) == edges_between(gg.edges(), node, t),
                    forall|k: int| 0 <= k < worklist@.len() ==> #[trigger] worklist@[k] == start || exists|x: NodeId|
                        nodes@.contains(x) && #[trigger] forward_adj(gg.edges())(x, worklist@[k]),
                    forall|v: NodeId| w0.contains(v) && v != node ==> #[trigger] worklist@.contains(v),
                    forall|x: NodeId, v: NodeId| #[trigger] n0.contains(x) && #[trigger] badj(x, v) ==> nodes@.contains(v)
                        || w0.contains(v) || worklist@.contains(v),
                    forall|k: int| 0 <= k < i ==> visited@.contains(#[trigger] succs@[k]) || worklist@.contains(succs@[k]),
                decreases succs@.len() - i,
            {
                let s = succs[i];
                let ghost wb = worklist@;
                if !visited.contains(&s) {
                    worklist.push(s);
                    proof {
                        assert(succs@.to_multiset().count(s) > 0);
                        assert(forward_adj(gg.edges())(node, s));
                        assert(nodes@.contains(node));
                        assert(worklist@[worklist@.len() - 1] == s);
                        assert forall|v: NodeId| wb.contains(v) implies #[trigger] worklist@.contains(v) by {
                            let k = choose|k: int| 0 <= k < wb.len() && wb[k] == v;
                            assert(worklist@[k] == v);
                        }
                    }
                }
                proof {
                    assert forall|k: int| 0 <= k < i + 1 implies visited@.contains(#[trigger] succs@[k]) || worklist@.contains(succs@[k]) by {
                        if k < i {
                            if worklist@.len() > wb.len() && wb.contains(succs@[k]) {
                                let kk = choose|kk: int| 0 <= kk < wb.len() && wb[kk] == succs@[k];
                                assert(worklist@[kk] == succs@[k]);
                            }
                        } else if !visited@.contains(s) {
                            assert(worklist@[worklist@.len() - 1] == s);
                        }
                    }
                }
                i += 1;
            }
            proof {
                assert forall|x: NodeId, v: NodeId| #[trigger] nodes@.contains(x) && #[trigger] badj(x, v) implies nodes@.contains(v)
                    || worklist@.contains(v) by {
                    if x == node {
                        assert(edges_between(gg.edges(), node, v) > 0);
                        assert(succs@.to_multiset().count(v) > 0);
                        assert(succs@.contains(v));
                        let k = choose|k: int| 0 <= k < succs@.len() && succs@[k] == v;
                        assert(visited@.contains(succs@[k]) || worklist@.contains(succs@[k]));
                    } else {
                        assert(n0.contains(x));
                        if w0.contains(v) && v != node {
                            assert(worklist@.contains(v));
                        }
                    }
                }
                lemma_visited_bound(visited@, nn);
            }
        }
        proof {
            assert forall|y: NodeId| #[trigger] nodes@.contains(y) <==> branch_region(gg, cc, hs, bs, start, merge, condition).contains(y) by {
                if member(start) && reaches(badj, start, y) {
                    assert(nodes@.contains(start));
                    lemma_closed_holds_reachable(badj, start, nodes@, y);
                }
            }
            assert(nodes@ =~= branch_region(gg, cc, hs, bs, start, merge, condition));
        }
        nodes
    }

    /// Whether node `x` is in the graph and ends the function on every path.
    fn node_terminates(&self, x: NodeId) -> (res: bool)
        ensures
            res == node_terminates(self.graph(), self.spec_cfg(), x),
    {
        proof {
            use_type_invariant(self);
        }
        match self.region_graph.get_node(x) {
            Some(n) => {
                proof {
                    assert(region_within(node_region(self.region_graph.nodes()[x as int]), self.cfg.blocks.len() as nat));
                }
                n.terminates(self.cfg)
            },
            None => false,
        }
    }

    /// Whether some edge leads from a node of `from` to a node of `to` that
    /// does not end the function.
    fn crosses(&self, from: &HashSet<NodeId>, to: &HashSet<NodeId>) -> (res: bool)
        ensures
            res == crosses_into(self.graph(), self.spec_cfg(), from@, to@),
    {
        proof {
            use_type_invariant(self);
        }
        let g = self.region_graph;
        let ghost gg = *g;
        let ghost cc = *self.cfg;
        let xs = crate::region_graph::set_to_vec(from);
        let mut i: usize = 0;
        while i < xs.len()
            invariant
                0 <= i <= xs@.len(),
                gg == self.graph(),
                *g == gg,
                cc == self.spec_cfg(),
                xs@.to_set() == from@,
                forall|j: int, y: NodeId| 0 <= j < i && to@.contains(y) && #[trigger] edges_between(gg.edges(), xs@[j], y) > 0
                    ==> node_terminates(gg, cc, y),
            decreases xs@.len() - i,
        {
            let x = xs[i];
            let succs = g.successors(x);
            let mut k: usize = 0;
            while k < succs.len()
                invariant
                    0 <= k <= succs@.len(),
                    gg == self.graph(),
                    *g == gg,
                    cc == self.spec_cfg(),
                    i < xs@.len(),
                    x == xs@[i as int],
                    xs@.to_set() == from@,
                    forall|t: NodeId| #[trigger] succs@.to_multiset().count(t) == edges_between(gg.edges(), x, t),
                    forall|kk: int| 0 <= kk < k ==> !to@.contains(#[trigger] succs@[kk]) || node_terminates(gg, cc, succs@[kk]),
                decreases succs@.len() - k,
            {
                let y = succs[k];
                if to.contains(&y) && !self.node_terminates(y) {
                    proof {
                        assert(succs@.to_multiset().count(y) > 0);
                        assert(from@.contains(x)) by {
                            assert(xs@[i as int] == x);
                            assert(xs@.contains(x));
                        }
                        assert(edges_between(gg.edges(), x, y) > 0);
                    }
                    return true;
                }
                k += 1;
            }
            proof {
                assert forall|j: int, y: NodeId| 0 <= j < i + 1 && to@.contains(y) && #[trigger] edges_between(gg.edges(), xs@[j], y) > 0
                    implies node_terminates(gg, cc, y) by {
                    if j == i {
                        assert(succs@.to_multiset().count(y) > 0);
                        assert(succs@.contains(y));
                        let kk = choose|kk: int| 0 <= kk < succs@.len() && succs@[kk] == y;
                    }
                }
            }
            i += 1;
        }
        proof {
            assert(!crosses_into(gg, cc, from@, to@)) by {
                if crosses_into(gg, cc, from@, to@) {
                    let (x, y) = choose|x: NodeId, y: NodeId| from@.contains(x) && to@.contains(y) && #[trigger] edges_between(gg.edges(), x, y) > 0
                        && !node_terminates(gg, cc, y);
                    assert(xs@.to_set().contains(x));
                    let j = choose|j: int| 0 <= j < xs@.len() && xs@[j] == x;
                    assert(edges_between(gg.edges(), xs@[j], y) > 0);
                }
            }
        }
        false
    }

    /// The if pattern at `node` with these branch targets (see
    /// `if_pattern_at`).
    #[verifier::loop_isolation(false)]
    fn pattern_from_targets(&mut self, node: NodeId, targets: BranchTargets) -> (res: Option<IfPattern>)
        requires
            node < old(self).graph().nodes().len(),
        ensures
            final(self).graph() == old(self).graph(),
            final(self).spec_cfg() == old(self).spec_cfg(),
            final(self).headers() == old(self).headers(),
            final(self).back_edge_sources() == old(self).back_edge_sources(),
            (match res {
                Some(p) => Some(p@),
                None => None,
            }) == if_pattern_at(
                old(self).graph(),
                old(self).spec_cfg(),
                old(self).headers(),
                old(self).back_edge_sources(),
                node,
                targets,
            ),
    {
        let ghost gg = self.graph();
        let ghost cc = self.spec_cfg();
        let ghost hs = self.headers();
        let ghost bs = self.back_edge_sources();
        let (then_target, else_target, negated, then_cfg_target_opt) = targets;
        let then_terminates = self.node_terminates(then_target);
        let else_terminates = self.node_terminates(else_target);
        self.ensure_dominance();
        proof {
            use_type_invariant(&*self);
        }
        let real_ipdom = match &self.region_dominators {
            Some(d) => d.ipdom(node),
            None => None,
        };
        proof {
            let n = gg.nodes().len();
            let adj = post_adj(gg.edges(), n, gg.spec_entry());
            match real_ipdom {
                Some(p) => {
                    assert(p < n && is_idom(adj, n as NodeId, p, node));
                    let q = choose|q: NodeId| q < n && #[trigger] is_idom(adj, n as NodeId, q, node);
                    lemma_idom_unique(adj, n as NodeId, p, q, node);
                },
                None => {
                    if exists|q: NodeId| q < n && #[trigger] is_idom(adj, n as NodeId, q, node) {
                        let q = choose|q: NodeId| q < n && #[trigger] is_idom(adj, n as NodeId, q, node);
                        if is_idom(adj, n as NodeId, n as NodeId, node) {
                            lemma_idom_unique(adj, n as NodeId, q, n as NodeId, node);
                        }
                    }
                },
            }
            assert(real_ipdom == ipdom_of(gg, node));
        }
        let (merge, is_one_branch_early_return) = match real_ipdom {
            Some(m) => (m, false),
            None => {
                if then_terminates && !else_terminates {
                    (else_target, true)
                } else if else_terminates && !then_terminates {
                    (then_target, true)
                } else {
                    (then_target, false)
                }
            },
        };
        if then_target == merge && else_target == merge {
            return None;
        }
        let mut then_region_nodes = self.collect_branch_region(then_target, merge, node);
        let mut else_region_nodes = self.collect_branch_region(else_target, merge, node);
        let ghost then_nodes = then_region_nodes@;
        let ghost else_nodes = else_region_nodes@;
        // Nodes reachable from both branches belong to the then branch.
        let shared = crate::region_graph::set_to_vec(&then_region_nodes);
        let mut i: usize = 0;
        while i < shared.len()
            invariant
                0 <= i <= shared@.len(),
                then_region_nodes@ == then_nodes,
                shared@.to_set() == then_nodes,
                forall|x: NodeId| #[trigger] else_region_nodes@.contains(x) <==> (else_nodes.contains(x)
                    && !shared@.take(i as int).contains(x)),
            decreases shared@.len() - i,
        {
            else_region_nodes.remove(&shared[i]);
            proof {
                assert forall|x: NodeId| #[trigger] else_region_nodes@.contains(x) <==> (else_nodes.contains(x)
                    && !shared@.take(i + 1).contains(x)) by {
                    if shared@.take(i + 1).contains(x) && !shared@.take(i as int).contains(x) {
                        let q = choose|q: int| 0 <= q < i + 1 && #[trigger] shared@.take(i + 1)[q] == x;
                        assert(q == i);
                    }
                    if shared@.take(i as int).contains(x) {
                        let q = choose|q: int| 0 <= q < i && #[trigger] shared@.take(i as int)[q] == x;
                        assert(shared@.take(i + 1)[q] == x);
                    }
                    if x == shared@[i as int] {
                        assert(shared@.take(i + 1)[i as int] == x);
                    }
                }
            }
            i += 1;
        }
        proof {
            assert(shared@.take(i as int) =~= shared@);
            assert forall|x: NodeId| #[trigger] shared@.contains(x) <==> then_nodes.contains(x) by {
                assert(shared@.to_set().contains(x) == shared@.contains(x));
            }
        }
        else_region_nodes.remove(&then_target);
        proof {
            assert(else_region_nodes@ =~= else_nodes.difference(then_nodes).remove(then_target));
        }
        if then_region_nodes.is_empty() {
            let collapsed = match self.region_graph.get_node(then_target) {
                Some(n) => n.is_collapsed(),
                None => false,
            };
            if then_target != merge && collapsed {
                then_region_nodes.insert(then_target);
                proof {
                    assert(then_region_nodes@ =~= set![then_target]);
                }
            }
        }
        if else_region_nodes.is_empty() {
            let collapsed = match self.region_graph.get_node(else_target) {
                Some(n) => n.is_collapsed(),
                None => false,
            };
            if else_target != merge && collapsed {
                else_region_nodes.insert(else_target);
                proof {
                    assert(else_region_nodes@ =~= set![else_target]);
                }
            }
        }
        then_region_nodes.remove(&merge);
        else_region_nodes.remove(&merge);
        if self.crosses(&else_region_nodes, &then_region_nodes) {
            return None;
        }
        if self.crosses(&then_region_nodes, &else_region_nodes) {
            return None;
        }
        let then_exit_target = if then_region_nodes.is_empty() && then_terminates && is_one_branch_early_return {
            then_cfg_target_opt
        } else {
            None
        };
        Some(
            IfPattern {
                condition_node: node,
                then_nodes: then_region_nodes,
                else_nodes: else_region_nodes,
                merge,
                negated,
                then_exit_target,
            },
        )
    }

    /// Match an if pattern at a given node, walking the region graph.
    ///
    /// The branch targets come from the control-flow graph edges of a block
    /// node, or from the region graph edges of a collapsed node; the merge
    /// point is the node's immediate post-dominator in the region graph
    /// (or, where it has none, a branch target); the branches are collected
    /// with `collect_branch_region` and made disjoint. Patterns whose
    /// branches jump into each other (other than to code that ends the
    /// function) are rejected.
    pub fn match_if_pattern_region(&mut self, node: NodeId) -> (res: Option<IfPattern>)
        ensures
            final(self).graph() == old(self).graph(),
            final(self).spec_cfg() == old(self).spec_cfg(),
            final(self).headers() == old(self).headers(),
            final(self).back_edge_sources() == old(self).back_edge_sources(),
            exists|t: Option<BranchTargets>| #[trigger] possible_targets(old(self).graph(), old(self).spec_cfg(), node, t)
                && (match res {
                Some(p) => Some(p@),
                None => None,
            }) == match t {
                Some(tt) => if_pattern_at(
                    old(self).graph(),
                    old(self).spec_cfg(),
                    old(self).headers(),
                    old(self).back_edge_sources(),
                    node,
                    tt,
                ),
                None => None,
            },
    {
        proof {
            use_type_invariant(&*self);
        }
        let ghost gg = self.graph();
        let ghost cc = self.spec_cfg();
        let g = self.region_graph;
        let region_node = match g.get_node(node) {
            Some(n) => n,
            None => {
                proof {
                    assert(possible_targets(gg, cc, node, None));
                }
                return None;
            },
        };
        let targets: Option<BranchTargets> = match region_node {
            RegionNode::Block(cfg_node) => {
                let cfg_succs = self.cfg.successors_with_edges(*cfg_node);
                if cfg_succs.len() != 2 {
                    None
                } else {
                    match identify_branches(cfg_succs.as_slice()) {
                        Some((t, f, neg)) => match (g.cfg_owner(t), g.cfg_owner(f)) {
                            (Some(tn), Some(fne)) => Some((tn, fne, neg, Some(t))),
                            _ => None,
                        },
                        None => None,
                    }
                }
            },
            RegionNode::Collapsed(_) => {
                let region_succs = g.successors_with_edges(node);
                let r = if region_succs.len() != 2 {
                    None
                } else {
                    match identify_branches(region_succs.as_slice()) {
                        Some((t, f, neg)) => Some((t, f, neg, None)),
                        None => Some((region_succs[0].0, region_succs[1].0, false, None)),
                    }
                };
                proof {
                    assert(lists_out_edges(gg.edges(), node, region_succs@));
                    assert(r == collapsed_targets(region_succs@));
                }
                r
            },
        };
        proof {
            match gg.nodes()[node as int] {
                RegionNode::Block(c) => {
                    assert(targets == block_targets(gg, cc, c));
                    assert(possible_targets(gg, cc, node, targets));
                },
                RegionNode::Collapsed(_) => {
                    assert(possible_targets(gg, cc, node, targets));
                },
            }
        }
        match targets {
            Some(tt) => self.pattern_from_targets(node, tt),
            None => None,
        }
    }
}

/// The view of an if pattern.
pub type IfPatternView = (NodeId, Set<NodeId>, Set<NodeId>, NodeId, bool, Option<NodeId>);

/// `r` is what `PatternMatcher::match_if_pattern_region` may find at `node`.
pub open spec fn matches_at(
    g: RegionGraph,
    cfg: Cfg,
    headers: Set<NodeId>,
    back_edge_sources: Set<NodeId>,
    node: NodeId,
    r: Option<IfPatternView>,
) -> bool {
    exists|t: Option<BranchTargets>| #[trigger] possible_targets(g, cfg, node, t) && r == match t {
        Some(tt) => if_pattern_at(g, cfg, headers, back_edge_sources, node, tt),
        None => None,
    }
}

/// The patterns of `found`, in order, leaving out the nodes without one.
pub open spec fn patterns_found(found: Seq<Option<IfPatternView>>) -> Seq<IfPatternView>
    decreases found.len(),
{
    if found.len() == 0 {
        Seq::empty()
    } else {
        patterns_found(found.drop_last()) + match found.last() {
            Some(p) => seq![p],
            None => Seq::empty(),
        }
    }
}

/// `list` holds the if patterns found at the nodes in a reverse
/// post-order, listed the other way round (inner patterns first).
pub open spec fn is_if_pattern_list(
    g: RegionGraph,
    cfg: Cfg,
    headers: Set<NodeId>,
    back_edge_sources: Set<NodeId>,
    list: Seq<IfPatternView>,
) -> bool {
    exists|order: Seq<NodeId>, found: Seq<Option<IfPatternView>>| #![trigger is_reverse_postorder(forward_adj(g.edges()), g.spec_entry(), order), patterns_found(found)] {
        &&& is_reverse_postorder(forward_adj(g.edges()), g.spec_entry(), order)
        &&& is_dfs_reverse_postorder(g.edges(), g.nodes().len(), g.spec_entry(), order)
        &&& found.len() == order.len()
        &&& forall|i: int| 0 <= i < order.len() ==> matches_at(g, cfg, headers, back_edge_sources, #[trigger] order[i], found[i])
        &&& list == patterns_found(found).reverse()
    }
}

/// Find if-then-else patterns in the graph: the node's if pattern, for
/// each node in reverse post-order (outer nodes first), listed in the
/// opposite order so that inner patterns come first.
pub fn find_if_patterns(region_graph: &RegionGraph, cfg: &Cfg, loops: &LoopInfo) -> (res: Vec<IfPattern>)
    requires
        region_graph.wf(),
        nodes_within(*region_graph, *cfg),
    ensures
        is_if_pattern_list(*region_graph, *cfg, loops.headers@, loops.back_edge_sources@, res@.map_values(|p: IfPattern| p@)),
{
    let mut matcher = PatternMatcher::new(region_graph, cfg, loops);
    let mut patterns: Vec<IfPattern> = Vec::new();
    let nodes = region_graph.nodes_in_reverse_postorder();
    let ghost mut found: Seq<Option<IfPatternView>> = Seq::empty();
    let mut i: usize = 0;
    while i < nodes.len()
        invariant
            0 <= i <= nodes@.len(),
            matcher.graph() == *region_graph,
            matcher.spec_cfg() == *cfg,
            matcher.headers() == loops.headers@,
            matcher.back_edge_sources() == loops.back_edge_sources@,
            found.len() == i,
            forall|j: int| 0 <= j < i ==> matches_at(*region_graph, *cfg, loops.headers@, loops.back_edge_sources@, #[trigger] nodes@[j], found[j]),
            patterns@.map_values(|p: IfPattern| p@) == patterns_found(found),
        decreases nodes@.len() - i,
    {
        let node = nodes[i];
        let m = matcher.match_if_pattern_region(node);
        let ghost r = if m is Some {
            Some(m->0@)
        } else {
            None::<IfPatternView>
        };
        proof {
            assert(matches_at(*region_graph, *cfg, loops.headers@, loops.back_edge_sources@, node, r));
        }
        let ghost before = patterns@;
        match m {
            Some(pattern) => patterns.push(pattern),
            None => {},
        }
        proof {
            let f2 = found.push(r);
            assert(f2.drop_last() =~= found);
            assert(patterns@.map_values(|p: IfPattern| p@) =~= patterns_found(f2));
            found = f2;
        }
        i += 1;
    }
    // Innermost patterns first.
    let ghost all = patterns@;
    let mut res: Vec<IfPattern> = Vec::new();
    while patterns.len() > 0
        invariant
            patterns@.len() + res@.len() == all.len(),
            patterns@ == all.take(patterns@.len() as int),
            forall|k: int| 0 <= k < res@.len() ==> #[trigger] res@[k] == all[all.len() - 1 - k],
        decreases patterns@.len(),
    {
        let p = patterns.pop().unwrap();
        res.push(p);
        proof {
            assert(patterns@ =~= all.take(patterns@.len() as int));
        }
    }
    proof {
        let views = all.map_values(|p: IfPattern| p@);
        assert(res@.map_values(|p: IfPattern| p@) =~= views.reverse());
        assert(is_reverse_postorder(forward_adj(region_graph.edges()), region_graph.spec_entry(), nodes@));
        assert(is_dfs_reverse_postorder(region_graph.edges(), region_graph.nodes().len(), region_graph.spec_entry(), nodes@));
    }
    res
}

/// An edge of the control-flow graph leads from `a` to `b`.
pub open spec fn cfg_adj(cfg: Cfg) -> spec_fn(NodeId, NodeId) -> bool {
    |a: NodeId, b: NodeId| exists|i: int| 0 <= i < cfg.edges.len() && (#[trigger] cfg.edges@[i]).source == a
        && cfg.edges@[i].target == b
}

/// The edges of the control-flow graph that do not lead into `blocked`.
pub open spec fn avoid_adj(cfg: Cfg, blocked: Set<NodeId>) -> spec_fn(NodeId, NodeId) -> bool {
    |a: NodeId, b: NodeId| cfg_adj(cfg)(a, b) && !blocked.contains(b)
}

/// The blocks reached from `start` without entering a block of `blocked`
/// nor leaving a block of `stopped` (`start` itself included).
#[verifier::loop_isolation(false)]
fn cfg_reach_stop(cfg: &Cfg, start: NodeId, blocked: &HashSet<NodeId>, stopped: &HashSet<NodeId>) -> (res: HashSet<NodeId>)
    requires
        cfg.wf(),
        start < cfg.blocks.len(),
    ensures
        forall|y: NodeId| #[trigger] res@.contains(y) <==> reaches(flow_adj(*cfg, blocked@, stopped@), start, y),
{
    let ghost adj = flow_adj(*cfg, blocked@, stopped@);
    let ghost nb = cfg.blocks.len() as nat;
    let mut reached: HashSet<NodeId> = HashSet::new();
    let mut stack: Vec<NodeId> = Vec::new();
    reached.insert(start);
    stack.push(start);
    proof {
        assert(is_path(adj, seq![start]));
        assert(stack@[0] == start);
    }
    while stack.len() > 0
        invariant
            forall|x: NodeId| #[trigger] reached@.contains(x) ==> reaches(adj, start, x) && x < nb,
            forall|i: int| 0 <= i < stack@.len() ==> reached@.contains(#[trigger] stack@[i]),
            reached@.contains(start),
            forall|x: NodeId, v: NodeId| #[trigger] reached@.contains(x) && #[trigger] adj(x, v) && !stack@.contains(x)
                ==> reached@.contains(v),
        decreases nb - reached@.len(), stack@.len(),
    {
        let ghost sold = stack@;
        let node = stack.pop().unwrap();
        let ghost s0 = stack@;
        proof {
            assert(sold =~= s0.push(node));
            assert(sold[sold.len() - 1] == node);
            lemma_visited_bound(reached@, nb);
        }
        let ghost r0 = reached@;
        let ghost mut added: nat = 0;
        let n = cfg.edges.len();
        let mut k: usize = if stopped.contains(&node) {
            0
        } else {
            n
        };
        while k > 0
            invariant
                0 <= k <= n,
                n == cfg.edges.len(),
                r0.finite(),
                reached@.finite(),
                reached@.len() == r0.len() + added,
                stack@.len() == s0.len() + added,
                r0.subset_of(reached@),
                forall|x: NodeId| #[trigger] reached@.contains(x) ==> reaches(adj, start, x) && x < nb,
                reached@.contains(node),
                forall|i: int| 0 <= i < stack@.len() ==> reached@.contains(#[trigger] stack@[i]),
                forall|i: int| 0 <= i < s0.len() ==> #[trigger] stack@.contains(s0[i]),
                forall|x: NodeId| #[trigger] reached@.contains(x) && !r0.contains(x) ==> stack@.contains(x),
                !stopped@.contains(node) ==> forall|j: int| k <= j < n && (#[trigger] cfg.edges@[j]).source == node
                    && !blocked@.contains(cfg.edges@[j].target) ==> reached@.contains(cfg.edges@[j].target),
                k > 0 ==> !stopped@.contains(node),
            decreases k,
        {
            k -= 1;
            let e = cfg.edges[k];
            if e.source == node && !blocked.contains(&e.target) && !reached.contains(&e.target) {
                let ghost sb = stack@;
                reached.insert(e.target);
                stack.push(e.target);
                proof {
                    assert(cfg.edges@[k as int] == e);
                    assert(adj(node, e.target));
                    let p = choose|p: Seq<NodeId>| #[trigger] is_path(adj, p) && p[0] == start && p.last() == node;
                    let p2 = p.push(e.target);
                    assert forall|i: int| 0 <= i < p2.len() - 1 implies #[trigger] adj(p2[i], p2[i + 1]) by {
                        if i < p.len() - 1 {
                            assert(adj(p[i], p[i + 1]));
                        }
                    }
                    assert(is_path(adj, p2) && p2[0] == start && p2.last() == e.target);
                    assert(stack@[stack@.len() - 1] == e.target);
                    assert forall|x: NodeId| sb.contains(x) implies #[trigger] stack@.contains(x) by {
                        let q = choose|q: int| 0 <= q < sb.len() && sb[q] == x;
                        assert(stack@[q] == x);
                    }
                    assert forall|i: int| 0 <= i < s0.len() implies #[trigger] stack@.contains(s0[i]) by {
                        assert(sb.contains(s0[i]));
                    }
                    added = added + 1;
                    assert forall|x: NodeId| #[trigger] reached@.contains(x) && !r0.contains(x) implies stack@.contains(x) by {
                        if x != e.target {
                            let q = choose|q: int| 0 <= q < sb.len() && sb[q] == x;
                            assert(stack@[q] == x);
                        }
                    }
                }
            }
            proof {
                assert(cfg.edges@[k as int] == e);
            }
        }
        proof {
            lemma_visited_bound(reached@, nb);
            assert forall|x: NodeId, v: NodeId| #[trigger] reached@.contains(x) && #[trigger] adj(x, v) && !stack@.contains(x)
                implies reached@.contains(v) by {
                if x == node {
                    let i = choose|i: int| 0 <= i < cfg.edges.len() && (#[trigger] cfg.edges@[i]).source == x
                        && cfg.edges@[i].target == v;
                } else {
                    assert(r0.contains(x));
                    if sold.contains(x) {
                        let q = choose|q: int| 0 <= q < sold.len() && sold[q] == x;
                        if q < s0.len() {
                            assert(stack@.contains(s0[q]));
                        }
                    }
                }
            }
        }
    }
    proof {
        assert forall|y: NodeId| #[trigger] reached@.contains(y) <==> reaches(adj, start, y) by {
            if reaches(adj, start, y) {
                lemma_closed_holds_reachable(adj, start, reached@, y);
            }
        }
    }
    reached
}

/// The first block of `targets` that a depth-first search from `start`
/// meets, if any: blocks are taken from a stack, each pushed once, the
/// successors of a block pushed in the order `Cfg::successors` lists them.
/// A block found is one of `targets` reached from `start`; where none is
/// found, no block of `targets` is reached from `start`.
#[verifier::loop_isolation(false)]
pub(crate) fn find_reached_block(cfg: &Cfg, start: NodeId, targets: &HashSet<NodeId>) -> (res: Option<NodeId>)
    requires
        cfg.wf(),
        start < cfg.blocks.len(),
    ensures
        res matches Some(m) ==> targets@.contains(m) && cfg_reaches(*cfg, start, m),
        res is None ==> forall|y: NodeId| #[trigger] cfg_reaches(*cfg, start, y) ==> !targets@.contains(y),
{
    let ghost adj = avoid_adj(*cfg, Set::empty());
    let ghost nb = cfg.blocks.len() as nat;
    let mut reached: HashSet<NodeId> = HashSet::new();
    let mut stack: Vec<NodeId> = Vec::new();
    reached.insert(start);
    stack.push(start);
    proof {
        assert(is_path(adj, seq![start]));
        assert(stack@[0] == start);
    }
    while stack.len() > 0
        invariant
            forall|x: NodeId| #[trigger] reached@.contains(x) ==> reaches(adj, start, x) && x < nb,
            forall|i: int| 0 <= i < stack@.len() ==> reached@.contains(#[trigger] stack@[i]),
            reached@.contains(start),
            forall|x: NodeId, v: NodeId| #[trigger] reached@.contains(x) && #[trigger] adj(x, v) && !stack@.contains(x)
                ==> reached@.contains(v),
            forall|x: NodeId| #[trigger] reached@.contains(x) && !stack@.contains(x) ==> !targets@.contains(x),
        decreases nb - reached@.len(), stack@.len(),
    {
        let ghost sold = stack@;
        let node = stack.pop().unwrap();
        let ghost s0 = stack@;
        proof {
            assert(sold =~= s0.push(node));
            assert(sold[sold.len() - 1] == node);
            lemma_visited_bound(reached@, nb);
        }
        if targets.contains(&node) {
            proof {
                assert(reached@.contains(node));
            }
            return Some(node);
        }
        let ghost r0 = reached@;
        let ghost mut added: nat = 0;
        let n = cfg.edges.len();
        let mut k: usize = n;
        while k > 0
            invariant
                0 <= k <= n,
                n == cfg.edges.len(),
                r0.finite(),
                reached@.finite(),
                reached@.len() == r0.len() + added,
                stack@.len() == s0.len() + added,
                r0.subset_of(reached@),
                forall|x: NodeId| #[trigger] reached@.contains(x) ==> reaches(adj, start, x) && x < nb,
                reached@.contains(node),
                !targets@.contains(node),
                forall|i: int| 0 <= i < stack@.len() ==> reached@.contains(#[trigger] stack@[i]),
                forall|i: int| 0 <= i < s0.len() ==> #[trigger] stack@.contains(s0[i]),
                forall|x: NodeId| #[trigger] reached@.contains(x) && !r0.contains(x) ==> stack@.contains(x),
                forall|j: int| k <= j < n && (#[trigger] cfg.edges@[j]).source == node ==> reached@.contains(cfg.edges@[j].target),
            decreases k,
        {
            k -= 1;
            let e = cfg.edges[k];
            if e.source == node && !reached.contains(&e.target) {
                let ghost sb = stack@;
                reached.insert(e.target);
                stack.push(e.target);
                proof {
                    assert(cfg.edges@[k as int] == e);
                    assert(adj(node, e.target));
                    let p = choose|p: Seq<NodeId>| #[trigger] is_path(adj, p) && p[0] == start && p.last() == node;
                    let p2 = p.push(e.target);
                    assert forall|i: int| 0 <= i < p2.len() - 1 implies #[trigger] adj(p2[i], p2[i + 1]) by {
                        if i < p.len() - 1 {
                            assert(adj(p[i], p[i + 1]));
                        }
                    }
                    assert(is_path(adj, p2) && p2[0] == start && p2.last() == e.target);
                    assert(stack@[stack@.len() - 1] == e.target);
                    assert forall|x: NodeId| sb.contains(x) implies #[trigger] stack@.contains(x) by {
                        let q = choose|q: int| 0 <= q < sb.len() && sb[q] == x;
                        assert(stack@[q] == x);
                    }
                    assert forall|i: int| 0 <= i < s0.len() implies #[trigger] stack@.contains(s0[i]) by {
                        assert(sb.contains(s0[i]));
                    }
                    added = added + 1;
                    assert forall|x: NodeId| #[trigger] reached@.contains(x) && !r0.contains(x) implies stack@.contains(x) by {
                        if x != e.target {
                            let q = choose|q: int| 0 <= q < sb.len() && sb[q] == x;
                            assert(stack@[q] == x);
                        }
                    }
                }
            }
            proof {
                assert(cfg.edges@[k as int] == e);
            }
        }
        proof {
            lemma_visited_bound(reached@, nb);
            assert forall|x: NodeId, v: NodeId| #[trigger] reached@.contains(x) && #[trigger] adj(x, v) && !stack@.contains(x)
                implies reached@.contains(v) by {
                if x == node {
                    let i = choose|i: int| 0 <= i < cfg.edges.len() && (#[trigger] cfg.edges@[i]).source == x
                        && cfg.edges@[i].target == v;
                } else {
                    assert(r0.contains(x));
                    if sold.contains(x) {
                        let q = choose|q: int| 0 <= q < sold.len() && sold[q] == x;
                        if q < s0.len() {
                            assert(stack@.contains(s0[q]));
                        }
                    }
                }
            }
            assert forall|x: NodeId| #[trigger] reached@.contains(x) && !stack@.contains(x) implies !targets@.contains(x) by {
                if x != node {
                    assert(r0.contains(x));
                    if sold.contains(x) {
                        let q = choose|q: int| 0 <= q < sold.len() && sold[q] == x;
                        if q < s0.len() {
                            assert(stack@.contains(s0[q]));
                        }
                    }
                }
            }
        }
    }
    proof {
        assert forall|y: NodeId| #[trigger] cfg_reaches(*cfg, start, y) implies !targets@.contains(y) by {
            lemma_closed_holds_reachable(adj, start, reached@, y);
        }
    }
    None
}

/// The edges of the control-flow graph that do not lead into `blocked`
/// nor leave `stopped`.
pub open spec fn flow_adj(cfg: Cfg, blocked: Set<NodeId>, stopped: Set<NodeId>) -> spec_fn(NodeId, NodeId) -> bool {
    |a: NodeId, b: NodeId| cfg_adj(cfg)(a, b) && !blocked.contains(b) && !stopped.contains(a)
}

/// The blocks reached from `start` without entering a block of `blocked`
/// (`start` itself included).
pub(crate) fn cfg_reach(cfg: &Cfg, start: NodeId, blocked: &HashSet<NodeId>) -> (res: HashSet<NodeId>)
    requires
        cfg.wf(),
        start < cfg.blocks.len(),
    ensures
        forall|y: NodeId| #[trigger] res@.contains(y) <==> reaches(avoid_adj(*cfg, blocked@), start, y),
{
    let none: HashSet<NodeId> = HashSet::new();
    let res = cfg_reach_stop(cfg, start, blocked, &none);
    proof {
        assert(flow_adj(*cfg, blocked@, none@) =~= avoid_adj(*cfg, blocked@));
    }
    res
}

/// The successors of `node`, in the order of `Cfg::successors`.
pub open spec fn succ_targets(cfg: Cfg, node: NodeId) -> Seq<NodeId> {
    cfg.out_edges(node).map_values(|p: (NodeId, EdgeKind)| p.0)
}

/// The targets of the edges of `es` that leave `node`, the last edge first.
spec fn targets_after(es: Seq<CfgEdge>, node: NodeId) -> Seq<NodeId> {
    es.reverse().filter(|e: CfgEdge| e.source == node).map_values(|e: CfgEdge| e.target)
}

/// Putting an edge in front of `old_sub` appends its target, where it
/// leaves `node`, to the targets after.
proof fn lemma_targets_after_step(old_sub: Seq<CfgEdge>, new_sub: Seq<CfgEdge>, e: CfgEdge, node: NodeId)
    requires
        new_sub == seq![e] + old_sub,
    ensures
        targets_after(new_sub, node) == targets_after(old_sub, node) + (if e.source == node {
            seq![e.target]
        } else {
            Seq::<NodeId>::empty()
        }),
{
    let f = |e: CfgEdge| e.source == node;
    let m = |e: CfgEdge| e.target;
    assert(new_sub.reverse() =~= old_sub.reverse().push(e));
    reveal(Seq::filter);
    assert(new_sub.reverse().drop_last() =~= old_sub.reverse());
    assert(new_sub.reverse().filter(f) == old_sub.reverse().filter(f) + (if f(e) {
        seq![e]
    } else {
        seq![]
    }));
    assert(targets_after(new_sub, node) =~= targets_after(old_sub, node) + (if e.source == node {
        seq![e.target]
    } else {
        Seq::<NodeId>::empty()
    }));
}

/// Meets the blocks of `succs` in order: each one not met yet is added to
/// `met` and pushed on `stack`.
pub open spec fn push_unmet(succs: Seq<NodeId>, met: Set<NodeId>, stack: Seq<NodeId>) -> (Set<NodeId>, Seq<NodeId>)
    decreases succs.len(),
{
    if succs.len() == 0 {
        (met, stack)
    } else {
        let (m, s) = push_unmet(succs.drop_last(), met, stack);
        let x = succs.last();
        if m.contains(x) {
            (m, s)
        } else {
            (m.insert(x), s.push(x))
        }
    }
}

/// A depth-first walk with an explicit stack, for at most `fuel` steps:
/// each step takes the block on top of `stack`, appends it to `out`, and
/// meets its successors (`push_unmet`). The result is `out` once the stack
/// is empty.
pub open spec fn body_walk(cfg: Cfg, met: Set<NodeId>, stack: Seq<NodeId>, out: Seq<NodeId>, fuel: nat) -> Seq<NodeId>
    decreases fuel,
{
    if stack.len() == 0 || fuel == 0 {
        out
    } else {
        let node = stack.last();
        let (m, s) = push_unmet(succ_targets(cfg, node), met, stack.drop_last());
        body_walk(cfg, m, s, out.push(node), (fuel - 1) as nat)
    }
}

/// The order in which an OR chain's body is collected: the depth-first walk
/// from `shared`, the blocks of `met` counting as met from the start. It
/// takes at most one step per block.
pub open spec fn or_body_order(cfg: Cfg, met: Set<NodeId>, shared: NodeId) -> Seq<NodeId> {
    body_walk(cfg, met, seq![shared], Seq::empty(), (cfg.blocks.len() + 1) as nat)
}

/// The blocks of an OR chain's body: from `shared`, depth first, the blocks
/// reached without entering `cont`, a block of `conds`, or `shared` again,
/// each once, `shared` first.
#[verifier::loop_isolation(false)]
fn collect_body(cfg: &Cfg, shared: NodeId, cont: NodeId, conds: &HashSet<NodeId>) -> (res: Vec<NodeId>)
    requires
        cfg.wf(),
        shared < cfg.blocks.len(),
    ensures
        res@.no_duplicates(),
        res@.len() >= 1,
        res@[0] == shared,
        forall|y: NodeId| #[trigger] res@.contains(y) <==> reaches(
            avoid_adj(*cfg, conds@.insert(cont).insert(shared)),
            shared,
            y,
        ),
        res@ == or_body_order(*cfg, conds@.insert(cont).insert(shared), shared),
{
    let ghost blocked = conds@.insert(cont).insert(shared);
    let ghost adj = avoid_adj(*cfg, blocked);
    let ghost nb = cfg.blocks.len() as nat;
    let mut visited: HashSet<NodeId> = HashSet::new();
    let cond_list = crate::region_graph::set_to_vec(conds);
    let mut i: usize = 0;
    while i < cond_list.len()
        invariant
            0 <= i <= cond_list@.len(),
            cond_list@.to_set() == conds@,
            forall|x: NodeId| #[trigger] visited@.contains(x) <==> cond_list@.take(i as int).contains(x),
        decreases cond_list@.len() - i,
    {
        visited.insert(cond_list[i]);
        proof {
            assert(cond_list@.take(i + 1) =~= cond_list@.take(i as int).push(cond_list@[i as int]));
            cond_list@.take(i as int).lemma_push_to_set_commute(cond_list@[i as int]);
            assert forall|x: NodeId| #[trigger] visited@.contains(x) <==> cond_list@.take(i + 1).contains(x) by {
                assert(cond_list@.take(i + 1).to_set().contains(x) == cond_list@.take(i + 1).contains(x));
                assert(cond_list@.take(i as int).to_set().contains(x) == cond_list@.take(i as int).contains(x));
            }
        }
        i += 1;
    }
    proof {
        assert(cond_list@.take(i as int) =~= cond_list@);
        assert forall|x: NodeId| #[trigger] visited@.contains(x) <==> conds@.contains(x) by {
            assert(cond_list@.to_set().contains(x) == cond_list@.contains(x));
        }
    }
    visited.insert(shared);
    visited.insert(cont);
    let mut body: Vec<NodeId> = Vec::new();
    let mut queue: Vec<NodeId> = Vec::new();
    queue.push(shared);
    proof {
        assert(visited@ =~= blocked);
        assert(is_path(adj, seq![shared]));
        assert(queue@ =~= seq![shared]);
    }
    while queue.len() > 0
        invariant
            blocked.subset_of(visited@),
            forall|x: NodeId| #[trigger] visited@.contains(x) && !blocked.contains(x) ==> body@.contains(x) || queue@.contains(x),
            forall|x: NodeId| #[trigger] body@.contains(x) ==> visited@.contains(x) && reaches(adj, shared, x) && x < nb,
            forall|x: NodeId| #[trigger] queue@.contains(x) ==> visited@.contains(x) && reaches(adj, shared, x) && x < nb,
            forall|x: NodeId| #[trigger] body@.contains(x) ==> x == shared || !blocked.contains(x),
            forall|x: NodeId| #[trigger] queue@.contains(x) ==> x == shared || !blocked.contains(x),
            body@.no_duplicates(),
            queue@.no_duplicates(),
            forall|x: NodeId| !(#[trigger] body@.contains(x) && queue@.contains(x)),
            body@.len() == 0 ==> queue@ == seq![shared],
            body@.len() > 0 ==> body@[0] == shared && !queue@.contains(shared),
            forall|x: NodeId, v: NodeId| #[trigger] body@.contains(x) && #[trigger] adj(x, v) ==> body@.contains(v) || queue@.contains(v),
            visited@.finite(),
            visited@.len() <= nb + blocked.len(),
            blocked.finite(),
            body@.len() <= nb,
            body_walk(*cfg, visited@, queue@, body@, (nb + 1 - body@.len()) as nat) == or_body_order(*cfg, blocked, shared),
        decreases nb + blocked.len() - visited@.len(), queue@.len(),
    {
        let ghost qold = queue@;
        let ghost bold = body@;
        let ghost vold = visited@;
        proof {
            assert((body@ + queue@).no_duplicates()) by {
                assert forall|i: int, j: int| 0 <= i < j < (body@ + queue@).len() implies (body@ + queue@)[i] != (body@ + queue@)[j] by {
                    if j < body@.len() {
                    } else if i >= body@.len() {
                        assert((body@ + queue@)[i] == queue@[i - body@.len()]);
                        assert((body@ + queue@)[j] == queue@[j - body@.len()]);
                    } else {
                        assert(body@.contains(body@[i]));
                        assert(queue@.contains(queue@[j - body@.len()]));
                    }
                }
            }
            assert forall|i: int| 0 <= i < (body@ + queue@).len() implies #[trigger] (body@ + queue@)[i] < nb by {
                if i < body@.len() {
                    assert(body@.contains(body@[i]));
                } else {
                    assert(queue@.contains(queue@[i - body@.len()]));
                }
            }
            crate::region_graph::lemma_distinct_below(body@ + queue@, nb);
        }
        let node = queue.pop().unwrap();
        let ghost q0 = queue@;
        proof {
            assert(qold =~= q0.push(node));
            assert(qold[qold.len() - 1] == node);
            assert(qold.contains(node));
            assert forall|x: NodeId| q0.contains(x) implies qold.contains(x) && x != node by {
                let q = choose|q: int| 0 <= q < q0.len() && q0[q] == x;
                assert(qold[q] == x);
            }
        }
        body.push(node);
        proof {
            assert(body@ == bold.push(node));
            assert forall|x: NodeId| bold.contains(x) implies #[trigger] body@.contains(x) by {
                let q = choose|q: int| 0 <= q < bold.len() && bold[q] == x;
                assert(body@[q] == x);
            }
            assert(body@[body@.len() - 1] == node);
            assert(body@.no_duplicates()) by {
                assert(!bold.contains(node));
            }
            if bold.len() == 0 {
                assert(node == shared);
            }
            assert forall|x: NodeId| #[trigger] body@.contains(x) implies bold.contains(x) || x == node by {
                let q = choose|q: int| 0 <= q < body@.len() && body@[q] == x;
                if q < bold.len() {
                    assert(bold[q] == x);
                }
            }
            assert forall|x: NodeId| #[trigger] body@.contains(x) implies visited@.contains(x) by {
                if bold.contains(x) {
                } else {
                    assert(qold.contains(node));
                }
            }
        }
        let ghost v0 = visited@;
        let ghost mut added: nat = 0;
        let n = cfg.edges.len();
        let mut k: usize = n;
        while k > 0
            invariant
                0 <= k <= n,
                n == cfg.edges.len(),
                v0.subset_of(visited@),
                visited@.finite(),
                visited@.len() == v0.len() + added,
                queue@.len() == q0.len() + added,
                forall|x: NodeId| #[trigger] visited@.contains(x) && !v0.contains(x) ==> queue@.contains(x),
                forall|x: NodeId| q0.contains(x) ==> #[trigger] queue@.contains(x),
                forall|x: NodeId| #[trigger] queue@.contains(x) ==> visited@.contains(x) && reaches(adj, shared, x) && x < nb
                    && (x == shared || !blocked.contains(x)) && !body@.contains(x),
                queue@.no_duplicates(),
                forall|x: NodeId| #[trigger] body@.contains(x) ==> visited@.contains(x),
                forall|j: int| k <= j < n && (#[trigger] cfg.edges@[j]).source == node ==> visited@.contains(cfg.edges@[j].target),
                reaches(adj, shared, node),
                visited@ == push_unmet(targets_after(cfg.edges@.subrange(k as int, n as int), node), v0, q0).0,
                queue@ == push_unmet(targets_after(cfg.edges@.subrange(k as int, n as int), node), v0, q0).1,
            decreases k,
        {
            k -= 1;
            let e = cfg.edges[k];
            proof {
                assert(cfg.edges@[k as int] == e);
                let old_sub = cfg.edges@.subrange(k + 1, n as int);
                let new_sub = cfg.edges@.subrange(k as int, n as int);
                assert(new_sub =~= seq![e] + old_sub);
                lemma_targets_after_step(old_sub, new_sub, e, node);
                let t_new = targets_after(new_sub, node);
                if e.source == node {
                    assert(t_new.drop_last() =~= targets_after(old_sub, node));
                    assert(t_new.last() == e.target);
                } else {
                    assert(t_new =~= targets_after(old_sub, node));
                }
            }
            if e.source == node && !visited.contains(&e.target) {
                let ghost qb = queue@;
                visited.insert(e.target);
                queue.push(e.target);
                proof {
                    assert(!blocked.contains(e.target));
                    assert(adj(node, e.target));
                    let p = choose|p: Seq<NodeId>| #[trigger] is_path(adj, p) && p[0] == shared && p.last() == node;
                    let p2 = p.push(e.target);
                    assert forall|ii: int| 0 <= ii < p2.len() - 1 implies #[trigger] adj(p2[ii], p2[ii + 1]) by {
                        if ii < p.len() - 1 {
                            assert(adj(p[ii], p[ii + 1]));
                        }
                    }
                    assert(is_path(adj, p2) && p2[0] == shared && p2.last() == e.target);
                    assert(e.target < nb);
                    assert(queue@ == qb.push(e.target));
                    assert forall|x: NodeId| qb.contains(x) implies #[trigger] queue@.contains(x) by {
                        let q = choose|q: int| 0 <= q < qb.len() && qb[q] == x;
                        assert(queue@[q] == x);
                    }
                    assert(queue@[queue@.len() - 1] == e.target);
                    assert(queue@.no_duplicates()) by {
                        assert(!qb.contains(e.target));
                    }
                    assert(!body@.contains(e.target));
                    assert forall|x: NodeId| #[trigger] queue@.contains(x) implies visited@.contains(x) && reaches(adj, shared, x) && x < nb
                        && (x == shared || !blocked.contains(x)) && !body@.contains(x) by {
                        if x != e.target {
                            let q = choose|q: int| 0 <= q < queue@.len() && queue@[q] == x;
                            assert(qb[q] == x);
                            assert(qb.contains(x));
                        }
                    }
                    assert forall|x: NodeId| #[trigger] visited@.contains(x) && !v0.contains(x) implies queue@.contains(x) by {
                        if x != e.target {
                            assert(qb.contains(x));
                        }
                    }
                    added = added + 1;
                }
            }
        }
        proof {
            assert(cfg.edges@.subrange(0, n as int) =~= cfg.edges@);
            assert(targets_after(cfg.edges@, node) =~= succ_targets(*cfg, node));
            assert(qold.drop_last() =~= q0);
            assert(qold.last() == node);
            assert(body_walk(*cfg, vold, qold, bold, (nb + 1 - bold.len()) as nat)
                == body_walk(*cfg, visited@, queue@, body@, (nb + 1 - body@.len()) as nat));
            assert(visited@.subset_of(blocked.union(Set::new(|x: NodeId| x < nb)))) by {
                assert forall|x: NodeId| #[trigger] visited@.contains(x) implies blocked.union(Set::new(|x: NodeId| x < nb)).contains(x) by {
                    if !blocked.contains(x) {
                        if !v0.contains(x) {
                            assert(queue@.contains(x));
                        } else if bold.contains(x) {
                        } else if q0.contains(x) {
                        } else {
                            assert(qold.contains(x));
                        }
                    }
                }
            }
            let r = Set::<NodeId>::new(|x: NodeId| x < nb);
            lemma_visited_bound(r, nb);
            vstd::set_lib::lemma_len_union(blocked, r);
            vstd::set_lib::lemma_len_subset(visited@, blocked.union(r));
            assert forall|x: NodeId| #[trigger] visited@.contains(x) && !blocked.contains(x) implies body@.contains(x) || queue@.contains(x) by {
                if v0.contains(x) {
                    if bold.contains(x) {
                    } else if x == node {
                    } else {
                        assert(qold.contains(x));
                        let q = choose|q: int| 0 <= q < qold.len() && qold[q] == x;
                        assert(q0.contains(x));
                    }
                }
            }
            assert forall|x: NodeId, v: NodeId| #[trigger] body@.contains(x) && #[trigger] adj(x, v) implies body@.contains(v) || queue@.contains(v) by {
                if x == node {
                    let i = choose|i: int| 0 <= i < cfg.edges.len() && (#[trigger] cfg.edges@[i]).source == x && cfg.edges@[i].target == v;
                    assert(visited@.contains(v));
                    assert(!blocked.contains(v));
                } else {
                    assert(bold.contains(x)) by {
                        let q = choose|q: int| 0 <= q < body@.len() && body@[q] == x;
                        assert(q < bold.len());
                        assert(bold[q] == x);
                    }
                    if bold.contains(v) {
                    } else if qold.contains(v) {
                        if v != node {
                            let q = choose|q: int| 0 <= q < qold.len() && qold[q] == v;
                            assert(q0[q] == v);
                            assert(q0.contains(v));
                        }
                    }
                }
            }
            assert forall|x: NodeId| #[trigger] body@.contains(x) implies visited@.contains(x) && reaches(adj, shared, x) && x < nb by {
                if x != node {
                    let q = choose|q: int| 0 <= q < body@.len() && body@[q] == x;
                    assert(bold[q] == x);
                    assert(bold.contains(x));
                }
            }
            assert forall|x: NodeId| #[trigger] body@.contains(x) implies x == shared || !blocked.contains(x) by {
                if x != node {
                    let q = choose|q: int| 0 <= q < body@.len() && body@[q] == x;
                    assert(bold[q] == x);
                    assert(bold.contains(x));
                }
            }
            assert forall|x: NodeId| !(#[trigger] body@.contains(x) && queue@.contains(x)) by {}
            if body@.len() > 0 {
                if bold.len() == 0 {
                    assert(q0.len() == 0);
                }
                assert(!queue@.contains(shared)) by {
                    if queue@.contains(shared) {
                        assert(body@.contains(shared)) by {
                            assert(body@[0] == shared);
                        }
                    }
                }
            }
        }
    }
    proof {
        assert(body_walk(*cfg, visited@, queue@, body@, (nb + 1 - body@.len()) as nat) == body@);
        assert forall|y: NodeId| #[trigger] body@.contains(y) <==> reaches(adj, shared, y) by {
            if reaches(adj, shared, y) {
                assert(body@.contains(shared)) by {
                    assert(body@[0] == shared);
                }
                lemma_closed_holds_reachable(adj, shared, body@.to_set(), y);
                assert(body@.to_set().contains(y));
            }
        }
    }
    body
}

/// The true and false targets of the conditional jump ending block `c`: its
/// last true and false edges, where the block has exactly two edges.
pub open spec fn cond_targets(cfg: Cfg, c: NodeId) -> Option<(NodeId, NodeId)> {
    let succs = cfg.out_edges(c);
    if succs.len() != 2 {
        None
    } else {
        match (last_of_kind(succs, EdgeKind::ConditionalTrue), last_of_kind(succs, EdgeKind::ConditionalFalse)) {
            (Some(t), Some(f)) => Some((t, f)),
            _ => None,
        }
    }
}

/// The true and false targets of the conditional jump ending block `c`.
fn cond_targets_of(cfg: &Cfg, c: NodeId) -> (res: Option<(NodeId, NodeId)>)
    ensures
        res == cond_targets(*cfg, c),
{
    let succs = cfg.successors_with_edges(c);
    if succs.len() != 2 {
        return None;
    }
    match identify_branches(succs.as_slice()) {
        Some((t, f, _)) => Some((t, f)),
        None => None,
    }
}

/// `chain` is an AND chain nested in an OR chain, from `start`: `start`
/// jumps to `skip` when true and falls into the next block; each middle
/// block does the same (its true target being `skip`, not `shared`); the
/// last block jumps to `shared` when true and to `skip` otherwise.
pub open spec fn is_and_chain(cfg: Cfg, chain: Seq<NodeId>, start: NodeId, shared: NodeId, skip: NodeId) -> bool {
    &&& chain.len() >= 2
    &&& chain[0] == start
    &&& cond_targets(cfg, chain[0]) == Some((skip, chain[1]))
    &&& forall|i: int| 1 <= i < chain.len() - 1 ==> #[trigger] cond_targets(cfg, chain[i]) == Some((skip, chain[i + 1]))
        && skip != shared
    &&& cond_targets(cfg, chain.last()) == Some((shared, skip))
}

/// The longest nested AND chain that is looked for.
pub open spec fn and_chain_limit() -> nat {
    101
}

/// Try to detect a nested AND sub-chain within an OR chain, starting at
/// `start`: its blocks, and the block where the OR chain goes on (`skip`).
/// Chains longer than the limit are not looked for.
#[verifier::loop_isolation(false)]
pub fn try_detect_nested_and(cfg: &Cfg, start: NodeId, shared: NodeId, skip: NodeId) -> (res: Option<(Vec<NodeId>, NodeId)>)
    ensures
        match res {
            Some((chain, rejoin)) => rejoin == skip && is_and_chain(*cfg, chain@, start, shared, skip) && chain@.len()
                <= and_chain_limit(),
            None => forall|c: Seq<NodeId>| #[trigger] is_and_chain(*cfg, c, start, shared, skip) ==> c.len()
                > and_chain_limit(),
        },
{
    let ghost cc = *cfg;
    let (true_target, false_target) = match cond_targets_of(cfg, start) {
        Some(b) => b,
        None => {
            return None;
        },
    };
    if true_target != skip {
        return None;
    }
    let mut and_chain: Vec<NodeId> = Vec::new();
    and_chain.push(start);
    let mut current = false_target;
    proof {
        assert forall|c: Seq<NodeId>| #[trigger] is_and_chain(cc, c, start, shared, skip) implies c.len() > and_chain@.len()
            && c.take(and_chain@.len() as int + 1) == and_chain@.push(current) by {
            assert(c.take(2) =~= and_chain@.push(current));
        }
    }
    loop
        invariant
            1 <= and_chain@.len() <= 100,
            and_chain@[0] == start,
            cond_targets(cc, start) == Some((skip, and_chain@.push(current)[1])),
            forall|i: int| 1 <= i < and_chain@.len() ==> #[trigger] cond_targets(cc, and_chain@[i]) == Some((skip, and_chain@.push(current)[i + 1]))
                && skip != shared,
            forall|c: Seq<NodeId>| #[trigger] is_and_chain(cc, c, start, shared, skip) ==> c.len() > and_chain@.len()
                && c.take(and_chain@.len() as int + 1) == and_chain@.push(current),
        decreases 100 - and_chain@.len(),
    {
        let ghost before = and_chain@;
        let ghost len = before.len() as int;
        let (next_true, next_false) = match cond_targets_of(cfg, current) {
            Some(b) => b,
            None => {
                proof {
                    assert forall|c: Seq<NodeId>| #[trigger] is_and_chain(cc, c, start, shared, skip) implies c.len() > and_chain_limit() by {
                        assert(c.take(len + 1)[len] == current);
                        if len < c.len() - 1 {
                            assert(cond_targets(cc, c[len]) == Some((skip, c[len + 1])));
                        }
                    }
                }
                return None;
            },
        };
        if next_true == shared {
            and_chain.push(current);
            if next_false == skip {
                proof {
                    let ch = and_chain@;
                    assert(ch == before.push(current));
                    assert(ch[1] == before.push(current)[1]);
                    assert forall|i: int| 1 <= i < ch.len() - 1 implies #[trigger] cond_targets(cc, ch[i]) == Some((skip, ch[i + 1]))
                        && skip != shared by {
                        assert(ch[i] == before[i]);
                        assert(ch[i + 1] == before.push(current)[i + 1]);
                    }
                    assert(ch.last() == current);
                }
                return Some((and_chain, skip));
            }
            proof {
                assert forall|c: Seq<NodeId>| #[trigger] is_and_chain(cc, c, start, shared, skip) implies c.len() > and_chain_limit() by {
                    assert(c.take(len + 1)[len] == current);
                    assert(c[len] == current);
                    if len < c.len() - 1 {
                        assert(cond_targets(cc, c[len]) == Some((skip, c[len + 1])));
                    }
                }
            }
            return None;
        }
        if next_true == skip {
            and_chain.push(current);
            let ghost old_current = current;
            current = next_false;
            proof {
                let ch = and_chain@;
                assert(ch == before.push(old_current));
                assert forall|i: int| 1 <= i < ch.len() implies #[trigger] cond_targets(cc, ch[i]) == Some((skip, ch.push(current)[i + 1]))
                    && skip != shared by {
                    if i < len {
                        assert(ch[i] == before[i]);
                        assert(ch.push(current)[i + 1] == before.push(old_current)[i + 1]);
                    }
                }
                assert(ch.push(current)[1] == before.push(old_current)[1]);
                assert forall|c: Seq<NodeId>| #[trigger] is_and_chain(cc, c, start, shared, skip) implies c.len() > ch.len()
                    && c.take(ch.len() as int + 1) == ch.push(current) by {
                    assert(c.take(len + 1)[len] == old_current);
                    assert(c[len] == old_current);
                    assert(c.len() > len + 1) by {
                        if c.len() == len + 1 {
                            assert(c.last() == old_current);
                        }
                    }
                    assert(cond_targets(cc, c[len]) == Some((skip, c[len + 1])));
                    assert(c.take(ch.len() as int + 1) =~= ch.push(current)) by {
                        assert forall|j: int| 0 <= j < ch.len() + 1 implies c.take(ch.len() as int + 1)[j] == ch.push(current)[j] by {
                            if j < len + 1 {
                                assert(c.take(len + 1)[j] == before.push(old_current)[j]);
                            }
                        }
                    }
                }
            }
        } else {
            proof {
                assert forall|c: Seq<NodeId>| #[trigger] is_and_chain(cc, c, start, shared, skip) implies c.len() > and_chain_limit() by {
                    assert(c.take(len + 1)[len] == current);
                    assert(c[len] == current);
                    if len < c.len() - 1 {
                        assert(cond_targets(cc, c[len]) == Some((skip, c[len + 1])));
                    }
                }
            }
            return None;
        }
        if and_chain.len() > 100 {
            return None;
        }
    }
}


/// The nested AND chain from `start`, where there is one within the limit.
pub open spec fn and_chain_at(cfg: Cfg, start: NodeId, shared: NodeId, skip: NodeId) -> Option<Seq<NodeId>> {
    if exists|c: Seq<NodeId>| #[trigger] is_and_chain(cfg, c, start, shared, skip) && c.len() <= and_chain_limit() {
        Some(choose|c: Seq<NodeId>| #[trigger] is_and_chain(cfg, c, start, shared, skip) && c.len() <= and_chain_limit())
    } else {
        None
    }
}

/// Two AND chains from the same block agree up to position `i`.
proof fn lemma_and_chain_prefix(
    cfg: Cfg,
    c1: Seq<NodeId>,
    c2: Seq<NodeId>,
    start: NodeId,
    shared: NodeId,
    skip: NodeId,
    i: int,
)
    requires
        is_and_chain(cfg, c1, start, shared, skip),
        is_and_chain(cfg, c2, start, shared, skip),
        0 <= i < c1.len(),
        i < c2.len(),
    ensures
        forall|j: int| 0 <= j <= i ==> c1[j] == c2[j],
    decreases i,
{
    if i > 0 {
        lemma_and_chain_prefix(cfg, c1, c2, start, shared, skip, i - 1);
        if i - 1 >= 1 {
            assert(cond_targets(cfg, c1[i - 1]) == Some((skip, c1[i])));
            assert(cond_targets(cfg, c2[i - 1]) == Some((skip, c2[i])));
        }
    }
}

/// There is at most one AND chain from a block.
proof fn lemma_and_chain_unique(cfg: Cfg, c1: Seq<NodeId>, c2: Seq<NodeId>, start: NodeId, shared: NodeId, skip: NodeId)
    requires
        is_and_chain(cfg, c1, start, shared, skip),
        is_and_chain(cfg, c2, start, shared, skip),
        skip != shared,
    ensures
        c1 == c2,
{
    let m = if c1.len() < c2.len() { c1.len() - 1 } else { c2.len() - 1 };
    lemma_and_chain_prefix(cfg, c1, c2, start, shared, skip, m);
    if c1.len() < c2.len() {
        assert(c1.last() == c2[m]);
        assert(cond_targets(cfg, c2[m]) == Some((skip, c2[m + 1])));
    } else if c2.len() < c1.len() {
        assert(c2.last() == c1[m]);
        assert(cond_targets(cfg, c1[m]) == Some((skip, c1[m + 1])));
    }
    assert(c1 =~= c2);
}

/// The target of the last edge of a kind is the target of one of the edges.
proof fn lemma_last_of_kind_listed(succs: Seq<(NodeId, EdgeKind)>, k: EdgeKind)
    ensures
        last_of_kind(succs, k) matches Some(t) ==> exists|i: int| 0 <= i < succs.len() && #[trigger] succs[i].0 == t,
    decreases succs.len(),
{
    if succs.len() > 0 && succs.last().1 != k {
        lemma_last_of_kind_listed(succs.drop_last(), k);
        if let Some(t) = last_of_kind(succs, k) {
            let i = choose|i: int| 0 <= i < succs.drop_last().len() && #[trigger] succs.drop_last()[i].0 == t;
            assert(succs[i].0 == t);
        }
    } else if succs.len() > 0 {
        assert(succs[succs.len() - 1].0 == succs.last().0);
    }
}

/// The targets of a conditional jump are blocks of the graph.
proof fn lemma_cond_targets_in_range(cfg: Cfg, c: NodeId)
    requires
        cfg.wf(),
    ensures
        cond_targets(cfg, c) matches Some((t, f)) ==> t < cfg.blocks.len() && f < cfg.blocks.len(),
{
    broadcast use vstd::seq_lib::group_filter_ensures;
    let r = cfg.edges@.reverse();
    let pred = |e: CfgEdge| e.source == c;
    let fl = r.filter(pred);
    let succs = cfg.out_edges(c);
    assert(succs == fl.map_values(|e: CfgEdge| (e.target, e.kind)));
    assert forall|i: int| 0 <= i < succs.len() implies #[trigger] succs[i].0 < cfg.blocks.len() by {
        assert(fl.contains(fl[i]));
        r.lemma_filter_contains_rev(pred, fl[i]);
        let j = choose|j: int| 0 <= j < r.len() && r[j] == fl[i];
        assert(r[j] == cfg.edges@[cfg.edges.len() - 1 - j]);
    }
    lemma_last_of_kind_listed(succs, EdgeKind::ConditionalTrue);
    lemma_last_of_kind_listed(succs, EdgeKind::ConditionalFalse);
}

/// Where an OR chain's walk ended: its condition nodes, the block where it
/// stopped, whether the last condition is inverted, and the nested AND
/// chains by condition index.
pub type OrWalkEnd = (Seq<NodeId>, NodeId, bool, Map<usize, Seq<NodeId>>);

/// The walk along an OR chain's false targets, from the block `f`, with the
/// condition nodes found so far. At each block: a block that no node holds,
/// or whose node is already a condition, ends the search with no chain; a
/// used or collapsed node, or a block that does not end in a conditional
/// jump, ends the chain before it. A block that jumps to `shared` when true
/// extends the chain and the walk goes on at its false target; one that
/// jumps to `shared` when false is the inverted last condition, and the
/// chain goes on at its true target; one that starts a nested AND chain
/// rejoining at its true target extends the chain with that AND chain and
/// the walk goes on there; any other block ends the chain before it.
/// `fuel` bounds the steps: each step adds a node, so the walk from a
/// chain's start with one step per graph node never runs out.
pub open spec fn or_walk(
    g: RegionGraph,
    cfg: Cfg,
    used: Set<NodeId>,
    shared: NodeId,
    conds: Seq<NodeId>,
    f: NodeId,
    inverted: bool,
    nested: Map<usize, Seq<NodeId>>,
    fuel: nat,
) -> Option<OrWalkEnd>
    decreases fuel,
{
    if fuel == 0 || !g.owners().dom().contains(f) {
        None
    } else {
        let r = g.owners()[f];
        if conds.contains(r) {
            None
        } else if used.contains(r) || r >= g.nodes().len() || g.nodes()[r as int] is Collapsed {
            Some((conds, f, inverted, nested))
        } else {
            match cond_targets(cfg, f) {
                None => Some((conds, f, inverted, nested)),
                Some((t, fl)) => if t == shared {
                    or_walk(g, cfg, used, shared, conds.push(r), fl, false, nested, (fuel - 1) as nat)
                } else if fl == shared {
                    Some((conds.push(r), t, true, nested))
                } else {
                    match and_chain_at(cfg, f, shared, t) {
                        Some(chain) => or_walk(
                            g,
                            cfg,
                            used,
                            shared,
                            conds.push(r),
                            t,
                            false,
                            nested.insert(conds.len() as usize, chain),
                            (fuel - 1) as nat,
                        ),
                        None => Some((conds, f, inverted, nested)),
                    }
                },
            }
        }
    }
}

/// The blocks of the condition nodes that are blocks.
pub open spec fn cond_blocks(g: RegionGraph, conds: Seq<NodeId>) -> Set<NodeId> {
    Set::new(|b: NodeId| exists|i: int| 0 <= i < conds.len() && conds[i] < g.nodes().len()
        && #[trigger] g.nodes()[conds[i] as int] == RegionNode::Block(b))
}

/// The blocks of an OR chain: those of its condition nodes and of its
/// nested AND chains.
pub open spec fn chain_blocks(g: RegionGraph, conds: Seq<NodeId>, nested: Map<usize, Seq<NodeId>>) -> Set<NodeId> {
    cond_blocks(g, conds).union(Set::new(|b: NodeId| exists|k: usize| nested.dom().contains(k) && #[trigger] nested[k].contains(b)))
}

/// `y` is a condition block or is reached from `shared` without entering one.
pub open spec fn or_body_reach(cfg: Cfg, cb: Set<NodeId>, shared: NodeId, y: NodeId) -> bool {
    cb.contains(y) || reaches(avoid_adj(cfg, cb), shared, y)
}

/// `y` is reached from `from` in the control-flow graph.
pub open spec fn cfg_reaches(cfg: Cfg, from: NodeId, y: NodeId) -> bool {
    reaches(avoid_adj(cfg, Set::empty()), from, y)
}

/// `node` has more than one outgoing edge: neither none nor exactly one.
pub open spec fn several_successors(edges: vstd::multiset::Multiset<(NodeId, NodeId, EdgeKind)>, node: NodeId) -> bool {
    &&& !forall|t: NodeId| #[trigger] edges_between(edges, node, t) == 0
    &&& !exists|b: NodeId| #[trigger] single_successor(edges, node, b)
}

/// The view of an OR chain pattern: condition nodes, shared target node,
/// body blocks, continuation node, whether the shared target ends the
/// function, whether the last condition is inverted, nested AND chains, and
/// the body blocks in the order they were collected.
pub type OrChainView = (Seq<NodeId>, NodeId, Set<NodeId>, NodeId, bool, bool, Map<usize, Seq<NodeId>>, Seq<NodeId>);

/// The checks on a walked OR chain whose shared target is the block
/// `shared`. There must be two conditions or more; the shared target may
/// not jump back to a loop header, and it and the continuation must be
/// held by nodes; every edge into the shared target must come from a block
/// of the chain, and the continuation may not jump to it. Unless the shared
/// target ends the function: where it does not reach the continuation
/// (passing no condition block), the continuation may not reach it and the
/// two must reach a common block; and its node may not be a block with
/// several outgoing edges. The body holds the blocks from the shared target
/// up to the continuation, where it reaches it, collected depth first.
pub open spec fn or_chain_checks(g: RegionGraph, cfg: Cfg, back: Set<NodeId>, shared: NodeId, w: OrWalkEnd) -> Option<OrChainView> {
    let (conds, f, inverted, nested) = w;
    let cb = cond_blocks(g, conds);
    if conds.len() < 2 || back.contains(shared) || !g.owners().dom().contains(shared) || !g.owners().dom().contains(f) {
        None
    } else if exists|i: int| 0 <= i < cfg.in_sources(shared).len() && !chain_blocks(g, conds, nested).contains(
        #[trigger] cfg.in_sources(shared)[i],
    ) {
        None
    } else if cfg.out_edges(f).map_values(|p: (NodeId, EdgeKind)| p.0).contains(shared) {
        None
    } else {
        let sr = g.owners()[shared];
        let term = shared < cfg.blocks.len() && cfg.blocks@[shared as int].is_exit;
        let can_reach = or_body_reach(cfg, cb, shared, f);
        let rejected = !term && ((!can_reach && (cfg_reaches(cfg, f, shared) || !exists|y: NodeId| #[trigger]
            or_body_reach(cfg, cb, shared, y) && cfg_reaches(cfg, f, y))) || (several_successors(g.edges(), sr)
            && g.nodes()[sr as int] is Block));
        if rejected {
            None
        } else {
            let body = if !term && can_reach {
                Set::new(|y: NodeId| reaches(avoid_adj(cfg, cb.insert(f).insert(shared)), shared, y))
            } else {
                Set::empty()
            };
            let order = if !term && can_reach {
                or_body_order(cfg, cb.insert(f).insert(shared), shared)
            } else {
                Seq::empty()
            };
            Some((conds, sr, body, g.owners()[f], term, inverted, nested, order))
        }
    }
}

/// The OR chain that starts at node `start`, if any: `start` must be a
/// block ending in a conditional jump, whose true target is the shared
/// target; the walk goes on from its false target.
pub open spec fn or_chain_at(g: RegionGraph, cfg: Cfg, back: Set<NodeId>, used: Set<NodeId>, start: NodeId) -> Option<OrChainView> {
    if start >= g.nodes().len() {
        None
    } else {
        match g.nodes()[start as int] {
            RegionNode::Collapsed(_) => None,
            RegionNode::Block(sb) => match cond_targets(cfg, sb) {
                None => None,
                Some((shared, f0)) => match or_walk(g, cfg, used, shared, seq![start], f0, false, Map::empty(), g.nodes().len()) {
                    None => None,
                    Some(w) => or_chain_checks(g, cfg, back, shared, w),
                },
            },
        }
    }
}

/// An OR chain: consecutive condition blocks that all jump to the same
/// target when true, chaining their false targets.
///
/// `if (a || b || c) throw X;` compiles to:
/// ```text
/// Block 0: if a jump to THROW else Block 1
/// Block 1: if b jump to THROW else Block 2
/// Block 2: if c jump to THROW else CONTINUE
/// ```
#[derive(Debug)]
pub struct OrChainPattern {
    /// All condition nodes in the chain, in order. For a nested AND chain
    /// this holds its first block.
    pub condition_nodes: Vec<NodeId>,
    /// The node of the shared "true" target (the throw block or body start).
    pub shared_target: NodeId,
    /// The blocks of the body, between the shared target and the
    /// continuation; empty where the body ends the function.
    pub body_cfg_nodes: Vec<NodeId>,
    /// The node where control goes on after the chain.
    pub continuation: NodeId,
    /// Whether the shared target ends the function (throw/return).
    pub shared_target_terminates: bool,
    /// Whether the last condition is inverted (jumps to the continuation
    /// when true).
    pub last_condition_inverted: bool,
    /// Nested AND chains: for a condition index, the blocks of its AND
    /// chain, the first being the condition's own block.
    pub nested_and_chains: HashMap<usize, Vec<NodeId>>,
}

/// The nested AND chains of a pattern, each as its sequence of blocks.
pub open spec fn nested_view(m: Map<usize, Vec<NodeId>>) -> Map<usize, Seq<NodeId>> {
    m.map_values(|v: Vec<NodeId>| v@)
}

impl View for OrChainPattern {
    type V = OrChainView;

    open spec fn view(&self) -> Self::V {
        (
            self.condition_nodes@,
            self.shared_target,
            self.body_cfg_nodes@.to_set(),
            self.continuation,
            self.shared_target_terminates,
            self.last_condition_inverted,
            nested_view(self.nested_and_chains@),
            self.body_cfg_nodes@,
        )
    }
}


/// The successors listed by `v`, each as often as there are edges to it,
/// are more than one exactly when the node has several successors.
proof fn lemma_several_successors(v: Seq<NodeId>, edges: vstd::multiset::Multiset<(NodeId, NodeId, EdgeKind)>, node: NodeId)
    requires
        forall|t: NodeId| #[trigger] v.to_multiset().count(t) == edges_between(edges, node, t),
    ensures
        (v.len() > 1) == several_successors(edges, node),
{
    let ms = v.to_multiset();
    assert(ms.len() == v.len());
    if v.len() == 0 {
        assert forall|t: NodeId| #[trigger] edges_between(edges, node, t) == 0 by {
            assert(ms.count(t) == edges_between(edges, node, t));
        }
    } else if v.len() == 1 {
        let a = v[0];
        assert(v =~= Seq::<NodeId>::empty().push(a));
        assert(ms =~= vstd::multiset::Multiset::<NodeId>::empty().insert(a));
        assert forall|t: NodeId| #[trigger] edges_between(edges, node, t) == if t == a { 1nat } else { 0nat } by {
            assert(ms.count(t) == edges_between(edges, node, t));
        }
        assert(single_successor(edges, node, a));
    } else {
        assert(!forall|t: NodeId| #[trigger] edges_between(edges, node, t) == 0) by {
            if forall|t: NodeId| #[trigger] edges_between(edges, node, t) == 0 {
                assert forall|t: NodeId| ms.count(t) == vstd::multiset::Multiset::<NodeId>::empty().count(t) by {
                    assert(ms.count(t) == edges_between(edges, node, t));
                }
                assert(ms =~= vstd::multiset::Multiset::<NodeId>::empty());
            }
        }
        assert(!exists|b: NodeId| #[trigger] single_successor(edges, node, b)) by {
            if exists|b: NodeId| #[trigger] single_successor(edges, node, b) {
                let b = choose|b: NodeId| #[trigger] single_successor(edges, node, b);
                assert forall|t: NodeId| ms.count(t) == vstd::multiset::Multiset::<NodeId>::singleton(b).count(t) by {
                    assert(ms.count(t) == edges_between(edges, node, t));
                }
                assert(ms =~= vstd::multiset::Multiset::<NodeId>::singleton(b));
            }
        }
    }
}

/// Walk an OR chain from the false target `f0` of the block of node
/// `start`, whose true target is `shared` (see `or_walk`). Also lists the
/// blocks of the nested AND chains found.
fn or_chain_walk(
    region_graph: &RegionGraph,
    cfg: &Cfg,
    used: &HashSet<NodeId>,
    start: NodeId,
    shared: NodeId,
    f0: NodeId,
) -> (res: Option<(Vec<NodeId>, NodeId, bool, HashMap<usize, Vec<NodeId>>, Vec<NodeId>)>)
    requires
        region_graph.wf(),
        cfg.wf(),
        start < region_graph.nodes().len(),
        f0 < cfg.blocks.len(),
    ensures
        match res {
            Some((conds, f, inverted, nested, and_blocks)) => {
                &&& or_walk(*region_graph, *cfg, used@, shared, seq![start], f0, false, Map::empty(), region_graph.nodes().len())
                    == Some((conds@, f, inverted, nested_view(nested@)))
                &&& f < cfg.blocks.len()
                &&& forall|b: NodeId| #[trigger] and_blocks@.contains(b) <==> exists|k: usize|
                    nested_view(nested@).dom().contains(k) && #[trigger] nested_view(nested@)[k].contains(b)
            },
            None => or_walk(*region_graph, *cfg, used@, shared, seq![start], f0, false, Map::empty(), region_graph.nodes().len())
                is None,
        },
{
    let ghost g = *region_graph;
    let ghost cc = *cfg;
    let ghost n = g.nodes().len();
    let ghost initial = or_walk(g, cc, used@, shared, seq![start], f0, false, Map::empty(), n);
    let mut conds: Vec<NodeId> = Vec::new();
    conds.push(start);
    let mut f = f0;
    let mut inverted = false;
    let mut nested: HashMap<usize, Vec<NodeId>> = HashMap::new();
    let mut and_blocks: Vec<NodeId> = Vec::new();
    let ghost mut fuel: nat = n;
    proof {
        assert(conds@ =~= seq![start]);
        assert(nested_view(nested@) =~= Map::<usize, Seq<NodeId>>::empty());
    }
    loop
        invariant_except_break
            initial == or_walk(g, cc, used@, shared, conds@, f, inverted, nested_view(nested@), fuel),
        invariant
            g == *region_graph,
            cc == *cfg,
            g.wf(),
            cc.wf(),
            n == g.nodes().len(),
            initial == or_walk(g, cc, used@, shared, seq![start], f0, false, Map::empty(), n),
            fuel + conds@.len() == n + 1,
            conds@.no_duplicates(),
            forall|i: int| 0 <= i < conds@.len() ==> #[trigger] conds@[i] < n,
            f < cc.blocks.len(),
            forall|k: usize| #[trigger] nested@.dom().contains(k) ==> k < conds@.len(),
            forall|b: NodeId| #[trigger] and_blocks@.contains(b) <==> exists|k: usize|
                nested_view(nested@).dom().contains(k) && #[trigger] nested_view(nested@)[k].contains(b),
        ensures
            initial == Some((conds@, f, inverted, nested_view(nested@))),
        decreases fuel,
    {
        proof {
            lemma_distinct_below(conds@, n);
        }
        let r = match region_graph.get_region_node(f) {
            Some(r) => r,
            None => {
                return None;
            },
        };
        if contains_node(&conds, r) {
            return None;
        }
        if used.contains(&r) {
            break;
        }
        let collapsed = match region_graph.get_node(r) {
            Some(nd) => nd.is_collapsed(),
            None => true,
        };
        if collapsed {
            break;
        }
        let (t, fl) = match cond_targets_of(cfg, f) {
            Some(p) => p,
            None => {
                break;
            },
        };
        proof {
            lemma_cond_targets_in_range(cc, f);
            assert(conds@.push(r).no_duplicates()) by {
                assert forall|i: int, j: int| 0 <= i < j < conds@.push(r).len() implies conds@.push(r)[i] != conds@.push(r)[j] by {
                    if j == conds@.len() {
                        assert(conds@.contains(conds@[i]));
                    }
                }
            }
            lemma_distinct_below(conds@.push(r), n);
        }
        if t == shared {
            conds.push(r);
            f = fl;
            inverted = false;
            proof {
                fuel = (fuel - 1) as nat;
            }
        } else if fl == shared {
            conds.push(r);
            f = t;
            inverted = true;
            proof {
                fuel = (fuel - 1) as nat;
            }
            break;
        } else {
            match try_detect_nested_and(cfg, f, shared, t) {
                Some((chain, _rejoin)) => {
                    proof {
                        assert(and_chain_at(cc, f, shared, t) == Some(chain@)) by {
                            let c = choose|c: Seq<NodeId>| #[trigger] is_and_chain(cc, c, f, shared, t) && c.len() <= and_chain_limit();
                            lemma_and_chain_unique(cc, c, chain@, f, shared, t);
                        }
                    }
                    let ghost before = nested_view(nested@);
                    let ghost ab = and_blocks@;
                    let mut j: usize = 0;
                    while j < chain.len()
                        invariant
                            0 <= j <= chain@.len(),
                            and_blocks@ == ab + chain@.take(j as int),
                        decreases chain@.len() - j,
                    {
                        and_blocks.push(chain[j]);
                        proof {
                            assert(chain@.take(j + 1) =~= chain@.take(j as int).push(chain@[j as int]));
                            assert(and_blocks@ =~= ab + chain@.take(j + 1));
                        }
                        j += 1;
                    }
                    proof {
                        assert(chain@.take(chain@.len() as int) =~= chain@);
                        let all = and_blocks@;
                        let cs = chain@;
                        assert forall|b: NodeId| #[trigger] all.contains(b) <==> ab.contains(b) || cs.contains(b) by {
                            if all.contains(b) {
                                let q = choose|q: int| 0 <= q < all.len() && #[trigger] all[q] == b;
                                if q < ab.len() {
                                    assert(ab[q] == b);
                                } else {
                                    assert(cs[q - ab.len()] == b);
                                }
                            }
                            if ab.contains(b) {
                                let q = choose|q: int| 0 <= q < ab.len() && #[trigger] ab[q] == b;
                                assert(all[q] == b);
                            }
                            if cs.contains(b) {
                                let q = choose|q: int| 0 <= q < cs.len() && #[trigger] cs[q] == b;
                                assert(all[q + ab.len()] == b);
                            }
                        }
                    }
                    let idx = conds.len();
                    let ghost cv = chain@;
                    nested.insert(idx, chain);
                    conds.push(r);
                    f = t;
                    inverted = false;
                    proof {
                        fuel = (fuel - 1) as nat;
                        assert(nested_view(nested@) =~= before.insert(idx, cv));
                        assert forall|b: NodeId| #[trigger] and_blocks@.contains(b) <==> exists|k: usize|
                            nested_view(nested@).dom().contains(k) && #[trigger] nested_view(nested@)[k].contains(b) by {
                            if ab.contains(b) {
                                let k = choose|k: usize| before.dom().contains(k) && #[trigger] before[k].contains(b);
                                assert(k < idx);
                                assert(nested_view(nested@)[k] == before[k]);
                            }
                            if cv.contains(b) {
                                assert(nested_view(nested@)[idx].contains(b));
                            }
                            if exists|k: usize| nested_view(nested@).dom().contains(k) && #[trigger] nested_view(nested@)[k].contains(b) {
                                let k = choose|k: usize| nested_view(nested@).dom().contains(k) && #[trigger] nested_view(nested@)[k].contains(b);
                                if k != idx {
                                    assert(before[k].contains(b));
                                }
                            }
                        }
                    }
                },
                None => {
                    break;
                },
            }
        }
    }
    Some((conds, f, inverted, nested, and_blocks))
}


/// The blocks of the condition nodes that are blocks.
fn cond_block_set(region_graph: &RegionGraph, conds: &Vec<NodeId>) -> (res: HashSet<NodeId>)
    ensures
        res@ == cond_blocks(*region_graph, conds@),
{
    let ghost g = *region_graph;
    let mut s: HashSet<NodeId> = HashSet::new();
    let mut i: usize = 0;
    while i < conds.len()
        invariant
            g == *region_graph,
            0 <= i <= conds@.len(),
            forall|b: NodeId| #[trigger] s@.contains(b) <==> exists|j: int| 0 <= j < i && conds@[j] < g.nodes().len()
                && #[trigger] g.nodes()[conds@[j] as int] == RegionNode::Block(b),
        decreases conds@.len() - i,
    {
        let c = conds[i];
        match region_graph.get_node(c) {
            Some(nd) => match nd.as_block() {
                Some(b) => {
                    s.insert(b);
                },
                None => {},
            },
            None => {},
        }
        proof {
            assert forall|b: NodeId| #[trigger] s@.contains(b) <==> exists|j: int| 0 <= j < i + 1 && conds@[j] < g.nodes().len()
                && #[trigger] g.nodes()[conds@[j] as int] == RegionNode::Block(b) by {
                if exists|j: int| 0 <= j < i + 1 && conds@[j] < g.nodes().len() && #[trigger] g.nodes()[conds@[j] as int]
                    == RegionNode::Block(b) {
                    let j = choose|j: int| 0 <= j < i + 1 && conds@[j] < g.nodes().len() && #[trigger] g.nodes()[conds@[j] as int]
                        == RegionNode::Block(b);
                    if j < i {
                    } else {
                        assert(conds@[j] == c);
                    }
                }
                if s@.contains(b) && !(exists|j: int| 0 <= j < i && conds@[j] < g.nodes().len() && #[trigger] g.nodes()[conds@[j] as int]
                    == RegionNode::Block(b)) {
                    assert(conds@[i as int] == c);
                    assert(g.nodes()[conds@[i as int] as int] == RegionNode::Block(b));
                }
            }
        }
        i += 1;
    }
    proof {
        assert(s@ =~= cond_blocks(g, conds@));
    }
    s
}

/// Try to build an OR chain starting at node `start_node`: the chain of
/// `or_chain_at`, with the loops' back-edge sources and the nodes already
/// used by other chains. The body's blocks are listed each once, in the
/// order a depth-first walk from the shared target meets them.
#[verifier::loop_isolation(false)]
pub fn try_build_or_chain(
    region_graph: &RegionGraph,
    cfg: &Cfg,
    loops: &LoopInfo,
    start_node: NodeId,
    used_nodes: &HashSet<NodeId>,
) -> (res: Option<OrChainPattern>)
    requires
        region_graph.wf(),
        cfg.wf(),
    ensures
        match res {
            Some(p) => or_chain_at(*region_graph, *cfg, loops.back_edge_sources@, used_nodes@, start_node) == Some(p@)
                && p.body_cfg_nodes@.no_duplicates(),
            None => or_chain_at(*region_graph, *cfg, loops.back_edge_sources@, used_nodes@, start_node) is None,
        },
{
    let ghost g = *region_graph;
    let ghost cc = *cfg;
    let ghost back = loops.back_edge_sources@;
    let start_cfg = match region_graph.get_node(start_node) {
        Some(nd) => match nd.as_block() {
            Some(b) => b,
            None => {
                return None;
            },
        },
        None => {
            return None;
        },
    };
    let (shared, f0) = match cond_targets_of(cfg, start_cfg) {
        Some(p) => p,
        None => {
            return None;
        },
    };
    proof {
        lemma_cond_targets_in_range(cc, start_cfg);
    }
    let (conds, f, inverted, nested, and_blocks) = match or_chain_walk(region_graph, cfg, used_nodes, start_node, shared, f0) {
        Some(w) => w,
        None => {
            return None;
        },
    };
    let ghost w: OrWalkEnd = (conds@, f, inverted, nested_view(nested@));
    let ghost cb = cond_blocks(g, conds@);
    if conds.len() < 2 {
        return None;
    }
    if loops.back_edge_sources.contains(&shared) {
        return None;
    }
    let shared_target = match region_graph.get_region_node(shared) {
        Some(r) => r,
        None => {
            return None;
        },
    };
    let continuation = match region_graph.get_region_node(f) {
        Some(r) => r,
        None => {
            return None;
        },
    };
    let cond_set = cond_block_set(region_graph, &conds);
    // Every edge into the shared target must come from a block of the chain.
    let preds = cfg.predecessors(shared);
    let mut i: usize = 0;
    while i < preds.len()
        invariant
            0 <= i <= preds@.len(),
            preds@ == cc.in_sources(shared),
            cond_set@ == cb,
            forall|j: int| 0 <= j < i ==> #[trigger] chain_blocks(g, conds@, nested_view(nested@)).contains(preds@[j]),
        decreases preds@.len() - i,
    {
        let p = preds[i];
        if !cond_set.contains(&p) && !contains_node(&and_blocks, p) {
            proof {
                assert(!chain_blocks(g, conds@, nested_view(nested@)).contains(cc.in_sources(shared)[i as int]));
            }
            return None;
        }
        i += 1;
    }
    // The continuation may not jump to the shared target.
    let succs = cfg.successors(f);
    if contains_node(&succs, shared) {
        return None;
    }
    let terminates = if shared < cfg.blocks.len() {
        cfg.blocks[shared].is_exit
    } else {
        false
    };
    let mut can_reach = false;
    if !terminates {
        let reach = cfg_reach(cfg, shared, &cond_set);
        can_reach = cond_set.contains(&f) || reach.contains(&f);
        proof {
            assert(can_reach == or_body_reach(cc, cb, shared, f));
        }
        if !can_reach {
            let empty: HashSet<NodeId> = HashSet::new();
            let from_cont = cfg_reach(cfg, f, &empty);
            proof {
                assert(empty@ =~= Set::<NodeId>::empty());
            }
            if from_cont.contains(&shared) {
                return None;
            }
            // The shared target and the continuation must meet somewhere.
            let mut common = false;
            let reached = set_to_vec(&reach);
            let mut k: usize = 0;
            while k < reached.len()
                invariant
                    0 <= k <= reached@.len(),
                    common ==> exists|y: NodeId| #[trigger] or_body_reach(cc, cb, shared, y) && cfg_reaches(cc, f, y),
                    !common ==> forall|j: int| 0 <= j < k ==> !from_cont@.contains(#[trigger] reached@[j]),
                decreases reached@.len() - k,
            {
                if from_cont.contains(&reached[k]) {
                    proof {
                        let y = reached@[k as int];
                        assert(reached@.to_set().contains(y));
                        assert(or_body_reach(cc, cb, shared, y));
                    }
                    common = true;
                }
                k += 1;
            }
            let conds_list = set_to_vec(&cond_set);
            let mut k: usize = 0;
            while k < conds_list.len()
                invariant
                    0 <= k <= conds_list@.len(),
                    common ==> exists|y: NodeId| #[trigger] or_body_reach(cc, cb, shared, y) && cfg_reaches(cc, f, y),
                    !common ==> forall|j: int| 0 <= j < reached@.len() ==> !from_cont@.contains(#[trigger] reached@[j]),
                    !common ==> forall|j: int| 0 <= j < k ==> !from_cont@.contains(#[trigger] conds_list@[j]),
                decreases conds_list@.len() - k,
            {
                if from_cont.contains(&conds_list[k]) {
                    proof {
                        let y = conds_list@[k as int];
                        assert(conds_list@.to_set().contains(y));
                        assert(or_body_reach(cc, cb, shared, y));
                    }
                    common = true;
                }
                k += 1;
            }
            if !common {
                proof {
                    assert forall|y: NodeId| !(#[trigger] or_body_reach(cc, cb, shared, y) && cfg_reaches(cc, f, y)) by {
                        if or_body_reach(cc, cb, shared, y) && cfg_reaches(cc, f, y) {
                            if cb.contains(y) {
                                assert(conds_list@.to_set().contains(y));
                                let j = choose|j: int| 0 <= j < conds_list@.len() && conds_list@[j] == y;
                            } else {
                                assert(reached@.to_set().contains(y));
                                let j = choose|j: int| 0 <= j < reached@.len() && reached@[j] == y;
                            }
                        }
                    }
                }
                return None;
            }
        }
        // A body that starts with control flow of its own is reduced first.
        let region_succs = region_graph.successors(shared_target);
        proof {
            lemma_several_successors(region_succs@, g.edges(), shared_target);
        }
        if region_succs.len() > 1 {
            let is_block = match region_graph.get_node(shared_target) {
                Some(nd) => !nd.is_collapsed(),
                None => false,
            };
            if is_block {
                return None;
            }
        }
    }
    let body_cfg_nodes = if !terminates && can_reach {
        collect_body(cfg, shared, f, &cond_set)
    } else {
        Vec::new()
    };
    let res = OrChainPattern {
        condition_nodes: conds,
        shared_target,
        body_cfg_nodes,
        continuation,
        shared_target_terminates: terminates,
        last_condition_inverted: inverted,
        nested_and_chains: nested,
    };
    proof {
        assert(forall|i: int| 0 <= i < cc.in_sources(shared).len() ==> #[trigger] chain_blocks(g, conds@, nested_view(nested@)).contains(cc.in_sources(shared)[i]));
        let term = shared < cc.blocks.len() && cc.blocks@[shared as int].is_exit;
        assert(terminates == term);
        if !terminates && can_reach {
            assert(res.body_cfg_nodes@.to_set() =~= Set::new(|y: NodeId| reaches(avoid_adj(cc, cb.insert(f).insert(shared)), shared, y)));
        } else {
            assert(res.body_cfg_nodes@.to_set() =~= Set::<NodeId>::empty());
            assert(res.body_cfg_nodes@ =~= Seq::<NodeId>::empty());
        }
        assert(or_chain_checks(g, cc, back, shared, w) == Some(res@));
    }
    Some(res)
}


/// The OR chains found scanning nodes `0..k` in order, with the nodes they
/// use: a node that is collapsed or already used is skipped; a chain found
/// at a node marks its condition nodes as used.
pub open spec fn or_chain_scan(g: RegionGraph, cfg: Cfg, back: Set<NodeId>, k: nat) -> (Set<NodeId>, Seq<OrChainView>)
    decreases k,
{
    if k == 0 {
        (Set::empty(), Seq::empty())
    } else {
        let (used, found) = or_chain_scan(g, cfg, back, (k - 1) as nat);
        let s = (k - 1) as NodeId;
        if s >= g.nodes().len() || g.nodes()[s as int] is Collapsed || used.contains(s) {
            (used, found)
        } else {
            match or_chain_at(g, cfg, back, used, s) {
                Some(p) => if p.0.len() >= 2 {
                    (used.union(p.0.to_set()), found.push(p))
                } else {
                    (used, found)
                },
                None => (used, found),
            }
        }
    }
}

/// `x` inserted into `sorted` after every chain with as many conditions or
/// more.
pub open spec fn insert_by_length(sorted: Seq<OrChainView>, x: OrChainView) -> Seq<OrChainView>
    decreases sorted.len(),
{
    if sorted.len() == 0 {
        seq![x]
    } else if sorted.last().0.len() >= x.0.len() {
        sorted.push(x)
    } else {
        insert_by_length(sorted.drop_last(), x).push(sorted.last())
    }
}

/// The chains sorted by number of conditions, most first; chains with as
/// many conditions keep their order.
pub open spec fn sort_by_length(s: Seq<OrChainView>) -> Seq<OrChainView>
    decreases s.len(),
{
    if s.len() == 0 {
        s
    } else {
        insert_by_length(sort_by_length(s.drop_last()), s.last())
    }
}

/// Inserting at the position after the last chain with as many conditions
/// or more is `insert_by_length`.
proof fn lemma_insert_by_length(sorted: Seq<OrChainView>, x: OrChainView, j: int)
    requires
        0 <= j <= sorted.len(),
        forall|t: int| j <= t < sorted.len() ==> #[trigger] sorted[t].0.len() < x.0.len(),
        j > 0 ==> sorted[j - 1].0.len() >= x.0.len(),
    ensures
        insert_by_length(sorted, x) == sorted.insert(j, x),
    decreases sorted.len(),
{
    if sorted.len() == 0 {
        assert(sorted.insert(j, x) =~= seq![x]);
    } else if sorted.last().0.len() >= x.0.len() {
        assert(j == sorted.len()) by {
            if j < sorted.len() {
                assert(sorted[sorted.len() - 1].0.len() < x.0.len());
            }
        }
        assert(sorted.insert(j, x) =~= sorted.push(x));
    } else {
        let d = sorted.drop_last();
        assert(j <= d.len()) by {
            if j == sorted.len() {
                assert(sorted[j - 1] == sorted.last());
            }
        }
        assert forall|t: int| j <= t < d.len() implies #[trigger] d[t].0.len() < x.0.len() by {
            assert(d[t] == sorted[t]);
        }
        if j > 0 {
            assert(d[j - 1] == sorted[j - 1]);
        }
        lemma_insert_by_length(d, x, j);
        assert(d.insert(j, x).push(sorted.last()) =~= sorted.insert(j, x));
    }
}

/// Find OR chain patterns in the graph: scanning the nodes in order, the
/// chain that starts at each node not collapsed nor used by an earlier
/// chain, with two conditions or more; sorted so that the chains with the
/// most conditions come first.
pub fn find_or_chain_patterns(region_graph: &RegionGraph, cfg: &Cfg, loops: &LoopInfo) -> (res: Vec<OrChainPattern>)
    requires
        region_graph.wf(),
        cfg.wf(),
    ensures
        res@.map_values(|p: OrChainPattern| p@) == sort_by_length(
            or_chain_scan(*region_graph, *cfg, loops.back_edge_sources@, region_graph.nodes().len()).1,
        ),
        forall|i: int| 0 <= i < res@.len() ==> (#[trigger] res@[i]).body_cfg_nodes@.no_duplicates(),
{
    let ghost g = *region_graph;
    let ghost cc = *cfg;
    let ghost back = loops.back_edge_sources@;
    let n = region_graph.node_count();
    let mut used: HashSet<NodeId> = HashSet::new();
    let mut patterns: Vec<OrChainPattern> = Vec::new();
    let ghost mut found: Seq<OrChainView> = Seq::empty();
    let mut s: usize = 0;
    proof {
        assert(patterns@.map_values(|p: OrChainPattern| p@) =~= Seq::<OrChainView>::empty());
    }
    while s < n
        invariant
            g == *region_graph,
            cc == *cfg,
            g.wf(),
            cc.wf(),
            back == loops.back_edge_sources@,
            n == g.nodes().len(),
            0 <= s <= n,
            (used@, found) == or_chain_scan(g, cc, back, s as nat),
            patterns@.map_values(|p: OrChainPattern| p@) == sort_by_length(found),
            forall|i: int| 0 <= i < patterns@.len() ==> (#[trigger] patterns@[i]).body_cfg_nodes@.no_duplicates(),
        decreases n - s,
    {
        let collapsed = match region_graph.get_node(s) {
            Some(nd) => nd.is_collapsed(),
            None => true,
        };
        if !collapsed && !used.contains(&s) {
            match try_build_or_chain(region_graph, cfg, loops, s, &used) {
                Some(p) => {
                    if p.condition_nodes.len() >= 2 {
                        let ghost used0 = used@;
                        let mut i: usize = 0;
                        while i < p.condition_nodes.len()
                            invariant
                                0 <= i <= p.condition_nodes@.len(),
                                used@ == used0.union(p.condition_nodes@.take(i as int).to_set()),
                            decreases p.condition_nodes@.len() - i,
                        {
                            used.insert(p.condition_nodes[i]);
                            proof {
                                let c = p.condition_nodes@;
                                assert(c.take(i + 1) =~= c.take(i as int).push(c[i as int]));
                                c.take(i as int).lemma_push_to_set_commute(c[i as int]);
                                assert(used@ =~= used0.union(c.take(i + 1).to_set()));
                            }
                            i += 1;
                        }
                        proof {
                            assert(p.condition_nodes@.take(i as int) =~= p.condition_nodes@);
                        }
                        let lx = p.condition_nodes.len();
                        let ghost sorted = patterns@.map_values(|q: OrChainPattern| q@);
                        let mut j: usize = patterns.len();
                        while j > 0 && patterns[j - 1].condition_nodes.len() < lx
                            invariant
                                0 <= j <= patterns@.len(),
                                sorted == patterns@.map_values(|q: OrChainPattern| q@),
                                lx == p@.0.len(),
                                forall|t: int| j <= t < sorted.len() ==> #[trigger] sorted[t].0.len() < lx,
                            decreases j,
                        {
                            proof {
                                assert(sorted[j - 1] == patterns@[j - 1]@);
                            }
                            j -= 1;
                        }
                        proof {
                            if j > 0 {
                                assert(sorted[j - 1] == patterns@[j - 1]@);
                            }
                            lemma_insert_by_length(sorted, p@, j as int);
                        }
                        let ghost pv = p@;
                        let ghost before = patterns@;
                        patterns.insert(j, p);
                        proof {
                            found = found.push(pv);
                            assert(found.drop_last() =~= or_chain_scan(g, cc, back, s as nat).1);
                            assert(patterns@.map_values(|q: OrChainPattern| q@) =~= sorted.insert(j as int, pv));
                            assert forall|t: int| 0 <= t < patterns@.len() implies (#[trigger] patterns@[t]).body_cfg_nodes@.no_duplicates() by {
                                if t < j {
                                    assert(patterns@[t] == before[t]);
                                } else if t > j {
                                    assert(patterns@[t] == before[t - 1]);
                                }
                            }
                        }
                    }
                },
                None => {},
            }
        }
        s += 1;
    }
    patterns
}


/// A natural loop of the control-flow graph, as loop analysis finds it: its
/// header block, the blocks of its body (the header among them), the
/// blocks that jump back to the header, the blocks with an edge out of the
/// loop, and the for-in iteration that the analysis of the bytecode found
/// in it, if any.
pub struct NaturalLoop {
    pub header: NodeId,
    pub body: HashSet<NodeId>,
    pub back_edge_sources: Vec<NodeId>,
    pub exit_nodes: Vec<NodeId>,
    pub for_in: Option<crate::region::LoopKind>,
}

/// The view of a natural loop: header, body, back-edge sources, exit
/// blocks, for-in iteration.
pub type NaturalLoopView = (NodeId, Set<NodeId>, Seq<NodeId>, Seq<NodeId>, Option<crate::region::LoopKind>);

impl View for NaturalLoop {
    type V = NaturalLoopView;

    open spec fn view(&self) -> Self::V {
        (self.header, self.body@, self.back_edge_sources@, self.exit_nodes@, self.for_in)
    }
}

/// A detected loop pattern ready for collapse.
#[derive(Debug)]
pub struct LoopPattern {
    /// The loop header block (entry point).
    pub header: NodeId,
    /// The region graph nodes holding the loop body (the header among them).
    pub body_nodes: HashSet<NodeId>,
    /// The loop exit block (the first block after the loop).
    pub exit: NodeId,
    /// The detected loop kind.
    pub kind: crate::region::LoopKind,
    /// The block holding the loop condition (the header for while loops).
    pub condition_node: Option<NodeId>,
    /// The blocks that jump back to the header.
    pub back_edge_sources: Vec<NodeId>,
}

/// The view of a loop pattern: header, body nodes, exit, kind, condition
/// block, back-edge sources.
pub type LoopPatternView = (NodeId, Set<NodeId>, NodeId, crate::region::LoopKind, Option<NodeId>, Seq<NodeId>);

impl View for LoopPattern {
    type V = LoopPatternView;

    open spec fn view(&self) -> Self::V {
        (self.header, self.body_nodes@, self.exit, self.kind, self.condition_node, self.back_edge_sources@)
    }
}

/// The successor blocks of `n`, most recently added edge first.
pub open spec fn succ_blocks(cfg: Cfg, n: NodeId) -> Seq<NodeId> {
    cfg.out_edges(n).map_values(|p: (NodeId, EdgeKind)| p.0)
}

/// The first block of `succs` outside `body`.
pub open spec fn first_outside(succs: Seq<NodeId>, body: Set<NodeId>) -> Option<NodeId>
    decreases succs.len(),
{
    if succs.len() == 0 {
        None
    } else if !body.contains(succs[0]) {
        Some(succs[0])
    } else {
        first_outside(succs.skip(1), body)
    }
}

/// The first successor of `n` outside `body`.
fn first_successor_outside(cfg: &Cfg, n: NodeId, body: &HashSet<NodeId>) -> (res: Option<NodeId>)
    ensures
        res == first_outside(succ_blocks(*cfg, n), body@),
{
    let succs = cfg.successors(n);
    let ghost all = succ_blocks(*cfg, n);
    let mut i: usize = 0;
    assert(all.skip(0) =~= all);
    while i < succs.len()
        invariant
            succs@ == all,
            all == succ_blocks(*cfg, n),
            0 <= i <= succs@.len(),
            first_outside(all, body@) == first_outside(all.skip(i as int), body@),
        decreases succs@.len() - i,
    {
        let s = succs[i];
        proof {
            assert(all.skip(i as int)[0] == s);
            assert(all.skip(i as int).skip(1) =~= all.skip(i + 1));
        }
        if !body.contains(&s) {
            assert(first_outside(all.skip(i as int), body@) == Some(s));
            return Some(s);
        }
        i += 1;
    }
    None
}

/// The exit found from the exit blocks `exits` (skipping the header): the
/// first successor outside the body of the first block that has one.
pub open spec fn exit_from(cfg: Cfg, l: NaturalLoopView, exits: Seq<NodeId>) -> Option<NodeId>
    decreases exits.len(),
{
    if exits.len() == 0 {
        None
    } else if exits[0] == l.0 {
        exit_from(cfg, l, exits.skip(1))
    } else {
        match first_outside(succ_blocks(cfg, exits[0]), l.1) {
            Some(s) => Some(s),
            None => exit_from(cfg, l, exits.skip(1)),
        }
    }
}

/// The primary exit of a loop: the first successor of the header outside
/// the body, or else the one found from the other exit blocks.
pub open spec fn loop_exit(cfg: Cfg, l: NaturalLoopView) -> Option<NodeId> {
    match first_outside(succ_blocks(cfg, l.0), l.1) {
        Some(s) => Some(s),
        None => exit_from(cfg, l, l.3),
    }
}

/// Find the primary exit block of a loop. The header's exit edge, the
/// loop's normal ending, is preferred over exits made by `break`.
pub fn find_loop_exit(cfg: &Cfg, natural_loop: &NaturalLoop) -> (res: Option<NodeId>)
    ensures
        res == loop_exit(*cfg, natural_loop@),
{
    let ghost l = natural_loop@;
    match first_successor_outside(cfg, natural_loop.header, &natural_loop.body) {
        Some(s) => {
            return Some(s);
        },
        None => {},
    }
    let mut i: usize = 0;
    assert(l.3.skip(0) =~= l.3);
    while i < natural_loop.exit_nodes.len()
        invariant
            l == natural_loop@,
            first_outside(succ_blocks(*cfg, l.0), l.1) is None,
            0 <= i <= l.3.len(),
            exit_from(*cfg, l, l.3) == exit_from(*cfg, l, l.3.skip(i as int)),
        decreases l.3.len() - i,
    {
        let exit_node = natural_loop.exit_nodes[i];
        proof {
            assert(l.3.skip(i as int)[0] == exit_node);
            assert(l.3.skip(i as int).skip(1) =~= l.3.skip(i + 1));
        }
        if exit_node != natural_loop.header {
            match first_successor_outside(cfg, exit_node, &natural_loop.body) {
                Some(s) => {
                    assert(exit_from(*cfg, l, l.3.skip(i as int)) == Some(s));
                    return Some(s);
                },
                None => {},
            }
        }
        i += 1;
    }
    None
}

/// The kind of a loop from its structure: a header that can leave the loop
/// makes a for-in loop where a for-in iteration was found in it, and a
/// while loop otherwise; otherwise a single back-edge source that can leave
/// it makes a do-while loop, and one that cannot an endless loop; several
/// back edges make a while loop.
pub open spec fn loop_kind(cfg: Cfg, l: NaturalLoopView) -> crate::region::LoopKind {
    if first_outside(succ_blocks(cfg, l.0), l.1) is Some {
        match l.4 {
            Some(k) => if k is ForIn {
                k
            } else {
                crate::region::LoopKind::While
            },
            None => crate::region::LoopKind::While,
        }
    } else if l.2.len() == 1 {
        if first_outside(succ_blocks(cfg, l.2[0]), l.1) is Some {
            crate::region::LoopKind::DoWhile
        } else {
            crate::region::LoopKind::Endless
        }
    } else {
        crate::region::LoopKind::While
    }
}

/// A loop is endless only where nothing lets it stop: neither its header
/// nor its only back-edge source has an edge out of the loop. A loop with
/// no back edge or several back edges is never endless (nor do-while): it
/// is a while loop (or a for-in loop, where its header can leave it).
pub proof fn lemma_loop_kind_endless_has_no_exit_test(cfg: Cfg, l: NaturalLoopView)
    ensures
        loop_kind(cfg, l) is Endless ==> {
            &&& l.2.len() == 1
            &&& first_outside(succ_blocks(cfg, l.0), l.1) is None
            &&& first_outside(succ_blocks(cfg, l.2[0]), l.1) is None
        },
        l.2.len() != 1 ==> (loop_kind(cfg, l) is While || loop_kind(cfg, l) is ForIn),
        first_outside(succ_blocks(cfg, l.0), l.1) is Some ==> (loop_kind(cfg, l) is While || loop_kind(cfg, l) is ForIn),
        loop_kind(cfg, l) is DoWhile ==> l.2.len() == 1 && first_outside(succ_blocks(cfg, l.2[0]), l.1) is Some,
        first_outside(succ_blocks(cfg, l.0), l.1) is None && l.2.len() == 1 ==> (loop_kind(cfg, l) is DoWhile
            <==> first_outside(succ_blocks(cfg, l.2[0]), l.1) is Some),
        first_outside(succ_blocks(cfg, l.0), l.1) is None && l.2.len() == 1 ==> (loop_kind(cfg, l) is DoWhile
            || loop_kind(cfg, l) is Endless),
        loop_kind(cfg, l) is ForIn ==> l.4 == Some(loop_kind(cfg, l)) && first_outside(succ_blocks(cfg, l.0), l.1) is Some,
        first_outside(succ_blocks(cfg, l.0), l.1) is Some && l.4 is Some && l.4->0 is ForIn ==> loop_kind(cfg, l) == l.4->0,
{
}

/// Detect the kind of a loop based on its structure (see `loop_kind`).
pub fn detect_loop_kind(cfg: &Cfg, natural_loop: &NaturalLoop) -> (res: crate::region::LoopKind)
    ensures
        res == loop_kind(*cfg, natural_loop@),
        res is Endless ==> natural_loop.back_edge_sources@.len() == 1,
        natural_loop.back_edge_sources@.len() != 1 ==> (res is While || res is ForIn),
{
    if first_successor_outside(cfg, natural_loop.header, &natural_loop.body).is_some() {
        match natural_loop.for_in {
            Some(k) => match k {
                crate::region::LoopKind::ForIn { .. } => k,
                _ => crate::region::LoopKind::While,
            },
            None => crate::region::LoopKind::While,
        }
    } else if natural_loop.back_edge_sources.len() == 1 {
        let back_source = natural_loop.back_edge_sources[0];
        if first_successor_outside(cfg, back_source, &natural_loop.body).is_some() {
            crate::region::LoopKind::DoWhile
        } else {
            crate::region::LoopKind::Endless
        }
    } else {
        crate::region::LoopKind::While
    }
}

/// The nodes holding the blocks of `body`.
pub open spec fn owner_nodes(g: RegionGraph, body: Set<NodeId>) -> Set<NodeId> {
    Set::new(|r: NodeId| exists|c: NodeId| #[trigger] body.contains(c) && g.owners()[c] == r)
}

/// The loop pattern of a natural loop, if it can be collapsed: every block
/// of the body must be held by a node, and the loop must not already be
/// one collapsed node; it needs an exit. The condition is at the header for
/// while and endless loops, at the first back-edge source otherwise.
pub open spec fn loop_pattern_of(g: RegionGraph, cfg: Cfg, l: NaturalLoopView) -> Option<LoopPatternView> {
    let regions = owner_nodes(g, l.1);
    if exists|c: NodeId| #[trigger] l.1.contains(c) && !g.owners().dom().contains(c) {
        None
    } else if regions.len() == 1 && l.1.len() > 1 && regions.choose() < g.nodes().len() && g.nodes()[regions.choose() as int] is Collapsed {
        None
    } else {
        match loop_exit(cfg, l) {
            None => None,
            Some(exit) => {
                let kind = loop_kind(cfg, l);
                let condition = match kind {
                    crate::region::LoopKind::While | crate::region::LoopKind::Endless | crate::region::LoopKind::ForIn { .. } => Some(l.0),
                    _ => if l.2.len() > 0 {
                        Some(l.2[0])
                    } else {
                        None
                    },
                };
                Some((l.0, regions, exit, kind, condition, l.2))
            },
        }
    }
}

/// Try to match a single natural loop as a collapsible pattern (see
/// `loop_pattern_of`).
pub fn match_loop_pattern(region_graph: &RegionGraph, cfg: &Cfg, natural_loop: &NaturalLoop) -> (res: Option<LoopPattern>)
    requires
        region_graph.wf(),
    ensures
        match res {
            Some(p) => loop_pattern_of(*region_graph, *cfg, natural_loop@) == Some(p@),
            None => loop_pattern_of(*region_graph, *cfg, natural_loop@) is None,
        },
{
    let ghost g = *region_graph;
    let ghost l = natural_loop@;
    let blocks = set_to_vec(&natural_loop.body);
    let mut body_region_nodes: HashSet<NodeId> = HashSet::new();
    let mut i: usize = 0;
    while i < blocks.len()
        invariant
            g == *region_graph,
            l == natural_loop@,
            blocks@.to_set() == l.1,
            0 <= i <= blocks@.len(),
            forall|j: int| 0 <= j < i ==> g.owners().dom().contains(#[trigger] blocks@[j]),
            forall|r: NodeId| #[trigger] body_region_nodes@.contains(r) <==> exists|j: int| 0 <= j < i && g.owners()[#[trigger] blocks@[j]] == r,
        decreases blocks@.len() - i,
    {
        let c = blocks[i];
        let r = match region_graph.get_region_node(c) {
            Some(r) => r,
            None => {
                proof {
                    assert(blocks@.to_set().contains(c));
                    assert(l.1.contains(c) && !g.owners().dom().contains(c));
                }
                return None;
            },
        };
        body_region_nodes.insert(r);
        proof {
            assert forall|x: NodeId| #[trigger] body_region_nodes@.contains(x) <==> exists|j: int| 0 <= j < i + 1 && g.owners()[#[trigger] blocks@[j]] == x by {
                if body_region_nodes@.contains(x) && x != r {
                    let j = choose|j: int| 0 <= j < i && g.owners()[#[trigger] blocks@[j]] == x;
                }
                if exists|j: int| 0 <= j < i + 1 && g.owners()[#[trigger] blocks@[j]] == x {
                    let j = choose|j: int| 0 <= j < i + 1 && g.owners()[#[trigger] blocks@[j]] == x;
                    if j < i {
                    } else {
                        assert(blocks@[j] == c);
                    }
                }
            }
        }
        i += 1;
    }
    proof {
        assert forall|c: NodeId| #[trigger] l.1.contains(c) implies g.owners().dom().contains(c) by {
            assert(blocks@.to_set().contains(c));
            let j = choose|j: int| 0 <= j < blocks@.len() && blocks@[j] == c;
        }
        assert(body_region_nodes@ =~= owner_nodes(g, l.1)) by {
            assert forall|r: NodeId| #[trigger] body_region_nodes@.contains(r) <==> owner_nodes(g, l.1).contains(r) by {
                if body_region_nodes@.contains(r) {
                    let j = choose|j: int| 0 <= j < i && g.owners()[#[trigger] blocks@[j]] == r;
                    assert(blocks@.to_set().contains(blocks@[j]));
                }
                if owner_nodes(g, l.1).contains(r) {
                    let c = choose|c: NodeId| #[trigger] l.1.contains(c) && g.owners()[c] == r;
                    assert(blocks@.to_set().contains(c));
                    let j = choose|j: int| 0 <= j < blocks@.len() && blocks@[j] == c;
                    assert(g.owners()[blocks@[j]] == r);
                }
            }
        }
    }
    if body_region_nodes.len() == 1 && natural_loop.body.len() > 1 {
        let single = set_to_vec(&body_region_nodes);
        proof {
            single@.unique_seq_to_set();
        }
        let only = single[0];
        proof {
            let regions = owner_nodes(g, l.1);
            assert(single@.to_set().contains(only));
            assert(regions.contains(regions.choose()));
            assert(regions.choose() == only) by {
                let k = choose|k: int| 0 <= k < single@.len() && single@[k] == regions.choose();
                assert(k == 0);
            }
        }
        let collapsed = match region_graph.get_node(only) {
            Some(nd) => nd.is_collapsed(),
            None => false,
        };
        if collapsed {
            return None;
        }
    }
    let exit = match find_loop_exit(cfg, natural_loop) {
        Some(e) => e,
        None => {
            return None;
        },
    };
    let kind = detect_loop_kind(cfg, natural_loop);
    let condition_node = match kind {
        crate::region::LoopKind::While | crate::region::LoopKind::Endless | crate::region::LoopKind::ForIn { .. } => Some(natural_loop.header),
        _ => if natural_loop.back_edge_sources.len() > 0 {
            Some(natural_loop.back_edge_sources[0])
        } else {
            None
        },
    };
    let mut back_edge_sources: Vec<NodeId> = Vec::new();
    let mut k: usize = 0;
    while k < natural_loop.back_edge_sources.len()
        invariant
            0 <= k <= natural_loop.back_edge_sources@.len(),
            back_edge_sources@ == natural_loop.back_edge_sources@.take(k as int),
        decreases natural_loop.back_edge_sources@.len() - k,
    {
        back_edge_sources.push(natural_loop.back_edge_sources[k]);
        proof {
            assert(natural_loop.back_edge_sources@.take(k + 1) =~= natural_loop.back_edge_sources@.take(k as int).push(
                natural_loop.back_edge_sources@[k as int],
            ));
        }
        k += 1;
    }
    proof {
        assert(natural_loop.back_edge_sources@.take(k as int) =~= natural_loop.back_edge_sources@);
    }
    Some(LoopPattern {
        header: natural_loop.header,
        body_nodes: body_region_nodes,
        exit,
        kind,
        condition_node,
        back_edge_sources,
    })
}

/// Index `i` inserted into `sorted` after every index whose key is not
/// larger.
pub open spec fn insert_by_key(sorted: Seq<int>, i: int, keys: Seq<nat>) -> Seq<int>
    decreases sorted.len(),
{
    if sorted.len() == 0 {
        seq![i]
    } else if keys[sorted.last()] <= keys[i] {
        sorted.push(i)
    } else {
        insert_by_key(sorted.drop_last(), i, keys).push(sorted.last())
    }
}

/// The indices `0..k` ordered by key, smallest first; indices with equal
/// keys keep their order.
pub open spec fn sort_by_key(keys: Seq<nat>, k: nat) -> Seq<int>
    decreases k,
{
    if k == 0 {
        Seq::empty()
    } else {
        insert_by_key(sort_by_key(keys, (k - 1) as nat), k - 1, keys)
    }
}

/// Inserting at the position after the last index whose key is not larger
/// is `insert_by_key`.
proof fn lemma_insert_by_key(sorted: Seq<int>, i: int, keys: Seq<nat>, j: int)
    requires
        0 <= j <= sorted.len(),
        forall|t: int| j <= t < sorted.len() ==> keys[#[trigger] sorted[t]] > keys[i],
        j > 0 ==> keys[sorted[j - 1]] <= keys[i],
    ensures
        insert_by_key(sorted, i, keys) == sorted.insert(j, i),
    decreases sorted.len(),
{
    if sorted.len() == 0 {
        assert(sorted.insert(j, i) =~= seq![i]);
    } else if keys[sorted.last()] <= keys[i] {
        assert(j == sorted.len()) by {
            if j < sorted.len() {
                assert(keys[sorted[sorted.len() - 1]] > keys[i]);
            }
        }
        assert(sorted.insert(j, i) =~= sorted.push(i));
    } else {
        let d = sorted.drop_last();
        assert(j <= d.len()) by {
            if j == sorted.len() {
                assert(sorted[j - 1] == sorted.last());
            }
        }
        assert forall|t: int| j <= t < d.len() implies keys[#[trigger] d[t]] > keys[i] by {
            assert(d[t] == sorted[t]);
        }
        if j > 0 {
            assert(d[j - 1] == sorted[j - 1]);
        }
        lemma_insert_by_key(d, i, keys, j);
        assert(d.insert(j, i).push(sorted.last()) =~= sorted.insert(j, i));
    }
}

/// The sizes of the loops' bodies.
pub open spec fn body_sizes(loops: Seq<NaturalLoop>) -> Seq<nat> {
    loops.map_values(|l: NaturalLoop| l.body@.len())
}

/// The loop patterns of the loops, smallest body first (loops of the same
/// size in their given order), leaving out the loops without one.
pub open spec fn loop_patterns_of(g: RegionGraph, cfg: Cfg, loops: Seq<NaturalLoop>) -> Seq<LoopPatternView> {
    sort_by_key(body_sizes(loops), loops.len()).filter_map(|i: int| loop_pattern_of(g, cfg, loops[i]@))
}

/// Find loop patterns in the graph: innermost (smallest) loops first.
pub fn find_loop_patterns(region_graph: &RegionGraph, cfg: &Cfg, loops: &Vec<NaturalLoop>) -> (res: Vec<LoopPattern>)
    requires
        region_graph.wf(),
    ensures
        res@.map_values(|p: LoopPattern| p@) == loop_patterns_of(*region_graph, *cfg, loops@),
{
    let ghost keys = body_sizes(loops@);
    let m = loops.len();
    let mut order: Vec<usize> = Vec::new();
    let mut i: usize = 0;
    while i < m
        invariant
            m == loops@.len(),
            keys == body_sizes(loops@),
            0 <= i <= m,
            order@.map_values(|x: usize| x as int) == sort_by_key(keys, i as nat),
            forall|t: int| 0 <= t < order@.len() ==> #[trigger] order@[t] < m,
        decreases m - i,
    {
        let key = loops[i].body.len();
        let ghost sorted = order@.map_values(|x: usize| x as int);
        let mut j: usize = order.len();
        while j > 0 && loops[order[j - 1]].body.len() > key
            invariant
                0 <= j <= order@.len(),
                sorted == order@.map_values(|x: usize| x as int),
                forall|t: int| 0 <= t < order@.len() ==> #[trigger] order@[t] < m,
                m == loops@.len(),
                keys == body_sizes(loops@),
                key == keys[i as int],
                forall|t: int| j <= t < sorted.len() ==> keys[#[trigger] sorted[t]] > key,
            decreases j,
        {
            proof {
                assert(sorted[j - 1] == order@[j - 1] as int);
            }
            j -= 1;
        }
        proof {
            if j > 0 {
                assert(sorted[j - 1] == order@[j - 1] as int);
            }
            lemma_insert_by_key(sorted, i as int, keys, j as int);
        }
        order.insert(j, i);
        proof {
            assert(order@.map_values(|x: usize| x as int) =~= sorted.insert(j as int, i as int));
        }
        i += 1;
    }
    let ghost idx = sort_by_key(keys, m as nat);
    let ghost f = |x: int| loop_pattern_of(*region_graph, *cfg, loops@[x]@);
    let mut patterns: Vec<LoopPattern> = Vec::new();
    let mut k: usize = 0;
    while k < order.len()
        invariant
            region_graph.wf(),
            f == (|x: int| loop_pattern_of(*region_graph, *cfg, loops@[x]@)),
            idx == order@.map_values(|x: usize| x as int),
            forall|t: int| 0 <= t < order@.len() ==> #[trigger] order@[t] < loops@.len(),
            0 <= k <= order@.len(),
            patterns@.map_values(|p: LoopPattern| p@) == idx.take(k as int).filter_map(f),
        decreases order@.len() - k,
    {
        let x = order[k];
        proof {
            assert(idx.take(k + 1).drop_last() =~= idx.take(k as int));
            assert(idx.take(k + 1).last() == x as int);
            assert(f(x as int) == loop_pattern_of(*region_graph, *cfg, loops@[x as int]@));
        }
        match match_loop_pattern(region_graph, cfg, &loops[x]) {
            Some(p) => {
                let ghost before = patterns@.map_values(|q: LoopPattern| q@);
                patterns.push(p);
                proof {
                    assert(patterns@.map_values(|q: LoopPattern| q@) =~= before + seq![p@]);
                }
            },
            None => {},
        }
        k += 1;
    }
    proof {
        assert(idx.take(k as int) =~= idx);
    }
    patterns
}


/// Block `x` ends the function or has no successor.
pub open spec fn is_terminal(cfg: Cfg, x: NodeId) -> bool {
    cfg.out_edges(x).len() == 0 || (x < cfg.blocks.len() && cfg.blocks@[x as int].is_exit)
}

/// The terminal blocks of the graph.
pub open spec fn terminal_blocks(cfg: Cfg) -> Set<NodeId> {
    Set::new(|x: NodeId| x < cfg.blocks.len() && is_terminal(cfg, x))
}

/// The terminal blocks reached from `t`, passing through no other
/// terminal block.
pub open spec fn exits_of(cfg: Cfg, t: NodeId) -> Set<NodeId> {
    Set::new(|x: NodeId| terminal_blocks(cfg).contains(x) && reaches(flow_adj(cfg, Set::empty(), terminal_blocks(cfg)), t, x))
}

/// How many of the targets `succs` reach the exit `x`.
pub open spec fn exit_count(cfg: Cfg, succs: Seq<NodeId>, x: NodeId) -> nat
    decreases succs.len(),
{
    if succs.len() == 0 {
        0
    } else {
        exit_count(cfg, succs.drop_last(), x) + if exits_of(cfg, succs.last()).contains(x) {
            1nat
        } else {
            0nat
        }
    }
}

/// The exits reached from some target of `succs`.
pub open spec fn reached_exits(cfg: Cfg, succs: Seq<NodeId>) -> Set<NodeId> {
    Set::new(|x: NodeId| exists|i: int| 0 <= i < succs.len() && #[trigger] exits_of(cfg, succs[i]).contains(x))
}

/// `y` is an exit reached by the most targets.
pub open spec fn is_top_exit(cfg: Cfg, succs: Seq<NodeId>, y: NodeId) -> bool {
    reached_exits(cfg, succs).contains(y) && forall|z: NodeId| #[trigger] reached_exits(cfg, succs).contains(z) ==> exit_count(
        cfg,
        succs,
        z,
    ) <= exit_count(cfg, succs, y)
}

/// `m` is the common exit of a switch's targets: an exit reached by the
/// most targets, where two targets or more reach it or it is the only
/// exit; otherwise the selector block itself.
pub open spec fn is_common_exit(cfg: Cfg, selector: NodeId, succs: Seq<NodeId>, m: NodeId) -> bool {
    let x = reached_exits(cfg, succs);
    if exists|y: NodeId| #[trigger] is_top_exit(cfg, succs, y) && (exit_count(cfg, succs, y) >= 2 || x.len() == 1) {
        is_top_exit(cfg, succs, m) && (exit_count(cfg, succs, m) >= 2 || x.len() == 1)
    } else {
        m == selector
    }
}

/// An exit counted for some target is reached by one.
proof fn lemma_exit_count_reached(cfg: Cfg, succs: Seq<NodeId>, x: NodeId)
    ensures
        exit_count(cfg, succs, x) > 0 ==> reached_exits(cfg, succs).contains(x),
    decreases succs.len(),
{
    if succs.len() > 0 {
        lemma_exit_count_reached(cfg, succs.drop_last(), x);
        if exit_count(cfg, succs.drop_last(), x) > 0 {
            let q = choose|q: int| 0 <= q < succs.drop_last().len() && #[trigger] exits_of(cfg, succs.drop_last()[q]).contains(x);
            assert(succs[q] == succs.drop_last()[q]);
        } else if exits_of(cfg, succs.last()).contains(x) {
            assert(exits_of(cfg, succs[succs.len() - 1]).contains(x));
        }
    }
}

/// The terminal blocks of the graph.
fn terminal_set(cfg: &Cfg) -> (res: HashSet<NodeId>)
    ensures
        res@ == terminal_blocks(*cfg),
{
    let mut res: HashSet<NodeId> = HashSet::new();
    let mut x: usize = 0;
    while x < cfg.blocks.len()
        invariant
            0 <= x <= cfg.blocks.len(),
            forall|y: NodeId| #[trigger] res@.contains(y) <==> y < x && is_terminal(*cfg, y),
        decreases cfg.blocks.len() - x,
    {
        let succs = cfg.successors_with_edges(x);
        if succs.len() == 0 || cfg.blocks[x].is_exit {
            res.insert(x);
        }
        x += 1;
    }
    proof {
        assert(res@ =~= terminal_blocks(*cfg));
    }
    res
}

/// The exit reached by the most targets of a switch (see
/// `is_common_exit`).
fn common_exit(cfg: &Cfg, selector: NodeId, succs: &Vec<NodeId>) -> (m: NodeId)
    requires
        cfg.wf(),
        forall|i: int| 0 <= i < succs@.len() ==> #[trigger] succs@[i] < cfg.blocks.len(),
    ensures
        is_common_exit(*cfg, selector, succs@, m),
{
    let ghost cc = *cfg;
    let terminals = terminal_set(cfg);
    let none: HashSet<NodeId> = HashSet::new();
    let mut counts: HashMap<NodeId, usize> = HashMap::new();
    let mut keys: Vec<NodeId> = Vec::new();
    let mut i: usize = 0;
    proof {
        assert(none@ =~= Set::<NodeId>::empty());
    }
    while i < succs.len()
        invariant
            cc == *cfg,
            cc.wf(),
            terminals@ == terminal_blocks(cc),
            none@ == Set::<NodeId>::empty(),
            forall|q: int| 0 <= q < succs@.len() ==> #[trigger] succs@[q] < cc.blocks.len(),
            0 <= i <= succs@.len(),
            keys@.no_duplicates(),
            forall|x: NodeId| #[trigger] keys@.contains(x) <==> reached_exits(cc, succs@.take(i as int)).contains(x),
            forall|x: NodeId| #[trigger] counts@.contains_key(x) <==> keys@.contains(x),
            forall|x: NodeId| #[trigger] counts@.contains_key(x) ==> counts@[x] == exit_count(cc, succs@.take(i as int), x)
                && counts@[x] <= i,
        decreases succs@.len() - i,
    {
        let t = succs[i];
        let reach = cfg_reach_stop(cfg, t, &none, &terminals);
        let rv = set_to_vec(&reach);
        let ghost t0 = succs@.take(i as int);
        let ghost t1 = succs@.take(i + 1);
        let ghost ex = exits_of(cc, t);
        proof {
            assert(t1.drop_last() =~= t0);
            assert(t1.last() == t);
            assert forall|x: NodeId| #[trigger] reached_exits(cc, t1).contains(x) <==> reached_exits(cc, t0).contains(x) || ex.contains(x) by {
                if reached_exits(cc, t1).contains(x) {
                    let q = choose|q: int| 0 <= q < t1.len() && #[trigger] exits_of(cc, t1[q]).contains(x);
                    if q < t0.len() {
                        assert(t0[q] == t1[q]);
                    }
                }
                if reached_exits(cc, t0).contains(x) {
                    let q = choose|q: int| 0 <= q < t0.len() && #[trigger] exits_of(cc, t0[q]).contains(x);
                    assert(t1[q] == t0[q]);
                }
                if ex.contains(x) {
                    assert(exits_of(cc, t1[i as int]).contains(x));
                }
            }
            assert forall|x: NodeId| exit_count(cc, t1, x) == exit_count(cc, t0, x) + if ex.contains(x) { 1nat } else { 0nat } by {}
            assert forall|x: NodeId| exit_count(cc, t0, x) > 0 implies #[trigger] reached_exits(cc, t0).contains(x) by {
                lemma_exit_count_reached(cc, t0, x);
            }
        }
        let ghost c0 = counts@;
        let ghost k0 = keys@;
        let mut j: usize = 0;
        while j < rv.len()
            invariant
                cc == *cfg,
                terminals@ == terminal_blocks(cc),
                rv@.to_set() == reach@,
                rv@.no_duplicates(),
                forall|y: NodeId| #[trigger] reach@.contains(y) <==> reaches(flow_adj(cc, none@, terminals@), t, y),
                none@ == Set::<NodeId>::empty(),
                ex == exits_of(cc, t),
                0 <= j <= rv@.len(),
                i < succs@.len(),
                succs@.len() <= usize::MAX,
                keys@.no_duplicates(),
                forall|x: NodeId| #[trigger] keys@.contains(x) <==> reached_exits(cc, t0).contains(x) || (rv@.take(j as int).contains(x)
                    && ex.contains(x)),
                forall|x: NodeId| #[trigger] counts@.contains_key(x) <==> keys@.contains(x),
                forall|x: NodeId| #[trigger] counts@.contains_key(x) ==> counts@[x] == exit_count(cc, t0, x) + (if rv@.take(j as int).contains(x)
                    && ex.contains(x) { 1nat } else { 0nat }) && counts@[x] <= i + 1,
                forall|x: NodeId| #[trigger] c0.contains_key(x) ==> c0[x] == exit_count(cc, t0, x) && c0[x] <= i,
                forall|x: NodeId| #[trigger] c0.contains_key(x) <==> reached_exits(cc, t0).contains(x),
                forall|x: NodeId| exit_count(cc, t0, x) > 0 ==> #[trigger] reached_exits(cc, t0).contains(x),
            decreases rv@.len() - j,
        {
            let x = rv[j];
            let ghost r0 = rv@.take(j as int);
            let ghost r1 = rv@.take(j + 1);
            proof {
                assert(r1 =~= r0.push(x));
                assert(!r0.contains(x)) by {
                    if r0.contains(x) {
                        let q = choose|q: int| 0 <= q < r0.len() && r0[q] == x;
                        assert(rv@[q] == rv@[j as int]);
                    }
                }
                assert forall|y: NodeId| #[trigger] r1.contains(y) <==> r0.contains(y) || y == x by {
                    if r1.contains(y) && y != x {
                        let q = choose|q: int| 0 <= q < r1.len() && r1[q] == y;
                        assert(r0[q] == y);
                    }
                    if r0.contains(y) {
                        let q = choose|q: int| 0 <= q < r0.len() && r0[q] == y;
                        assert(r1[q] == y);
                    }
                    assert(r1[j as int] == x);
                }
                assert(rv@.to_set().contains(x));
                assert(ex.contains(x) == terminals@.contains(x));
            }
            if terminals.contains(&x) {
                let known = counts.contains_key(&x);
                let cur = match counts.get(&x) {
                    Some(c) => *c,
                    None => 0,
                };
                proof {
                    if known {
                        assert(counts@[x] == exit_count(cc, t0, x));
                        if !c0.contains_key(x) {
                            assert(!reached_exits(cc, t0).contains(x));
                        }
                        assert(cur <= i);
                    } else {
                        assert(!reached_exits(cc, t0).contains(x));
                        assert(exit_count(cc, t0, x) == 0);
                    }
                }
                proof {
                    assert(cur < succs@.len());
                }
                if !known {
                    let ghost kb = keys@;
                    keys.push(x);
                    proof {
                        assert forall|y: NodeId| #[trigger] keys@.contains(y) <==> kb.contains(y) || y == x by {
                            if keys@.contains(y) && y != x {
                                let q = choose|q: int| 0 <= q < keys@.len() && keys@[q] == y;
                                assert(kb[q] == y);
                            }
                            if kb.contains(y) {
                                let q = choose|q: int| 0 <= q < kb.len() && kb[q] == y;
                                assert(keys@[q] == y);
                            }
                            assert(keys@[keys@.len() - 1] == x);
                        }
                        assert(keys@.no_duplicates()) by {
                            assert forall|a: int, b: int| 0 <= a < b < keys@.len() implies keys@[a] != keys@[b] by {
                                if b == kb.len() {
                                    assert(kb.contains(kb[a]));
                                }
                            }
                        }
                    }
                }
                counts.insert(x, cur + 1);
            }
            j += 1;
        }
        proof {
            assert(rv@.take(j as int) =~= rv@);
            assert forall|x: NodeId| #[trigger] rv@.contains(x) && ex.contains(x) <==> ex.contains(x) by {
                if ex.contains(x) {
                    assert(reach@.contains(x));
                    assert(rv@.to_set().contains(x));
                }
            }
        }
        i += 1;
    }
    proof {
        assert(succs@.take(i as int) =~= succs@);
    }
    if keys.len() == 0 {
        proof {
            assert(!exists|y: NodeId| #[trigger] is_top_exit(cc, succs@, y) && (exit_count(cc, succs@, y) >= 2 || reached_exits(cc, succs@).len() == 1)) by {
                if exists|y: NodeId| #[trigger] is_top_exit(cc, succs@, y) && (exit_count(cc, succs@, y) >= 2 || reached_exits(cc, succs@).len() == 1) {
                    let y = choose|y: NodeId| #[trigger] is_top_exit(cc, succs@, y) && (exit_count(cc, succs@, y) >= 2 || reached_exits(cc, succs@).len() == 1);
                    assert(keys@.contains(y));
                }
            }
        }
        return selector;
    }
    let mut best = keys[0];
    proof {
        assert(keys@.contains(best));
        assert(counts@.contains_key(best));
    }
    let mut best_count = match counts.get(&best) {
        Some(c) => *c,
        None => 0,
    };
    let mut k: usize = 1;
    while k < keys.len()
        invariant
            1 <= k <= keys@.len(),
            keys@.contains(best),
            forall|x: NodeId| #[trigger] counts@.contains_key(x) <==> keys@.contains(x),
            forall|x: NodeId| #[trigger] counts@.contains_key(x) ==> counts@[x] == exit_count(cc, succs@, x),
            best_count == exit_count(cc, succs@, best),
            forall|q: int| 0 <= q < k ==> exit_count(cc, succs@, #[trigger] keys@[q]) <= best_count,
        decreases keys@.len() - k,
    {
        let x = keys[k];
        proof {
            assert(keys@.contains(x));
            assert(counts@.contains_key(x));
        }
        let c = match counts.get(&x) {
            Some(c) => *c,
            None => 0,
        };
        if c >= best_count {
            best = x;
            best_count = c;
        }
        k += 1;
    }
    proof {
        keys@.unique_seq_to_set();
        let x = reached_exits(cc, succs@);
        assert(keys@.to_set() =~= x);
        assert(is_top_exit(cc, succs@, best)) by {
            assert forall|z: NodeId| #[trigger] x.contains(z) implies exit_count(cc, succs@, z) <= exit_count(cc, succs@, best) by {
                assert(keys@.contains(z));
                let q = choose|q: int| 0 <= q < keys@.len() && keys@[q] == z;
            }
        }
    }
    if best_count >= 2 || keys.len() == 1 {
        best
    } else {
        proof {
            let x = reached_exits(cc, succs@);
            assert(!exists|y: NodeId| #[trigger] is_top_exit(cc, succs@, y) && (exit_count(cc, succs@, y) >= 2 || x.len() == 1)) by {
                if exists|y: NodeId| #[trigger] is_top_exit(cc, succs@, y) && (exit_count(cc, succs@, y) >= 2 || x.len() == 1) {
                    let y = choose|y: NodeId| #[trigger] is_top_exit(cc, succs@, y) && (exit_count(cc, succs@, y) >= 2 || x.len() == 1);
                    assert(exit_count(cc, succs@, y) <= exit_count(cc, succs@, best));
                }
            }
        }
        selector
    }
}


/// What switch matching reads of the analyses of the control-flow graph
/// and of the bytecode: the immediate post-dominator of each block that
/// has one, the blocks that end in a `Switch` opcode, and, where the
/// opcodes were read, the `Switch` opcode that ends a block.
pub struct SwitchInfo {
    pub ipdom: HashMap<NodeId, NodeId>,
    pub switch_blocks: HashSet<NodeId>,
    pub switch_ops: HashMap<NodeId, SwitchOp>,
}

/// A `Switch` opcode as switch matching reads it: the register switched
/// on, and, for each case value in order, the block its jump leads to
/// (case values whose jump leaves the function are left out).
pub struct SwitchOp {
    pub reg: crate::ast::Reg,
    pub targets: Vec<(NodeId, i32)>,
}

/// The case values of `targets` that jump to block `c`, in order.
pub open spec fn values_for(targets: Seq<(NodeId, i32)>, c: NodeId) -> Seq<i32>
    decreases targets.len(),
{
    if targets.len() == 0 {
        Seq::empty()
    } else {
        let rest = values_for(targets.drop_last(), c);
        if targets.last().0 == c {
            rest.push(targets.last().1)
        } else {
            rest
        }
    }
}

/// The case values of each node, from the first `k` targets of `all`: for
/// each target block held by a node, the node is mapped to all the case
/// values of that block; where several blocks of one node are targets, the
/// last of them counts.
pub open spec fn case_value_map(g: RegionGraph, all: Seq<(NodeId, i32)>, k: nat) -> Map<NodeId, Seq<i32>>
    decreases k,
{
    if k == 0 {
        Map::empty()
    } else {
        let m = case_value_map(g, all, (k - 1) as nat);
        let c = all[k - 1].0;
        match block_owner(g, c) {
            Some(r) => m.insert(r, values_for(all, c)),
            None => m,
        }
    }
}

/// The case values of block `c`.
fn values_for_block(targets: &Vec<(NodeId, i32)>, c: NodeId) -> (res: Vec<i32>)
    ensures
        res@ == values_for(targets@, c),
{
    let mut res: Vec<i32> = Vec::new();
    let mut i: usize = 0;
    while i < targets.len()
        invariant
            0 <= i <= targets.len(),
            res@ == values_for(targets@.take(i as int), c),
        decreases targets.len() - i,
    {
        proof {
            assert(targets@.take(i + 1).drop_last() =~= targets@.take(i as int));
        }
        if targets[i].0 == c {
            res.push(targets[i].1);
        }
        i += 1;
    }
    proof {
        assert(targets@.take(i as int) =~= targets@);
    }
    res
}

/// The case values of each node (see `case_value_map`).
fn case_values_of(g: &RegionGraph, targets: &Vec<(NodeId, i32)>) -> (res: HashMap<NodeId, Vec<i32>>)
    ensures
        res@.map_values(|v: Vec<i32>| v@) == case_value_map(*g, targets@, targets@.len()),
{
    let mut res: HashMap<NodeId, Vec<i32>> = HashMap::new();
    let mut i: usize = 0;
    proof {
        assert(res@.map_values(|v: Vec<i32>| v@) =~= Map::<NodeId, Seq<i32>>::empty());
    }
    while i < targets.len()
        invariant
            0 <= i <= targets.len(),
            res@.map_values(|v: Vec<i32>| v@) == case_value_map(*g, targets@, i as nat),
        decreases targets.len() - i,
    {
        let c = targets[i].0;
        match g.get_region_node(c) {
            Some(r) => {
                let vals = values_for_block(targets, c);
                let ghost before = res@;
                res.insert(r, vals);
                proof {
                    assert(res@.map_values(|v: Vec<i32>| v@) =~= before.map_values(|v: Vec<i32>| v@).insert(r, vals@));
                }
            },
            None => {},
        }
        i += 1;
    }
    res
}

/// A detected switch pattern ready for collapse.
#[derive(Debug)]
pub struct SwitchPattern {
    /// The switch selector node.
    pub selector_node: NodeId,
    /// The block holding the selector's jump.
    pub selector_cfg_block: NodeId,
    /// The nodes of the case targets, one per distinct target.
    pub case_nodes: Vec<NodeId>,
    /// The node of the default case.
    pub default_node: Option<NodeId>,
    /// The node where the cases meet again.
    pub merge: NodeId,
    /// The nodes of the switch body.
    pub body_nodes: HashSet<NodeId>,
    /// The register switched on, where the opcode was read.
    pub selector_reg: Option<crate::ast::Reg>,
    /// The case values that jump to each case node, where the opcode was
    /// read.
    pub case_values: HashMap<NodeId, Vec<i32>>,
}

/// The view of a switch pattern: selector node, selector block, case nodes,
/// default node, merge node, body nodes, selector register, case values.
pub type SwitchPatternView = (
    NodeId,
    NodeId,
    Seq<NodeId>,
    Option<NodeId>,
    NodeId,
    Set<NodeId>,
    Option<crate::ast::Reg>,
    Map<NodeId, Seq<i32>>,
);

impl View for SwitchPattern {
    type V = SwitchPatternView;

    open spec fn view(&self) -> Self::V {
        (
            self.selector_node,
            self.selector_cfg_block,
            self.case_nodes@,
            self.default_node,
            self.merge,
            self.body_nodes@,
            self.selector_reg,
            self.case_values@.map_values(|v: Vec<i32>| v@),
        )
    }
}

/// The node holding block `c`, if any.
pub open spec fn block_owner(g: RegionGraph, c: NodeId) -> Option<NodeId> {
    if g.owners().dom().contains(c) {
        Some(g.owners()[c])
    } else {
        None
    }
}

/// The targets of the true edges of `out`.
pub open spec fn true_targets(out: Seq<(NodeId, EdgeKind)>) -> Set<NodeId> {
    Set::new(|t: NodeId| exists|i: int| 0 <= i < out.len() && #[trigger] out[i] == (t, EdgeKind::ConditionalTrue))
}

/// The last fall-through target of `out` that is no true target.
pub open spec fn explicit_default(out: Seq<(NodeId, EdgeKind)>, conds: Set<NodeId>) -> Option<NodeId>
    decreases out.len(),
{
    if out.len() == 0 {
        None
    } else if out.last().1 == EdgeKind::FallThrough && !conds.contains(out.last().0) {
        Some(out.last().0)
    } else {
        explicit_default(out.drop_last(), conds)
    }
}

/// The default case of a switch: the last fall-through target that is no
/// case target, or else the last fall-through target where a case jumps
/// there too (a zero offset).
pub open spec fn switch_default(out: Seq<(NodeId, EdgeKind)>) -> Option<NodeId> {
    match explicit_default(out, true_targets(out)) {
        Some(d) => Some(d),
        None => match last_of_kind(out, EdgeKind::FallThrough) {
            Some(f) => if true_targets(out).contains(f) {
                Some(f)
            } else {
                None
            },
            None => None,
        },
    }
}

/// The case targets of a switch: the targets of the edges other than fall
/// through, each once, in order of first appearance.
pub open spec fn case_targets(out: Seq<(NodeId, EdgeKind)>) -> Seq<NodeId>
    decreases out.len(),
{
    if out.len() == 0 {
        Seq::empty()
    } else {
        let prev = case_targets(out.drop_last());
        if out.last().1 == EdgeKind::FallThrough || prev.contains(out.last().0) {
            prev
        } else {
            prev.push(out.last().0)
        }
    }
}

/// The blocks of a switch body: the case starts, and the blocks reached
/// from a start other than the merge without entering the merge; the merge
/// itself is left out.
pub open spec fn switch_body(cfg: Cfg, starts: Seq<NodeId>, m: NodeId) -> Set<NodeId> {
    Set::new(|y: NodeId| y != m && (starts.contains(y) || exists|i: int| 0 <= i < starts.len() && starts[i] != m && #[trigger] reaches(
        avoid_adj(cfg, set![m]),
        starts[i],
        y,
    )))
}

/// The nodes holding the blocks of `blocks` that some node holds.
pub open spec fn owned_nodes(g: RegionGraph, blocks: Set<NodeId>) -> Set<NodeId> {
    Set::new(|r: NodeId| exists|c: NodeId| #[trigger] blocks.contains(c) && block_owner(g, c) == Some(r))
}

/// `r` is what switch matching finds at `node`: `node` must be a block with
/// three successors or more (exception edges aside); the merge is the
/// block's immediate post-dominator, or, for a block ending in a `Switch`
/// opcode that has none, the common exit of its targets; it must be held
/// by a node. Where the `Switch` opcode ending the block is known, the
/// selector register is its register and the case values are mapped to
/// nodes (see `case_value_map`); otherwise they are left unknown.
pub open spec fn is_switch_pattern_at(
    g: RegionGraph,
    cfg: Cfg,
    ipdom: Map<NodeId, NodeId>,
    switch_blocks: Set<NodeId>,
    ops: Map<NodeId, SwitchOp>,
    node: NodeId,
    r: Option<SwitchPatternView>,
) -> bool {
    if node >= g.nodes().len() {
        r is None
    } else {
        match g.nodes()[node as int] {
            RegionNode::Collapsed(_) => r is None,
            RegionNode::Block(c) => {
                let out = cfg.out_edges(c);
                let succs = normal_targets(out);
                if succs.len() < 3 || (!ipdom.dom().contains(c) && !switch_blocks.contains(c)) {
                    r is None
                } else {
                    exists|m: NodeId| #![trigger block_owner(g, m)] (if ipdom.dom().contains(c) {
                        m == ipdom[c]
                    } else {
                        is_common_exit(cfg, c, succs, m)
                    }) && match block_owner(g, m) {
                        None => r is None,
                        Some(mr) => {
                            let cases = case_targets(out);
                            let default = switch_default(out);
                            let starts = match default {
                                Some(d) => cases.push(d),
                                None => cases,
                            };
                            r == Some(
                                (
                                    node,
                                    c,
                                    cases.filter_map(|x: NodeId| block_owner(g, x)),
                                    match default {
                                        Some(d) => block_owner(g, d),
                                        None => None,
                                    },
                                    mr,
                                    owned_nodes(g, switch_body(cfg, starts, m)),
                                    if ops.dom().contains(c) {
                                        Some(ops[c].reg)
                                    } else {
                                        None::<crate::ast::Reg>
                                    },
                                    if ops.dom().contains(c) {
                                        case_value_map(g, ops[c].targets@, ops[c].targets@.len())
                                    } else {
                                        Map::<NodeId, Seq<i32>>::empty()
                                    },
                                ),
                            )
                        },
                    }
                }
            },
        }
    }
}


/// The targets of a block's edges are blocks of the graph.
proof fn lemma_out_edges_in_range(cfg: Cfg, c: NodeId)
    requires
        cfg.wf(),
    ensures
        forall|i: int| 0 <= i < cfg.out_edges(c).len() ==> #[trigger] cfg.out_edges(c)[i].0 < cfg.blocks.len(),
{
    broadcast use vstd::seq_lib::group_filter_ensures;
    let r = cfg.edges@.reverse();
    let pred = |e: CfgEdge| e.source == c;
    let fl = r.filter(pred);
    let succs = cfg.out_edges(c);
    assert(succs == fl.map_values(|e: CfgEdge| (e.target, e.kind)));
    assert forall|i: int| 0 <= i < succs.len() implies #[trigger] succs[i].0 < cfg.blocks.len() by {
        assert(fl.contains(fl[i]));
        r.lemma_filter_contains_rev(pred, fl[i]);
        let j = choose|j: int| 0 <= j < r.len() && r[j] == fl[i];
        assert(r[j] == cfg.edges@[cfg.edges.len() - 1 - j]);
    }
}

/// The targets picked out of `out` are targets of `out`.
proof fn lemma_picked_targets(out: Seq<(NodeId, EdgeKind)>, n: nat)
    requires
        forall|i: int| 0 <= i < out.len() ==> #[trigger] out[i].0 < n,
    ensures
        forall|i: int| 0 <= i < normal_targets(out).len() ==> #[trigger] normal_targets(out)[i] < n,
        forall|i: int| 0 <= i < case_targets(out).len() ==> #[trigger] case_targets(out)[i] < n,
        forall|conds: Set<NodeId>| #[trigger] explicit_default(out, conds) matches Some(d) ==> d < n,
        last_of_kind(out, EdgeKind::FallThrough) matches Some(f) ==> f < n,
    decreases out.len(),
{
    if out.len() > 0 {
        let d = out.drop_last();
        assert forall|i: int| 0 <= i < d.len() implies #[trigger] d[i].0 < n by {
            assert(d[i] == out[i]);
        }
        lemma_picked_targets(d, n);
        assert(out.last() == out[out.len() - 1]);
        let nt = normal_targets(out);
        assert forall|i: int| 0 <= i < nt.len() implies #[trigger] nt[i] < n by {
            if i < normal_targets(d).len() {
                assert(nt[i] == normal_targets(d)[i]);
            }
        }
        let ct = case_targets(out);
        assert forall|i: int| 0 <= i < ct.len() implies #[trigger] ct[i] < n by {
            if i < case_targets(d).len() {
                assert(ct[i] == case_targets(d)[i]);
            }
        }
        assert forall|conds: Set<NodeId>| #[trigger] explicit_default(out, conds) is Some implies explicit_default(out, conds)->0 < n by {
            if !(out.last().1 == EdgeKind::FallThrough && !conds.contains(out.last().0)) {
                assert(explicit_default(out, conds) == explicit_default(d, conds));
            }
        }
    }
}

/// The case targets and the default of a switch block (see
/// `case_targets` and `switch_default`).
fn switch_cases(cfg: &Cfg, c: NodeId) -> (res: (Vec<NodeId>, Option<NodeId>))
    ensures
        res.0@ == case_targets(cfg.out_edges(c)),
        res.1 == switch_default(cfg.out_edges(c)),
{
    let succs = cfg.successors_with_edges(c);
    let ghost out = succs@;
    let mut conditional_targets: HashSet<NodeId> = HashSet::new();
    let mut fallthrough_target: Option<NodeId> = None;
    let mut i: usize = 0;
    while i < succs.len()
        invariant
            out == succs@,
            0 <= i <= out.len(),
            conditional_targets@ == true_targets(out.take(i as int)),
            fallthrough_target == last_of_kind(out.take(i as int), EdgeKind::FallThrough),
        decreases out.len() - i,
    {
        let (t, k) = succs[i];
        let ghost t0 = out.take(i as int);
        let ghost t1 = out.take(i + 1);
        proof {
            assert(t1.drop_last() =~= t0);
            assert(t1.last() == out[i as int]);
        }
        match k {
            EdgeKind::ConditionalTrue => {
                conditional_targets.insert(t);
            },
            EdgeKind::FallThrough => {
                fallthrough_target = Some(t);
            },
            _ => {},
        }
        proof {
            assert forall|x: NodeId| #[trigger] conditional_targets@.contains(x) <==> true_targets(t1).contains(x) by {
                if true_targets(t1).contains(x) {
                    let q = choose|q: int| 0 <= q < t1.len() && #[trigger] t1[q] == (x, EdgeKind::ConditionalTrue);
                    if q < t0.len() {
                        assert(t0[q] == t1[q]);
                    }
                }
                if true_targets(t0).contains(x) {
                    let q = choose|q: int| 0 <= q < t0.len() && #[trigger] t0[q] == (x, EdgeKind::ConditionalTrue);
                    assert(t1[q] == t0[q]);
                }
                if k == EdgeKind::ConditionalTrue && x == t {
                    assert(t1[i as int] == (x, EdgeKind::ConditionalTrue));
                }
            }
        }
        i += 1;
    }
    proof {
        assert(out.take(i as int) =~= out);
    }
    let mut case_nodes: Vec<NodeId> = Vec::new();
    let mut default_node: Option<NodeId> = None;
    let mut i: usize = 0;
    while i < succs.len()
        invariant
            out == succs@,
            0 <= i <= out.len(),
            conditional_targets@ == true_targets(out),
            case_nodes@ == case_targets(out.take(i as int)),
            default_node == explicit_default(out.take(i as int), true_targets(out)),
        decreases out.len() - i,
    {
        let (t, k) = succs[i];
        let ghost t0 = out.take(i as int);
        let ghost t1 = out.take(i + 1);
        proof {
            assert(t1.drop_last() =~= t0);
            assert(t1.last() == out[i as int]);
        }
        match k {
            EdgeKind::FallThrough => {
                if !conditional_targets.contains(&t) {
                    default_node = Some(t);
                }
            },
            _ => {
                if !contains_node(&case_nodes, t) {
                    case_nodes.push(t);
                }
            },
        }
        i += 1;
    }
    proof {
        assert(out.take(i as int) =~= out);
    }
    if default_node.is_none() {
        match fallthrough_target {
            Some(ft) => {
                if conditional_targets.contains(&ft) {
                    default_node = Some(ft);
                }
            },
            None => {},
        }
    }
    (case_nodes, default_node)
}

/// The blocks of a switch body (see `switch_body`).
fn switch_body_blocks(cfg: &Cfg, starts: &Vec<NodeId>, m: NodeId) -> (res: HashSet<NodeId>)
    requires
        cfg.wf(),
        forall|i: int| 0 <= i < starts@.len() ==> #[trigger] starts@[i] < cfg.blocks.len(),
    ensures
        res@ == switch_body(*cfg, starts@, m),
{
    let mut blocked: HashSet<NodeId> = HashSet::new();
    blocked.insert(m);
    let mut body: HashSet<NodeId> = HashSet::new();
    let mut i: usize = 0;
    proof {
        assert(blocked@ =~= set![m]);
    }
    while i < starts.len()
        invariant
            cfg.wf(),
            blocked@ == set![m],
            forall|q: int| 0 <= q < starts@.len() ==> #[trigger] starts@[q] < cfg.blocks.len(),
            0 <= i <= starts@.len(),
            forall|y: NodeId| #[trigger] body@.contains(y) <==> starts@.take(i as int).contains(y) || exists|q: int| 0 <= q < i
                && starts@[q] != m && #[trigger] reaches(avoid_adj(*cfg, set![m]), starts@[q], y),
        decreases starts@.len() - i,
    {
        let st = starts[i];
        let ghost b0 = body@;
        let ghost t0 = starts@.take(i as int);
        let ghost t1 = starts@.take(i + 1);
        proof {
            assert(t1 =~= t0.push(st));
            assert forall|y: NodeId| #[trigger] t1.contains(y) <==> t0.contains(y) || y == st by {
                if t1.contains(y) && y != st {
                    let q = choose|q: int| 0 <= q < t1.len() && t1[q] == y;
                    assert(t0[q] == y);
                }
                if t0.contains(y) {
                    let q = choose|q: int| 0 <= q < t0.len() && t0[q] == y;
                    assert(t1[q] == y);
                }
                assert(t1[i as int] == st);
            }
        }
        body.insert(st);
        if st != m {
            let reach = cfg_reach(cfg, st, &blocked);
            let rv = set_to_vec(&reach);
            let ghost b1 = body@;
            let mut j: usize = 0;
            while j < rv.len()
                invariant
                    0 <= j <= rv@.len(),
                    forall|y: NodeId| #[trigger] body@.contains(y) <==> b1.contains(y) || rv@.take(j as int).contains(y),
                decreases rv@.len() - j,
            {
                body.insert(rv[j]);
                proof {
                    let r0 = rv@.take(j as int);
                    let r1 = rv@.take(j + 1);
                    assert(r1 =~= r0.push(rv@[j as int]));
                    assert forall|y: NodeId| #[trigger] body@.contains(y) <==> b1.contains(y) || r1.contains(y) by {
                        if r1.contains(y) && y != rv@[j as int] {
                            let q = choose|q: int| 0 <= q < r1.len() && r1[q] == y;
                            assert(r0[q] == y);
                        }
                        if r0.contains(y) {
                            let q = choose|q: int| 0 <= q < r0.len() && r0[q] == y;
                            assert(r1[q] == y);
                        }
                        assert(r1[j as int] == rv@[j as int]);
                    }
                }
                j += 1;
            }
            proof {
                assert(rv@.take(j as int) =~= rv@);
                assert forall|y: NodeId| #[trigger] rv@.contains(y) <==> reach@.contains(y) by {
                    assert(rv@.to_set().contains(y) == rv@.contains(y));
                }
            }
        }
        proof {
            assert forall|y: NodeId| #[trigger] body@.contains(y) <==> t1.contains(y) || exists|q: int| 0 <= q < i + 1 && starts@[q]
                != m && #[trigger] reaches(avoid_adj(*cfg, set![m]), starts@[q], y) by {
                if exists|q: int| 0 <= q < i + 1 && starts@[q] != m && #[trigger] reaches(avoid_adj(*cfg, set![m]), starts@[q], y) {
                    let q = choose|q: int| 0 <= q < i + 1 && starts@[q] != m && #[trigger] reaches(avoid_adj(*cfg, set![m]), starts@[q], y);
                    if q == i {
                        assert(starts@[q] == st);
                    }
                }
                if body@.contains(y) && !b0.contains(y) && y != st {
                    assert(st != m);
                    assert(reaches(avoid_adj(*cfg, set![m]), starts@[i as int], y));
                }
            }
        }
        i += 1;
    }
    proof {
        assert(starts@.take(i as int) =~= starts@);
    }
    body.remove(&m);
    proof {
        assert(body@ =~= switch_body(*cfg, starts@, m));
    }
    body
}


/// The nodes holding the blocks of `blocks`, in order, leaving out blocks
/// that no node holds.
fn owners_in_order(region_graph: &RegionGraph, blocks: &Vec<NodeId>) -> (res: Vec<NodeId>)
    ensures
        res@ == blocks@.filter_map(|x: NodeId| block_owner(*region_graph, x)),
{
    let ghost f = |x: NodeId| block_owner(*region_graph, x);
    let mut res: Vec<NodeId> = Vec::new();
    let mut i: usize = 0;
    while i < blocks.len()
        invariant
            0 <= i <= blocks@.len(),
            f == (|x: NodeId| block_owner(*region_graph, x)),
            res@ == blocks@.take(i as int).filter_map(f),
        decreases blocks@.len() - i,
    {
        let x = blocks[i];
        let ghost t0 = blocks@.take(i as int);
        let ghost t1 = blocks@.take(i + 1);
        proof {
            assert(t1.drop_last() =~= t0);
            assert(t1.last() == x);
            assert(f(x) == block_owner(*region_graph, x));
        }
        match region_graph.get_region_node(x) {
            Some(r) => {
                res.push(r);
                proof {
                    assert(res@ =~= t0.filter_map(f) + seq![r]);
                }
            },
            None => {},
        }
        i += 1;
    }
    proof {
        assert(blocks@.take(i as int) =~= blocks@);
    }
    res
}

/// The nodes holding the blocks of `blocks` that some node holds.
pub(crate) fn owners_of_set(region_graph: &RegionGraph, blocks: &HashSet<NodeId>) -> (res: HashSet<NodeId>)
    ensures
        res@ == owned_nodes(*region_graph, blocks@),
{
    let bv = set_to_vec(blocks);
    let mut res: HashSet<NodeId> = HashSet::new();
    let mut i: usize = 0;
    while i < bv.len()
        invariant
            0 <= i <= bv@.len(),
            forall|r: NodeId| #[trigger] res@.contains(r) <==> exists|q: int| 0 <= q < i && #[trigger] block_owner(*region_graph, bv@[q])
                == Some(r),
        decreases bv@.len() - i,
    {
        let x = bv[i];
        let ghost r0 = res@;
        let ro = region_graph.get_region_node(x);
        match ro {
            Some(r) => {
                res.insert(r);
            },
            None => {},
        }
        proof {
            assert(block_owner(*region_graph, bv@[i as int]) == ro);
            assert forall|r: NodeId| #[trigger] res@.contains(r) <==> exists|q: int| 0 <= q < i + 1 && #[trigger] block_owner(
                *region_graph,
                bv@[q],
            ) == Some(r) by {
                if res@.contains(r) && !r0.contains(r) {
                    assert(ro == Some(r));
                    assert(block_owner(*region_graph, bv@[i as int]) == Some(r));
                }
                if r0.contains(r) {
                    let q = choose|q: int| 0 <= q < i && #[trigger] block_owner(*region_graph, bv@[q]) == Some(r);
                    assert(block_owner(*region_graph, bv@[q]) == Some(r));
                }
                if exists|q: int| 0 <= q < i + 1 && #[trigger] block_owner(*region_graph, bv@[q]) == Some(r) {
                    let q = choose|q: int| 0 <= q < i + 1 && #[trigger] block_owner(*region_graph, bv@[q]) == Some(r);
                    if q == i {
                        assert(bv@[q] == x);
                    }
                }
            }
        }
        i += 1;
    }
    proof {
        assert forall|r: NodeId| #[trigger] res@.contains(r) <==> owned_nodes(*region_graph, blocks@).contains(r) by {
            if res@.contains(r) {
                let q = choose|q: int| 0 <= q < i && #[trigger] block_owner(*region_graph, bv@[q]) == Some(r);
                assert(bv@.to_set().contains(bv@[q]));
            }
            if owned_nodes(*region_graph, blocks@).contains(r) {
                let c = choose|c: NodeId| #[trigger] blocks@.contains(c) && block_owner(*region_graph, c) == Some(r);
                assert(bv@.to_set().contains(c));
                let q = choose|q: int| 0 <= q < bv@.len() && bv@[q] == c;
                assert(block_owner(*region_graph, bv@[q]) == Some(r));
            }
        }
        assert(res@ =~= owned_nodes(*region_graph, blocks@));
    }
    res
}

/// Try to match a node as the start of a switch pattern (see
/// `is_switch_pattern_at`).
pub fn match_switch_pattern(region_graph: &RegionGraph, cfg: &Cfg, info: &SwitchInfo, node: NodeId) -> (res: Option<SwitchPattern>)
    requires
        region_graph.wf(),
        cfg.wf(),
    ensures
        is_switch_pattern_at(
            *region_graph,
            *cfg,
            info.ipdom@,
            info.switch_blocks@, info.switch_ops@,
            node,
            match res {
                Some(p) => Some(p@),
                None => None,
            },
        ),
{
    let ghost g = *region_graph;
    let cfg_node = match region_graph.get_node(node) {
        Some(nd) => match nd.as_block() {
            Some(b) => b,
            None => {
                return None;
            },
        },
        None => {
            return None;
        },
    };
    let ghost out = cfg.out_edges(cfg_node);
    proof {
        lemma_out_edges_in_range(*cfg, cfg_node);
        lemma_picked_targets(out, cfg.blocks.len() as nat);
    }
    let cfg_succs = cfg.successors_no_exceptions(cfg_node);
    if cfg_succs.len() < 3 {
        return None;
    }
    let is_switch_block = info.switch_blocks.contains(&cfg_node);
    let merge_cfg = match info.ipdom.get(&cfg_node) {
        Some(m) => *m,
        None => {
            if is_switch_block {
                common_exit(cfg, cfg_node, &cfg_succs)
            } else {
                return None;
            }
        },
    };
    let (case_nodes, default_node) = switch_cases(cfg, cfg_node);
    let merge = match region_graph.get_region_node(merge_cfg) {
        Some(r) => r,
        None => {
            proof {
                assert(block_owner(g, merge_cfg) is None);
            }
            return None;
        },
    };
    let mut starts: Vec<NodeId> = Vec::new();
    let mut i: usize = 0;
    while i < case_nodes.len()
        invariant
            0 <= i <= case_nodes@.len(),
            starts@ == case_nodes@.take(i as int),
        decreases case_nodes@.len() - i,
    {
        starts.push(case_nodes[i]);
        proof {
            assert(case_nodes@.take(i + 1) =~= case_nodes@.take(i as int).push(case_nodes@[i as int]));
        }
        i += 1;
    }
    proof {
        assert(case_nodes@.take(i as int) =~= case_nodes@);
    }
    match default_node {
        Some(d) => starts.push(d),
        None => {},
    }
    let ghost start_seq = starts@;
    proof {
        assert forall|q: int| 0 <= q < starts@.len() implies #[trigger] starts@[q] < cfg.blocks.len() by {
            if q < case_nodes@.len() {
                assert(starts@[q] == case_nodes@[q]);
            }
        }
    }
    let body_cfg_nodes = switch_body_blocks(cfg, &starts, merge_cfg);
    let case_region_nodes = owners_in_order(region_graph, &case_nodes);
    let body_region_nodes = owners_of_set(region_graph, &body_cfg_nodes);
    let default_region = match default_node {
        Some(d) => region_graph.get_region_node(d),
        None => None,
    };
    let (selector_reg, case_values) = match info.switch_ops.get(&cfg_node) {
        Some(op) => (Some(op.reg), case_values_of(region_graph, &op.targets)),
        None => {
            let empty: HashMap<NodeId, Vec<i32>> = HashMap::new();
            proof {
                assert(empty@.map_values(|v: Vec<i32>| v@) =~= Map::<NodeId, Seq<i32>>::empty());
            }
            (None, empty)
        },
    };
    let res = SwitchPattern {
        selector_node: node,
        selector_cfg_block: cfg_node,
        case_nodes: case_region_nodes,
        default_node: default_region,
        merge,
        body_nodes: body_region_nodes,
        selector_reg,
        case_values,
    };
    proof {
        assert(block_owner(g, merge_cfg) == Some(merge));
    }
    Some(res)
}

/// `list` holds the switch patterns found at the nodes, in node order.
pub open spec fn is_switch_pattern_list(
    g: RegionGraph,
    cfg: Cfg,
    ipdom: Map<NodeId, NodeId>,
    switch_blocks: Set<NodeId>,
    ops: Map<NodeId, SwitchOp>,
    list: Seq<SwitchPatternView>,
) -> bool {
    exists|found: Seq<Option<SwitchPatternView>>| #![trigger found.len()] {
        &&& found.len() == g.nodes().len()
        &&& forall|i: int| 0 <= i < found.len() ==> #[trigger] is_switch_pattern_at(g, cfg, ipdom, switch_blocks, ops, i as NodeId, found[i])
        &&& list == found.filter_map(|x: Option<SwitchPatternView>| x)
    }
}

/// Find switch patterns in the graph: the pattern of each node that is
/// not collapsed, in node order.
pub fn find_switch_patterns(region_graph: &RegionGraph, cfg: &Cfg, info: &SwitchInfo) -> (res: Vec<SwitchPattern>)
    requires
        region_graph.wf(),
        cfg.wf(),
    ensures
        is_switch_pattern_list(*region_graph, *cfg, info.ipdom@, info.switch_blocks@, info.switch_ops@, res@.map_values(|p: SwitchPattern| p@)),
{
    let ghost g = *region_graph;
    let n = region_graph.node_count();
    let mut patterns: Vec<SwitchPattern> = Vec::new();
    let ghost mut found: Seq<Option<SwitchPatternView>> = Seq::empty();
    let mut node: usize = 0;
    while node < n
        invariant
            g == *region_graph,
            g.wf(),
            cfg.wf(),
            n == g.nodes().len(),
            0 <= node <= n,
            found.len() == node,
            forall|i: int| 0 <= i < found.len() ==> #[trigger] is_switch_pattern_at(g, *cfg, info.ipdom@, info.switch_blocks@, info.switch_ops@, i as NodeId, found[i]),
            patterns@.map_values(|p: SwitchPattern| p@) == found.filter_map(|x: Option<SwitchPatternView>| x),
        decreases n - node,
    {
        let collapsed = match region_graph.get_node(node) {
            Some(nd) => nd.is_collapsed(),
            None => true,
        };
        let ghost before = found;
        if collapsed {
            proof {
                found = found.push(None);
                assert(is_switch_pattern_at(g, *cfg, info.ipdom@, info.switch_blocks@, info.switch_ops@, node, None));
                assert(found.drop_last() =~= before);
            }
        } else {
            match match_switch_pattern(region_graph, cfg, info, node) {
                Some(p) => {
                    let ghost pv = p@;
                    let ghost pb = patterns@.map_values(|q: SwitchPattern| q@);
                    patterns.push(p);
                    proof {
                        found = found.push(Some(pv));
                        assert(found.drop_last() =~= before);
                        assert(patterns@.map_values(|q: SwitchPattern| q@) =~= pb + seq![pv]);
                    }
                },
                None => {
                    proof {
                        found = found.push(None);
                        assert(found.drop_last() =~= before);
                    }
                },
            }
        }
        proof {
            assert forall|i: int| 0 <= i < found.len() implies #[trigger] is_switch_pattern_at(g, *cfg, info.ipdom@, info.switch_blocks@, info.switch_ops@, i as NodeId, found[i]) by {
                if i < before.len() {
                    assert(found[i] == before[i]);
                }
            }
        }
        node += 1;
    }
    patterns
}


impl LoopInfo {
    /// The loop headers and back-edge sources of the natural loops.
    pub fn from_loops(loops: &Vec<NaturalLoop>) -> (res: LoopInfo)
        ensures
            forall|h: NodeId| #[trigger] res.headers@.contains(h) <==> exists|i: int| 0 <= i < loops@.len() && #[trigger] loops@[i].header
                == h,
            forall|b: NodeId| #[trigger] res.back_edge_sources@.contains(b) <==> exists|i: int| 0 <= i < loops@.len()
                && #[trigger] loops@[i].back_edge_sources@.contains(b),
    {
        let mut headers: HashSet<NodeId> = HashSet::new();
        let mut back_edge_sources: HashSet<NodeId> = HashSet::new();
        let mut i: usize = 0;
        while i < loops.len()
            invariant
                0 <= i <= loops@.len(),
                forall|h: NodeId| #[trigger] headers@.contains(h) <==> exists|q: int| 0 <= q < i && #[trigger] loops@[q].header == h,
                forall|b: NodeId| #[trigger] back_edge_sources@.contains(b) <==> exists|q: int| 0 <= q < i
                    && #[trigger] loops@[q].back_edge_sources@.contains(b),
            decreases loops@.len() - i,
        {
            let l = &loops[i];
            headers.insert(l.header);
            let ghost b0 = back_edge_sources@;
            let mut j: usize = 0;
            while j < l.back_edge_sources.len()
                invariant
                    0 <= j <= l.back_edge_sources@.len(),
                    forall|b: NodeId| #[trigger] back_edge_sources@.contains(b) <==> b0.contains(b) || l.back_edge_sources@.take(j as int).contains(b),
                decreases l.back_edge_sources@.len() - j,
            {
                back_edge_sources.insert(l.back_edge_sources[j]);
                proof {
                    let t0 = l.back_edge_sources@.take(j as int);
                    let t1 = l.back_edge_sources@.take(j + 1);
                    assert(t1 =~= t0.push(l.back_edge_sources@[j as int]));
                    assert forall|b: NodeId| #[trigger] t1.contains(b) <==> t0.contains(b) || b == l.back_edge_sources@[j as int] by {
                        if t1.contains(b) && b != l.back_edge_sources@[j as int] {
                            let q = choose|q: int| 0 <= q < t1.len() && t1[q] == b;
                            assert(t0[q] == b);
                        }
                        if t0.contains(b) {
                            let q = choose|q: int| 0 <= q < t0.len() && t0[q] == b;
                            assert(t1[q] == b);
                        }
                        assert(t1[j as int] == l.back_edge_sources@[j as int]);
                    }
                }
                j += 1;
            }
            proof {
                assert(l.back_edge_sources@.take(j as int) =~= l.back_edge_sources@);
                assert(*l == loops@[i as int]);
                assert forall|h: NodeId| #[trigger] headers@.contains(h) <==> exists|q: int| 0 <= q < i + 1 && #[trigger] loops@[q].header == h by {
                    if exists|q: int| 0 <= q < i + 1 && #[trigger] loops@[q].header == h {
                        let q = choose|q: int| 0 <= q < i + 1 && #[trigger] loops@[q].header == h;
                        if q < i {
                            assert(exists|q: int| 0 <= q < i && #[trigger] loops@[q].header == h);
                        }
                    }
                }
                assert forall|b: NodeId| #[trigger] back_edge_sources@.contains(b) <==> exists|q: int| 0 <= q < i + 1
                    && #[trigger] loops@[q].back_edge_sources@.contains(b) by {
                    if exists|q: int| 0 <= q < i + 1 && #[trigger] loops@[q].back_edge_sources@.contains(b) {
                        let q = choose|q: int| 0 <= q < i + 1 && #[trigger] loops@[q].back_edge_sources@.contains(b);
                        if q < i {
                            assert(exists|q: int| 0 <= q < i && #[trigger] loops@[q].back_edge_sources@.contains(b));
                        }
                    }
                }
            }
            i += 1;
        }
        LoopInfo { headers, back_edge_sources }
    }
}

/// A detected try-catch pattern ready for collapse.
#[derive(Debug)]
pub struct TryCatchPattern {
    /// The node holding the trap (the start of the try).
    pub trap_node: NodeId,
    /// The nodes of the try body (between trap and end of trap, without
    /// the handler).
    pub try_nodes: HashSet<NodeId>,
    /// The node holding the handler entry (the start of the catch).
    pub handler_node: NodeId,
    /// The nodes of the catch body.
    pub catch_nodes: HashSet<NodeId>,
    /// The register the exception is stored in.
    pub exc_reg: crate::ast::Reg,
    /// The node after the try-catch, if known.
    pub merge: Option<NodeId>,
}

/// A detected pattern ready for collapse.
#[derive(Debug)]
pub enum Pattern {
    Loop(LoopPattern),
    If(IfPattern),
    Switch(SwitchPattern),
    TryCatch(TryCatchPattern),
    OrChain(OrChainPattern),
}

/// The nodes a pattern involves.
pub open spec fn pattern_nodes(p: Pattern) -> Set<NodeId> {
    match p {
        Pattern::Loop(lp) => lp.body_nodes@,
        Pattern::If(ip) => ip.then_nodes@.union(ip.else_nodes@).insert(ip.condition_node),
        Pattern::Switch(sp) => sp.body_nodes@.insert(sp.selector_node),
        Pattern::TryCatch(t) => t.try_nodes@.union(t.catch_nodes@).insert(t.trap_node).insert(t.handler_node),
        Pattern::OrChain(o) => o.condition_nodes@.to_set().insert(o.shared_target),
    }
}

/// Add the elements of `src` to `dst`.
fn insert_all(dst: &mut HashSet<NodeId>, src: &HashSet<NodeId>)
    ensures
        final(dst)@ == old(dst)@.union(src@),
{
    let v = set_to_vec(src);
    let ghost d0 = dst@;
    let mut i: usize = 0;
    while i < v.len()
        invariant
            0 <= i <= v@.len(),
            dst@ == d0.union(v@.take(i as int).to_set()),
        decreases v@.len() - i,
    {
        dst.insert(v[i]);
        proof {
            assert(v@.take(i + 1) =~= v@.take(i as int).push(v@[i as int]));
            v@.take(i as int).lemma_push_to_set_commute(v@[i as int]);
            assert(dst@ =~= d0.union(v@.take(i + 1).to_set()));
        }
        i += 1;
    }
    proof {
        assert(v@.take(i as int) =~= v@);
    }
}

impl Pattern {
    /// All nodes involved in this pattern.
    pub fn nodes(&self) -> (res: HashSet<NodeId>)
        ensures
            res@ == pattern_nodes(*self),
    {
        let mut nodes: HashSet<NodeId> = HashSet::new();
        match self {
            Pattern::Loop(lp) => {
                insert_all(&mut nodes, &lp.body_nodes);
            },
            Pattern::If(ip) => {
                nodes.insert(ip.condition_node);
                insert_all(&mut nodes, &ip.then_nodes);
                insert_all(&mut nodes, &ip.else_nodes);
            },
            Pattern::Switch(sp) => {
                nodes.insert(sp.selector_node);
                insert_all(&mut nodes, &sp.body_nodes);
            },
            Pattern::TryCatch(t) => {
                nodes.insert(t.trap_node);
                insert_all(&mut nodes, &t.try_nodes);
                nodes.insert(t.handler_node);
                insert_all(&mut nodes, &t.catch_nodes);
            },
            Pattern::OrChain(o) => {
                let mut i: usize = 0;
                while i < o.condition_nodes.len()
                    invariant
                        0 <= i <= o.condition_nodes@.len(),
                        nodes@ == o.condition_nodes@.take(i as int).to_set(),
                    decreases o.condition_nodes@.len() - i,
                {
                    nodes.insert(o.condition_nodes[i]);
                    proof {
                        let c = o.condition_nodes@;
                        assert(c.take(i + 1) =~= c.take(i as int).push(c[i as int]));
                        c.take(i as int).lemma_push_to_set_commute(c[i as int]);
                    }
                    i += 1;
                }
                proof {
                    assert(o.condition_nodes@.take(i as int) =~= o.condition_nodes@);
                }
                nodes.insert(o.shared_target);
            },
        }
        proof {
            assert(nodes@ =~= pattern_nodes(*self));
        }
        nodes
    }
}

/// Find the innermost pattern that can be collapsed: the first loop
/// pattern (innermost loops first), else the first if pattern, else the
/// first switch pattern.
pub fn find_innermost_pattern(region_graph: &RegionGraph, cfg: &Cfg, loops: &Vec<NaturalLoop>, switch_info: &SwitchInfo) -> (res: Option<
    Pattern,
>)
    requires
        region_graph.wf(),
        cfg.wf(),
        nodes_within(*region_graph, *cfg),
    ensures
        ({
            let g = *region_graph;
            let lps = loop_patterns_of(g, *cfg, loops@);
            let headers = Set::new(|h: NodeId| exists|i: int| 0 <= i < loops@.len() && #[trigger] loops@[i].header == h);
            let backs = Set::new(|b: NodeId| exists|i: int| 0 <= i < loops@.len() && #[trigger] loops@[i].back_edge_sources@.contains(b));
            match res {
                Some(Pattern::Loop(lp)) => lps.len() > 0 && lp@ == lps[0],
                Some(Pattern::If(ip)) => lps.len() == 0 && exists|l: Seq<IfPatternView>| #[trigger] is_if_pattern_list(g, *cfg, headers, backs, l)
                    && l.len() > 0 && ip@ == l[0],
                Some(Pattern::Switch(sp)) => lps.len() == 0 && (exists|l: Seq<IfPatternView>| #[trigger] is_if_pattern_list(g, *cfg, headers, backs, l)
                    && l.len() == 0) && exists|l: Seq<SwitchPatternView>| #[trigger] is_switch_pattern_list(
                    g,
                    *cfg,
                    switch_info.ipdom@,
                    switch_info.switch_blocks@, switch_info.switch_ops@,
                    l,
                ) && l.len() > 0 && sp@ == l[0],
                None => lps.len() == 0 && (exists|l: Seq<IfPatternView>| #[trigger] is_if_pattern_list(g, *cfg, headers, backs, l) && l.len() == 0)
                    && exists|l: Seq<SwitchPatternView>| #[trigger] is_switch_pattern_list(
                    g,
                    *cfg,
                    switch_info.ipdom@,
                    switch_info.switch_blocks@, switch_info.switch_ops@,
                    l,
                ) && l.len() == 0,
                _ => false,
            }
        }),
{
    let ghost g = *region_graph;
    let mut loop_patterns = find_loop_patterns(region_graph, cfg, loops);
    if loop_patterns.len() > 0 {
        let lp = loop_patterns.remove(0);
        return Some(Pattern::Loop(lp));
    }
    let info = LoopInfo::from_loops(loops);
    proof {
        assert(info.headers@ =~= Set::new(|h: NodeId| exists|i: int| 0 <= i < loops@.len() && #[trigger] loops@[i].header == h));
        assert(info.back_edge_sources@ =~= Set::new(|b: NodeId| exists|i: int| 0 <= i < loops@.len() && #[trigger] loops@[i].back_edge_sources@.contains(b)));
    }
    let mut if_patterns = find_if_patterns(region_graph, cfg, &info);
    if if_patterns.len() > 0 {
        let ip = if_patterns.remove(0);
        return Some(Pattern::If(ip));
    }
    let mut switch_patterns = find_switch_patterns(region_graph, cfg, switch_info);
    if switch_patterns.len() > 0 {
        let sp = switch_patterns.remove(0);
        return Some(Pattern::Switch(sp));
    }
    None
}


/// The OR chain walk adds only nodes outside `used`.
proof fn lemma_or_walk_avoids_used(
    g: RegionGraph,
    cfg: Cfg,
    used: Set<NodeId>,
    shared: NodeId,
    conds: Seq<NodeId>,
    f: NodeId,
    inverted: bool,
    nested: Map<usize, Seq<NodeId>>,
    fuel: nat,
)
    requires
        forall|x: NodeId| #[trigger] conds.contains(x) ==> !used.contains(x),
    ensures
        or_walk(g, cfg, used, shared, conds, f, inverted, nested, fuel) matches Some(w) ==> forall|x: NodeId| #[trigger] w.0.contains(x)
            ==> !used.contains(x),
    decreases fuel,
{
    if fuel > 0 && g.owners().dom().contains(f) {
        let r = g.owners()[f];
        if !conds.contains(r) && !(used.contains(r) || r >= g.nodes().len() || g.nodes()[r as int] is Collapsed) {
            let c1 = conds.push(r);
            assert(!used.contains(r));
            assert forall|x: NodeId| #[trigger] c1.contains(x) implies !used.contains(x) by {
                let q = choose|q: int| 0 <= q < c1.len() && c1[q] == x;
                if q < conds.len() {
                    assert(conds[q] == x);
                    assert(conds.contains(x));
                } else {
                    assert(x == r);
                }
            }
            match cond_targets(cfg, f) {
                Some((t, fl)) => {
                    if t == shared {
                        lemma_or_walk_avoids_used(g, cfg, used, shared, c1, fl, false, nested, (fuel - 1) as nat);
                    } else if fl != shared {
                        match and_chain_at(cfg, f, shared, t) {
                            Some(chain) => {
                                lemma_or_walk_avoids_used(
                                    g,
                                    cfg,
                                    used,
                                    shared,
                                    c1,
                                    t,
                                    false,
                                    nested.insert(conds.len() as usize, chain),
                                    (fuel - 1) as nat,
                                );
                            },
                            None => {},
                        }
                    }
                },
                None => {},
            }
        }
    }
}

/// The chains found by the scan of nodes `0..k` use the nodes marked used,
/// and no node is a condition of two of them.
proof fn lemma_scan_disjoint(g: RegionGraph, cfg: Cfg, back: Set<NodeId>, k: nat)
    ensures
        forall|i: int, x: NodeId| 0 <= i < or_chain_scan(g, cfg, back, k).1.len() && #[trigger] or_chain_scan(g, cfg, back, k).1[i].0.contains(
            x,
        ) ==> or_chain_scan(g, cfg, back, k).0.contains(x),
        forall|i: int, j: int, x: NodeId| 0 <= i < j < or_chain_scan(g, cfg, back, k).1.len() && #[trigger] or_chain_scan(
            g,
            cfg,
            back,
            k,
        ).1[i].0.contains(x) ==> !#[trigger] or_chain_scan(g, cfg, back, k).1[j].0.contains(x),
    decreases k,
{
    if k > 0 {
        lemma_scan_disjoint(g, cfg, back, (k - 1) as nat);
        let (used, found) = or_chain_scan(g, cfg, back, (k - 1) as nat);
        let s = (k - 1) as NodeId;
        if !(s >= g.nodes().len() || g.nodes()[s as int] is Collapsed || used.contains(s)) {
            if let Some(p) = or_chain_at(g, cfg, back, used, s) {
                if p.0.len() >= 2 {
                    // The new chain's conditions avoid the used nodes.
                    if let RegionNode::Block(sb) = g.nodes()[s as int] {
                        if let Some((shared, f0)) = cond_targets(cfg, sb) {
                            let start = seq![s];
                            assert forall|x: NodeId| #[trigger] start.contains(x) implies !used.contains(x) by {
                                assert(x == s);
                            }
                            lemma_or_walk_avoids_used(g, cfg, used, shared, start, f0, false, Map::empty(), g.nodes().len());
                        }
                    }
                    let nf = found.push(p);
                    assert forall|i: int, x: NodeId| 0 <= i < nf.len() && #[trigger] nf[i].0.contains(x) implies used.union(
                        p.0.to_set(),
                    ).contains(x) by {
                        if i < found.len() {
                            assert(nf[i] == found[i]);
                        } else {
                            assert(p.0.to_set().contains(x));
                        }
                    }
                    assert forall|i: int, j: int, x: NodeId| 0 <= i < j < nf.len() && #[trigger] nf[i].0.contains(x) implies !#[trigger] nf[j].0.contains(x) by {
                        assert(nf[i] == found[i]);
                        if j < found.len() {
                            assert(nf[j] == found[j]);
                        }
                    }
                }
            }
        }
    }
}

/// An element occurring twice in a sequence occurs at two positions.
proof fn lemma_count_two_positions<A>(s: Seq<A>, x: A)
    requires
        s.to_multiset().count(x) >= 2,
    ensures
        exists|p: int, q: int| 0 <= p < q < s.len() && s[p] == x && s[q] == x,
    decreases s.len(),
{
    broadcast use vstd::seq_lib::group_to_multiset_ensures;
    let d = s.drop_last();
    assert(s =~= d.push(s.last()));
    assert(s.to_multiset() =~= d.to_multiset().insert(s.last()));
    if s.last() == x {
        assert(d.to_multiset().count(x) >= 1);
        assert(d.contains(x));
        let p = choose|p: int| 0 <= p < d.len() && d[p] == x;
        assert(s[p] == x && s[s.len() - 1] == x);
    } else {
        lemma_count_two_positions(d, x);
        let (p, q) = choose|p: int, q: int| 0 <= p < q < d.len() && d[p] == x && d[q] == x;
        assert(s[p] == x && s[q] == x);
    }
}

/// The condition nodes, shared target and continuation of an OR chain are
/// nodes of the graph.
pub open spec fn or_chain_in_graph(g: RegionGraph, p: OrChainView) -> bool {
    &&& forall|i: int| 0 <= i < p.0.len() ==> #[trigger] p.0[i] < g.nodes().len()
    &&& p.1 < g.nodes().len()
    &&& p.3 < g.nodes().len()
}

/// The walk along an OR chain adds nodes of the graph only.
proof fn lemma_or_walk_in_graph(
    g: RegionGraph,
    cfg: Cfg,
    used: Set<NodeId>,
    shared: NodeId,
    conds: Seq<NodeId>,
    f: NodeId,
    inverted: bool,
    nested: Map<usize, Seq<NodeId>>,
    fuel: nat,
)
    requires
        forall|i: int| 0 <= i < conds.len() ==> #[trigger] conds[i] < g.nodes().len(),
        or_walk(g, cfg, used, shared, conds, f, inverted, nested, fuel) is Some,
    ensures
        match or_walk(g, cfg, used, shared, conds, f, inverted, nested, fuel) {
            Some(w) => forall|i: int| 0 <= i < w.0.len() ==> #[trigger] w.0[i] < g.nodes().len(),
            None => true,
        },
    decreases fuel,
{
    if fuel == 0 || !g.owners().dom().contains(f) {
    } else {
        let r = g.owners()[f];
        if conds.contains(r) {
        } else if used.contains(r) || r >= g.nodes().len() || g.nodes()[r as int] is Collapsed {
        } else {
            let c2 = conds.push(r);
            assert forall|i: int| 0 <= i < c2.len() implies #[trigger] c2[i] < g.nodes().len() by {
                if i < conds.len() {
                    assert(c2[i] == conds[i]);
                }
            }
            match cond_targets(cfg, f) {
                None => {},
                Some((t, fl)) => if t == shared {
                    lemma_or_walk_in_graph(g, cfg, used, shared, c2, fl, false, nested, (fuel - 1) as nat);
                } else if fl == shared {
                } else {
                    match and_chain_at(cfg, f, shared, t) {
                        Some(chain) => {
                            lemma_or_walk_in_graph(
                                g,
                                cfg,
                                used,
                                shared,
                                c2,
                                t,
                                false,
                                nested.insert(conds.len() as usize, chain),
                                (fuel - 1) as nat,
                            );
                        },
                        None => {},
                    }
                },
            }
        }
    }
}

/// Every OR chain the scan finds is within the graph.
proof fn lemma_or_chain_scan_in_graph(g: RegionGraph, cfg: Cfg, back: Set<NodeId>, k: nat)
    requires
        g.wf(),
    ensures
        forall|i: int| 0 <= i < or_chain_scan(g, cfg, back, k).1.len() ==> or_chain_in_graph(g, #[trigger] or_chain_scan(g, cfg, back, k).1[i]),
    decreases k,
{
    if k > 0 {
        lemma_or_chain_scan_in_graph(g, cfg, back, (k - 1) as nat);
        let (used, found) = or_chain_scan(g, cfg, back, (k - 1) as nat);
        let s = (k - 1) as NodeId;
        if s >= g.nodes().len() || g.nodes()[s as int] is Collapsed || used.contains(s) {
        } else {
            match or_chain_at(g, cfg, back, used, s) {
                Some(p) => if p.0.len() >= 2 {
                    match g.nodes()[s as int] {
                        RegionNode::Block(sb) => match cond_targets(cfg, sb) {
                            Some((shared, f0)) => {
                                let c0 = seq![s];
                                assert forall|i: int| 0 <= i < c0.len() implies #[trigger] c0[i] < g.nodes().len() by {}
                                lemma_or_walk_in_graph(g, cfg, used, shared, c0, f0, false, Map::empty(), g.nodes().len());
                                let w = or_walk(g, cfg, used, shared, c0, f0, false, Map::empty(), g.nodes().len()).unwrap();
                                let shared_owner = g.owners()[shared];
                                assert(g.owners().dom().contains(shared));
                                assert(g.owners().dom().contains(w.1));
                                assert(or_chain_in_graph(g, p));
                            },
                            None => {},
                        },
                        RegionNode::Collapsed(_) => {},
                    }
                    let f2 = found.push(p);
                    assert forall|i: int| 0 <= i < f2.len() implies or_chain_in_graph(g, #[trigger] f2[i]) by {
                        if i < found.len() {
                            assert(f2[i] == found[i]);
                        }
                    }
                } else {
                },
                None => {},
            }
        }
    }
}

/// Every OR chain that `find_or_chain_patterns` finds is within the graph.
pub proof fn lemma_or_chains_in_graph(g: RegionGraph, cfg: Cfg, back: Set<NodeId>, list: Seq<OrChainView>)
    requires
        g.wf(),
        list == sort_by_length(or_chain_scan(g, cfg, back, g.nodes().len()).1),
    ensures
        forall|i: int| 0 <= i < list.len() ==> or_chain_in_graph(g, #[trigger] list[i]),
{
    broadcast use vstd::seq_lib::group_to_multiset_ensures;
    let sc = or_chain_scan(g, cfg, back, g.nodes().len()).1;
    lemma_or_chain_scan_in_graph(g, cfg, back, g.nodes().len());
    lemma_sort_by_length_multiset(sc);
    assert forall|i: int| 0 <= i < list.len() implies or_chain_in_graph(g, #[trigger] list[i]) by {
        assert(list.contains(list[i]));
        assert(list.to_multiset().count(list[i]) > 0);
        assert(sc.to_multiset().count(list[i]) > 0);
        assert(sc.contains(list[i]));
        let j = choose|j: int| 0 <= j < sc.len() && sc[j] == list[i];
    }
}

/// Inserting by length adds the chain to the sorted ones.
proof fn lemma_insert_by_length_multiset(sorted: Seq<OrChainView>, x: OrChainView)
    ensures
        insert_by_length(sorted, x).to_multiset() == sorted.to_multiset().insert(x),
    decreases sorted.len(),
{
    broadcast use vstd::seq_lib::group_to_multiset_ensures;
    if sorted.len() == 0 {
        assert(seq![x] =~= Seq::<OrChainView>::empty().push(x));
    } else if sorted.last().0.len() >= x.0.len() {
    } else {
        let d = sorted.drop_last();
        lemma_insert_by_length_multiset(d, x);
        assert(sorted =~= d.push(sorted.last()));
        assert(sorted.to_multiset() =~= d.to_multiset().insert(sorted.last()));
        assert(insert_by_length(sorted, x).to_multiset() =~= insert_by_length(d, x).to_multiset().insert(sorted.last()));
        assert(d.to_multiset().insert(x).insert(sorted.last()) =~= d.to_multiset().insert(sorted.last()).insert(x));
    }
}

/// Sorting by length keeps every chain, as often as it occurs.
proof fn lemma_sort_by_length_multiset(s: Seq<OrChainView>)
    ensures
        sort_by_length(s).to_multiset() == s.to_multiset(),
    decreases s.len(),
{
    broadcast use vstd::seq_lib::group_to_multiset_ensures;
    if s.len() > 0 {
        let d = s.drop_last();
        lemma_sort_by_length_multiset(d);
        lemma_insert_by_length_multiset(sort_by_length(d), s.last());
        assert(s =~= d.push(s.last()));
        assert(s.to_multiset() =~= d.to_multiset().insert(s.last()));
    }
}

/// The OR chains found in a graph share no condition node: each node is a
/// condition of one chain at most.
pub proof fn lemma_or_chains_disjoint(g: RegionGraph, cfg: Cfg, back: Set<NodeId>, i: int, j: int, x: NodeId)
    requires
        0 <= i < sort_by_length(or_chain_scan(g, cfg, back, g.nodes().len()).1).len(),
        0 <= j < sort_by_length(or_chain_scan(g, cfg, back, g.nodes().len()).1).len(),
        i != j,
    ensures
        !(sort_by_length(or_chain_scan(g, cfg, back, g.nodes().len()).1)[i].0.contains(x) && sort_by_length(
            or_chain_scan(g, cfg, back, g.nodes().len()).1,
        )[j].0.contains(x)),
{
    broadcast use vstd::seq_lib::group_to_multiset_ensures;
    let f = or_chain_scan(g, cfg, back, g.nodes().len()).1;
    let r = sort_by_length(f);
    lemma_scan_disjoint(g, cfg, back, g.nodes().len());
    lemma_sort_by_length_multiset(f);
    if r[i].0.contains(x) && r[j].0.contains(x) {
        // Where the two are found in the scan.
        assert(r.contains(r[i]));
        assert(r.contains(r[j]));
        assert(r.to_multiset().count(r[i]) > 0);
        assert(r.to_multiset().count(r[j]) > 0);
        assert(f.to_multiset().count(r[j]) > 0);
        assert(f.contains(r[i]));
        assert(f.contains(r[j]));
        let p = choose|p: int| 0 <= p < f.len() && f[p] == r[i];
        let q = choose|q: int| 0 <= q < f.len() && f[q] == r[j];
        if r[i] == r[j] {
            let ii = if i < j { i } else { j };
            let jj = if i < j { j } else { i };
            assert(r.to_multiset().count(r[i]) >= 2) by {
                lemma_count_two_at(r, ii, jj);
            }
            lemma_count_two_positions(f, r[i]);
            let (p2, q2) = choose|p2: int, q2: int| 0 <= p2 < q2 < f.len() && f[p2] == r[i] && f[q2] == r[i];
            assert(f[p2].0.contains(x));
            assert(!f[q2].0.contains(x));
        } else {
            assert(p != q);
            if p < q {
                assert(f[p].0.contains(x));
                assert(!f[q].0.contains(x));
            } else {
                assert(f[q].0.contains(x));
                assert(!f[p].0.contains(x));
            }
        }
    }
}

/// An element at two positions occurs twice.
proof fn lemma_count_two_at<A>(s: Seq<A>, i: int, j: int)
    requires
        0 <= i < j < s.len(),
        s[i] == s[j],
    ensures
        s.to_multiset().count(s[i]) >= 2,
    decreases s.len(),
{
    broadcast use vstd::seq_lib::group_to_multiset_ensures;
    let d = s.drop_last();
    assert(s =~= d.push(s.last()));
    assert(s.to_multiset() =~= d.to_multiset().insert(s.last()));
    if j == s.len() - 1 {
        assert(d[i] == s[i]);
        assert(d.contains(s[i]));
        assert(d.to_multiset().count(s[i]) >= 1);
    } else {
        assert(d[i] == s[i] && d[j] == s[j]);
        lemma_count_two_at(d, i, j);
    }
}

} // verus!
