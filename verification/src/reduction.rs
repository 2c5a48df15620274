//! The reduction loop: starting from the region graph of a control-flow
//! graph, patterns are collapsed one step at a time, in a fixed priority
//! order, until the graph is a single region.
//!
//! The step collapses OR chains, if/else patterns, loops, switches and
//! straight-line sequences. Before the first step, the nodes that the entry
//! does not reach are removed.
use vstd::prelude::*;

use std::collections::HashSet;

use crate::cfg::{Cfg, CfgEdge, NodeId};
use crate::patterns::{
    find_if_patterns, find_loop_patterns, find_or_chain_patterns, find_switch_patterns, is_if_pattern_list,
    is_switch_pattern_at, is_switch_pattern_list, lemma_or_chains_in_graph, loop_patterns_of, nodes_within,
    or_chain_in_graph, or_chain_scan, sort_by_length, IfPattern, IfPatternView, LoopInfo, LoopPattern,
    LoopPatternView, NaturalLoop, OrChainPattern, SwitchInfo, SwitchOp, SwitchPattern, SwitchPatternView,
};
use crate::reducer::{
    collapse_if, collapse_loop, collapse_sequences, create_fallback_region, goto_target, if_collapse_set,
    is_else_region, is_first_join, is_if_region_of, is_loop_region_of, is_region_of_nodes, is_then_region,
    collapse_or_chain, collapse_switch, is_or_chain_collapse, is_switch_region_of, loop_body_set, loop_collapse_set, loop_exit_node, order_regions,
    switch_collapse_set, virtualize_edge,
};
use crate::region::{flatten_piece, flatten_regions, is_sequence_of, region_within, Region};
use crate::region_dominance::{forward_adj, is_path, reaches};
use crate::region_graph::{
    are_found_sequences, edges_between, is_collapse_of, is_removal_of, node_region, RegionGraph, RegionNode,
};

verus! {

broadcast use {
    vstd::std_specs::vec::group_vec_axioms,
    vstd::std_specs::hash::group_hash_axioms,
};

/// How many rounds the reduction makes at most before it gives up.
pub const MAX_ITERATIONS: usize = 1000;

// ---------------------------------------------------------------------
// Which patterns a step takes.
// ---------------------------------------------------------------------

/// The block of node `node`, where it is an uncollapsed block.
pub open spec fn cond_block_of(g: RegionGraph, node: NodeId) -> Option<NodeId> {
    if node < g.nodes().len() {
        match g.nodes()[node as int] {
            RegionNode::Block(c) => Some(c),
            RegionNode::Collapsed(_) => None,
        }
    } else {
        None
    }
}

/// An if pattern with something to collapse: nodes in a branch, or an
/// early exit.
pub open spec fn has_branches(p: IfPatternView) -> bool {
    p.1.len() > 0 || p.2.len() > 0 || p.5 is Some
}

/// An if pattern that `collapse_if` can take: disjoint branches without the
/// condition node, all of them nodes of the graph, and a merge and exit
/// target that are blocks of the control-flow graph.
pub open spec fn if_collapsible(g: RegionGraph, cfg: Cfg, p: IfPatternView) -> bool {
    &&& p.1.disjoint(p.2)
    &&& !p.1.contains(p.0)
    &&& !p.2.contains(p.0)
    &&& forall|x: NodeId| #[trigger] if_collapse_set(p).contains(x) ==> x < g.nodes().len()
    &&& p.3 < cfg.blocks.len()
    &&& (p.5 matches Some(e) ==> e < cfg.blocks.len())
}

/// An if pattern whose condition is a block inside some loop's body but no
/// loop header.
pub open spec fn in_loop_if(g: RegionGraph, cfg: Cfg, loops: Seq<NaturalLoop>, p: IfPatternView) -> bool {
    &&& cond_block_of(g, p.0) is Some
    &&& !exists|i: int| 0 <= i < loops.len() && #[trigger] loops[i].header == cond_block_of(g, p.0)->0
    &&& exists|i: int| 0 <= i < loops.len() && #[trigger] loops[i].body@.contains(cond_block_of(g, p.0)->0)
    &&& has_branches(p)
    &&& if_collapsible(g, cfg, p)
}

/// Any if pattern with something to collapse.
pub open spec fn other_if(g: RegionGraph, cfg: Cfg, p: IfPatternView) -> bool {
    has_branches(p) && if_collapsible(g, cfg, p)
}

/// A loop pattern that `collapse_loop` collapses: its body nodes are nodes
/// of the graph, the node of its exit is not in its body region, and there
/// are two nodes or more to collapse.
pub open spec fn loop_collapsible(g: RegionGraph, p: LoopPatternView) -> bool {
    &&& forall|x: NodeId| #[trigger] p.1.contains(x) ==> x < g.nodes().len()
    &&& !loop_body_set(g, p).contains(loop_exit_node(g, p))
    &&& loop_collapse_set(g, p).len() >= 2
}

/// `i` is the first pattern of `ifs` inside a loop.
pub open spec fn first_in_loop_if(g: RegionGraph, cfg: Cfg, loops: Seq<NaturalLoop>, ifs: Seq<IfPatternView>, i: int) -> bool {
    &&& 0 <= i < ifs.len()
    &&& in_loop_if(g, cfg, loops, ifs[i])
    &&& forall|j: int| 0 <= j < i ==> !in_loop_if(g, cfg, loops, #[trigger] ifs[j])
}

/// `i` is the first pattern of `ifs` with something to collapse.
pub open spec fn first_other_if(g: RegionGraph, cfg: Cfg, ifs: Seq<IfPatternView>, i: int) -> bool {
    &&& 0 <= i < ifs.len()
    &&& other_if(g, cfg, ifs[i])
    &&& forall|j: int| 0 <= j < i ==> !other_if(g, cfg, #[trigger] ifs[j])
}

/// `j` is the first loop pattern of `lps` that collapses.
pub open spec fn first_loop(g: RegionGraph, lps: Seq<LoopPatternView>, j: int) -> bool {
    &&& 0 <= j < lps.len()
    &&& loop_collapsible(g, lps[j])
    &&& forall|q: int| 0 <= q < j ==> !loop_collapsible(g, #[trigger] lps[q])
}

// ---------------------------------------------------------------------
// What a step does.
// ---------------------------------------------------------------------

/// `collapse_if` of pattern `p` took `before` to `after`.
pub open spec fn if_step(before: RegionGraph, after: RegionGraph, cfg: Cfg, p: IfPatternView, res: bool) -> bool {
    &&& res == (if_collapse_set(p).len() >= 2)
    &&& !res ==> after == before
    &&& res ==> exists|k: NodeId, r: Region| is_if_region_of(before, cfg, p, r) && is_collapse_of(
        before,
        after,
        if_collapse_set(p),
        r,
        k,
    )
}

/// `collapse_loop` of pattern `p` took `before` to `after`.
pub open spec fn loop_step(before: RegionGraph, after: RegionGraph, p: LoopPatternView) -> bool {
    exists|k: NodeId, r: Region| is_loop_region_of(before, p, r) && is_collapse_of(
        before,
        after,
        loop_collapse_set(before, p),
        r,
        k,
    )
}

/// `collapse_sequences` took `before` to `after`.
pub open spec fn sequence_step(before: RegionGraph, after: RegionGraph, res: bool) -> bool {
    exists|seqs: Seq<Seq<NodeId>>| #![trigger are_found_sequences(before.edges(), before.nodes().len(), seqs)] {
        &&& are_found_sequences(before.edges(), before.nodes().len(), seqs)
        &&& res == (seqs.len() > 0)
        &&& !res ==> after == before
        &&& res ==> exists|k: NodeId, r: Region| is_sequence_of(
            r,
            seqs[0].map_values(|x: NodeId| node_region(before.nodes()[x as int])),
        ) && is_collapse_of(before, after, seqs[0].to_set(), r, k)
    }
}

/// What switch matching reads besides the graph: the immediate
/// post-dominators, the blocks ending in a `Switch` opcode, and those
/// opcodes.
pub type SwitchFacts = (Map<NodeId, NodeId>, Set<NodeId>, Map<NodeId, SwitchOp>);

/// The switch facts of `info`.
pub open spec fn switch_facts(info: SwitchInfo) -> SwitchFacts {
    (info.ipdom@, info.switch_blocks@, info.switch_ops@)
}

/// `collapse_switch` of pattern `p` took `before` to `after`.
pub open spec fn switch_step(before: RegionGraph, after: RegionGraph, p: SwitchPatternView) -> bool {
    exists|k: NodeId, r: Region| is_switch_region_of(before, p, r) && is_collapse_of(
        before,
        after,
        switch_collapse_set(p),
        r,
        k,
    )
}

/// A step once no if pattern applies: the first switch pattern, found
/// anew, which always counts as progress; else the collapse of
/// straight-line sequences.
pub open spec fn step_after_ifs(before: RegionGraph, after: RegionGraph, cfg: Cfg, sw: SwitchFacts, res: bool) -> bool {
    exists|sws: Seq<SwitchPatternView>| #[trigger] is_switch_pattern_list(before, cfg, sw.0, sw.1, sw.2, sws) && if sws.len() > 0 {
        res && switch_step(before, after, sws[0])
    } else {
        sequence_step(before, after, res)
    }
}

/// A step once no if pattern inside a loop applies: the first loop pattern
/// that collapses; else the first if pattern with something to collapse,
/// found anew; else a switch or straight-line sequences.
pub open spec fn step_after_loops(
    before: RegionGraph,
    after: RegionGraph,
    cfg: Cfg,
    loops: Seq<NaturalLoop>,
    headers: Set<NodeId>,
    back_edge_sources: Set<NodeId>,
    sw: SwitchFacts,
    res: bool,
) -> bool {
    let lps = loop_patterns_of(before, cfg, loops);
    if exists|j: int| #[trigger] first_loop(before, lps, j) {
        res && exists|j: int| #[trigger] first_loop(before, lps, j) && loop_step(before, after, lps[j])
    } else {
        exists|ifs: Seq<IfPatternView>| #[trigger] is_if_pattern_list(before, cfg, headers, back_edge_sources, ifs) && if exists|i: int|
            #[trigger] first_other_if(before, cfg, ifs, i) {
            exists|i: int| #[trigger] first_other_if(before, cfg, ifs, i) && if_step(before, after, cfg, ifs[i], res)
        } else {
            step_after_ifs(before, after, cfg, sw, res)
        }
    }
}

/// `after` and `res` are one reduction step from `before`: the patterns
/// are tried in priority order. The first OR chain (the longest) is
/// collapsed if there is one (whether or not that makes progress); else
/// the first if pattern inside a loop is
/// collapsed if there is one (whether or not that makes progress); else
/// the first loop pattern that collapses; else the first if pattern with
/// something to collapse; else the first switch pattern; else
/// straight-line sequences. `res` tells whether a pattern was collapsed.
#[verifier::opaque]
pub open spec fn is_reduction_step(
    before: RegionGraph,
    after: RegionGraph,
    cfg: Cfg,
    loops: Seq<NaturalLoop>,
    headers: Set<NodeId>,
    back_edge_sources: Set<NodeId>,
    sw: SwitchFacts,
    res: bool,
) -> bool {
    let ors = sort_by_length(or_chain_scan(before, cfg, back_edge_sources, before.nodes().len()).1);
    if ors.len() > 0 {
        is_or_chain_collapse(before, after, cfg, ors[0], res)
    } else {
        exists|ifs: Seq<IfPatternView>| #[trigger] is_if_pattern_list(before, cfg, headers, back_edge_sources, ifs) && if exists|i: int|
            #[trigger] first_in_loop_if(before, cfg, loops, ifs, i) {
            exists|i: int| #[trigger] first_in_loop_if(before, cfg, loops, ifs, i) && if_step(before, after, cfg, ifs[i], res)
        } else {
            step_after_loops(before, after, cfg, loops, headers, back_edge_sources, sw, res)
        }
    }
}

// ---------------------------------------------------------------------
// Regions stay within the blocks.
// ---------------------------------------------------------------------

proof fn lemma_flatten_within(rs: Seq<Region>, n: nat)
    requires
        forall|i: int| 0 <= i < rs.len() ==> region_within(#[trigger] rs[i], n),
    ensures
        forall|i: int| 0 <= i < flatten_regions(rs).len() ==> region_within(#[trigger] flatten_regions(rs)[i], n),
    decreases rs.len(),
{
    if rs.len() > 0 {
        let d = rs.drop_last();
        assert forall|i: int| 0 <= i < d.len() implies region_within(#[trigger] d[i], n) by {
            assert(d[i] == rs[i]);
        }
        lemma_flatten_within(d, n);
        let a = flatten_regions(d);
        let b = flatten_piece(rs.last());
        assert(region_within(rs[rs.len() - 1], n));
        assert(flatten_regions(rs) == a + b);
        assert forall|i: int| 0 <= i < (a + b).len() implies region_within(#[trigger] (a + b)[i], n) by {
            if i < a.len() {
                assert((a + b)[i] == a[i]);
            } else {
                assert((a + b)[i] == b[i - a.len()]);
            }
        }
    }
}

pub(crate) proof fn lemma_sequence_within(r: Region, rs: Seq<Region>, n: nat)
    requires
        forall|i: int| 0 <= i < rs.len() ==> region_within(#[trigger] rs[i], n),
        is_sequence_of(r, rs),
    ensures
        region_within(r, n),
{
    lemma_flatten_within(rs, n);
    let f = flatten_regions(rs);
    if f.len() == 1 {
        assert(region_within(f[0], n));
    } else if f.len() >= 2 {
        let v = r->Sequence_0;
        assert forall|i: int| 0 <= i < v.len() implies region_within(#[trigger] v@[i], n) by {
            assert(v@[i] == f[i]);
        }
    }
}

proof fn lemma_node_within(g: RegionGraph, cfg: Cfg, x: NodeId)
    requires
        nodes_within(g, cfg),
        x < g.nodes().len(),
    ensures
        region_within(node_region(g.nodes()[x as int]), cfg.blocks.len() as nat),
{
    assert(region_within(node_region(g.nodes()[x as int]), cfg.blocks.len() as nat));
}

proof fn lemma_region_of_nodes_within(g: RegionGraph, cfg: Cfg, nodes: Set<NodeId>, r: Region)
    requires
        nodes_within(g, cfg),
        is_region_of_nodes(g, nodes, r),
    ensures
        region_within(r, cfg.blocks.len() as nat),
{
    let n = cfg.blocks.len() as nat;
    if nodes.len() == 1 {
        if nodes.choose() < g.nodes().len() {
            lemma_node_within(g, cfg, nodes.choose());
        }
    } else if nodes.len() >= 2 {
        let order = crate::flow_order::flow_order(g, nodes);
        let rs = order_regions(g, order);
        let f = |x: NodeId| if x < g.nodes().len() {
            Some(node_region(g.nodes()[x as int]))
        } else {
            None
        };
        assert(rs == order.filter_map(f));
        assert forall|i: int| 0 <= i < rs.len() implies region_within(#[trigger] rs[i], n) by {
            assert(rs.contains(rs[i]));
            order.lemma_filter_map_contains(f, rs[i]);
            let t = choose|t: NodeId| #[trigger] order.contains(t) && f(t) == Some(rs[i]);
            lemma_node_within(g, cfg, t);
        }
        lemma_sequence_within(r, rs, n);
    }
}

/// A collapse into a region within the blocks keeps every node region
/// within the blocks.
pub(crate) proof fn lemma_collapse_within(
    before: RegionGraph,
    after: RegionGraph,
    cfg: Cfg,
    inner: Set<NodeId>,
    r: Region,
    k: NodeId,
)
    requires
        nodes_within(before, cfg),
        is_collapse_of(before, after, inner, r, k),
        region_within(r, cfg.blocks.len() as nat),
    ensures
        nodes_within(after, cfg),
{
    let n = before.nodes().len();
    let pre = crate::region_graph::survivors(n, inner);
    assert forall|i: int| 0 <= i < after.nodes().len() implies region_within(
        #[trigger] node_region(after.nodes()[i]),
        cfg.blocks.len() as nat,
    ) by {
        if i < pre.len() {
            assert(after.nodes()[i] == before.nodes()[pre[i]]);
            lemma_node_within(before, cfg, pre[i] as NodeId);
        } else {
            assert(after.nodes()[i] == RegionNode::Collapsed(r));
        }
    }
}

proof fn lemma_if_region_within(g: RegionGraph, cfg: Cfg, p: IfPatternView, r: Region)
    requires
        nodes_within(g, cfg),
        if_collapsible(g, cfg, p),
        is_if_region_of(g, cfg, p, r),
    ensures
        region_within(r, cfg.blocks.len() as nat),
{
    let (t, e) = choose|t: Region, e: Option<Region>| #[trigger] is_then_region(g, p, t) && #[trigger] is_else_region(g, p, e) && {
        let negated = t is Empty && e is Some;
        &&& r matches Region::IfThenElse { cond, cond_block, then_region, else_region, merge, negated: neg }
        &&& cond == crate::ast::Expr::Constant(crate::ast::Constant::Bool(true))
        &&& crate::reducer::is_cond_block(g, cfg, p.0, cond_block)
        &&& merge == p.3
        &&& neg == negated
        &&& if negated {
            *then_region == e->0 && else_region is None
        } else {
            *then_region == t && else_region == match e {
                Some(x) => Some(Box::new(x)),
                None => None,
            }
        }
    };
    let n = cfg.blocks.len() as nat;
    if p.1.len() == 0 {
        assert(region_within(t, n));
    } else {
        lemma_region_of_nodes_within(g, cfg, p.1, t);
    }
    if p.2.len() != 0 {
        lemma_region_of_nodes_within(g, cfg, p.2, e->0);
    }
    match r {
        Region::IfThenElse { then_region, else_region, .. } => {
            assert(region_within(*then_region, n));
            match else_region {
                Some(x) => {
                    assert(region_within(*x, n));
                },
                None => {},
            }
        },
        _ => {},
    }
}

/// The first switch pattern found collapses nodes of the graph.
proof fn lemma_first_switch_in_graph(g: RegionGraph, cfg: Cfg, sw: SwitchFacts, list: Seq<SwitchPatternView>)
    requires
        g.wf(),
        is_switch_pattern_list(g, cfg, sw.0, sw.1, sw.2, list),
        list.len() > 0,
    ensures
        forall|x: NodeId| #[trigger] switch_collapse_set(list[0]).contains(x) ==> x < g.nodes().len(),
{
    let found = choose|found: Seq<Option<SwitchPatternView>>| #![trigger found.len()] {
        &&& found.len() == g.nodes().len()
        &&& forall|i: int| 0 <= i < found.len() ==> #[trigger] is_switch_pattern_at(g, cfg, sw.0, sw.1, sw.2, i as NodeId, found[i])
        &&& list == found.filter_map(|x: Option<SwitchPatternView>| x)
    };
    let f = |x: Option<SwitchPatternView>| x;
    assert(list.contains(list[0]));
    found.lemma_filter_map_contains(f, list[0]);
    let t = choose|t: Option<SwitchPatternView>| #[trigger] found.contains(t) && f(t) == Some(list[0]);
    let i = choose|i: int| 0 <= i < found.len() && found[i] == t;
    assert(is_switch_pattern_at(g, cfg, sw.0, sw.1, sw.2, i as NodeId, found[i]));
    let p = list[0];
    assert forall|x: NodeId| #[trigger] switch_collapse_set(p).contains(x) implies x < g.nodes().len() by {
        if x != p.0 {
            assert(p.5.contains(x));
            assert(exists|c: NodeId| #[trigger] crate::patterns::block_owner(g, c) == Some(x));
            let c = choose|c: NodeId| #[trigger] crate::patterns::block_owner(g, c) == Some(x);
            assert(g.owners().dom().contains(c));
        }
    }
}

/// Every node of `g` is reachable from the entry.
pub open spec fn all_reachable(g: RegionGraph) -> bool {
    forall|v: NodeId| v < g.nodes().len() ==> #[trigger] reaches(forward_adj(g.edges()), g.spec_entry(), v)
}

/// A collapse leaves every node reachable where every node was.
pub(crate) proof fn lemma_collapse_all_reachable(before: RegionGraph, after: RegionGraph, inner: Set<NodeId>, r: Region, k: NodeId)
    requires
        before.wf(),
        is_collapse_of(before, after, inner, r, k),
        inner != Set::<NodeId>::empty(),
        forall|x: NodeId| #[trigger] inner.contains(x) ==> x < before.nodes().len(),
    ensures
        all_reachable(before) ==> all_reachable(after),
{
    if all_reachable(before) {
        assert forall|y: NodeId| y < after.nodes().len() implies #[trigger] reaches(
            forward_adj(after.edges()),
            after.spec_entry(),
            y,
        ) by {
            crate::region_graph::lemma_collapse_keeps_reachability(before, after, inner, r, k, y);
        }
    }
}

// ---------------------------------------------------------------------
// The executable predicates.
// ---------------------------------------------------------------------

/// Whether `collapse_if` can take pattern `p` (see `if_collapsible`).
#[verifier::loop_isolation(false)]
fn is_if_collapsible(graph: &RegionGraph, cfg: &Cfg, p: &IfPattern) -> (res: bool)
    requires
        graph.wf(),
    ensures
        res == if_collapsible(*graph, *cfg, p@),
{
    let n = graph.node_count();
    proof {
        assert(if_collapse_set(p@).contains(p.condition_node));
    }
    if p.condition_node >= n || p.merge >= cfg.blocks.len() {
        return false;
    }
    match p.then_exit_target {
        Some(e) => {
            if e >= cfg.blocks.len() {
                return false;
            }
        },
        None => {},
    }
    if p.then_nodes.contains(&p.condition_node) || p.else_nodes.contains(&p.condition_node) {
        return false;
    }
    let then_list = crate::region_graph::set_to_vec(&p.then_nodes);
    let mut i: usize = 0;
    while i < then_list.len()
        invariant
            0 <= i <= then_list@.len(),
            then_list@.to_set() == p.then_nodes@,
            forall|j: int| 0 <= j < i ==> (#[trigger] then_list@[j]) < n && !p.else_nodes@.contains(then_list@[j]),
        decreases then_list@.len() - i,
    {
        let x = then_list[i];
        if x >= n || p.else_nodes.contains(&x) {
            proof {
                assert(then_list@.to_set().contains(x));
                assert(p.then_nodes@.contains(x));
                if x >= n {
                    assert(if_collapse_set(p@).contains(x));
                } else {
                    assert(p.else_nodes@.contains(x));
                    assert(!p.then_nodes@.disjoint(p.else_nodes@));
                }
            }
            return false;
        }
        i += 1;
    }
    let else_list = crate::region_graph::set_to_vec(&p.else_nodes);
    let mut i: usize = 0;
    while i < else_list.len()
        invariant
            0 <= i <= else_list@.len(),
            else_list@.to_set() == p.else_nodes@,
            forall|j: int| 0 <= j < i ==> (#[trigger] else_list@[j]) < n,
        decreases else_list@.len() - i,
    {
        let x = else_list[i];
        if x >= n {
            proof {
                assert(else_list@.to_set().contains(x));
                assert(p.else_nodes@.contains(x));
                assert(if_collapse_set(p@).contains(x));
            }
            return false;
        }
        i += 1;
    }
    proof {
        assert forall|x: NodeId| #[trigger] p.then_nodes@.contains(x) implies x < n && !p.else_nodes@.contains(x) by {
            assert(then_list@.to_set().contains(x));
            let j = choose|j: int| 0 <= j < then_list@.len() && then_list@[j] == x;
        }
        assert forall|x: NodeId| #[trigger] p.else_nodes@.contains(x) implies x < n by {
            assert(else_list@.to_set().contains(x));
            let j = choose|j: int| 0 <= j < else_list@.len() && else_list@[j] == x;
        }
        assert(p.then_nodes@.disjoint(p.else_nodes@));
    }
    true
}

/// Whether `p` is an if pattern inside a loop (see `in_loop_if`).
#[verifier::loop_isolation(false)]
fn is_in_loop_if(graph: &RegionGraph, cfg: &Cfg, loops: &Vec<NaturalLoop>, p: &IfPattern) -> (res: bool)
    requires
        graph.wf(),
    ensures
        res == in_loop_if(*graph, *cfg, loops@, p@),
{
    let c = match graph.get_node(p.condition_node) {
        Some(RegionNode::Block(c)) => *c,
        _ => {
            return false;
        },
    };
    let mut i: usize = 0;
    let mut in_body = false;
    while i < loops.len()
        invariant
            0 <= i <= loops@.len(),
            cond_block_of(*graph, p.condition_node) == Some(c),
            forall|j: int| 0 <= j < i ==> #[trigger] loops@[j].header != c,
            in_body == exists|j: int| 0 <= j < i && #[trigger] loops@[j].body@.contains(c),
        decreases loops@.len() - i,
    {
        if loops[i].header == c {
            return false;
        }
        if loops[i].body.contains(&c) {
            in_body = true;
        }
        i += 1;
    }
    if !in_body {
        return false;
    }
    let branches = p.then_nodes.len() > 0 || p.else_nodes.len() > 0 || p.then_exit_target.is_some();
    assert(branches == has_branches(p@));
    assert(exists|j: int| 0 <= j < loops@.len() && #[trigger] loops@[j].body@.contains(c));
    assert(!exists|j: int| 0 <= j < loops@.len() && #[trigger] loops@[j].header == c);
    assert(cond_block_of(*graph, p.condition_node) == Some(c));
    let ok = is_if_collapsible(graph, cfg, p);
    proof {
        let cb = cond_block_of(*graph, p@.0);
        assert(cb->0 == c);
        assert(!exists|j: int| 0 <= j < loops@.len() && #[trigger] loops@[j].header == cb->0);
        assert(exists|j: int| 0 <= j < loops@.len() && #[trigger] loops@[j].body@.contains(cb->0));
        assert(ok == if_collapsible(*graph, *cfg, p@));
    }
    assert(branches && ok ==> in_loop_if(*graph, *cfg, loops@, p@));
    assert(in_loop_if(*graph, *cfg, loops@, p@) ==> branches && ok);
    branches && ok
}

/// Whether `p` is an if pattern with something to collapse (see
/// `other_if`).
fn is_other_if(graph: &RegionGraph, cfg: &Cfg, p: &IfPattern) -> (res: bool)
    requires
        graph.wf(),
    ensures
        res == other_if(*graph, *cfg, p@),
{
    let branches = p.then_nodes.len() > 0 || p.else_nodes.len() > 0 || p.then_exit_target.is_some();
    assert(branches == has_branches(p@));
    branches && is_if_collapsible(graph, cfg, p)
}

/// Whether `collapse_loop` collapses pattern `p` (see `loop_collapsible`).
#[verifier::loop_isolation(false)]
fn is_loop_collapsible(graph: &RegionGraph, p: &LoopPattern) -> (res: bool)
    requires
        graph.wf(),
    ensures
        res == loop_collapsible(*graph, p@),
{
    let n = graph.node_count();
    let header_node = graph.get_region_node(p.header);
    let exit_node = match graph.get_region_node(p.exit) {
        Some(r) => r,
        None => 0,
    };
    let body = crate::region_graph::set_to_vec(&p.body_nodes);
    let mut count: usize = 0;
    let mut i: usize = 0;
    proof {
        assert(body@.take(0).to_set().remove(exit_node) =~= Set::<NodeId>::empty());
    }
    while i < body.len()
        invariant
            0 <= i <= body@.len(),
            body@.to_set() == p.body_nodes@,
            body@.no_duplicates(),
            exit_node == loop_exit_node(*graph, p@),
            header_node == crate::reducer::owner_of(*graph, p.header),
            forall|j: int| 0 <= j < i ==> (#[trigger] body@[j]) < n,
            forall|j: int| 0 <= j < i ==> !(#[trigger] body@[j] == exit_node && Some(exit_node) != header_node),
            count == body@.take(i as int).to_set().remove(exit_node).len(),
            count <= i,
        decreases body@.len() - i,
    {
        let x = body[i];
        if x >= n {
            proof {
                assert(body@.to_set().contains(x));
                assert(p@.1.contains(x));
            }
            return false;
        }
        if x == exit_node && Some(exit_node) != header_node {
            proof {
                assert(body@.to_set().contains(x));
                assert(loop_body_set(*graph, p@).contains(x));
            }
            return false;
        }
        proof {
            let t0 = body@.take(i as int);
            let t1 = body@.take(i + 1);
            assert(t1 =~= t0.push(x));
            t0.lemma_push_to_set_commute(x);
            assert(!t0.contains(x)) by {
                if t0.contains(x) {
                    let q = choose|q: int| 0 <= q < t0.len() && t0[q] == x;
                    assert(body@[q] == body@[i as int]);
                }
            }
            assert(!t0.to_set().contains(x));
            if x != exit_node {
                assert(t1.to_set().remove(exit_node) =~= t0.to_set().remove(exit_node).insert(x));
            } else {
                assert(t1.to_set().remove(exit_node) =~= t0.to_set().remove(exit_node));
            }
        }
        if x != exit_node {
            count = count + 1;
        }
        i += 1;
    }
    proof {
        assert(body@.take(i as int) =~= body@);
        assert forall|x: NodeId| #[trigger] p.body_nodes@.contains(x) implies x < n && !(x == exit_node && Some(exit_node)
            != header_node) by {
            assert(body@.to_set().contains(x));
            let j = choose|j: int| 0 <= j < body@.len() && body@[j] == x;
        }
        assert(!loop_body_set(*graph, p@).contains(loop_exit_node(*graph, p@)));
        assert(loop_collapse_set(*graph, p@) == body@.to_set().remove(exit_node));
    }
    count >= 2
}

// ---------------------------------------------------------------------
// One step.
// ---------------------------------------------------------------------

/// Perform one reduction step on the graph (see `is_reduction_step`):
/// the first OR chain, else the first if pattern inside a loop, else the
/// first loop pattern that collapses (innermost first), else the first if
/// pattern with something to collapse, else the first switch pattern, else
/// straight-line sequences. Returns whether a pattern was collapsed; the
/// graph is then no larger (and smaller, but where a switch collapsed its
/// selector alone).
#[verifier::loop_isolation(false)]
pub fn reduce_one_step(
    graph: &mut RegionGraph,
    cfg: &Cfg,
    loops: &Vec<NaturalLoop>,
    loop_info: &LoopInfo,
    switch_info: &SwitchInfo,
) -> (res: bool)
    requires
        old(graph).wf(),
        cfg.wf(),
        nodes_within(*old(graph), *cfg),
        old(graph).spec_generation() < u64::MAX,
    ensures
        final(graph).wf(),
        nodes_within(*final(graph), *cfg),
        final(graph).spec_generation() <= old(graph).spec_generation() + 1,
        !res ==> *final(graph) == *old(graph),
        res ==> final(graph).nodes().len() <= old(graph).nodes().len(),
        all_reachable(*old(graph)) ==> all_reachable(*final(graph)),
        is_reduction_step(
            *old(graph),
            *final(graph),
            *cfg,
            loops@,
            loop_info.headers@,
            loop_info.back_edge_sources@,
            switch_facts(*switch_info),
            res,
        ),
{
    let ghost g0 = *graph;
    let ghost sw = switch_facts(*switch_info);
    let ghost headers = loop_info.headers@;
    let ghost backs = loop_info.back_edge_sources@;
    let ors = find_or_chain_patterns(graph, cfg, loop_info);
    let ghost orv = ors@.map_values(|q: OrChainPattern| q@);
    if ors.len() > 0 {
        proof {
            lemma_or_chains_in_graph(g0, *cfg, backs, orv);
            assert(orv[0] == ors@[0]@);
            assert(or_chain_in_graph(g0, orv[0]));
        }
        let res = collapse_or_chain(graph, cfg, &ors[0]);
        proof {
            reveal(is_reduction_step);
            assert(is_reduction_step(g0, *graph, *cfg, loops@, headers, backs, sw, res));
        }
        return res;
    }
    let ifs = find_if_patterns(graph, cfg, loop_info);
    let ghost ifv = ifs@.map_values(|p: IfPattern| p@);
    let mut i: usize = 0;
    while i < ifs.len()
        invariant
            *graph == g0,
            g0.wf(),
            0 <= i <= ifs@.len(),
            ifv == ifs@.map_values(|p: IfPattern| p@),
            forall|j: int| 0 <= j < i ==> !in_loop_if(g0, *cfg, loops@, #[trigger] ifv[j]),
        decreases ifs@.len() - i,
    {
        if is_in_loop_if(graph, cfg, loops, &ifs[i]) {
            assert(ifv[i as int] == ifs@[i as int]@);
            let res = collapse_if(graph, cfg, &ifs[i]);
            proof {
                assert(first_in_loop_if(g0, *cfg, loops@, ifv, i as int));
                assert(if_step(g0, *graph, *cfg, ifv[i as int], res));
                if res {
                    let (k, r) = choose|k: NodeId, r: Region| is_if_region_of(g0, *cfg, ifv[i as int], r) && is_collapse_of(
                        g0,
                        *graph,
                        if_collapse_set(ifv[i as int]),
                        r,
                        k,
                    );
                    lemma_if_region_within(g0, *cfg, ifv[i as int], r);
                    lemma_collapse_within(g0, *graph, *cfg, if_collapse_set(ifv[i as int]), r, k);
                    assert(if_collapse_set(ifv[i as int]).contains(ifv[i as int].0));
                    lemma_collapse_all_reachable(g0, *graph, if_collapse_set(ifv[i as int]), r, k);
                }
                reveal(is_reduction_step);
                assert(is_reduction_step(g0, *graph, *cfg, loops@, headers, backs, sw, res));
            }
            return res;
        }
        i += 1;
    }
    proof {
        assert(!exists|q: int| #[trigger] first_in_loop_if(g0, *cfg, loops@, ifv, q));
    }
    let lps = find_loop_patterns(graph, cfg, loops);
    let ghost lpv = lps@.map_values(|p: LoopPattern| p@);
    let mut j: usize = 0;
    while j < lps.len()
        invariant
            *graph == g0,
            g0.wf(),
            0 <= j <= lps@.len(),
            lpv == lps@.map_values(|p: LoopPattern| p@),
            lpv == loop_patterns_of(g0, *cfg, loops@),
            forall|q: int| 0 <= q < j ==> !loop_collapsible(g0, #[trigger] lpv[q]),
        decreases lps@.len() - j,
    {
        if is_loop_collapsible(graph, &lps[j]) {
            assert(lpv[j as int] == lps@[j as int]@);
            let res = collapse_loop(graph, cfg, &lps[j]);
            proof {
                assert(first_loop(g0, lpv, j as int));
                let (k, r) = choose|k: NodeId, r: Region| is_loop_region_of(g0, lpv[j as int], r) && is_collapse_of(
                    g0,
                    *graph,
                    loop_collapse_set(g0, lpv[j as int]),
                    r,
                    k,
                );
                match r {
                    Region::Loop { body, .. } => {
                        lemma_region_of_nodes_within(g0, *cfg, loop_body_set(g0, lpv[j as int]), *body);
                    },
                    _ => {},
                }
                assert(region_within(r, cfg.blocks.len() as nat));
                lemma_collapse_within(g0, *graph, *cfg, loop_collapse_set(g0, lpv[j as int]), r, k);
                let lcs = loop_collapse_set(g0, lpv[j as int]);
                assert(lcs != Set::<NodeId>::empty()) by {
                    if lcs == Set::<NodeId>::empty() {
                        assert(lcs.len() == 0);
                    }
                }
                assert forall|x: NodeId| #[trigger] lcs.contains(x) implies x < g0.nodes().len() by {
                    assert(lpv[j as int].1.contains(x));
                }
                lemma_collapse_all_reachable(g0, *graph, lcs, r, k);
                assert(step_after_loops(g0, *graph, *cfg, loops@, headers, backs, sw, res));
                reveal(is_reduction_step);
                assert(is_reduction_step(g0, *graph, *cfg, loops@, headers, backs, sw, res));
            }
            return res;
        }
        j += 1;
    }
    proof {
        assert(!exists|q: int| #[trigger] first_loop(g0, lpv, q));
    }
    let ifs2 = find_if_patterns(graph, cfg, loop_info);
    let ghost ifv2 = ifs2@.map_values(|p: IfPattern| p@);
    let mut i: usize = 0;
    while i < ifs2.len()
        invariant
            *graph == g0,
            g0.wf(),
            0 <= i <= ifs2@.len(),
            ifv2 == ifs2@.map_values(|p: IfPattern| p@),
            forall|q: int| 0 <= q < i ==> !other_if(g0, *cfg, #[trigger] ifv2[q]),
        decreases ifs2@.len() - i,
    {
        if is_other_if(graph, cfg, &ifs2[i]) {
            assert(ifv2[i as int] == ifs2@[i as int]@);
            proof {
                assert(if_collapse_set(ifv2[i as int]).contains(ifv2[i as int].0));
            }
            let res = collapse_if(graph, cfg, &ifs2[i]);
            proof {
                assert(first_other_if(g0, *cfg, ifv2, i as int));
                if res {
                    let (k, r) = choose|k: NodeId, r: Region| is_if_region_of(g0, *cfg, ifv2[i as int], r) && is_collapse_of(
                        g0,
                        *graph,
                        if_collapse_set(ifv2[i as int]),
                        r,
                        k,
                    );
                    lemma_if_region_within(g0, *cfg, ifv2[i as int], r);
                    lemma_collapse_within(g0, *graph, *cfg, if_collapse_set(ifv2[i as int]), r, k);
                    lemma_collapse_all_reachable(g0, *graph, if_collapse_set(ifv2[i as int]), r, k);
                }
                assert(step_after_loops(g0, *graph, *cfg, loops@, headers, backs, sw, res));
                reveal(is_reduction_step);
                assert(is_reduction_step(g0, *graph, *cfg, loops@, headers, backs, sw, res));
            }
            return res;
        }
        i += 1;
    }
    proof {
        assert(!exists|q: int| #[trigger] first_other_if(g0, *cfg, ifv2, q));
    }
    let sws = find_switch_patterns(graph, cfg, switch_info);
    let ghost swv = sws@.map_values(|q: SwitchPattern| q@);
    proof {
        assert(is_switch_pattern_list(g0, *cfg, sw.0, sw.1, sw.2, swv));
    }
    if sws.len() > 0 {
        proof {
            lemma_first_switch_in_graph(g0, *cfg, sw, swv);
            assert(swv[0] == sws@[0]@);
        }
        collapse_switch(graph, cfg, &sws[0]);
        proof {
            let p = swv[0];
            let set = switch_collapse_set(p);
            let (k, r) = choose|k: NodeId, r: Region| is_switch_region_of(g0, p, r) && region_within(
                r,
                cfg.blocks.len() as nat,
            ) && is_collapse_of(g0, *graph, set, r, k);
            lemma_collapse_within(g0, *graph, *cfg, set, r, k);
            assert(set.contains(p.0));
            lemma_collapse_all_reachable(g0, *graph, set, r, k);
            crate::region_graph::lemma_collapse_node_count(g0, *graph, set, r, k);
            if set.len() == 0 {
                set.lemma_len0_is_empty();
            }
            assert(switch_step(g0, *graph, p));
            assert(step_after_ifs(g0, *graph, *cfg, sw, true));
            assert(step_after_loops(g0, *graph, *cfg, loops@, headers, backs, sw, true));
            reveal(is_reduction_step);
            assert(is_reduction_step(g0, *graph, *cfg, loops@, headers, backs, sw, true));
        }
        return true;
    }
    let res = collapse_sequences(graph);
    proof {
        let seqs = choose|seqs: Seq<Seq<NodeId>>| #![trigger are_found_sequences(g0.edges(), g0.nodes().len(), seqs)] {
            &&& are_found_sequences(g0.edges(), g0.nodes().len(), seqs)
            &&& res == (seqs.len() > 0)
            &&& !res ==> *graph == g0
            &&& res ==> exists|k: NodeId, r: Region| is_sequence_of(
                r,
                seqs[0].map_values(|x: NodeId| node_region(g0.nodes()[x as int])),
            ) && is_collapse_of(g0, *graph, seqs[0].to_set(), r, k)
        };
        if res {
            let s = seqs[0];
            assert(crate::region_graph::is_straight_line(g0.edges(), g0.nodes().len(), s));
            let rs = s.map_values(|x: NodeId| node_region(g0.nodes()[x as int]));
            let (k, r) = choose|k: NodeId, r: Region| is_sequence_of(r, rs) && is_collapse_of(g0, *graph, s.to_set(), r, k);
            s.unique_seq_to_set();
            assert forall|x: NodeId| #[trigger] s.to_set().contains(x) implies x < g0.nodes().len() by {
                let q = choose|q: int| 0 <= q < s.len() && s[q] == x;
            }
            assert forall|q: int| 0 <= q < rs.len() implies region_within(#[trigger] rs[q], cfg.blocks.len() as nat) by {
                lemma_node_within(g0, *cfg, s[q]);
            }
            lemma_sequence_within(r, rs, cfg.blocks.len() as nat);
            lemma_collapse_within(g0, *graph, *cfg, s.to_set(), r, k);
            assert(s.to_set().contains(s[0]));
            lemma_collapse_all_reachable(g0, *graph, s.to_set(), r, k);
            crate::region_graph::lemma_collapse_node_count(g0, *graph, s.to_set(), r, k);
        }
        assert(sequence_step(g0, *graph, res));
        assert(step_after_ifs(g0, *graph, *cfg, sw, res));
        assert(step_after_loops(g0, *graph, *cfg, loops@, headers, backs, sw, res));
        reveal(is_reduction_step);
        assert(is_reduction_step(g0, *graph, *cfg, loops@, headers, backs, sw, res));
    }
    res
}

// ---------------------------------------------------------------------
// Dead code.
// ---------------------------------------------------------------------

/// The nodes of `g` that the entry does not reach.
pub open spec fn unreachable_nodes(g: RegionGraph) -> Set<NodeId> {
    Set::new(|x: NodeId| x < g.nodes().len() && !reaches(forward_adj(g.edges()), g.spec_entry(), x))
}

/// Remove the nodes that are not reachable from the entry (dead code, such
/// as code after a return): the nodes left are exactly the reachable ones.
pub fn remove_unreachable_nodes(graph: &mut RegionGraph)
    requires
        old(graph).wf(),
    ensures
        final(graph).wf(),
        is_removal_of(*old(graph), *final(graph), unreachable_nodes(*old(graph))),
{
    let ghost g0 = *graph;
    let reachable = crate::reducer::compute_reachable_nodes(graph);
    let n = graph.node_count();
    let mut unreachable: HashSet<NodeId> = HashSet::new();
    let mut x: usize = 0;
    while x < n
        invariant
            *graph == g0,
            n == g0.nodes().len(),
            0 <= x <= n,
            forall|y: NodeId| #[trigger] reachable@.contains(y) <==> reaches(forward_adj(g0.edges()), g0.spec_entry(), y),
            forall|y: NodeId| #[trigger] unreachable@.contains(y) <==> y < x && !reaches(forward_adj(g0.edges()), g0.spec_entry(), y),
        decreases n - x,
    {
        if !reachable.contains(&x) {
            unreachable.insert(x);
        }
        x += 1;
    }
    proof {
        assert(unreachable@ =~= unreachable_nodes(g0));
        assert(is_path(forward_adj(g0.edges()), seq![g0.spec_entry()]));
        assert(reaches(forward_adj(g0.edges()), g0.spec_entry(), g0.spec_entry()));
    }
    graph.remove_nodes(&unreachable);
}

// ---------------------------------------------------------------------
// The reduction loop.
// ---------------------------------------------------------------------

/// `g` is the region graph built from `cfg`: block `i` is node `i`, held
/// alone by it, and every edge of the control-flow graph is an edge.
pub open spec fn is_graph_of_cfg(g: RegionGraph, cfg: Cfg) -> bool {
    &&& g.wf()
    &&& g.nodes().len() == cfg.blocks.len()
    &&& forall|i: int| 0 <= i < cfg.blocks.len() ==> g.nodes()[i] == RegionNode::Block(i as NodeId)
    &&& forall|c: NodeId| #[trigger] g.owners().dom().contains(c) <==> c < cfg.blocks.len()
    &&& forall|c: NodeId| c < cfg.blocks.len() ==> #[trigger] g.owners()[c] == c
    &&& forall|r: NodeId| r < cfg.blocks.len() ==> #[trigger] g.groups()[r] == set![r]
    &&& g.edges() == cfg.edges@.map_values(|e: CfgEdge| (e.source, e.target, e.kind)).to_multiset()
    &&& g.spec_entry() == cfg.entry
    &&& g.spec_generation() == 0
}

/// `after` is `before` with an edge virtualized (see `virtualize_edge`):
/// a predecessor of the first node with several predecessors is collapsed
/// into a goto to it; where there is no such node, the first two nodes are
/// collapsed into a sequence.
#[verifier::opaque]
pub open spec fn is_virtualization(before: RegionGraph, after: RegionGraph) -> bool {
    &&& after.wf()
    &&& forall|node: NodeId| #[trigger] is_first_join(before, node) ==> exists|p: NodeId, k: NodeId|
        edges_between(before.edges(), p, node) > 0 && is_collapse_of(
            before,
            after,
            set![p],
            Region::Goto { target: goto_target(before.nodes()[node as int]) },
            k,
        )
    &&& (forall|node: NodeId| !#[trigger] is_first_join(before, node)) && before.nodes().len() >= 2
        ==> exists|k: NodeId, r: Region| is_sequence_of(
        r,
        seq![node_region(before.nodes()[0]), node_region(before.nodes()[1])],
    ) && is_collapse_of(before, after, set![0, 1], r, k)
    &&& (forall|node: NodeId| !#[trigger] is_first_join(before, node)) && before.nodes().len() < 2 ==> after == before
}

/// One round of the reduction loop: a reduction step, and where it made no
/// progress, an edge virtualized.
#[verifier::opaque]
pub open spec fn is_reduction_round(
    before: RegionGraph,
    after: RegionGraph,
    cfg: Cfg,
    loops: Seq<NaturalLoop>,
    headers: Set<NodeId>,
    back_edge_sources: Set<NodeId>,
    sw: SwitchFacts,
) -> bool {
    exists|mid: RegionGraph, progressed: bool| #[trigger] is_reduction_step(before, mid, cfg, loops, headers, back_edge_sources, sw, progressed)
        && if progressed {
        after == mid
    } else {
        mid == before && is_virtualization(before, after)
    }
}

/// `res` is what the reduction of `cfg` gives: from the graph of `cfg`
/// without its unreachable nodes, rounds are made while the graph has more than one node, at most
/// `MAX_ITERATIONS` of them (`gs` holds the graphs between them). Where the
/// graph came down to one node within the limit, the result is its region;
/// otherwise it is the sequence of the regions of the nodes left.
pub open spec fn is_reduction_of(
    cfg: Cfg,
    loops: Seq<NaturalLoop>,
    headers: Set<NodeId>,
    back_edge_sources: Set<NodeId>,
    sw: SwitchFacts,
    gs: Seq<RegionGraph>,
    res: Region,
) -> bool {
    &&& 1 <= gs.len() <= MAX_ITERATIONS + 1
    &&& exists|g: RegionGraph| #[trigger] is_graph_of_cfg(g, cfg) && is_removal_of(g, gs[0], unreachable_nodes(g))
    &&& forall|i: int| #![trigger gs[i]] 0 <= i < gs.len() - 1 ==> gs[i].nodes().len() != 1 && is_reduction_round(
        gs[i],
        gs[i + 1],
        cfg,
        loops,
        headers,
        back_edge_sources,
        sw,
    )
    &&& gs.len() - 1 < MAX_ITERATIONS ==> gs.last().nodes().len() == 1 && res == node_region(gs.last().nodes()[0])
    &&& gs.len() - 1 >= MAX_ITERATIONS ==> is_sequence_of(res, gs.last().nodes().map_values(|n: RegionNode| node_region(n)))
}

proof fn lemma_virtualization_within(before: RegionGraph, after: RegionGraph, cfg: Cfg)
    requires
        before.wf(),
        nodes_within(before, cfg),
        is_virtualization(before, after),
    ensures
        nodes_within(after, cfg),
        after.spec_generation() <= before.spec_generation() + 1,
{
    reveal(is_virtualization);
    let n = cfg.blocks.len() as nat;
    if exists|node: NodeId| #[trigger] is_first_join(before, node) {
        let node = choose|node: NodeId| #[trigger] is_first_join(before, node);
        let (p, k) = choose|p: NodeId, k: NodeId| edges_between(before.edges(), p, node) > 0 && is_collapse_of(
            before,
            after,
            set![p],
            Region::Goto { target: goto_target(before.nodes()[node as int]) },
            k,
        );
        lemma_collapse_within(before, after, cfg, set![p], Region::Goto { target: goto_target(before.nodes()[node as int]) }, k);
    } else if before.nodes().len() >= 2 {
        let rs = seq![node_region(before.nodes()[0]), node_region(before.nodes()[1])];
        let (k, r) = choose|k: NodeId, r: Region| is_sequence_of(r, rs) && is_collapse_of(before, after, set![0, 1], r, k);
        lemma_node_within(before, cfg, 0);
        lemma_node_within(before, cfg, 1);
        assert forall|q: int| 0 <= q < rs.len() implies region_within(#[trigger] rs[q], n) by {}
        lemma_sequence_within(r, rs, n);
        lemma_collapse_within(before, after, cfg, set![0, 1], r, k);
    }
}

/// Reduce a control-flow graph to a single region (see `is_reduction_of`):
/// its region graph is reduced step by step; where a step makes no
/// progress, an edge is virtualized into a goto. After `MAX_ITERATIONS`
/// rounds the nodes left are put in sequence.
#[verifier::loop_isolation(false)]
#[verifier::rlimit(50)]
pub fn reduce_to_region(cfg: &Cfg, loops: &Vec<NaturalLoop>, loop_info: &LoopInfo, switch_info: &SwitchInfo) -> (res: Region)
    requires
        cfg.wf(),
    ensures
        exists|gs: Seq<RegionGraph>| #[trigger] is_reduction_of(
            *cfg,
            loops@,
            loop_info.headers@,
            loop_info.back_edge_sources@,
            switch_facts(*switch_info),
            gs,
            res,
        ),
{
    let ghost headers = loop_info.headers@;
    let ghost backs = loop_info.back_edge_sources@;
    let ghost sw = switch_facts(*switch_info);
    let mut graph = RegionGraph::from_cfg(cfg);
    let ghost g_cfg = graph;
    proof {
        assert forall|i: int| 0 <= i < graph.nodes().len() implies region_within(
            #[trigger] node_region(graph.nodes()[i]),
            cfg.blocks.len() as nat,
        ) by {
            assert(graph.nodes()[i] == RegionNode::Block(i as NodeId));
        }
        assert(is_graph_of_cfg(g_cfg, *cfg));
    }
    remove_unreachable_nodes(&mut graph);
    proof {
        let pre = crate::region_graph::survivors(g_cfg.nodes().len(), unreachable_nodes(g_cfg));
        assert forall|i: int| 0 <= i < graph.nodes().len() implies region_within(
            #[trigger] node_region(graph.nodes()[i]),
            cfg.blocks.len() as nat,
        ) by {
            assert(graph.nodes()[i] == g_cfg.nodes()[pre[i]]);
            lemma_node_within(g_cfg, *cfg, pre[i] as NodeId);
        }
    }
    let ghost mut gs: Seq<RegionGraph> = seq![graph];
    let mut iterations: usize = 0;
    while !graph.is_fully_reduced() && iterations < MAX_ITERATIONS
        invariant
            graph.wf(),
            nodes_within(graph, *cfg),
            graph.spec_generation() <= 2 * iterations,
            iterations <= MAX_ITERATIONS,
            gs.len() == iterations + 1,
            gs.last() == graph,
            is_graph_of_cfg(g_cfg, *cfg),
            is_removal_of(g_cfg, gs[0], unreachable_nodes(g_cfg)),
            forall|i: int| #![trigger gs[i]] 0 <= i < gs.len() - 1 ==> gs[i].nodes().len() != 1 && is_reduction_round(
                gs[i],
                gs[i + 1],
                *cfg,
                loops@,
                headers,
                backs,
                sw,
            ),
        decreases MAX_ITERATIONS - iterations,
    {
        iterations += 1;
        let ghost before = graph;
        let progress = reduce_one_step(&mut graph, cfg, loops, loop_info, switch_info);
        let ghost mid = graph;
        if !progress {
            virtualize_edge(&mut graph);
            proof {
                reveal(is_virtualization);
                assert(is_virtualization(before, graph));
                lemma_virtualization_within(before, graph, *cfg);
            }
        }
        proof {
            reveal(is_reduction_round);
            assert(is_reduction_round(before, graph, *cfg, loops@, headers, backs, sw));
            let old_gs = gs;
            gs = gs.push(graph);
            assert forall|i: int| #![trigger gs[i]] 0 <= i < gs.len() - 1 implies gs[i].nodes().len() != 1 && is_reduction_round(
                gs[i],
                gs[i + 1],
                *cfg,
                loops@,
                headers,
                backs,
                sw,
            ) by {
                assert(gs[i] == old_gs[i]);
                if i < old_gs.len() - 1 {
                    assert(gs[i + 1] == old_gs[i + 1]);
                } else {
                    assert(gs[i] == before);
                }
            }
        }
    }
    if iterations >= MAX_ITERATIONS {
        let res = create_fallback_region(graph);
        assert(is_reduction_of(*cfg, loops@, headers, backs, sw, gs, res));
        return res;
    }
    let res = match graph.into_region() {
        Some(r) => r,
        None => Region::Empty,
    };
    assert(is_reduction_of(*cfg, loops@, headers, backs, sw, gs, res));
    res
}

} // verus!
