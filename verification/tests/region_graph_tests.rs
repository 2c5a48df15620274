use std::collections::HashSet;

use structurer::cfg::{BasicBlock, Cfg, CfgEdge, EdgeKind};
use structurer::region::Region;
use structurer::region_graph::{RegionGraph, RegionNode};

fn graph_block(start: usize, end: usize, is_exit: bool) -> BasicBlock {
    BasicBlock { start, end, is_exit }
}

fn graph_edge(source: usize, target: usize, kind: EdgeKind) -> CfgEdge {
    CfgEdge { source, target, kind }
}

/// The graph of `Int; JNull +1; Int; Ret`: a condition block, a block it
/// falls through to, and the returning block both reach.
fn cfg_if_without_else() -> Cfg {
    Cfg {
        blocks: vec![graph_block(0, 1, false), graph_block(2, 2, false), graph_block(3, 3, true)],
        edges: vec![
            graph_edge(0, 1, EdgeKind::ConditionalFalse),
            graph_edge(0, 2, EdgeKind::ConditionalTrue),
            graph_edge(1, 2, EdgeKind::FallThrough),
        ],
        entry: 0,
    }
}

/// The graph of straight-line code: one block that returns.
fn cfg_single_block() -> Cfg {
    Cfg { blocks: vec![graph_block(0, 3, true)], edges: Vec::new(), entry: 0 }
}

/// The graph of `Int; JAlways +0; Ret`: two blocks, one jumping to the next.
fn cfg_two_blocks() -> Cfg {
    Cfg {
        blocks: vec![graph_block(0, 1, false), graph_block(2, 2, true)],
        edges: vec![graph_edge(0, 1, EdgeKind::Unconditional)],
        entry: 0,
    }
}

/// An if-else: condition 0, then 2, else 1, both falling into the exit 3.
fn cfg_if_else_graph() -> Cfg {
    Cfg {
        blocks: vec![
            graph_block(0, 1, false),
            graph_block(2, 3, false),
            graph_block(4, 4, false),
            graph_block(5, 5, true),
        ],
        edges: vec![
            graph_edge(0, 1, EdgeKind::ConditionalFalse),
            graph_edge(0, 2, EdgeKind::ConditionalTrue),
            graph_edge(1, 3, EdgeKind::Unconditional),
            graph_edge(2, 3, EdgeKind::FallThrough),
        ],
        entry: 0,
    }
}

/// A chain of `n` blocks, each jumping to the next.
fn cfg_chain(n: usize) -> Cfg {
    let mut blocks = Vec::new();
    let mut edges = Vec::new();
    for i in 0..n {
        blocks.push(graph_block(i, i, i + 1 == n));
        if i + 1 < n {
            edges.push(graph_edge(i, i + 1, EdgeKind::FallThrough));
        }
    }
    Cfg { blocks, edges, entry: 0 }
}

#[test]
fn test_from_cfg_preserves_structure() {
    let cfg = cfg_if_without_else();
    let region_graph = RegionGraph::from_cfg(&cfg);

    // Should have same number of nodes
    assert_eq!(region_graph.node_count(), cfg.blocks.len());

    // Entry should be preserved
    assert!(region_graph.get_region_node(cfg.entry).is_some());
}

#[test]
fn test_collapse_simple() {
    let cfg = cfg_single_block();
    let region_graph = RegionGraph::from_cfg(&cfg);

    // Single block CFG
    assert_eq!(region_graph.node_count(), 1);

    // Already fully reduced
    assert!(region_graph.is_fully_reduced());
}

#[test]
fn test_collapse_two_blocks() {
    let cfg = cfg_two_blocks();
    let mut region_graph = RegionGraph::from_cfg(&cfg);

    let initial_count = region_graph.node_count();
    println!("Initial node count: {}", initial_count);

    if initial_count >= 2 {
        // Get the first two nodes
        let nodes: Vec<_> = region_graph.node_indices().into_iter().take(2).collect();
        let node_set: HashSet<_> = nodes.into_iter().collect();

        // Collapse them
        let dummy_region = Region::Empty;
        let new_node = region_graph.collapse(&node_set, dummy_region);

        assert_eq!(region_graph.node_count(), initial_count - 1);
        assert!(region_graph.get_node(new_node).is_some());
    }
}

#[test]
fn test_reverse_postorder() {
    let cfg = cfg_if_without_else();
    let region_graph = RegionGraph::from_cfg(&cfg);

    let rpo = region_graph.nodes_in_reverse_postorder();

    // Entry should be first in reverse postorder
    assert_eq!(rpo[0], region_graph.entry());

    // All nodes should be included
    assert_eq!(rpo.len(), region_graph.node_count());
}

#[test]
fn test_find_sequences() {
    // Linear code should form one sequence
    let cfg = cfg_single_block();
    let region_graph = RegionGraph::from_cfg(&cfg);

    // Single block - no sequences to find
    let sequences = region_graph.find_sequences();
    assert!(sequences.is_empty() || sequences.iter().all(|s| s.len() >= 2));
}

#[test]
fn test_node_mappings() {
    let cfg = cfg_if_without_else();
    let region_graph = RegionGraph::from_cfg(&cfg);

    // Every CFG node should have a mapping
    for cfg_node in 0..cfg.blocks.len() {
        let region_node = region_graph.get_region_node(cfg_node);
        assert!(region_node.is_some(), "CFG node {:?} should have mapping", cfg_node);

        // And the reverse mapping should include this CFG node
        let cfg_nodes = region_graph.get_cfg_nodes(region_node.unwrap());
        assert!(cfg_nodes.is_some());
        assert!(cfg_nodes.unwrap().contains(&cfg_node));
    }
}

#[test]
fn from_cfg_copies_edges_and_weights() {
    let cfg = cfg_if_else_graph();
    let g = RegionGraph::from_cfg(&cfg);
    assert_eq!(g.node_count(), 4);
    assert_eq!(g.entry(), 0);
    assert_eq!(g.generation(), 0);
    for i in 0..4 {
        assert!(matches!(g.get_node(i), Some(RegionNode::Block(b)) if *b == i));
        assert_eq!(g.cfg_owner(i), Some(i));
    }
    assert!(g.get_node(4).is_none());
    assert!(!g.contains(4));
    let mut succs = g.successors(0);
    succs.sort();
    assert_eq!(succs, vec![1, 2]);
    let mut preds = g.predecessors(3);
    preds.sort();
    assert_eq!(preds, vec![1, 2]);
    let mut kinds = g.successors_with_edges(0);
    kinds.sort_by_key(|p| p.0);
    assert_eq!(kinds, vec![(1, EdgeKind::ConditionalFalse), (2, EdgeKind::ConditionalTrue)]);
    assert_eq!(g.node_indices(), vec![0, 1, 2, 3]);
}

#[test]
fn successors_no_exceptions_skips_handlers() {
    let cfg = Cfg {
        blocks: vec![graph_block(0, 0, false), graph_block(1, 1, true), graph_block(2, 2, true)],
        edges: vec![graph_edge(0, 1, EdgeKind::FallThrough), graph_edge(0, 2, EdgeKind::ExceptionHandler)],
        entry: 0,
    };
    let g = RegionGraph::from_cfg(&cfg);
    assert_eq!(g.successors_no_exceptions(0), vec![1]);
    assert_eq!(g.successors(0).len(), 2);
}

#[test]
fn collapse_reroutes_boundary_edges() {
    // Collapse the two branches of an if-else into one node.
    let cfg = cfg_if_else_graph();
    let mut g = RegionGraph::from_cfg(&cfg);
    let set: HashSet<usize> = [1usize, 2].into_iter().collect();
    let new_node = g.collapse(&set, Region::Empty);
    assert_eq!(g.node_count(), 3);
    assert_eq!(new_node, 2);
    assert_eq!(g.generation(), 1);
    // One edge in from the condition, one edge out to the exit.
    assert_eq!(g.predecessors(new_node), vec![0]);
    assert_eq!(g.successors(new_node).len(), 1);
    let exit = g.cfg_owner(3).unwrap();
    assert_eq!(g.successors(new_node), vec![exit]);
    // Both blocks are held by the new node.
    assert_eq!(g.cfg_owner(1), Some(new_node));
    assert_eq!(g.cfg_owner(2), Some(new_node));
    let held = g.get_cfg_nodes(new_node).unwrap();
    assert_eq!(held.len(), 2);
    assert!(matches!(g.get_node(new_node), Some(RegionNode::Collapsed(Region::Empty))));
    // The entry is untouched.
    assert_eq!(g.entry(), 0);
    assert_eq!(g.cfg_owner(0), Some(0));
}

#[test]
fn collapse_of_entry_moves_entry() {
    let cfg = cfg_chain(3);
    let mut g = RegionGraph::from_cfg(&cfg);
    let set: HashSet<usize> = [0usize, 1].into_iter().collect();
    let new_node = g.collapse(&set, Region::Empty);
    assert_eq!(g.entry(), new_node);
    assert_eq!(g.node_count(), 2);
    // Block 2 was moved into the freed index 0.
    assert_eq!(g.cfg_owner(2), Some(0));
    assert_eq!(g.successors(new_node), vec![0]);
}

#[test]
fn collapse_sequence_builds_sequence_region() {
    let cfg = cfg_chain(3);
    let mut g = RegionGraph::from_cfg(&cfg);
    let k = g.collapse_sequence(vec![0, 1, 2]).unwrap();
    assert!(g.is_fully_reduced());
    match g.get_node(k) {
        Some(RegionNode::Collapsed(Region::Sequence(parts))) => {
            assert_eq!(parts.len(), 3);
            assert!(matches!(parts[0], Region::Block(0)));
            assert!(matches!(parts[2], Region::Block(2)));
        },
        _ => panic!("Expected Sequence region"),
    }
    let region = g.into_region().unwrap();
    assert_eq!(region.block_count(), 3);
}

#[test]
fn collapse_sequence_rejects_non_chains() {
    let cfg = cfg_if_else_graph();
    let mut g = RegionGraph::from_cfg(&cfg);
    // Too short.
    assert!(g.collapse_sequence(vec![0]).is_none());
    // Node 0 has two successors.
    assert!(g.collapse_sequence(vec![0, 1]).is_none());
    // 1 -> 3 is a chain link, 3 -> 2 is not.
    assert!(g.collapse_sequence(vec![1, 3, 2]).is_none());
    // A repeated node is no linear chain.
    assert!(g.collapse_sequence(vec![1, 3, 1]).is_none());
    assert_eq!(g.node_count(), 4);
    assert_eq!(g.generation(), 0);
    // A real link collapses.
    assert!(g.collapse_sequence(vec![1, 3]).is_some());
    assert_eq!(g.node_count(), 3);
}

#[test]
fn find_sequences_follows_chains() {
    let cfg = cfg_chain(4);
    let g = RegionGraph::from_cfg(&cfg);
    assert_eq!(g.find_sequences(), vec![vec![0, 1, 2, 3]]);
    // In an if-else only the two branch blocks have a single successor, but
    // their successor has two predecessors.
    let g2 = RegionGraph::from_cfg(&cfg_if_else_graph());
    assert!(g2.find_sequences().is_empty());
}

#[test]
fn find_sequences_stops_on_cycles() {
    // 0 -> 1 -> 2 -> 1: the chain from 0 stops before revisiting 1.
    let cfg = Cfg {
        blocks: vec![graph_block(0, 0, false), graph_block(1, 1, false), graph_block(2, 2, false)],
        edges: vec![
            graph_edge(0, 1, EdgeKind::FallThrough),
            graph_edge(1, 2, EdgeKind::FallThrough),
            graph_edge(2, 1, EdgeKind::Unconditional),
        ],
        entry: 0,
    };
    let g = RegionGraph::from_cfg(&cfg);
    // Node 1 has two predecessors, so the chain from 0 stops at once; from
    // 1 the chain takes 2 and stops before coming back to 1.
    assert_eq!(g.find_sequences(), vec![vec![1, 2]]);
    // A block that only loops to itself starts no sequence.
    let self_loop = Cfg {
        blocks: vec![graph_block(0, 0, false)],
        edges: vec![graph_edge(0, 0, EdgeKind::Unconditional)],
        entry: 0,
    };
    let g2 = RegionGraph::from_cfg(&self_loop);
    assert!(g2.find_sequences().is_empty());
}

#[test]
fn reverse_postorder_puts_entry_first() {
    let g = RegionGraph::from_cfg(&cfg_if_else_graph());
    let rpo = g.nodes_in_reverse_postorder();
    assert_eq!(rpo.len(), 4);
    assert_eq!(rpo[0], 0);
    // The merge block comes after both branches.
    let pos = |x: usize| rpo.iter().position(|&n| n == x).unwrap();
    assert!(pos(3) > pos(1));
    assert!(pos(3) > pos(2));
    // Unreachable blocks are left out.
    let cfg = Cfg {
        blocks: vec![graph_block(0, 0, true), graph_block(1, 1, true)],
        edges: Vec::new(),
        entry: 0,
    };
    assert_eq!(RegionGraph::from_cfg(&cfg).nodes_in_reverse_postorder(), vec![0]);
}

#[test]
fn into_region_needs_single_node() {
    let g = RegionGraph::from_cfg(&cfg_two_blocks());
    assert!(g.into_region().is_none());
    let g1 = RegionGraph::from_cfg(&cfg_single_block());
    assert!(matches!(g1.into_region(), Some(Region::Block(0))));
}

#[test]
fn region_node_accessors() {
    let b = RegionNode::Block(3);
    assert!(b.is_block());
    assert!(!b.is_collapsed());
    assert_eq!(b.as_block(), Some(3));
    assert!(b.as_region().is_none());
    let c = RegionNode::Collapsed(Region::Goto { target: 1 });
    assert!(c.is_collapsed());
    assert!(!c.is_block());
    assert_eq!(c.as_block(), None);
    assert!(matches!(c.as_region(), Some(Region::Goto { target: 1 })));
    let cfg = cfg_if_else_graph();
    assert!(RegionNode::Block(3).terminates(&cfg));
    assert!(!RegionNode::Block(0).terminates(&cfg));
    assert!(RegionNode::Collapsed(Region::Block(3)).terminates(&cfg));
}
