use std::collections::HashSet;

use structurer::cfg::{BasicBlock, Cfg, CfgEdge, EdgeKind};
use structurer::reducer::{
    collapse_sequences, collect_path_nodes, compute_reachable_nodes, create_fallback_region, region_node_sort_key,
    virtualize_edge,
};
use structurer::region::Region;
use structurer::region_graph::{RegionGraph, RegionNode};

fn red_block(start: usize, end: usize, is_exit: bool) -> BasicBlock {
    BasicBlock { start, end, is_exit }
}

fn red_edge(source: usize, target: usize, kind: EdgeKind) -> CfgEdge {
    CfgEdge { source, target, kind }
}

fn red_if_else() -> Cfg {
    Cfg {
        blocks: vec![red_block(0, 1, false), red_block(2, 3, false), red_block(4, 4, false), red_block(5, 5, true)],
        edges: vec![
            red_edge(0, 1, EdgeKind::ConditionalFalse),
            red_edge(0, 2, EdgeKind::ConditionalTrue),
            red_edge(1, 3, EdgeKind::Unconditional),
            red_edge(2, 3, EdgeKind::FallThrough),
        ],
        entry: 0,
    }
}

#[test]
fn test_collapse_sequences() {
    // Test sequence collapsing: `Int; JAlways +0; Ret` makes two blocks.
    let cfg = Cfg {
        blocks: vec![red_block(0, 1, false), red_block(2, 2, true)],
        edges: vec![red_edge(0, 1, EdgeKind::Unconditional)],
        entry: 0,
    };
    let mut graph = RegionGraph::from_cfg(&cfg);

    let initial = graph.node_count();
    let collapsed = collapse_sequences(&mut graph);

    println!("Sequence collapse: {} -> {}, collapsed={}", initial, graph.node_count(), collapsed);
}

#[test]
fn collapse_sequences_reduces_chain() {
    let cfg = Cfg {
        blocks: vec![red_block(0, 1, false), red_block(2, 2, true)],
        edges: vec![red_edge(0, 1, EdgeKind::Unconditional)],
        entry: 0,
    };
    let mut graph = RegionGraph::from_cfg(&cfg);
    assert!(collapse_sequences(&mut graph));
    assert_eq!(graph.node_count(), 1);
    assert!(!collapse_sequences(&mut graph));
    assert_eq!(graph.node_count(), 1);
    let mut g2 = RegionGraph::from_cfg(&red_if_else());
    assert!(!collapse_sequences(&mut g2));
    assert_eq!(g2.node_count(), 4);
}

#[test]
fn reachable_nodes_leave_out_dead_code() {
    let mut cfg = red_if_else();
    // A dead block after the return, jumping into the merge.
    cfg.blocks.push(red_block(6, 6, true));
    cfg.edges.push(red_edge(4, 3, EdgeKind::FallThrough));
    let g = RegionGraph::from_cfg(&cfg);
    let reachable = compute_reachable_nodes(&g);
    let expected: HashSet<usize> = [0usize, 1, 2, 3].into_iter().collect();
    assert_eq!(reachable, expected);
}

#[test]
fn virtualize_edge_turns_a_predecessor_into_a_goto() {
    let mut g = RegionGraph::from_cfg(&red_if_else());
    virtualize_edge(&mut g);
    // Block 3 is the first node with two predecessors; one of them became
    // a goto to block 3, and the node count is unchanged.
    assert_eq!(g.node_count(), 4);
    assert_eq!(g.generation(), 1);
    let gotos: Vec<usize> = g
        .node_indices()
        .into_iter()
        .filter(|&n| matches!(g.get_node(n), Some(RegionNode::Collapsed(Region::Goto { target: 3 }))))
        .collect();
    assert_eq!(gotos.len(), 1);
}

#[test]
fn virtualize_edge_without_joins_collapses_first_pair() {
    let cfg = Cfg {
        blocks: vec![red_block(0, 0, false), red_block(1, 1, false), red_block(2, 2, true)],
        edges: vec![red_edge(0, 1, EdgeKind::FallThrough), red_edge(1, 2, EdgeKind::FallThrough)],
        entry: 0,
    };
    let mut g = RegionGraph::from_cfg(&cfg);
    virtualize_edge(&mut g);
    assert_eq!(g.node_count(), 2);
    let k = g.cfg_owner(0).unwrap();
    assert_eq!(g.cfg_owner(1), Some(k));
    match g.get_node(k) {
        Some(RegionNode::Collapsed(Region::Sequence(parts))) => {
            assert_eq!(parts.len(), 2);
            assert!(matches!(parts[0], Region::Block(0)));
            assert!(matches!(parts[1], Region::Block(1)));
        },
        _ => panic!("Expected Sequence region"),
    }
    // A single node is left as it is.
    let single = Cfg { blocks: vec![red_block(0, 0, true)], edges: Vec::new(), entry: 0 };
    let mut g1 = RegionGraph::from_cfg(&single);
    virtualize_edge(&mut g1);
    assert_eq!(g1.node_count(), 1);
    assert_eq!(g1.generation(), 0);
}

#[test]
fn fallback_region_lists_every_node() {
    let g = RegionGraph::from_cfg(&red_if_else());
    match create_fallback_region(g) {
        Region::Sequence(parts) => {
            assert_eq!(parts.len(), 4);
            for (i, part) in parts.iter().enumerate() {
                assert!(matches!(part, Region::Block(b) if *b == i));
            }
        },
        _ => panic!("Expected Sequence region"),
    }
}

#[test]
fn sort_key_is_smallest_block() {
    let mut g = RegionGraph::from_cfg(&red_if_else());
    let set: HashSet<usize> = [1usize, 2].into_iter().collect();
    let k = g.collapse(&set, Region::Empty);
    assert_eq!(region_node_sort_key(&g, k), 1);
    assert_eq!(region_node_sort_key(&g, 0), 0);
    assert_eq!(region_node_sort_key(&g, 42), 42);
}

#[test]
fn path_nodes_stop_at_merge() {
    let g = RegionGraph::from_cfg(&red_if_else());
    let from_then = collect_path_nodes(&g, 2, 3);
    let expected: HashSet<usize> = [2usize].into_iter().collect();
    assert_eq!(from_then, expected);
    let all = collect_path_nodes(&g, 0, 9);
    assert_eq!(all.len(), 4);
    assert!(collect_path_nodes(&g, 3, 3).is_empty());
    assert!(collect_path_nodes(&g, 9, 3).is_empty());
}
