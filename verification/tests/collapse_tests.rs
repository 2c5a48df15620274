use std::collections::HashSet;

use structurer::cfg::{BasicBlock, Cfg, CfgEdge, EdgeKind};
use structurer::flow_order::order_nodes_by_flow;
use structurer::patterns::{
    detect_loop_kind, find_loop_exit, find_loop_patterns, match_loop_pattern, IfPattern, NaturalLoop,
};
use structurer::reducer::{build_region_from_nodes, collapse_if, collapse_inline_expansion, collapse_loop};
use structurer::region::{LoopKind, Region};
use structurer::region_graph::{RegionGraph, RegionNode};

fn col_block(is_exit: bool) -> BasicBlock {
    BasicBlock { start: 0, end: 0, is_exit }
}

fn col_graph(n: usize, edges: &[(usize, usize, EdgeKind)]) -> Cfg {
    let mut blocks: Vec<BasicBlock> = (0..n).map(|_| col_block(false)).collect();
    if n > 0 {
        blocks[n - 1] = col_block(true);
    }
    Cfg {
        blocks,
        edges: edges.iter().map(|&(source, target, kind)| CfgEdge { source, target, kind }).collect(),
        entry: 0,
    }
}

fn set_of(xs: &[usize]) -> HashSet<usize> {
    xs.iter().copied().collect()
}

fn collapsed_region(g: &RegionGraph) -> Option<&Region> {
    (0..g.node_count()).find_map(|i| match g.get_node(i) {
        Some(RegionNode::Collapsed(r)) => Some(r),
        _ => None,
    })
}

#[test]
fn flow_order_follows_a_chain() {
    let cfg = col_graph(3, &[(0, 1, EdgeKind::Unconditional), (1, 2, EdgeKind::Unconditional)]);
    let g = RegionGraph::from_cfg(&cfg);
    assert_eq!(order_nodes_by_flow(&g, &set_of(&[2, 0, 1])), vec![0, 1, 2]);
}

#[test]
fn flow_order_of_a_diamond() {
    let cfg = col_graph(
        4,
        &[
            (0, 1, EdgeKind::ConditionalFalse),
            (0, 2, EdgeKind::ConditionalTrue),
            (1, 3, EdgeKind::Unconditional),
            (2, 3, EdgeKind::FallThrough),
        ],
    );
    let g = RegionGraph::from_cfg(&cfg);
    assert_eq!(order_nodes_by_flow(&g, &set_of(&[0, 1, 2, 3])), vec![0, 1, 2, 3]);
}

#[test]
fn flow_order_puts_sources_first() {
    // Block 1 jumps back to block 0: in the set {0, 1}, 1 goes first.
    let cfg = col_graph(2, &[(1, 0, EdgeKind::Unconditional)]);
    let g = RegionGraph::from_cfg(&cfg);
    assert_eq!(order_nodes_by_flow(&g, &set_of(&[0, 1])), vec![1, 0]);
}

#[test]
fn flow_order_on_a_cycle_starts_from_the_fallback() {
    let cfg = col_graph(3, &[(0, 1, EdgeKind::Unconditional), (1, 0, EdgeKind::Unconditional), (1, 2, EdgeKind::Unconditional)]);
    let g = RegionGraph::from_cfg(&cfg);
    assert_eq!(order_nodes_by_flow(&g, &set_of(&[0, 1])), vec![0, 1]);
}

#[test]
fn flow_order_appends_nodes_left_on_cycles() {
    // Node 0 loops on itself; node 1 is free.
    let cfg = col_graph(2, &[(0, 0, EdgeKind::Unconditional)]);
    let g = RegionGraph::from_cfg(&cfg);
    assert_eq!(order_nodes_by_flow(&g, &set_of(&[0, 1])), vec![1, 0]);
    assert!(order_nodes_by_flow(&g, &HashSet::new()).is_empty());
}

#[test]
fn region_of_nodes_follows_the_flow() {
    let cfg = col_graph(3, &[(0, 1, EdgeKind::Unconditional), (1, 2, EdgeKind::Unconditional)]);
    let mut g = RegionGraph::from_cfg(&cfg);
    match build_region_from_nodes(&mut g, &set_of(&[2, 1]), 0) {
        Region::Sequence(parts) => {
            assert_eq!(parts.len(), 2);
            assert!(matches!(parts[0], Region::Block(1)));
            assert!(matches!(parts[1], Region::Block(2)));
        },
        other => panic!("expected a sequence, got {:?}", other),
    }
    // Node 0 was not taken.
    assert!(matches!(g.get_node(0), Some(RegionNode::Block(0))));
    let mut g = RegionGraph::from_cfg(&cfg);
    assert!(matches!(build_region_from_nodes(&mut g, &set_of(&[1]), 0), Region::Block(1)));
    assert!(matches!(build_region_from_nodes(&mut g, &HashSet::new(), 0), Region::Empty));
    assert!(matches!(build_region_from_nodes(&mut g, &set_of(&[7]), 0), Region::Empty));
}

fn if_else_cfg() -> Cfg {
    col_graph(
        4,
        &[
            (0, 1, EdgeKind::ConditionalFalse),
            (0, 2, EdgeKind::ConditionalTrue),
            (1, 3, EdgeKind::Unconditional),
            (2, 3, EdgeKind::FallThrough),
        ],
    )
}

#[test]
fn collapse_if_builds_if_then_else() {
    let cfg = if_else_cfg();
    let mut g = RegionGraph::from_cfg(&cfg);
    let pattern = IfPattern {
        condition_node: 0,
        then_nodes: set_of(&[2]),
        else_nodes: set_of(&[1]),
        merge: 3,
        negated: false,
        then_exit_target: None,
    };
    assert!(collapse_if(&mut g, &cfg, &pattern));
    assert_eq!(g.node_count(), 2);
    match collapsed_region(&g) {
        Some(Region::IfThenElse { cond_block, then_region, else_region, merge, negated, .. }) => {
            assert_eq!(*cond_block, Some(0));
            assert!(matches!(**then_region, Region::Block(2)));
            assert!(matches!(else_region.as_deref(), Some(Region::Block(1))));
            assert_eq!(*merge, 3);
            assert!(!*negated);
        },
        other => panic!("expected an if-then-else, got {:?}", other),
    }
}

#[test]
fn collapse_if_negates_empty_then() {
    let cfg = if_else_cfg();
    let mut g = RegionGraph::from_cfg(&cfg);
    let pattern = IfPattern {
        condition_node: 0,
        then_nodes: HashSet::new(),
        else_nodes: set_of(&[1]),
        merge: 3,
        negated: false,
        then_exit_target: None,
    };
    assert!(collapse_if(&mut g, &cfg, &pattern));
    match collapsed_region(&g) {
        Some(Region::IfThenElse { then_region, else_region, negated, .. }) => {
            assert!(matches!(**then_region, Region::Block(1)));
            assert!(else_region.is_none());
            assert!(*negated);
        },
        other => panic!("expected an if-then-else, got {:?}", other),
    }
}

#[test]
fn collapse_if_with_only_a_condition_does_nothing() {
    let cfg = if_else_cfg();
    let mut g = RegionGraph::from_cfg(&cfg);
    let pattern = IfPattern {
        condition_node: 0,
        then_nodes: HashSet::new(),
        else_nodes: HashSet::new(),
        merge: 3,
        negated: false,
        then_exit_target: Some(3),
    };
    assert!(!collapse_if(&mut g, &cfg, &pattern));
    assert_eq!(g.node_count(), 4);
    assert!(collapsed_region(&g).is_none());
}

/// `0 -> 1`, header 1 tests and either enters the body 2 or leaves to 3;
/// the body jumps back to the header.
fn while_cfg() -> Cfg {
    col_graph(
        4,
        &[
            (0, 1, EdgeKind::Unconditional),
            (1, 2, EdgeKind::ConditionalTrue),
            (1, 3, EdgeKind::ConditionalFalse),
            (2, 1, EdgeKind::Unconditional),
        ],
    )
}

fn while_loop() -> NaturalLoop {
    NaturalLoop { header: 1, body: set_of(&[1, 2]), back_edge_sources: vec![2], exit_nodes: vec![1], for_in: None }
}

#[test]
fn loop_pattern_of_a_while_loop() {
    let cfg = while_cfg();
    let g = RegionGraph::from_cfg(&cfg);
    let l = while_loop();
    assert_eq!(find_loop_exit(&cfg, &l), Some(3));
    assert_eq!(detect_loop_kind(&cfg, &l), LoopKind::While);
    let p = match_loop_pattern(&g, &cfg, &l).expect("a loop pattern");
    assert_eq!(p.header, 1);
    assert_eq!(p.body_nodes, set_of(&[1, 2]));
    assert_eq!(p.exit, 3);
    assert_eq!(p.kind, LoopKind::While);
    assert_eq!(p.condition_node, Some(1));
    assert_eq!(p.back_edge_sources, vec![2]);
}

#[test]
fn loop_kinds_do_while_and_endless() {
    // Header 1 falls into 2, which jumps back to 1 or leaves to 3.
    let cfg = col_graph(
        4,
        &[
            (0, 1, EdgeKind::Unconditional),
            (1, 2, EdgeKind::FallThrough),
            (2, 1, EdgeKind::ConditionalTrue),
            (2, 3, EdgeKind::ConditionalFalse),
        ],
    );
    let l = NaturalLoop { header: 1, body: set_of(&[1, 2]), back_edge_sources: vec![2], exit_nodes: vec![2], for_in: None };
    assert_eq!(detect_loop_kind(&cfg, &l), LoopKind::DoWhile);
    assert_eq!(find_loop_exit(&cfg, &l), Some(3));
    let g = RegionGraph::from_cfg(&cfg);
    let p = match_loop_pattern(&g, &cfg, &l).expect("a loop pattern");
    assert_eq!(p.condition_node, Some(2));
    // Without the exit edge the loop never ends.
    let cfg = col_graph(3, &[(0, 1, EdgeKind::Unconditional), (1, 2, EdgeKind::FallThrough), (2, 1, EdgeKind::Unconditional)]);
    let l = NaturalLoop { header: 1, body: set_of(&[1, 2]), back_edge_sources: vec![2], exit_nodes: vec![], for_in: None };
    assert_eq!(detect_loop_kind(&cfg, &l), LoopKind::Endless);
    assert_eq!(find_loop_exit(&cfg, &l), None);
    let g = RegionGraph::from_cfg(&cfg);
    assert!(match_loop_pattern(&g, &cfg, &l).is_none());
}

#[test]
fn loop_patterns_smallest_first() {
    // An outer loop 1..=4 around an inner loop 2..=3.
    let cfg = col_graph(
        6,
        &[
            (0, 1, EdgeKind::Unconditional),
            (1, 2, EdgeKind::ConditionalTrue),
            (1, 5, EdgeKind::ConditionalFalse),
            (2, 3, EdgeKind::ConditionalTrue),
            (2, 4, EdgeKind::ConditionalFalse),
            (3, 2, EdgeKind::Unconditional),
            (4, 1, EdgeKind::Unconditional),
        ],
    );
    let g = RegionGraph::from_cfg(&cfg);
    let outer = NaturalLoop { header: 1, body: set_of(&[1, 2, 3, 4]), back_edge_sources: vec![4], exit_nodes: vec![1], for_in: None };
    let inner = NaturalLoop { header: 2, body: set_of(&[2, 3]), back_edge_sources: vec![3], exit_nodes: vec![2], for_in: None };
    let patterns = find_loop_patterns(&g, &cfg, &vec![outer, inner]);
    assert_eq!(patterns.len(), 2);
    assert_eq!(patterns[0].header, 2);
    assert_eq!(patterns[0].exit, 4);
    assert_eq!(patterns[1].header, 1);
    assert_eq!(patterns[1].exit, 5);
}

#[test]
fn collapse_loop_builds_loop_region() {
    let cfg = while_cfg();
    let mut g = RegionGraph::from_cfg(&cfg);
    let p = match_loop_pattern(&g, &cfg, &while_loop()).expect("a loop pattern");
    assert!(collapse_loop(&mut g, &cfg, &p));
    assert_eq!(g.node_count(), 3);
    match collapsed_region(&g) {
        Some(Region::Loop { kind, header, condition, body, exit }) => {
            assert_eq!(*kind, LoopKind::While);
            assert_eq!(*header, 1);
            assert!(condition.is_none());
            assert!(matches!(**body, Region::Block(2)));
            assert_eq!(*exit, 3);
        },
        other => panic!("expected a loop, got {:?}", other),
    }
    // A loop already collapsed is no pattern any more.
    let merged = NaturalLoop { header: 1, body: set_of(&[1, 2]), back_edge_sources: vec![2], exit_nodes: vec![1], for_in: None };
    assert!(match_loop_pattern(&g, &cfg, &merged).is_none());
}

#[test]
fn inline_expansion_collapses_in_opcode_order() {
    let cfg = col_graph(
        4,
        &[
            (0, 1, EdgeKind::ConditionalTrue),
            (0, 2, EdgeKind::ConditionalFalse),
            (1, 2, EdgeKind::Unconditional),
            (2, 3, EdgeKind::Unconditional),
        ],
    );
    let mut g = RegionGraph::from_cfg(&cfg);
    assert!(collapse_inline_expansion(&mut g, &set_of(&[2, 0, 1])));
    assert_eq!(g.node_count(), 2);
    match collapsed_region(&g) {
        Some(Region::Sequence(parts)) => {
            assert_eq!(parts.len(), 3);
            assert!(matches!(parts[0], Region::Block(0)));
            assert!(matches!(parts[1], Region::Block(1)));
            assert!(matches!(parts[2], Region::Block(2)));
        },
        other => panic!("expected a sequence, got {:?}", other),
    }
    // A single block, or blocks no node holds, are left alone.
    let mut g = RegionGraph::from_cfg(&cfg);
    assert!(!collapse_inline_expansion(&mut g, &set_of(&[1])));
    assert!(!collapse_inline_expansion(&mut g, &set_of(&[1, 9])));
    assert_eq!(g.node_count(), 4);
}

#[test]
fn loop_with_a_for_in_iteration() {
    let cfg = while_cfg();
    let g = RegionGraph::from_cfg(&cfg);
    let for_in = LoopKind::ForIn {
        iterator_reg: structurer::ast::Reg(4),
        value_reg: structurer::ast::Reg(5),
        next_op: Some(7),
        iterator_init_op: Some(2),
    };
    let mut l = while_loop();
    l.for_in = Some(for_in);
    assert_eq!(detect_loop_kind(&cfg, &l), for_in);
    let p = match_loop_pattern(&g, &cfg, &l).expect("a loop pattern");
    assert_eq!(p.kind, for_in);
    assert_eq!(p.condition_node, Some(1));
    // A for-in shape is only taken where the header leaves the loop.
    l.for_in = Some(LoopKind::DoWhile);
    assert_eq!(detect_loop_kind(&cfg, &l), LoopKind::While);
}
