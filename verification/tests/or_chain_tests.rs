use std::collections::{HashMap, HashSet};

use structurer::cfg::{BasicBlock, Cfg, CfgEdge, EdgeKind};
use structurer::patterns::{find_or_chain_patterns, try_build_or_chain, try_detect_nested_and, LoopInfo};
use structurer::patterns::SwitchInfo;
use structurer::reducer::collapse_or_chain;
use structurer::reduction::reduce_to_region;
use structurer::region::Region;
use structurer::region_graph::{RegionGraph, RegionNode};

fn or_block(is_exit: bool) -> BasicBlock {
    BasicBlock { start: 0, end: 0, is_exit }
}

fn or_edge(source: usize, target: usize, kind: EdgeKind) -> CfgEdge {
    CfgEdge { source, target, kind }
}

fn cond(source: usize, when_true: usize, when_false: usize) -> Vec<CfgEdge> {
    vec![or_edge(source, when_true, EdgeKind::ConditionalTrue), or_edge(source, when_false, EdgeKind::ConditionalFalse)]
}

fn build_cfg(exits: &[bool], conds: &[(usize, usize, usize)], others: &[(usize, usize)]) -> Cfg {
    let mut edges = Vec::new();
    for &(s, t, f) in conds {
        edges.extend(cond(s, t, f));
    }
    for &(s, t) in others {
        edges.push(or_edge(s, t, EdgeKind::Unconditional));
    }
    Cfg { blocks: exits.iter().map(|&e| or_block(e)).collect(), edges, entry: 0 }
}

fn no_loop_info() -> LoopInfo {
    LoopInfo { headers: HashSet::new(), back_edge_sources: HashSet::new() }
}

/// `if (a || b || c) throw X;`: three conditions jumping to the throw block.
fn three_way_or() -> Cfg {
    build_cfg(&[false, false, false, true, true], &[(0, 3, 1), (1, 3, 2), (2, 3, 4)], &[])
}

#[test]
fn or_chain_of_three_conditions() {
    let cfg = three_way_or();
    let graph = RegionGraph::from_cfg(&cfg);
    let patterns = find_or_chain_patterns(&graph, &cfg, &no_loop_info());
    assert_eq!(patterns.len(), 1);
    let p = &patterns[0];
    assert_eq!(p.condition_nodes, vec![0, 1, 2]);
    assert_eq!(p.shared_target, 3);
    assert_eq!(p.continuation, 4);
    assert!(p.shared_target_terminates);
    assert!(!p.last_condition_inverted);
    assert!(p.body_cfg_nodes.is_empty());
    assert!(p.nested_and_chains.is_empty());
}

#[test]
fn or_chain_with_inverted_last_condition() {
    // The last condition jumps to the continuation when true.
    let cfg = build_cfg(&[false, false, false, true, true], &[(0, 3, 1), (1, 4, 3)], &[]);
    let graph = RegionGraph::from_cfg(&cfg);
    let p = try_build_or_chain(&graph, &cfg, &no_loop_info(), 0, &HashSet::new()).expect("an OR chain");
    assert_eq!(p.condition_nodes, vec![0, 1]);
    assert_eq!(p.shared_target, 3);
    assert_eq!(p.continuation, 4);
    assert!(p.last_condition_inverted);
}

#[test]
fn or_chain_with_nested_and() {
    // if (a || (b && c) || d) throw
    let cfg = build_cfg(
        &[false, false, false, false, true, true],
        &[(0, 4, 1), (1, 3, 2), (2, 4, 3), (3, 4, 5)],
        &[],
    );
    let graph = RegionGraph::from_cfg(&cfg);
    let patterns = find_or_chain_patterns(&graph, &cfg, &no_loop_info());
    assert_eq!(patterns.len(), 1);
    let p = &patterns[0];
    assert_eq!(p.condition_nodes, vec![0, 1, 3]);
    assert_eq!(p.shared_target, 4);
    assert_eq!(p.continuation, 5);
    assert_eq!(p.nested_and_chains.len(), 1);
    assert_eq!(p.nested_and_chains.get(&1), Some(&vec![1, 2]));
}

#[test]
fn nested_and_detection() {
    let cfg = build_cfg(
        &[false, false, false, false, true, true],
        &[(0, 4, 1), (1, 3, 2), (2, 4, 3), (3, 4, 5)],
        &[],
    );
    assert_eq!(try_detect_nested_and(&cfg, 1, 4, 3), Some((vec![1, 2], 3)));
    // Block 0 does not jump to the skip target when true.
    assert_eq!(try_detect_nested_and(&cfg, 0, 4, 3), None);
    // Block 1 does not jump to that skip target when true.
    assert_eq!(try_detect_nested_and(&cfg, 1, 4, 5), None);
}

#[test]
fn or_chain_rejected_when_shared_target_has_outside_predecessor() {
    let cfg = build_cfg(&[false, false, true, true, false], &[(0, 2, 1), (1, 2, 3)], &[(4, 2)]);
    let graph = RegionGraph::from_cfg(&cfg);
    assert!(try_build_or_chain(&graph, &cfg, &no_loop_info(), 0, &HashSet::new()).is_none());
}

#[test]
fn or_chain_rejected_at_back_edge_source() {
    let cfg = three_way_or();
    let graph = RegionGraph::from_cfg(&cfg);
    let mut loops = no_loop_info();
    loops.back_edge_sources.insert(3);
    assert!(try_build_or_chain(&graph, &cfg, &loops, 0, &HashSet::new()).is_none());
}

#[test]
fn or_chain_stops_at_used_node() {
    let cfg = three_way_or();
    let graph = RegionGraph::from_cfg(&cfg);
    let mut used = HashSet::new();
    used.insert(1);
    // The chain would stop after its first condition.
    assert!(try_build_or_chain(&graph, &cfg, &no_loop_info(), 0, &used).is_none());
    let mut used = HashSet::new();
    used.insert(2);
    // Block 2 still jumps to the throw block from outside the shorter chain.
    assert!(try_build_or_chain(&graph, &cfg, &no_loop_info(), 0, &used).is_none());
}

#[test]
fn or_chain_with_body_before_continuation() {
    // if (a || b) { body }; cont
    let cfg = build_cfg(&[false, false, false, true], &[(0, 2, 1), (1, 2, 3)], &[(2, 3)]);
    let graph = RegionGraph::from_cfg(&cfg);
    let p = try_build_or_chain(&graph, &cfg, &no_loop_info(), 0, &HashSet::new()).expect("an OR chain");
    assert_eq!(p.condition_nodes, vec![0, 1]);
    assert_eq!(p.shared_target, 2);
    assert_eq!(p.continuation, 3);
    assert!(!p.shared_target_terminates);
    assert_eq!(p.body_cfg_nodes, vec![2]);
}

#[test]
fn or_chains_sorted_longest_first() {
    let cfg = build_cfg(
        &[false, false, true, false, false, false, true, true],
        &[(0, 2, 1), (1, 2, 3), (3, 6, 4), (4, 6, 5), (5, 6, 7)],
        &[],
    );
    let graph = RegionGraph::from_cfg(&cfg);
    let patterns = find_or_chain_patterns(&graph, &cfg, &no_loop_info());
    assert_eq!(patterns.len(), 2);
    assert_eq!(patterns[0].condition_nodes, vec![3, 4, 5]);
    assert_eq!(patterns[1].condition_nodes, vec![0, 1]);
}

#[test]
fn single_condition_is_no_or_chain() {
    let cfg = build_cfg(&[false, true, true], &[(0, 1, 2)], &[]);
    let graph = RegionGraph::from_cfg(&cfg);
    assert!(try_build_or_chain(&graph, &cfg, &no_loop_info(), 0, &HashSet::new()).is_none());
    assert!(find_or_chain_patterns(&graph, &cfg, &no_loop_info()).is_empty());
}

#[test]
fn or_chain_body_collected_depth_first() {
    // if (a || b) { if (c) {x} else {y}; z }; cont
    let cfg = build_cfg(
        &[false, false, false, true, false, false, false, false],
        &[(0, 2, 1), (1, 2, 3), (7, 4, 5)],
        &[(2, 7), (4, 6), (5, 6), (6, 3)],
    );
    let graph = RegionGraph::from_cfg(&cfg);
    let p = try_build_or_chain(&graph, &cfg, &no_loop_info(), 0, &HashSet::new()).expect("an OR chain");
    assert_eq!(p.condition_nodes, vec![0, 1]);
    assert_eq!(p.shared_target, 2);
    assert_eq!(p.continuation, 3);
    // Successors are walked most recently added edge first: 7's false
    // target is pushed before its true target, which is then visited first.
    assert_eq!(p.body_cfg_nodes, vec![2, 7, 4, 6, 5]);
}

fn no_switch_info() -> SwitchInfo {
    SwitchInfo { ipdom: HashMap::new(), switch_blocks: HashSet::new(), switch_ops: HashMap::new() }
}

#[test]
fn collapse_or_chain_with_terminating_target() {
    let cfg = three_way_or();
    let mut graph = RegionGraph::from_cfg(&cfg);
    let patterns = find_or_chain_patterns(&graph, &cfg, &no_loop_info());
    assert!(collapse_or_chain(&mut graph, &cfg, &patterns[0]));
    assert_eq!(graph.node_count(), 2);
    assert!(matches!(graph.get_node(0), Some(RegionNode::Block(4))));
    match graph.get_node(1) {
        Some(RegionNode::Collapsed(Region::OrChain {
            condition_blocks,
            then_region,
            else_region,
            continuation,
            last_condition_inverted,
            nested_and_chains,
        })) => {
            assert_eq!(*condition_blocks, vec![0, 1, 2]);
            assert!(matches!(**then_region, Region::Block(3)));
            assert!(else_region.is_none());
            assert_eq!(*continuation, 4);
            assert!(!*last_condition_inverted);
            assert!(nested_and_chains.is_empty());
        },
        _ => panic!("expected an OR chain region"),
    }
}

#[test]
fn collapse_or_chain_with_else_branch() {
    // if (a || b) { X } else { Y }; Z
    let cfg = build_cfg(&[false, false, false, false, true], &[(0, 2, 1), (1, 2, 3)], &[(2, 4), (3, 4)]);
    let mut graph = RegionGraph::from_cfg(&cfg);
    let patterns = find_or_chain_patterns(&graph, &cfg, &no_loop_info());
    assert_eq!(patterns.len(), 1);
    assert!(!patterns[0].shared_target_terminates);
    assert!(patterns[0].body_cfg_nodes.is_empty());
    assert!(collapse_or_chain(&mut graph, &cfg, &patterns[0]));
    assert_eq!(graph.node_count(), 1);
    match graph.get_node(0) {
        Some(RegionNode::Collapsed(Region::OrChain { condition_blocks, then_region, else_region, continuation, .. })) => {
            assert_eq!(*condition_blocks, vec![0, 1]);
            assert!(matches!(**then_region, Region::Block(2)));
            assert!(matches!(else_region.as_deref(), Some(Region::Block(3))));
            assert_eq!(*continuation, 3);
        },
        _ => panic!("expected an OR chain region"),
    }
}

#[test]
fn reduction_collapses_an_or_chain_first() {
    let cfg = three_way_or();
    let region = reduce_to_region(&cfg, &vec![], &no_loop_info(), &no_switch_info());
    match region {
        Region::Sequence(rs) => {
            assert_eq!(rs.len(), 2);
            assert!(matches!(rs[0], Region::OrChain { continuation: 4, .. }));
            assert!(matches!(rs[1], Region::Block(4)));
        },
        _ => panic!("expected the OR chain followed by the continuation"),
    }
}
