use std::collections::{HashMap, HashSet};

use structurer::cfg::{BasicBlock, Cfg, CfgEdge, EdgeKind};
use structurer::patterns::{LoopInfo, NaturalLoop, SwitchInfo};
use structurer::reduction::{reduce_one_step, reduce_to_region, remove_unreachable_nodes};
use structurer::region::Region;
use structurer::region_graph::RegionGraph;

fn red_block(start: usize, end: usize, is_exit: bool) -> BasicBlock {
    BasicBlock { start, end, is_exit }
}

fn red_edge(source: usize, target: usize, kind: EdgeKind) -> CfgEdge {
    CfgEdge { source, target, kind }
}

fn no_loop_info() -> LoopInfo {
    LoopInfo { headers: HashSet::new(), back_edge_sources: HashSet::new() }
}

fn no_switch_info() -> SwitchInfo {
    SwitchInfo { ipdom: HashMap::new(), switch_blocks: HashSet::new(), switch_ops: HashMap::new() }
}

/// `Int; JNull +2; Int; JAlways +1; Int; Ret`.
fn red_if_else() -> Cfg {
    Cfg {
        blocks: vec![red_block(0, 1, false), red_block(2, 3, false), red_block(4, 4, false), red_block(5, 5, true)],
        edges: vec![
            red_edge(0, 1, EdgeKind::ConditionalFalse),
            red_edge(0, 2, EdgeKind::ConditionalTrue),
            red_edge(1, 3, EdgeKind::Unconditional),
            red_edge(2, 3, EdgeKind::FallThrough),
        ],
        entry: 0,
    }
}

#[test]
fn test_reduce_linear_code() {
    // Simple linear code is a single block.
    let cfg = Cfg { blocks: vec![red_block(0, 3, true)], edges: vec![], entry: 0 };
    let region = reduce_to_region(&cfg, &vec![], &no_loop_info(), &no_switch_info());
    assert!(matches!(region, Region::Block(_)));
}

#[test]
fn test_reduce_simple_if() {
    let cfg = red_if_else();
    let region = reduce_to_region(&cfg, &vec![], &no_loop_info(), &no_switch_info());
    assert!(!matches!(region, Region::Empty));
}

#[test]
fn test_reduce_simple_loop() {
    // `Label; Int; JNull +2; Int; JAlways -4; Ret`: while (cond) { body }.
    let cfg = Cfg {
        blocks: vec![red_block(0, 0, false), red_block(1, 2, false), red_block(3, 4, false), red_block(5, 5, true)],
        edges: vec![
            red_edge(0, 1, EdgeKind::FallThrough),
            red_edge(1, 3, EdgeKind::ConditionalTrue),
            red_edge(1, 2, EdgeKind::ConditionalFalse),
            red_edge(2, 1, EdgeKind::Unconditional),
        ],
        entry: 0,
    };
    let loops = vec![NaturalLoop {
        header: 1,
        body: [1, 2].into_iter().collect(),
        back_edge_sources: vec![2],
        exit_nodes: vec![1],
        for_in: None,
    }];
    let info = LoopInfo { headers: [1].into_iter().collect(), back_edge_sources: [2].into_iter().collect() };
    let region = reduce_to_region(&cfg, &loops, &info, &no_switch_info());
    assert!(!matches!(region, Region::Empty));
}

#[test]
fn test_reduce_nested_if() {
    // if (a) { if (b) { X } }
    let cfg = Cfg {
        blocks: vec![red_block(0, 1, false), red_block(2, 3, false), red_block(4, 4, false), red_block(5, 5, true)],
        edges: vec![
            red_edge(0, 1, EdgeKind::ConditionalFalse),
            red_edge(0, 3, EdgeKind::ConditionalTrue),
            red_edge(1, 2, EdgeKind::ConditionalFalse),
            red_edge(1, 3, EdgeKind::ConditionalTrue),
            red_edge(2, 3, EdgeKind::FallThrough),
        ],
        entry: 0,
    };
    let region = reduce_to_region(&cfg, &vec![], &no_loop_info(), &no_switch_info());
    assert!(!matches!(region, Region::Empty));
}

#[test]
fn test_reduce_makes_progress() {
    // `Int; JNull +1; Int; Ret`.
    let cfg = Cfg {
        blocks: vec![red_block(0, 1, false), red_block(2, 2, false), red_block(3, 3, true)],
        edges: vec![
            red_edge(0, 1, EdgeKind::ConditionalFalse),
            red_edge(0, 2, EdgeKind::ConditionalTrue),
            red_edge(1, 2, EdgeKind::FallThrough),
        ],
        entry: 0,
    };
    let mut graph = RegionGraph::from_cfg(&cfg);
    let mut made_progress = true;
    let mut iterations = 0;
    while made_progress && !graph.is_fully_reduced() && iterations < 100 {
        let before = graph.node_count();
        made_progress = reduce_one_step(&mut graph, &cfg, &vec![], &no_loop_info(), &no_switch_info());
        if made_progress {
            assert!(graph.node_count() < before);
        }
        iterations += 1;
    }
    assert!(graph.is_fully_reduced() || !made_progress || iterations < 100);
}

#[test]
fn reduce_if_else_gives_an_if_region() {
    let cfg = red_if_else();
    let region = reduce_to_region(&cfg, &vec![], &no_loop_info(), &no_switch_info());
    match region {
        Region::Sequence(parts) => {
            assert_eq!(parts.len(), 2);
            assert!(matches!(parts[0], Region::IfThenElse { .. }));
            assert!(matches!(parts[1], Region::Block(3)));
        },
        Region::IfThenElse { .. } => {},
        _ => panic!("Expected an if region"),
    }
}

fn contains_goto(region: &Region) -> bool {
    match region {
        Region::Goto { .. } => true,
        Region::Sequence(regions) => regions.iter().any(contains_goto),
        Region::IfThenElse { then_region, else_region, .. } => {
            contains_goto(then_region) || else_region.as_ref().map_or(false, |e| contains_goto(e))
        },
        Region::Loop { body, .. } => contains_goto(body),
        Region::Switch { cases, default, .. } => cases.iter().any(|c| contains_goto(&c.body)) || contains_goto(default),
        _ => false,
    }
}

fn count_if_regions(region: &Region) -> usize {
    match region {
        Region::IfThenElse { then_region, else_region, .. } => {
            1 + count_if_regions(then_region) + else_region.as_ref().map_or(0, |e| count_if_regions(e))
        },
        Region::Sequence(regions) => regions.iter().map(count_if_regions).sum(),
        Region::Loop { body, .. } => count_if_regions(body),
        Region::Switch { cases, default, .. } => {
            cases.iter().map(|c| count_if_regions(&c.body)).sum::<usize>() + count_if_regions(default)
        },
        _ => 0,
    }
}

#[test]
fn test_ternary_produces_if_else_not_goto() {
    // cond ? a : b
    let cfg = red_if_else();
    let region = reduce_to_region(&cfg, &vec![], &no_loop_info(), &no_switch_info());
    assert!(!contains_goto(&region), "Ternary pattern should not produce Goto nodes");
    assert!(count_if_regions(&region) >= 1);
}

#[test]
fn test_early_return_pattern() {
    // `Int; JNull +1; Ret; Int; Ret`: if (cond) return x; return y;
    let cfg = Cfg {
        blocks: vec![red_block(0, 1, false), red_block(2, 2, true), red_block(3, 4, true)],
        edges: vec![red_edge(0, 1, EdgeKind::ConditionalFalse), red_edge(0, 2, EdgeKind::ConditionalTrue)],
        entry: 0,
    };
    let region = reduce_to_region(&cfg, &vec![], &no_loop_info(), &no_switch_info());
    assert!(!matches!(region, Region::Empty));
    assert!(!contains_goto(&region), "Early return pattern should not require Goto");
}

#[test]
fn test_if_without_else() {
    // `Int; JNull +1; Int; Ret`.
    let cfg = Cfg {
        blocks: vec![red_block(0, 1, false), red_block(2, 2, false), red_block(3, 3, true)],
        edges: vec![
            red_edge(0, 1, EdgeKind::ConditionalFalse),
            red_edge(0, 2, EdgeKind::ConditionalTrue),
            red_edge(1, 2, EdgeKind::FallThrough),
        ],
        entry: 0,
    };
    let region = reduce_to_region(&cfg, &vec![], &no_loop_info(), &no_switch_info());
    assert!(!matches!(region, Region::Empty) || cfg.blocks.len() <= 1);
}

#[test]
fn test_nested_if_inner_first() {
    // `Int; JNull +3; Int; JNull +1; Int; Ret`: if (a) { if (b) { X } }
    let cfg = Cfg {
        blocks: vec![red_block(0, 1, false), red_block(2, 3, false), red_block(4, 4, false), red_block(5, 5, true)],
        edges: vec![
            red_edge(0, 1, EdgeKind::ConditionalFalse),
            red_edge(0, 3, EdgeKind::ConditionalTrue),
            red_edge(1, 2, EdgeKind::ConditionalFalse),
            red_edge(1, 3, EdgeKind::ConditionalTrue),
            red_edge(2, 3, EdgeKind::FallThrough),
        ],
        entry: 0,
    };
    let region = reduce_to_region(&cfg, &vec![], &no_loop_info(), &no_switch_info());
    assert!(!contains_goto(&region), "Nested ifs should not require Goto");
}

#[test]
fn test_reduction_terminates() {
    // `Int; JNull +4; Int; JNull +1; Int; JAlways +1; Int; Ret`.
    let cfg = Cfg {
        blocks: vec![
            red_block(0, 1, false),
            red_block(2, 3, false),
            red_block(4, 4, false),
            red_block(5, 5, false),
            red_block(6, 6, false),
            red_block(7, 7, true),
        ],
        edges: vec![
            red_edge(0, 1, EdgeKind::ConditionalFalse),
            red_edge(0, 4, EdgeKind::ConditionalTrue),
            red_edge(1, 2, EdgeKind::ConditionalFalse),
            red_edge(1, 3, EdgeKind::ConditionalTrue),
            red_edge(2, 3, EdgeKind::FallThrough),
            red_edge(3, 5, EdgeKind::Unconditional),
            red_edge(4, 5, EdgeKind::FallThrough),
        ],
        entry: 0,
    };
    let _region = reduce_to_region(&cfg, &vec![], &no_loop_info(), &no_switch_info());
}

#[test]
fn test_while_loop_with_body() {
    // `Label; Int; JNull +2; Int; JAlways -4; Ret`.
    let cfg = Cfg {
        blocks: vec![red_block(0, 0, false), red_block(1, 2, false), red_block(3, 4, false), red_block(5, 5, true)],
        edges: vec![
            red_edge(0, 1, EdgeKind::FallThrough),
            red_edge(1, 3, EdgeKind::ConditionalTrue),
            red_edge(1, 2, EdgeKind::ConditionalFalse),
            red_edge(2, 1, EdgeKind::Unconditional),
        ],
        entry: 0,
    };
    let loops = vec![NaturalLoop {
        header: 1,
        body: [1, 2].into_iter().collect(),
        back_edge_sources: vec![2],
        exit_nodes: vec![1],
        for_in: None,
    }];
    let info = LoopInfo { headers: [1].into_iter().collect(), back_edge_sources: [2].into_iter().collect() };
    let region = reduce_to_region(&cfg, &loops, &info, &no_switch_info());
    fn has_loop_region(region: &Region) -> bool {
        match region {
            Region::Loop { .. } => true,
            Region::Sequence(seq) => seq.iter().any(has_loop_region),
            _ => false,
        }
    }
    assert!(has_loop_region(&region) || !matches!(region, Region::Empty));
}

#[test]
fn dead_code_is_removed_before_reduction() {
    // Block 2 is never reached.
    let cfg = Cfg {
        blocks: vec![red_block(0, 0, false), red_block(1, 1, true), red_block(2, 2, true)],
        edges: vec![red_edge(0, 1, EdgeKind::FallThrough)],
        entry: 0,
    };
    let mut graph = RegionGraph::from_cfg(&cfg);
    remove_unreachable_nodes(&mut graph);
    assert_eq!(graph.node_count(), 2);
    assert_eq!(graph.get_region_node(2), None);
    assert_eq!(graph.get_region_node(1), Some(1));
    let region = reduce_to_region(&cfg, &vec![], &no_loop_info(), &no_switch_info());
    match region {
        Region::Sequence(parts) => assert_eq!(parts.len(), 2),
        _ => panic!("Expected the two live blocks in sequence"),
    }
}
