use std::collections::HashMap;
use structurer::patterns::{detect_loop_kind, find_innermost_pattern, find_loop_patterns, NaturalLoop, SwitchInfo};
use structurer::region::LoopKind;
use std::collections::HashSet;

use structurer::cfg::{BasicBlock, Cfg, CfgEdge, EdgeKind};
use structurer::patterns::{find_if_patterns, identify_branches, LoopInfo, PatternMatcher};
use structurer::region::Region;
use structurer::region_graph::RegionGraph;

fn pat_block(start: usize, end: usize, is_exit: bool) -> BasicBlock {
    BasicBlock { start, end, is_exit }
}

fn pat_edge(source: usize, target: usize, kind: EdgeKind) -> CfgEdge {
    CfgEdge { source, target, kind }
}

fn no_loops() -> LoopInfo {
    LoopInfo { headers: HashSet::new(), back_edge_sources: HashSet::new() }
}

/// `Int; JNull +2; Int; JAlways +1; Int; Ret`: an if-else whose branches
/// meet at the returning block.
fn pat_if_else() -> Cfg {
    Cfg {
        blocks: vec![pat_block(0, 1, false), pat_block(2, 3, false), pat_block(4, 4, false), pat_block(5, 5, true)],
        edges: vec![
            pat_edge(0, 1, EdgeKind::ConditionalFalse),
            pat_edge(0, 2, EdgeKind::ConditionalTrue),
            pat_edge(1, 3, EdgeKind::Unconditional),
            pat_edge(2, 3, EdgeKind::FallThrough),
        ],
        entry: 0,
    }
}

/// `Int; JNull +1; Int; Ret`: an if without else.
fn pat_if_without_else() -> Cfg {
    Cfg {
        blocks: vec![pat_block(0, 1, false), pat_block(2, 2, false), pat_block(3, 3, true)],
        edges: vec![
            pat_edge(0, 1, EdgeKind::ConditionalFalse),
            pat_edge(0, 2, EdgeKind::ConditionalTrue),
            pat_edge(1, 2, EdgeKind::FallThrough),
        ],
        entry: 0,
    }
}

#[test]
fn test_detect_simple_if() {
    // if (cond) { then } else { else }
    let cfg = pat_if_else();
    let region_graph = RegionGraph::from_cfg(&cfg);
    let loops = no_loops();
    let patterns = find_if_patterns(&region_graph, &cfg, &loops);

    println!("Found {} if patterns", patterns.len());
    for p in &patterns {
        println!(
            "  cond={:?}, then={:?}, else={:?}, merge={:?}",
            p.condition_node, p.then_nodes, p.else_nodes, p.merge
        );
    }
}

#[test]
fn test_if_pattern_then_else_no_overlap() {
    // Verify that for any matched if pattern, then and else branches don't overlap
    let test_cases = vec![pat_if_else(), pat_if_without_else()];

    for (i, cfg) in test_cases.iter().enumerate() {
        let region_graph = RegionGraph::from_cfg(cfg);
        let loops = no_loops();
        let patterns = find_if_patterns(&region_graph, cfg, &loops);

        for p in &patterns {
            let overlap: HashSet<_> = p.then_nodes.intersection(&p.else_nodes).collect();
            assert!(overlap.is_empty(), "Test case {}: then and else overlap at {:?}", i, overlap);
        }
    }
}

#[test]
fn identify_branches_takes_true_and_false_edges() {
    let succs = [(2usize, EdgeKind::ConditionalTrue), (1usize, EdgeKind::ConditionalFalse)];
    assert_eq!(identify_branches(&succs), Some((2, 1, false)));
    let swapped = [(1usize, EdgeKind::ConditionalFalse), (2usize, EdgeKind::ConditionalTrue)];
    assert_eq!(identify_branches(&swapped), Some((2, 1, false)));
    let plain = [(1usize, EdgeKind::FallThrough), (2usize, EdgeKind::ConditionalTrue)];
    assert_eq!(identify_branches(&plain), None);
    assert_eq!(identify_branches(&[]), None);
    // The last edge of each kind wins.
    let twice = [
        (1usize, EdgeKind::ConditionalTrue),
        (2usize, EdgeKind::ConditionalFalse),
        (3usize, EdgeKind::ConditionalTrue),
    ];
    assert_eq!(identify_branches(&twice), Some((3, 2, false)));
}

#[test]
fn if_else_pattern_at_condition() {
    let cfg = pat_if_else();
    let g = RegionGraph::from_cfg(&cfg);
    let loops = no_loops();
    let mut m = PatternMatcher::new(&g, &cfg, &loops);
    let p = m.match_if_pattern_region(0).unwrap();
    assert_eq!(p.condition_node, 0);
    assert_eq!(p.merge, 3);
    assert!(!p.negated);
    let then_nodes: Vec<usize> = p.then_nodes.iter().copied().collect();
    let else_nodes: Vec<usize> = p.else_nodes.iter().copied().collect();
    assert_eq!(then_nodes, vec![2]);
    assert_eq!(else_nodes, vec![1]);
    assert!(p.then_exit_target.is_none());
    // Blocks without two conditional edges match nothing.
    assert!(m.match_if_pattern_region(1).is_none());
    assert!(m.match_if_pattern_region(3).is_none());
    assert!(m.match_if_pattern_region(7).is_none());
}

#[test]
fn if_without_else_pattern() {
    let cfg = pat_if_without_else();
    let g = RegionGraph::from_cfg(&cfg);
    let loops = no_loops();
    let patterns = find_if_patterns(&g, &cfg, &loops);
    assert_eq!(patterns.len(), 1);
    let p = &patterns[0];
    assert_eq!(p.condition_node, 0);
    // The true edge goes straight to the merge; the false side holds block 1.
    assert_eq!(p.merge, 2);
    assert!(p.then_nodes.is_empty());
    let else_nodes: Vec<usize> = p.else_nodes.iter().copied().collect();
    assert_eq!(else_nodes, vec![1]);
}

#[test]
fn branch_collection_stops_at_merge_and_loop_headers() {
    let cfg = pat_if_else();
    let g = RegionGraph::from_cfg(&cfg);
    let loops = no_loops();
    let mut m = PatternMatcher::new(&g, &cfg, &loops);
    let then_nodes = m.collect_branch_region(2, 3, 0);
    assert_eq!(then_nodes.len(), 1);
    assert!(then_nodes.contains(&2));
    // Starting at the merge collects nothing.
    assert!(m.collect_branch_region(3, 3, 0).is_empty());
    // With the condition as a placeholder merge, the branch from 1 runs on
    // into the exit block...
    let open = m.collect_branch_region(1, 0, 0);
    assert_eq!(open.len(), 2);
    assert!(open.contains(&1) && open.contains(&3));
    // ...unless that block is a loop header, which is not entered.
    let mut headers = HashSet::new();
    headers.insert(3usize);
    let barrier = LoopInfo { headers, back_edge_sources: HashSet::new() };
    let mut m2 = PatternMatcher::new(&g, &cfg, &barrier);
    let stopped = m2.collect_branch_region(1, 0, 0);
    assert_eq!(stopped.len(), 1);
    assert!(stopped.contains(&1));
}

#[test]
fn collapsed_condition_uses_region_edges() {
    // Collapse the condition block with a block before it; the collapsed
    // node keeps the two conditional edges.
    let cfg = Cfg {
        blocks: vec![
            pat_block(0, 0, false),
            pat_block(1, 2, false),
            pat_block(3, 3, false),
            pat_block(4, 4, false),
            pat_block(5, 5, true),
        ],
        edges: vec![
            pat_edge(0, 1, EdgeKind::FallThrough),
            pat_edge(1, 2, EdgeKind::ConditionalFalse),
            pat_edge(1, 3, EdgeKind::ConditionalTrue),
            pat_edge(2, 4, EdgeKind::Unconditional),
            pat_edge(3, 4, EdgeKind::FallThrough),
        ],
        entry: 0,
    };
    let mut g = RegionGraph::from_cfg(&cfg);
    let k = g.collapse_sequence(vec![0, 1]).unwrap();
    assert!(matches!(g.get_node(k), Some(structurer::region_graph::RegionNode::Collapsed(Region::Sequence(_)))));
    let loops = no_loops();
    let mut m = PatternMatcher::new(&g, &cfg, &loops);
    let p = m.match_if_pattern_region(k).unwrap();
    assert_eq!(p.condition_node, k);
    assert_eq!(Some(p.merge), g.cfg_owner(4));
    assert_eq!(p.then_nodes.len(), 1);
    assert_eq!(p.else_nodes.len(), 1);
    assert!(p.then_nodes.contains(&g.cfg_owner(3).unwrap()));
    assert!(p.else_nodes.contains(&g.cfg_owner(2).unwrap()));
}

fn loop_set(xs: &[usize]) -> HashSet<usize> {
    xs.iter().copied().collect()
}

/// `Label; Int; JNull +2; Int; JAlways -4; Ret`: while (cond) { body }.
fn pat_while_loop() -> Cfg {
    Cfg {
        blocks: vec![pat_block(0, 0, false), pat_block(1, 2, false), pat_block(3, 4, false), pat_block(5, 5, true)],
        edges: vec![
            pat_edge(0, 1, EdgeKind::FallThrough),
            pat_edge(1, 3, EdgeKind::ConditionalTrue),
            pat_edge(1, 2, EdgeKind::ConditionalFalse),
            pat_edge(2, 1, EdgeKind::Unconditional),
        ],
        entry: 0,
    }
}

#[test]
fn test_detect_simple_loop() {
    let cfg = pat_while_loop();
    let g = RegionGraph::from_cfg(&cfg);
    let loops = vec![NaturalLoop { header: 1, body: loop_set(&[1, 2]), back_edge_sources: vec![2], exit_nodes: vec![1], for_in: None }];
    let patterns = find_loop_patterns(&g, &cfg, &loops);
    assert!(!patterns.is_empty(), "Should detect the while loop");
}

#[test]
fn test_detect_endless_loop() {
    // `Label; Int; JAlways -2`: while (true) { body }.
    let cfg = Cfg {
        blocks: vec![pat_block(0, 0, false), pat_block(1, 2, false)],
        edges: vec![pat_edge(0, 1, EdgeKind::FallThrough), pat_edge(1, 1, EdgeKind::Unconditional)],
        entry: 0,
    };
    let l = NaturalLoop { header: 1, body: loop_set(&[1]), back_edge_sources: vec![1], exit_nodes: vec![], for_in: None };
    // Detected as endless: there is no exit condition.
    assert!(matches!(detect_loop_kind(&cfg, &l), LoopKind::Endless));
}

#[test]
fn test_find_innermost_pattern() {
    // `Int; JNull +1; Int; Ret`: a simple if statement.
    let cfg = pat_if_without_else();
    let g = RegionGraph::from_cfg(&cfg);
    let info = SwitchInfo { ipdom: HashMap::new(), switch_blocks: HashSet::new(), switch_ops: HashMap::new() };
    let pattern = find_innermost_pattern(&g, &cfg, &vec![], &info);
    assert!(pattern.is_some());
}

#[test]
fn test_loop_kind_detection() {
    // `Int; JNull +2; Int; JAlways -3; Ret`.
    let cfg = Cfg {
        blocks: vec![pat_block(0, 0, false), pat_block(1, 1, false), pat_block(2, 3, false), pat_block(4, 4, true)],
        edges: vec![
            pat_edge(0, 1, EdgeKind::FallThrough),
            pat_edge(1, 3, EdgeKind::ConditionalTrue),
            pat_edge(1, 2, EdgeKind::ConditionalFalse),
            pat_edge(2, 1, EdgeKind::Unconditional),
        ],
        entry: 0,
    };
    let natural_loop = NaturalLoop { header: 0, body: loop_set(&[0, 1]), back_edge_sources: vec![1], exit_nodes: vec![0], for_in: None };
    // The header stays inside the loop; the back-edge source leaves it.
    assert!(matches!(detect_loop_kind(&cfg, &natural_loop), LoopKind::DoWhile));
}
