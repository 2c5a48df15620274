use std::collections::{HashMap, HashSet};

use structurer::cfg::{BasicBlock, Cfg, CfgEdge, EdgeKind};
use structurer::patterns::{
    find_innermost_pattern, find_switch_patterns, match_switch_pattern, IfPattern, LoopInfo, NaturalLoop, Pattern,
    SwitchInfo, SwitchOp,
};
use structurer::ast::Reg;
use structurer::region_graph::{RegionGraph, RegionNode};
use structurer::reducer::collapse_switch;
use structurer::reduction::reduce_to_region;
use structurer::region::Region;
use structurer::ast::{Constant, Expr, RefInt};

fn sw_cfg(n: usize, edges: &[(usize, usize, EdgeKind)]) -> Cfg {
    Cfg {
        blocks: (0..n).map(|i| BasicBlock { start: i, end: i, is_exit: i + 1 == n }).collect(),
        edges: edges.iter().map(|&(source, target, kind)| CfgEdge { source, target, kind }).collect(),
        entry: 0,
    }
}

fn sw_set(xs: &[usize]) -> HashSet<usize> {
    xs.iter().copied().collect()
}

/// Block 0 switches to 1 and 2, falls through to 3; all meet at 4.
fn three_way_switch() -> Cfg {
    sw_cfg(
        5,
        &[
            (0, 1, EdgeKind::Switch),
            (0, 2, EdgeKind::Switch),
            (0, 3, EdgeKind::FallThrough),
            (1, 4, EdgeKind::Unconditional),
            (2, 4, EdgeKind::Unconditional),
            (3, 4, EdgeKind::FallThrough),
        ],
    )
}

fn info(ipdom: &[(usize, usize)], switch_blocks: &[usize]) -> SwitchInfo {
    SwitchInfo {
        ipdom: ipdom.iter().copied().collect::<HashMap<usize, usize>>(),
        switch_blocks: sw_set(switch_blocks),
        switch_ops: HashMap::new(),
    }
}

#[test]
fn switch_pattern_with_post_dominator_merge() {
    let cfg = three_way_switch();
    let g = RegionGraph::from_cfg(&cfg);
    let p = match_switch_pattern(&g, &cfg, &info(&[(0, 4)], &[]), 0).expect("a switch pattern");
    assert_eq!(p.selector_node, 0);
    assert_eq!(p.selector_cfg_block, 0);
    assert_eq!(p.case_nodes, vec![2, 1]);
    assert_eq!(p.default_node, Some(3));
    assert_eq!(p.merge, 4);
    assert_eq!(p.body_nodes, sw_set(&[1, 2, 3]));
    assert!(p.selector_reg.is_none());
    assert!(p.case_values.is_empty());
}

#[test]
fn switch_pattern_merges_at_common_exit() {
    // Cases 1 and 2 reach exit 4; the default 3 reaches exit 5.
    let cfg = sw_cfg(
        6,
        &[
            (0, 1, EdgeKind::Switch),
            (0, 2, EdgeKind::Switch),
            (0, 3, EdgeKind::FallThrough),
            (1, 4, EdgeKind::Unconditional),
            (2, 4, EdgeKind::Unconditional),
            (3, 5, EdgeKind::Unconditional),
        ],
    );
    let g = RegionGraph::from_cfg(&cfg);
    let p = match_switch_pattern(&g, &cfg, &info(&[], &[0]), 0).expect("a switch pattern");
    assert_eq!(p.merge, 4);
    assert_eq!(p.body_nodes, sw_set(&[1, 2, 3, 5]));
    // Without a post-dominator, only a block ending in a switch opcode matches.
    assert!(match_switch_pattern(&g, &cfg, &info(&[], &[]), 0).is_none());
}

#[test]
fn switch_pattern_falls_back_to_selector() {
    // Each case reaches its own exit.
    let cfg = sw_cfg(
        7,
        &[
            (0, 1, EdgeKind::Switch),
            (0, 2, EdgeKind::Switch),
            (0, 3, EdgeKind::Switch),
            (1, 4, EdgeKind::Unconditional),
            (2, 5, EdgeKind::Unconditional),
            (3, 6, EdgeKind::Unconditional),
        ],
    );
    let g = RegionGraph::from_cfg(&cfg);
    let p = match_switch_pattern(&g, &cfg, &info(&[], &[0]), 0).expect("a switch pattern");
    assert_eq!(p.merge, 0);
    assert_eq!(p.default_node, None);
}

#[test]
fn two_way_branch_is_no_switch() {
    let cfg = sw_cfg(3, &[(0, 1, EdgeKind::ConditionalTrue), (0, 2, EdgeKind::ConditionalFalse), (1, 2, EdgeKind::Unconditional)]);
    let g = RegionGraph::from_cfg(&cfg);
    assert!(match_switch_pattern(&g, &cfg, &info(&[(0, 2)], &[0]), 0).is_none());
}

#[test]
fn switch_patterns_of_graph() {
    let cfg = three_way_switch();
    let g = RegionGraph::from_cfg(&cfg);
    let patterns = find_switch_patterns(&g, &cfg, &info(&[(0, 4)], &[0]));
    assert_eq!(patterns.len(), 1);
    assert_eq!(patterns[0].selector_node, 0);
}

#[test]
fn innermost_pattern_prefers_loops_then_ifs_then_switches() {
    let no_switch = info(&[], &[]);
    // A while loop.
    let cfg = sw_cfg(
        4,
        &[
            (0, 1, EdgeKind::Unconditional),
            (1, 2, EdgeKind::ConditionalTrue),
            (1, 3, EdgeKind::ConditionalFalse),
            (2, 1, EdgeKind::Unconditional),
        ],
    );
    let g = RegionGraph::from_cfg(&cfg);
    let loops = vec![NaturalLoop { header: 1, body: sw_set(&[1, 2]), back_edge_sources: vec![2], exit_nodes: vec![1], for_in: None }];
    assert!(matches!(find_innermost_pattern(&g, &cfg, &loops, &no_switch), Some(Pattern::Loop(_))));
    // An if-else.
    let cfg = sw_cfg(
        4,
        &[
            (0, 1, EdgeKind::ConditionalFalse),
            (0, 2, EdgeKind::ConditionalTrue),
            (1, 3, EdgeKind::Unconditional),
            (2, 3, EdgeKind::FallThrough),
        ],
    );
    let g = RegionGraph::from_cfg(&cfg);
    match find_innermost_pattern(&g, &cfg, &vec![], &no_switch) {
        Some(Pattern::If(ip)) => assert_eq!(ip.condition_node, 0),
        other => panic!("expected an if pattern, got {:?}", other),
    }
    // A switch.
    let cfg = three_way_switch();
    let g = RegionGraph::from_cfg(&cfg);
    assert!(matches!(find_innermost_pattern(&g, &cfg, &vec![], &info(&[(0, 4)], &[0])), Some(Pattern::Switch(_))));
    // A straight line has none.
    let cfg = sw_cfg(2, &[(0, 1, EdgeKind::Unconditional)]);
    let g = RegionGraph::from_cfg(&cfg);
    assert!(find_innermost_pattern(&g, &cfg, &vec![], &no_switch).is_none());
}

#[test]
fn pattern_nodes_of_if() {
    let p = Pattern::If(IfPattern {
        condition_node: 0,
        then_nodes: sw_set(&[2]),
        else_nodes: sw_set(&[1]),
        merge: 3,
        negated: false,
        then_exit_target: None,
    });
    assert_eq!(p.nodes(), sw_set(&[0, 1, 2]));
}

#[test]
fn loop_info_from_loops() {
    let loops = vec![
        NaturalLoop { header: 1, body: sw_set(&[1, 2]), back_edge_sources: vec![2], exit_nodes: vec![1], for_in: None },
        NaturalLoop { header: 5, body: sw_set(&[5, 6, 7]), back_edge_sources: vec![6, 7], exit_nodes: vec![], for_in: None },
    ];
    let info = LoopInfo::from_loops(&loops);
    assert_eq!(info.headers, sw_set(&[1, 5]));
    assert_eq!(info.back_edge_sources, sw_set(&[2, 6, 7]));
}

#[test]
fn switch_body_leaves_out_the_merge() {
    // Case 2 jumps straight to the merge 4.
    let cfg = sw_cfg(
        5,
        &[
            (0, 1, EdgeKind::Switch),
            (0, 4, EdgeKind::Switch),
            (0, 3, EdgeKind::FallThrough),
            (1, 4, EdgeKind::Unconditional),
            (3, 4, EdgeKind::FallThrough),
        ],
    );
    let g = RegionGraph::from_cfg(&cfg);
    let p = match_switch_pattern(&g, &cfg, &info(&[(0, 4)], &[]), 0).expect("a switch pattern");
    assert_eq!(p.merge, 4);
    assert_eq!(p.body_nodes, sw_set(&[1, 3]));
}

#[test]
fn switch_pattern_reads_the_switch_opcode() {
    let cfg = three_way_switch();
    let g = RegionGraph::from_cfg(&cfg);
    let mut si = info(&[(0, 4)], &[0]);
    // Case values 0 and 2 jump to block 1, value 1 to block 2.
    si.switch_ops.insert(0, SwitchOp { reg: Reg(7), targets: vec![(1, 0), (2, 1), (1, 2)] });
    let p = match_switch_pattern(&g, &cfg, &si, 0).expect("a switch pattern");
    assert_eq!(p.selector_reg, Some(Reg(7)));
    assert_eq!(p.case_values.len(), 2);
    assert_eq!(p.case_values[&1], vec![0, 2]);
    assert_eq!(p.case_values[&2], vec![1]);
}

fn no_loops() -> LoopInfo {
    LoopInfo { headers: HashSet::new(), back_edge_sources: HashSet::new() }
}

fn block_of(r: &Region) -> Option<usize> {
    match r {
        Region::Block(b) => Some(*b),
        _ => None,
    }
}

#[test]
fn collapse_switch_builds_cases_default_and_merge() {
    let cfg = three_way_switch();
    let mut g = RegionGraph::from_cfg(&cfg);
    let p = match_switch_pattern(&g, &cfg, &info(&[(0, 4)], &[]), 0).expect("a switch pattern");
    collapse_switch(&mut g, &cfg, &p);
    assert_eq!(g.node_count(), 2);
    let node = g.get_node(1).expect("the collapsed node");
    match node {
        RegionNode::Collapsed(Region::Switch { selector, selector_block, cases, default, merge }) => {
            assert!(matches!(selector, Expr::Constant(Constant::Int(RefInt(0)))));
            assert_eq!(*selector_block, Some(0));
            assert_eq!(*merge, 4);
            assert_eq!(cases.len(), 2);
            assert_eq!(block_of(&cases[0].body), Some(2));
            assert_eq!(block_of(&cases[1].body), Some(1));
            assert!(cases[0].patterns.is_empty());
            assert_eq!(block_of(default), Some(3));
        },
        _ => panic!("expected a switch region"),
    }
    assert!(matches!(g.get_node(0), Some(RegionNode::Block(4))));
}

#[test]
fn collapse_switch_reads_selector_and_case_values() {
    let cfg = three_way_switch();
    let mut g = RegionGraph::from_cfg(&cfg);
    let mut ops = HashMap::new();
    ops.insert(0usize, SwitchOp { reg: Reg(7), targets: vec![(1, 10), (2, 20), (2, 21)] });
    let sinfo = SwitchInfo { ipdom: [(0usize, 4usize)].into_iter().collect(), switch_blocks: HashSet::new(), switch_ops: ops };
    let p = match_switch_pattern(&g, &cfg, &sinfo, 0).expect("a switch pattern");
    collapse_switch(&mut g, &cfg, &p);
    match g.get_node(1) {
        Some(RegionNode::Collapsed(Region::Switch { selector, cases, .. })) => {
            assert!(matches!(selector, Expr::Variable(Reg(7), None)));
            assert_eq!(cases[0].patterns, vec![Constant::InlineInt(20), Constant::InlineInt(21)]);
            assert_eq!(cases[1].patterns, vec![Constant::InlineInt(10)]);
        },
        _ => panic!("expected a switch region"),
    }
}

#[test]
fn collapse_switch_case_body_runs_to_the_merge() {
    // Case 1 goes on to 5 before the merge at 4; case 2 falls into 1.
    let cfg = sw_cfg(
        6,
        &[
            (0, 1, EdgeKind::Switch),
            (0, 2, EdgeKind::Switch),
            (0, 3, EdgeKind::FallThrough),
            (1, 5, EdgeKind::Unconditional),
            (2, 1, EdgeKind::Unconditional),
            (3, 4, EdgeKind::FallThrough),
            (5, 4, EdgeKind::Unconditional),
        ],
    );
    let mut g = RegionGraph::from_cfg(&cfg);
    let p = match_switch_pattern(&g, &cfg, &info(&[(0, 4)], &[]), 0).expect("a switch pattern");
    collapse_switch(&mut g, &cfg, &p);
    let node = g.get_node(g.node_count() - 1).expect("the collapsed node");
    match node {
        RegionNode::Collapsed(Region::Switch { cases, merge, .. }) => {
            assert_eq!(*merge, 4);
            let bodies: Vec<Vec<usize>> = cases
                .iter()
                .map(|c| match &c.body {
                    Region::Sequence(rs) => rs.iter().filter_map(block_of).collect(),
                    r => block_of(r).into_iter().collect(),
                })
                .collect();
            assert!(bodies.contains(&vec![1, 5]));
            assert!(bodies.contains(&vec![2, 1, 5]));
        },
        _ => panic!("expected a switch region"),
    }
}

#[test]
fn reduction_collapses_a_switch() {
    let cfg = three_way_switch();
    let region = reduce_to_region(&cfg, &vec![], &no_loops(), &info(&[(0, 4)], &[]));
    match region {
        Region::Sequence(rs) => {
            assert_eq!(rs.len(), 2);
            assert!(matches!(rs[0], Region::Switch { merge: 4, .. }));
            assert_eq!(block_of(&rs[1]), Some(4));
        },
        _ => panic!("expected a switch followed by the merge block"),
    }
}
