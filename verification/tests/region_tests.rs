use structurer::ast::{Constant, Expr};
use structurer::cfg::{BasicBlock, Cfg};
use structurer::region::{LoopKind, Region, SwitchCase};

#[test]
fn test_block_region() {
    let node = 0;
    let region = Region::Block(node);

    assert_eq!(region.entry_node(), Some(node));
    assert_eq!(region.exit_node(), Some(node));
    assert_eq!(region.block_count(), 1);
    assert!(!region.is_empty());

    let nodes = region.contained_nodes();
    assert!(nodes.contains(&node));
    assert_eq!(nodes.len(), 1);
}

#[test]
fn test_empty_region() {
    let region = Region::Empty;

    assert!(region.entry_node().is_none());
    assert!(region.exit_node().is_none());
    assert_eq!(region.block_count(), 0);
    assert!(region.is_empty());
}

#[test]
fn test_sequence_flattening() {
    let n0 = 0;
    let n1 = 1;
    let n2 = 2;

    // Create nested sequences
    let inner = Region::Sequence(vec![Region::Block(n1), Region::Block(n2)]);
    let outer = Region::sequence(vec![Region::Block(n0), inner]);

    // Should flatten to a single sequence
    if let Region::Sequence(regions) = outer {
        assert_eq!(regions.len(), 3);
    } else {
        panic!("Expected flattened sequence");
    }
}

#[test]
fn test_sequence_single_element() {
    let node = 0;
    let seq = Region::sequence(vec![Region::Block(node)]);

    // Single-element sequence should unwrap to just the block
    assert!(matches!(seq, Region::Block(_)));
}

#[test]
fn test_sequence_empty_elements() {
    let node = 0;
    let seq = Region::sequence(vec![Region::Empty, Region::Block(node), Region::Empty]);

    // Should skip empties and return just the block
    assert!(matches!(seq, Region::Block(_)));
}

#[test]
fn test_if_then_else_nodes() {
    let n0 = 0;
    let n1 = 1;
    let n2 = 2;
    let cond_block = 3;

    let region = Region::if_then_else(
        Expr::Constant(Constant::Bool(true)),
        Some(cond_block),
        Region::Block(n0),
        Some(Region::Block(n1)),
        n2,
    );

    assert_eq!(region.exit_node(), Some(n2));
    assert_eq!(region.block_count(), 2);

    let nodes = region.contained_nodes();
    assert!(nodes.contains(&n0));
    assert!(nodes.contains(&n1));
    assert!(nodes.contains(&cond_block));
    assert_eq!(nodes.len(), 3);
}

#[test]
fn test_loop_region() {
    let header = 0;
    let body_node = 1;
    let exit = 2;

    let region = Region::while_loop(
        header,
        Expr::Constant(Constant::Bool(true)),
        Region::Block(body_node),
        exit,
    );

    assert_eq!(region.entry_node(), Some(header));
    assert_eq!(region.exit_node(), Some(exit));
    assert_eq!(region.block_count(), 1);

    if let Region::Loop { kind, .. } = region {
        assert_eq!(kind, LoopKind::While);
    }
}

fn exit_flags_cfg(exits: &[bool]) -> Cfg {
    let mut blocks = Vec::new();
    for (i, e) in exits.iter().enumerate() {
        blocks.push(BasicBlock { start: i, end: i, is_exit: *e });
    }
    Cfg { blocks, edges: Vec::new(), entry: 0 }
}

#[test]
fn sequence_keeps_block_count() {
    let inner = Region::Sequence(vec![Region::Block(1), Region::Block(2)]);
    let pieces = vec![Region::Block(0), Region::Empty, inner, Region::Block(3)];
    let counted: usize = pieces.iter().map(|r| r.block_count()).sum();
    let seq = Region::sequence(pieces);
    assert_eq!(seq.block_count(), counted);
    assert_eq!(seq.block_count(), 4);
    assert_eq!(seq.entry_node(), Some(0));
    assert_eq!(seq.exit_node(), Some(3));
    assert_eq!(seq.contained_nodes().len(), 4);
}

#[test]
fn sequence_of_nothing_is_empty() {
    let seq = Region::sequence(vec![Region::Empty, Region::Sequence(Vec::new())]);
    assert!(matches!(seq, Region::Empty));
    assert!(seq.is_empty());
}

#[test]
fn terminates_follows_exit_blocks() {
    let cfg = exit_flags_cfg(&[false, true, true, false]);
    assert!(Region::Block(1).terminates(&cfg));
    assert!(!Region::Block(0).terminates(&cfg));
    // A sequence terminates when its last piece does.
    assert!(Region::sequence(vec![Region::Block(0), Region::Block(2)]).terminates(&cfg));
    assert!(!Region::sequence(vec![Region::Block(1), Region::Block(3)]).terminates(&cfg));
    // Both branches terminate.
    let both = Region::if_then_else(
        Expr::Constant(Constant::Bool(true)),
        Some(0),
        Region::Block(1),
        Some(Region::Block(2)),
        3,
    );
    assert!(both.terminates(&cfg));
    // Then terminates, no else, and the merge block ends the function.
    let early = Region::if_then_else(Expr::Constant(Constant::Null), Some(0), Region::Block(1), None, 2);
    assert!(early.terminates(&cfg));
    let open_merge = Region::if_then_else(Expr::Constant(Constant::Null), Some(0), Region::Block(1), None, 3);
    assert!(!open_merge.terminates(&cfg));
    // Loops never terminate on their own.
    assert!(!Region::endless_loop(0, Region::Block(1), 2).terminates(&cfg));
    // A switch terminates when every case and the default do.
    let switch = Region::Switch {
        selector: Expr::Constant(Constant::Null),
        selector_block: Some(0),
        cases: vec![SwitchCase { patterns: vec![Constant::InlineInt(1)], body: Region::Block(1) }],
        default: Box::new(Region::Block(2)),
        merge: 3,
    };
    assert!(switch.terminates(&cfg));
    assert_eq!(switch.entry_node(), Some(1));
    assert_eq!(switch.exit_node(), Some(3));
}

#[test]
fn goto_and_loop_entries() {
    let goto = Region::Goto { target: 7 };
    assert_eq!(goto.entry_node(), Some(7));
    assert_eq!(goto.exit_node(), Some(7));
    assert_eq!(goto.block_count(), 0);
    let lp = Region::endless_loop(4, Region::Block(5), 6);
    assert_eq!(lp.entry_node(), Some(4));
    assert_eq!(lp.exit_node(), Some(6));
    if let Region::Loop { kind, condition, .. } = lp {
        assert_eq!(kind, LoopKind::Endless);
        assert!(condition.is_none());
    } else {
        panic!("Expected Loop region");
    }
}

#[test]
fn test_lower_empty_region() {
    let region = Region::Empty;
    assert!(region.is_empty());
}

#[test]
fn test_lower_sequence_region() {
    let region = Region::sequence(vec![Region::Block(0), Region::Block(1)]);
    match region {
        Region::Sequence(regions) => {
            assert_eq!(regions.len(), 2);
        },
        _ => panic!("Expected Sequence region"),
    }
}

#[test]
fn test_lower_if_then_else_structure() {
    let region = Region::if_then_else(
        Expr::Constant(Constant::Bool(true)),
        Some(3),
        Region::Block(0),
        Some(Region::Block(1)),
        2,
    );
    match region {
        Region::IfThenElse { cond_block, then_region, else_region, merge, .. } => {
            assert!(matches!(*then_region, Region::Block(_)));
            assert!(else_region.is_some());
            assert_eq!(merge, 2);
            assert_eq!(cond_block, Some(3));
        },
        _ => panic!("Expected IfThenElse region"),
    }
}

#[test]
fn test_lower_loop_structure() {
    let region = Region::while_loop(0, Expr::Constant(Constant::Bool(true)), Region::Block(1), 2);
    match region {
        Region::Loop { kind, header: h, exit: e, .. } => {
            assert_eq!(kind, LoopKind::While);
            assert_eq!(h, 0);
            assert_eq!(e, 2);
        },
        _ => panic!("Expected Loop region"),
    }
}

#[test]
fn or_chain_region_queries() {
    let region = Region::OrChain {
        condition_blocks: vec![0, 1],
        then_region: Box::new(Region::Block(2)),
        else_region: Some(Box::new(Region::Block(3))),
        continuation: 4,
        last_condition_inverted: false,
        nested_and_chains: std::collections::HashMap::new(),
    };
    assert_eq!(region.entry_node(), Some(2));
    assert_eq!(region.exit_node(), Some(4));
    assert_eq!(region.block_count(), 2);
    let mut expected = std::collections::HashSet::new();
    expected.extend([0usize, 1, 2, 3]);
    assert_eq!(region.contained_nodes(), expected);
    assert!(!region.is_empty());
}
