use structurer::ast::Operation;
use structurer::lower::loop_statements;
use structurer::region::LoopKind;
use structurer::ast::{Constant, Expr, Reg, Statement};
use structurer::cfg::{BasicBlock, Cfg};
use structurer::lower::{find_innermost_exit_merge, is_next_assignment};
use structurer::region::Region;

fn low_cfg(exits: &[bool]) -> Cfg {
    Cfg {
        blocks: exits.iter().map(|&is_exit| BasicBlock { start: 0, end: 0, is_exit }).collect(),
        edges: vec![],
        entry: 0,
    }
}

fn if_then(then_region: Region, else_region: Option<Region>, merge: usize) -> Region {
    Region::IfThenElse {
        cond: Expr::Constant(Constant::Bool(true)),
        cond_block: Some(0),
        then_region: Box::new(then_region),
        else_region: else_region.map(Box::new),
        merge,
        negated: false,
    }
}

#[test]
fn exit_merge_of_early_return() {
    // Blocks 1 and 2 end the function.
    let cfg = low_cfg(&[false, true, true, false]);
    let r = if_then(Region::Block(1), None, 2);
    assert_eq!(find_innermost_exit_merge(&r, &cfg), Some(2));
    // A then branch that does not end the function gives none.
    let r = if_then(Region::Block(3), None, 2);
    assert_eq!(find_innermost_exit_merge(&r, &cfg), None);
    // Nor does an if with an else.
    let r = if_then(Region::Block(1), Some(Region::Block(3)), 2);
    assert_eq!(find_innermost_exit_merge(&r, &cfg), None);
}

#[test]
fn exit_merge_prefers_the_innermost() {
    let cfg = low_cfg(&[false, true, true, false, true]);
    let inner = if_then(Region::Block(1), None, 2);
    let outer = if_then(inner, None, 4);
    assert_eq!(find_innermost_exit_merge(&outer, &cfg), Some(2));
    // In a sequence only the last region counts.
    let seq = Region::Sequence(vec![if_then(Region::Block(1), None, 2), Region::Block(3)]);
    assert_eq!(find_innermost_exit_merge(&seq, &cfg), None);
    let seq = Region::Sequence(vec![Region::Block(3), if_then(Region::Block(1), None, 4)]);
    assert_eq!(find_innermost_exit_merge(&seq, &cfg), Some(4));
    assert_eq!(find_innermost_exit_merge(&Region::Empty, &cfg), None);
}

#[test]
fn next_assignment_detection() {
    let assign = Statement::Assign {
        declaration: true,
        variable: Expr::Variable(Reg(3), None),
        assign: Expr::Constant(Constant::Null),
    };
    assert!(is_next_assignment(&assign, Reg(3)));
    assert!(!is_next_assignment(&assign, Reg(4)));
    assert!(!is_next_assignment(&Statement::Break, Reg(3)));
    let other = Statement::Assign {
        declaration: false,
        variable: Expr::Ident(String::from("x")),
        assign: Expr::Constant(Constant::Null),
    };
    assert!(!is_next_assignment(&other, Reg(3)));
}

fn loop_lit(v: usize) -> structurer::ast::Expr {
    structurer::ast::Expr::Constant(structurer::ast::Constant::InlineInt(v))
}

fn loop_stmt(v: usize) -> structurer::ast::Statement {
    structurer::ast::Statement::ExprStatement(loop_lit(v))
}

fn is_true(e: &structurer::ast::Expr) -> bool {
    matches!(e, structurer::ast::Expr::Constant(structurer::ast::Constant::Bool(true)))
}

#[test]
fn while_loop_without_header_negates_exit_condition() {
    let out = loop_statements(&LoopKind::While, vec![], loop_lit(7), vec![loop_stmt(1), loop_stmt(2)]);
    assert_eq!(out.len(), 1);
    match &out[0] {
        Statement::While { cond: Expr::Op(Operation::Not(inner)), stmts } => {
            assert!(matches!(**inner, Expr::Constant(structurer::ast::Constant::InlineInt(7))));
            assert_eq!(stmts.len(), 2);
        },
        _ => panic!("Expected while (!cond)"),
    }
}

#[test]
fn while_loop_with_header_breaks_on_exit_condition() {
    let out = loop_statements(&LoopKind::While, vec![loop_stmt(9)], loop_lit(7), vec![loop_stmt(1)]);
    match &out[0] {
        Statement::While { cond, stmts } => {
            assert!(is_true(cond));
            assert_eq!(stmts.len(), 3);
            assert!(matches!(&stmts[0], Statement::ExprStatement(_)));
            match &stmts[1] {
                Statement::IfElse { if_, else_, .. } => {
                    assert!(matches!(if_[..], [Statement::Break]));
                    assert!(else_.is_empty());
                },
                _ => panic!("Expected the break test"),
            }
        },
        _ => panic!("Expected while (true)"),
    }
}

#[test]
fn do_while_loop_tests_at_the_end() {
    let out = loop_statements(&LoopKind::DoWhile, vec![loop_stmt(9)], loop_lit(7), vec![loop_stmt(1), loop_stmt(2)]);
    match &out[0] {
        Statement::While { cond, stmts } => {
            assert!(is_true(cond));
            assert_eq!(stmts.len(), 3);
            assert!(matches!(&stmts[2], Statement::IfElse { .. }));
        },
        _ => panic!("Expected while (true)"),
    }
}

#[test]
fn endless_loop_joins_header_and_body() {
    let out = loop_statements(&LoopKind::Endless, vec![loop_stmt(9)], loop_lit(7), vec![loop_stmt(1)]);
    match &out[0] {
        Statement::While { cond, stmts } => {
            assert!(is_true(cond));
            assert_eq!(stmts.len(), 2);
        },
        _ => panic!("Expected while (true)"),
    }
}
