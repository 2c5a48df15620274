use structurer::ast::{Constant, Expr, Operation, Reg, Statement};
use structurer::stmts::{
    is_same_expr, is_var_used_in_expr, is_var_used_in_operation, is_var_used_in_stmt,
    is_var_used_in_stmts, simplify_statements,
};

fn var(r: u32) -> Expr {
    Expr::Variable(Reg(r), None)
}

fn assign(declaration: bool, variable: Expr, value: Expr) -> Statement {
    Statement::Assign { declaration, variable, assign: value }
}

fn lit(v: usize) -> Expr {
    Expr::Constant(Constant::InlineInt(v))
}

#[test]
fn same_expr_compares_registers() {
    assert!(is_same_expr(&var(1), &Expr::Variable(Reg(1), Some("x".to_string()))));
    assert!(!is_same_expr(&var(1), &var(2)));
    assert!(!is_same_expr(&lit(1), &lit(1)));
}

#[test]
fn temporary_assignment_is_merged() {
    // r3 = 5; r0 = r3;  becomes  r0 = 5;
    let stmts = vec![assign(false, var(3), lit(5)), assign(true, var(0), var(3))];
    let out = simplify_statements(stmts);
    assert_eq!(out.len(), 1);
    match &out[0] {
        Statement::Assign { declaration, variable, assign } => {
            assert!(*declaration);
            assert!(is_same_expr(variable, &var(0)));
            assert!(matches!(assign, Expr::Constant(Constant::InlineInt(5))));
        },
        _ => panic!("Expected an assignment"),
    }
}

#[test]
fn declaration_is_not_merged() {
    let stmts = vec![assign(true, var(3), lit(5)), assign(false, var(0), var(3))];
    assert_eq!(simplify_statements(stmts).len(), 2);
}

#[test]
fn temporary_read_later_is_not_merged() {
    let stmts = vec![
        assign(false, var(3), lit(5)),
        assign(false, var(0), var(3)),
        Statement::Return(Some(var(3))),
    ];
    assert_eq!(simplify_statements(stmts).len(), 3);
}

#[test]
fn field_target_is_never_a_declaration() {
    let field = Expr::Field(Box::new(var(1)), "f".to_string());
    let stmts = vec![assign(false, var(3), lit(5)), assign(true, field, var(3))];
    let out = simplify_statements(stmts);
    assert_eq!(out.len(), 1);
    assert!(matches!(&out[0], Statement::Assign { declaration: false, .. }));
}

#[test]
fn nested_blocks_are_simplified() {
    let body = vec![assign(false, var(3), lit(1)), assign(false, var(0), var(3))];
    let stmts = vec![Statement::While { cond: Expr::Constant(Constant::Bool(true)), stmts: body }];
    let out = simplify_statements(stmts);
    assert_eq!(out.len(), 1);
    match &out[0] {
        Statement::While { stmts, .. } => assert_eq!(stmts.len(), 1),
        _ => panic!("Expected a while loop"),
    }
}

#[test]
fn simplify_never_lengthens() {
    let stmts = vec![
        assign(false, var(3), lit(1)),
        assign(false, var(0), var(3)),
        Statement::Break,
        assign(false, var(4), lit(2)),
        assign(false, var(5), var(4)),
        Statement::Continue,
    ];
    let n = stmts.len();
    let out = simplify_statements(stmts);
    assert!(out.len() <= n);
    assert_eq!(out.len(), 4);
    // No new reads: the temporaries are no longer read at all.
    assert!(!is_var_used_in_stmts(&var(3), &out));
    assert!(!is_var_used_in_stmts(&var(4), &out));
}

#[test]
fn uses_are_found_in_nested_code() {
    let call = Expr::Op(Operation::Add(Box::new(var(1)), Box::new(lit(2))));
    assert!(is_var_used_in_expr(&Reg(1), &call));
    assert!(!is_var_used_in_expr(&Reg(2), &call));
    if let Expr::Op(op) = &call {
        assert!(is_var_used_in_operation(&Reg(1), op));
    }
    let stmt = Statement::IfElse {
        cond: Expr::Constant(Constant::Bool(true)),
        if_: vec![Statement::Throw(var(7))],
        else_: Vec::new(),
    };
    assert!(is_var_used_in_stmt(&Reg(7), &stmt));
    // Being assigned is not a use.
    assert!(!is_var_used_in_stmt(&Reg(9), &assign(false, var(9), lit(0))));
    assert!(!is_var_used_in_stmts(&lit(3), &[Statement::Return(Some(var(3)))]));
    assert!(is_var_used_in_stmts(&var(3), &[Statement::Return(Some(var(3)))]));
}

#[test]
fn temporary_read_after_enclosing_block_is_kept() {
    // if (true) { r3 = 1; r0 = r3; } return r3;  -- r3 is read after the if.
    let stmts = vec![
        Statement::IfElse {
            cond: Expr::Constant(Constant::Bool(true)),
            if_: vec![assign(false, var(3), lit(1)), assign(false, var(0), var(3))],
            else_: vec![],
        },
        Statement::Return(Some(var(3))),
    ];
    let out = simplify_statements(stmts);
    assert_eq!(out.len(), 2);
    match &out[0] {
        Statement::IfElse { if_, .. } => assert_eq!(if_.len(), 2),
        _ => panic!("Expected an if"),
    }
}

#[test]
fn switch_bodies_are_simplified() {
    let body = || vec![assign(false, var(3), lit(1)), assign(false, var(0), var(3))];
    let stmts = vec![Statement::Switch {
        arg: var(5),
        default: body(),
        cases: vec![(vec![lit(0)], body()), (vec![lit(1)], body())],
        enum_type: None,
    }];
    let out = simplify_statements(stmts);
    match &out[0] {
        Statement::Switch { default, cases, .. } => {
            assert_eq!(default.len(), 1);
            assert_eq!(cases.len(), 2);
            assert_eq!(cases[0].1.len(), 1);
            assert_eq!(cases[1].1.len(), 1);
        },
        _ => panic!("Expected a switch"),
    }
}

#[test]
fn if_else_chain_bodies_are_simplified() {
    let body = || vec![assign(false, var(3), lit(1)), assign(false, var(0), var(3))];
    let stmts = vec![Statement::IfElseChain {
        branches: vec![(var(7), body())],
        else_: body(),
    }];
    let out = simplify_statements(stmts);
    match &out[0] {
        Statement::IfElseChain { branches, else_ } => {
            assert_eq!(branches[0].1.len(), 1);
            assert_eq!(else_.len(), 1);
        },
        _ => panic!("Expected an if-else chain"),
    }
}

#[test]
fn field_target_base_is_a_read() {
    let stmts = vec![assign(false, Expr::Field(Box::new(var(3)), "f".to_string()), lit(1))];
    assert!(is_var_used_in_stmts(&var(3), &stmts));
    // The register assigned itself is not read.
    let stmts = vec![assign(false, var(3), lit(1))];
    assert!(!is_var_used_in_stmts(&var(3), &stmts));
}
