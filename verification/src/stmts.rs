//! Statement-level clean-ups applied to structured output.
use vstd::prelude::*;

use crate::ast::{Expr, Operation, Reg, Statement};

verus! {

broadcast use vstd::std_specs::vec::group_vec_axioms;

/// A register read by an argument of a call is read by the call: the
/// arguments are evaluated when the call is.
pub proof fn lemma_call_reads_its_arguments(reg: Reg, call: crate::ast::Call, i: int)
    requires
        0 <= i < call.args.len(),
        expr_reads(reg, call.args@[i]),
    ensures
        expr_reads(reg, Expr::Call(Box::new(call))),
{
}

/// A register read by a part of an expression that is evaluated with it
/// is read by the expression: the callee of a call, the base of a field
/// access, the base and index of an array access, the operand of a cast or
/// of a type annotation, an element of an array literal.
pub proof fn lemma_reads_through_parts(reg: Reg)
    ensures
        forall|c: crate::ast::Call| expr_reads(reg, c.fun) ==> #[trigger] expr_reads(reg, Expr::Call(Box::new(c))),
        forall|b: Expr, f: String| expr_reads(reg, b) ==> #[trigger] expr_reads(reg, Expr::Field(Box::new(b), f)),
        forall|b: Expr, x: Expr| expr_reads(reg, b) || expr_reads(reg, x) ==> #[trigger] expr_reads(
            reg,
            Expr::Array(Box::new(b), Box::new(x)),
        ),
        forall|x: Expr, t: crate::ast::RefType| expr_reads(reg, x) ==> #[trigger] expr_reads(reg, Expr::Cast(Box::new(x), t)),
        forall|x: Expr, t: crate::ast::RefType| expr_reads(reg, x) ==> #[trigger] expr_reads(
            reg,
            Expr::TypeAnnotated(Box::new(x), t),
        ),
        forall|es: Vec<Expr>, i: int| #![trigger expr_reads(reg, Expr::ArrayLiteral(es)), es@[i]]
            0 <= i < es.len() && expr_reads(reg, es@[i]) ==> expr_reads(reg, Expr::ArrayLiteral(es)),
{
    assert forall|es: Vec<Expr>, i: int| 0 <= i < es.len() && expr_reads(reg, es@[i]) implies expr_reads(
        reg,
        Expr::ArrayLiteral(es),
    ) by {
        let e = Expr::ArrayLiteral(es);
        match e {
            Expr::ArrayLiteral(elems) => {
                assert(elems@[i] == es@[i]);
            },
            _ => {},
        }
    }
}

/// A register is read by an expression that names it, whatever its name.
pub proof fn lemma_variable_reads_its_register(reg: Reg, name: Option<String>)
    ensures
        expr_reads(reg, Expr::Variable(reg, name)),
{
}

/// A call that passes register `reg` as one of its arguments reads `reg`.
pub proof fn lemma_call_argument_is_read(reg: Reg, name: Option<String>, call: crate::ast::Call, i: int)
    requires
        0 <= i < call.args.len(),
        call.args@[i] == Expr::Variable(reg, name),
    ensures
        expr_reads(reg, Expr::Call(Box::new(call))),
        stmt_reads(reg, Statement::ExprStatement(Expr::Call(Box::new(call)))),
{
    lemma_variable_reads_its_register(reg, name);
    lemma_call_reads_its_arguments(reg, call, i);
}

/// Whether two expressions name the same register.
pub open spec fn same_var(a: Expr, b: Expr) -> bool {
    match (a, b) {
        (Expr::Variable(ra, _), Expr::Variable(rb, _)) => ra == rb,
        _ => false,
    }
}

/// Whether evaluating `e` reads register `reg`.
pub open spec fn expr_reads(reg: Reg, e: Expr) -> bool
    decreases e,
{
    match e {
        Expr::Variable(r, _) => r == reg,
        Expr::Field(base, _) => expr_reads(reg, *base),
        Expr::Array(base, idx) => expr_reads(reg, *base) || expr_reads(reg, *idx),
        Expr::Call(call) => expr_reads(reg, call.fun) || exists|i: int|
            0 <= i < call.args.len() && expr_reads(reg, #[trigger] call.args@[i]),
        Expr::Op(op) => op_reads(reg, op),
        Expr::IfElse { cond, if_, else_ } => expr_reads(reg, *cond)
            || (exists|i: int| 0 <= i < if_.len() && stmt_reads(reg, #[trigger] if_@[i]))
            || (exists|i: int| 0 <= i < else_.len() && stmt_reads(reg, #[trigger] else_@[i])),
        Expr::Constructor(ctor) => exists|i: int|
            0 <= i < ctor.args.len() && expr_reads(reg, #[trigger] ctor.args@[i]),
        Expr::Anonymous(_, fields) => exists|i: int|
            0 <= i < fields.len() && expr_reads(reg, (#[trigger] fields@[i]).1),
        Expr::ArrayLiteral(elems) => exists|i: int|
            0 <= i < elems.len() && expr_reads(reg, #[trigger] elems@[i]),
        Expr::EnumConstr(_, _, args) => exists|i: int|
            0 <= i < args.len() && expr_reads(reg, #[trigger] args@[i]),
        Expr::Closure(_, body) => exists|i: int|
            0 <= i < body.len() && stmt_reads(reg, #[trigger] body@[i]),
        Expr::Cast(inner, _) => expr_reads(reg, *inner),
        Expr::TypeAnnotated(inner, _) => expr_reads(reg, *inner),
        Expr::Constant(_) | Expr::Ident(_) | Expr::FunRef(_) | Expr::Unknown(_) => false,
    }
}

/// Whether evaluating the operation reads register `reg`.
pub open spec fn op_reads(reg: Reg, op: Operation) -> bool
    decreases op,
{
    match op {
        Operation::Add(l, r) | Operation::Sub(l, r) | Operation::Mul(l, r) | Operation::Div(l, r)
        | Operation::Mod(l, r) | Operation::Shl(l, r) | Operation::Shr(l, r) | Operation::And(l, r)
        | Operation::Or(l, r) | Operation::Xor(l, r) | Operation::Eq(l, r) | Operation::NotEq(l, r)
        | Operation::Gt(l, r) | Operation::Gte(l, r) | Operation::Lt(l, r) | Operation::Lte(l, r) =>
            expr_reads(reg, *l) || expr_reads(reg, *r),
        Operation::Neg(e) | Operation::Not(e) | Operation::Incr(e) | Operation::Decr(e) =>
            expr_reads(reg, *e),
    }
}

/// Whether executing `s` reads register `reg`. Being the register assigned
/// is not a read; the base or index of a field or array target is read.
pub open spec fn stmt_reads(reg: Reg, s: Statement) -> bool
    decreases s,
{
    match s {
        Statement::Assign { variable, assign, .. } => (!(variable is Variable) && expr_reads(reg, variable)) || expr_reads(reg, assign),
        Statement::ExprStatement(e) => expr_reads(reg, e),
        Statement::Return(Some(e)) => expr_reads(reg, e),
        Statement::Return(None) => false,
        Statement::While { cond, stmts } => expr_reads(reg, cond)
            || exists|i: int| 0 <= i < stmts.len() && stmt_reads(reg, #[trigger] stmts@[i]),
        Statement::IfElse { cond, if_, else_ } => expr_reads(reg, cond)
            || (exists|i: int| 0 <= i < if_.len() && stmt_reads(reg, #[trigger] if_@[i]))
            || (exists|i: int| 0 <= i < else_.len() && stmt_reads(reg, #[trigger] else_@[i])),
        Statement::Block { stmts } => exists|i: int|
            0 <= i < stmts.len() && stmt_reads(reg, #[trigger] stmts@[i]),
        Statement::Sequence { stmts } => exists|i: int|
            0 <= i < stmts.len() && stmt_reads(reg, #[trigger] stmts@[i]),
        Statement::TryCatch { try_stmts, catch_stmts, .. } =>
            (exists|i: int| 0 <= i < try_stmts.len() && stmt_reads(reg, #[trigger] try_stmts@[i]))
            || (exists|i: int| 0 <= i < catch_stmts.len() && stmt_reads(reg, #[trigger] catch_stmts@[i])),
        Statement::Throw(e) => expr_reads(reg, e),
        Statement::Switch { arg, default, cases, .. } => expr_reads(reg, arg)
            || (exists|i: int| 0 <= i < default.len() && stmt_reads(reg, #[trigger] default@[i]))
            || (exists|i: int, j: int| 0 <= i < cases.len() && 0 <= j < cases@[i].1.len()
                && stmt_reads(reg, #[trigger] cases@[i].1@[j])),
        Statement::IfElseChain { branches, else_ } =>
            (exists|i: int| 0 <= i < branches.len() && expr_reads(reg, (#[trigger] branches@[i]).0))
            || (exists|i: int, j: int| 0 <= i < branches.len() && 0 <= j < branches@[i].1.len()
                && stmt_reads(reg, #[trigger] branches@[i].1@[j]))
            || (exists|i: int| 0 <= i < else_.len() && stmt_reads(reg, #[trigger] else_@[i])),
        Statement::Comment(_) | Statement::Break | Statement::Continue | Statement::VarDecl { .. } => false,
    }
}

/// Check if two expressions refer to the same variable.
pub fn is_same_expr(a: &Expr, b: &Expr) -> (res: bool)
    ensures
        res == same_var(*a, *b),
{
    match (a, b) {
        (Expr::Variable(reg_a, _), Expr::Variable(reg_b, _)) => reg_a.0 == reg_b.0,
        _ => false,
    }
}


/// Whether some statement of `stmts` reads `reg`.
pub open spec fn stmts_read(reg: Reg, stmts: Seq<Statement>) -> bool {
    exists|i: int| 0 <= i < stmts.len() && stmt_reads(reg, #[trigger] stmts[i])
}

/// Check if a variable is used anywhere in a list of statements.
pub fn is_var_used_in_stmts(var: &Expr, stmts: &[Statement]) -> (res: bool)
    ensures
        res == (match *var {
            Expr::Variable(r, _) => stmts_read(r, stmts@),
            _ => false,
        }),
{
    let target_reg = match var {
        Expr::Variable(r, _) => r,
        _ => {
            return false;
        },
    };
    any_stmt_reads(target_reg, stmts)
}

fn any_stmt_reads(reg: &Reg, stmts: &[Statement]) -> (res: bool)
    ensures
        res == stmts_read(*reg, stmts@),
    decreases stmts@,
{
    let mut i: usize = 0;
    while i < stmts.len()
        invariant
            0 <= i <= stmts.len(),
            forall|j: int| 0 <= j < i ==> !stmt_reads(*reg, #[trigger] stmts@[j]),
        decreases stmts.len() - i,
    {
        if is_var_used_in_stmt(reg, &stmts[i]) {
            return true;
        }
        i += 1;
    }
    false
}

fn any_expr_reads(reg: &Reg, exprs: &Vec<Expr>) -> (res: bool)
    ensures
        res == exists|i: int| 0 <= i < exprs.len() && expr_reads(*reg, #[trigger] exprs@[i]),
    decreases exprs,
{
    let mut i: usize = 0;
    while i < exprs.len()
        invariant
            0 <= i <= exprs.len(),
            forall|j: int| 0 <= j < i ==> !expr_reads(*reg, #[trigger] exprs@[j]),
        decreases exprs.len() - i,
    {
        if is_var_used_in_expr(reg, &exprs[i]) {
            return true;
        }
        i += 1;
    }
    false
}

/// Check if a register is used in a statement (as a read, not just assignment target).
#[verifier::loop_isolation(false)]
pub fn is_var_used_in_stmt(reg: &Reg, stmt: &Statement) -> (res: bool)
    ensures
        res == stmt_reads(*reg, *stmt),
    decreases stmt,
{
    match stmt {
        Statement::Assign { variable, assign, .. } => {
            let in_target = match variable {
                Expr::Variable(..) => false,
                _ => is_var_used_in_expr(reg, variable),
            };
            in_target || is_var_used_in_expr(reg, assign)
        },
        Statement::ExprStatement(expr) => is_var_used_in_expr(reg, expr),
        Statement::Return(Some(expr)) => is_var_used_in_expr(reg, expr),
        Statement::Return(None) => false,
        Statement::While { cond, stmts } => is_var_used_in_expr(reg, cond) || any_stmt_reads(
            reg,
            stmts.as_slice(),
        ),
        Statement::IfElse { cond, if_, else_ } => is_var_used_in_expr(reg, cond) || any_stmt_reads(
            reg,
            if_.as_slice(),
        ) || any_stmt_reads(reg, else_.as_slice()),
        Statement::Block { stmts } => any_stmt_reads(reg, stmts.as_slice()),
        Statement::Sequence { stmts } => any_stmt_reads(reg, stmts.as_slice()),
        Statement::TryCatch { try_stmts, catch_stmts, .. } => any_stmt_reads(
            reg,
            try_stmts.as_slice(),
        ) || any_stmt_reads(reg, catch_stmts.as_slice()),
        Statement::Throw(expr) => is_var_used_in_expr(reg, expr),
        Statement::Switch { arg, default, cases, .. } => {
            if is_var_used_in_expr(reg, arg) || any_stmt_reads(reg, default.as_slice()) {
                return true;
            }
            let mut i: usize = 0;
            while i < cases.len()
                invariant
                    0 <= i <= cases.len(),
                    forall|k: int, j: int|
                        0 <= k < i && 0 <= j < cases@[k].1.len() ==> !stmt_reads(
                            *reg,
                            #[trigger] cases@[k].1@[j],
                        ),
                decreases cases.len() - i,
            {
                proof {
                    assert(decreases_to!(cases => cases[i as int]));
                }
                if any_stmt_reads(reg, cases[i].1.as_slice()) {
                    return true;
                }
                i += 1;
            }
            false
        },
        Statement::IfElseChain { branches, else_ } => {
            let mut i: usize = 0;
            while i < branches.len()
                invariant
                    0 <= i <= branches.len(),
                    forall|k: int| 0 <= k < i ==> !expr_reads(*reg, (#[trigger] branches@[k]).0),
                    forall|k: int, j: int|
                        0 <= k < i && 0 <= j < branches@[k].1.len() ==> !stmt_reads(
                            *reg,
                            #[trigger] branches@[k].1@[j],
                        ),
                decreases branches.len() - i,
            {
                proof {
                    assert(decreases_to!(branches => branches[i as int]));
                }
                if is_var_used_in_expr(reg, &branches[i].0) || any_stmt_reads(
                    reg,
                    branches[i].1.as_slice(),
                ) {
                    return true;
                }
                i += 1;
            }
            any_stmt_reads(reg, else_.as_slice())
        },
        Statement::Comment(_) | Statement::Break | Statement::Continue | Statement::VarDecl {
            ..
        } => false,
    }
}

/// Check if a register is used in an expression.
#[verifier::loop_isolation(false)]
pub fn is_var_used_in_expr(reg: &Reg, expr: &Expr) -> (res: bool)
    ensures
        res == expr_reads(*reg, *expr),
    decreases expr,
{
    match expr {
        Expr::Variable(r, _) => r.0 == reg.0,
        Expr::Field(base, _) => is_var_used_in_expr(reg, base),
        Expr::Array(base, idx) => is_var_used_in_expr(reg, base) || is_var_used_in_expr(reg, idx),
        Expr::Call(call) => is_var_used_in_expr(reg, &call.fun) || any_expr_reads(reg, &call.args),
        Expr::Op(op) => is_var_used_in_operation(reg, op),
        Expr::IfElse { cond, if_, else_ } => is_var_used_in_expr(reg, cond) || any_stmt_reads(
            reg,
            if_.as_slice(),
        ) || any_stmt_reads(reg, else_.as_slice()),
        Expr::Constructor(ctor) => any_expr_reads(reg, &ctor.args),
        Expr::Anonymous(_, fields) => {
            let mut i: usize = 0;
            while i < fields.len()
                invariant
                    0 <= i <= fields.len(),
                    forall|k: int| 0 <= k < i ==> !expr_reads(*reg, (#[trigger] fields@[k]).1),
                decreases fields.len() - i,
            {
                proof {
                    assert(decreases_to!(fields => fields[i as int]));
                }
                if is_var_used_in_expr(reg, &fields[i].1) {
                    return true;
                }
                i += 1;
            }
            false
        },
        Expr::ArrayLiteral(elems) => any_expr_reads(reg, elems),
        Expr::EnumConstr(_, _, args) => any_expr_reads(reg, args),
        Expr::Closure(_, stmts) => any_stmt_reads(reg, stmts.as_slice()),
        Expr::Cast(inner, _) => is_var_used_in_expr(reg, inner),
        Expr::TypeAnnotated(inner, _) => is_var_used_in_expr(reg, inner),
        Expr::Constant(_) | Expr::Ident(_) | Expr::FunRef(_) | Expr::Unknown(_) => false,
    }
}

/// Check if a register is used in an operation.
pub fn is_var_used_in_operation(reg: &Reg, op: &Operation) -> (res: bool)
    ensures
        res == op_reads(*reg, *op),
    decreases op,
{
    match op {
        Operation::Add(l, r) | Operation::Sub(l, r) | Operation::Mul(l, r) | Operation::Div(l, r)
        | Operation::Mod(l, r) | Operation::Shl(l, r) | Operation::Shr(l, r) | Operation::And(l, r)
        | Operation::Or(l, r) | Operation::Xor(l, r) | Operation::Eq(l, r) | Operation::NotEq(l, r)
        | Operation::Gt(l, r) | Operation::Gte(l, r) | Operation::Lt(l, r) | Operation::Lte(l, r) =>
            is_var_used_in_expr(reg, l) || is_var_used_in_expr(reg, r),
        Operation::Neg(e) | Operation::Not(e) | Operation::Incr(e) | Operation::Decr(e) =>
            is_var_used_in_expr(reg, e),
    }
}


/// Whether `var` is a register that some statement of `stmts` reads.
pub open spec fn var_read_in(var: Expr, stmts: Seq<Statement>) -> bool {
    match var {
        Expr::Variable(r, _) => stmts_read(r, stmts),
        _ => false,
    }
}

/// A list of statements reads a register exactly when one of its parts
/// does; the empty list reads none.
pub proof fn lemma_stmts_read_concat(reg: Reg, a: Seq<Statement>, b: Seq<Statement>)
    ensures
        stmts_read(reg, a + b) == (stmts_read(reg, a) || stmts_read(reg, b)),
        !stmts_read(reg, Seq::<Statement>::empty()),
{
    let c = a + b;
    if stmts_read(reg, c) {
        let k = choose|k: int| 0 <= k < c.len() && stmt_reads(reg, #[trigger] c[k]);
        if k < a.len() {
            assert(a[k] == c[k]);
        } else {
            assert(b[k - a.len()] == c[k]);
        }
    }
    if stmts_read(reg, a) {
        let k = choose|k: int| 0 <= k < a.len() && stmt_reads(reg, #[trigger] a[k]);
        assert(c[k] == a[k]);
    }
    if stmts_read(reg, b) {
        let k = choose|k: int| 0 <= k < b.len() && stmt_reads(reg, #[trigger] b[k]);
        assert(c[k + a.len()] == b[k]);
    }
}

/// Whether a variable is read depends on its register alone, not on the
/// name it carries.
pub proof fn lemma_var_read_ignores_name(r: Reg, n1: Option<String>, n2: Option<String>, stmts: Seq<Statement>)
    ensures
        var_read_in(Expr::Variable(r, n1), stmts) == var_read_in(Expr::Variable(r, n2), stmts),
{
}

/// The statements that follow the innermost of nested statement lists:
/// the rest of the innermost list first (the last entry of `ctx`), then
/// the rest of each enclosing list outwards.
pub open spec fn ctx_after(ctx: Seq<&[Statement]>) -> Seq<Statement>
    decreases ctx.len(),
{
    if ctx.len() == 0 {
        Seq::empty()
    } else {
        ctx.last()@ + ctx_after(ctx.drop_last())
    }
}

proof fn lemma_ctx_reads(var: Expr, ctx: Seq<&[Statement]>)
    ensures
        var_read_in(var, ctx_after(ctx)) <==> exists|j: int| 0 <= j < ctx.len() && var_read_in(var, #[trigger] ctx[j]@),
    decreases ctx.len(),
{
    if let Expr::Variable(r, _) = var {
        if ctx.len() == 0 {
            lemma_stmts_read_concat(r, Seq::empty(), Seq::empty());
        } else {
            lemma_ctx_reads(var, ctx.drop_last());
            lemma_stmts_read_concat(r, ctx.last()@, ctx_after(ctx.drop_last()));
            if exists|j: int| 0 <= j < ctx.len() && var_read_in(var, #[trigger] ctx[j]@) {
                let j = choose|j: int| 0 <= j < ctx.len() && var_read_in(var, #[trigger] ctx[j]@);
                if j < ctx.len() - 1 {
                    assert(ctx.drop_last()[j] == ctx[j]);
                }
            }
            if var_read_in(var, ctx_after(ctx.drop_last())) {
                let j = choose|j: int| 0 <= j < ctx.drop_last().len() && var_read_in(var, #[trigger] ctx.drop_last()[j]@);
                assert(ctx[j] == ctx.drop_last()[j]);
            }
        }
    }
}

/// Whether the first two statements of `s` have the shape `t = e; x = t;`
/// with `t` a non-declared temporary that nothing after them reads: neither
/// the rest of `s` nor `after`, the statements that follow the list.
pub open spec fn merge_candidate(s: Seq<Statement>, after: Seq<Statement>) -> bool {
    s.len() >= 2 && match (s[0], s[1]) {
        (
            Statement::Assign { declaration: d1, variable: v1, .. },
            Statement::Assign { variable: v2, assign: a2, .. },
        ) => same_var(v1, a2) && !same_var(v1, v2) && !d1 && !var_read_in(v1, s.skip(2) + after),
        _ => false,
    }
}

/// The single assignment `x = e;` that replaces `t = e; x = t;`.
pub open spec fn merged_assign(first: Statement, second: Statement) -> Statement {
    match (first, second) {
        (Statement::Assign { assign: a1, .. }, Statement::Assign { declaration: d2, variable: v2, .. }) =>
            Statement::Assign {
            declaration: if v2 is Field || v2 is Array {
                false
            } else {
                d2
            },
            variable: v2,
            assign: a1,
        },
        _ => first,
    }
}

/// `b` is the simplification of the statement list `a`, which `after`
/// follows: scanning from the front, each merge candidate pair becomes its
/// merged assignment and every other statement is simplified on its own.
pub open spec fn seq_simplified(a: Seq<Statement>, b: Seq<Statement>, after: Seq<Statement>) -> bool
    decreases a,
{
    if a.len() == 0 {
        b.len() == 0
    } else if merge_candidate(a, after) {
        b.len() >= 1 && b[0] == merged_assign(a[0], a[1]) && seq_simplified(a.skip(2), b.skip(1), after)
    } else {
        b.len() >= 1 && stmt_simplified(a[0], b[0], a.skip(1) + after) && seq_simplified(
            a.skip(1),
            b.skip(1),
            after,
        )
    }
}

/// A temporary that a later call passes as an argument is not merged
/// away: where `t = e; x = t;` opens a list and some statement after the
/// pair (in the list or after it) is a call passing `t`, the pair is no
/// merge candidate, and the first statement of the simplified list is the
/// simplification of `t = e;` itself.
pub proof fn lemma_temporary_read_by_later_call_is_kept(
    a: Seq<Statement>,
    b: Seq<Statement>,
    after: Seq<Statement>,
    t: Reg,
    name: Option<String>,
    call: crate::ast::Call,
    k: int,
    i: int,
)
    requires
        a.len() >= 2,
        a[0] matches Statement::Assign { variable: v, .. } && v == Expr::Variable(t, name),
        0 <= k < (a.skip(2) + after).len(),
        (a.skip(2) + after)[k] == Statement::ExprStatement(Expr::Call(Box::new(call))),
        0 <= i < call.args.len(),
        call.args@[i] matches Expr::Variable(r, _) && r == t,
        seq_simplified(a, b, after),
    ensures
        !merge_candidate(a, after),
        b.len() >= 1,
        stmt_simplified(a[0], b[0], a.skip(1) + after),
{
    let n2 = call.args@[i]->Variable_1;
    lemma_call_argument_is_read(t, n2, call, i);
    let rest = a.skip(2) + after;
    assert(stmt_reads(t, rest[k]));
    assert(stmts_read(t, rest));
    assert(var_read_in(Expr::Variable(t, name), rest));
}

/// `b` is `a` with the statement lists nested directly inside it simplified;
/// `after` follows `a`, and so follows each of those lists.
pub open spec fn stmt_simplified(a: Statement, b: Statement, after: Seq<Statement>) -> bool
    decreases a,
{
    match a {
        Statement::While { cond, stmts } => b matches Statement::While { cond: c, stmts: s }
            && c == cond && seq_simplified(stmts@, s@, after),
        Statement::IfElse { cond, if_, else_ } => b matches Statement::IfElse {
            cond: c,
            if_: i2,
            else_: e2,
        } && c == cond && seq_simplified(if_@, i2@, after) && seq_simplified(else_@, e2@, after),
        Statement::Block { stmts } => b matches Statement::Block { stmts: s } && seq_simplified(
            stmts@,
            s@,
            after,
        ),
        Statement::Sequence { stmts } => b matches Statement::Sequence { stmts: s }
            && seq_simplified(stmts@, s@, after),
        Statement::TryCatch { try_stmts, catch_var, catch_stmts } => b matches Statement::TryCatch {
            try_stmts: t2,
            catch_var: cv,
            catch_stmts: c2,
        } && cv == catch_var && seq_simplified(try_stmts@, t2@, after) && seq_simplified(
            catch_stmts@,
            c2@,
            after,
        ),
        Statement::Switch { arg, default, cases, enum_type } => b matches Statement::Switch {
            arg: a2,
            default: d2,
            cases: c2,
            enum_type: t2,
        } && a2 == arg && t2 == enum_type && seq_simplified(default@, d2@, after) && c2.len()
            == cases.len() && forall|i: int|
            0 <= i < cases.len() ==> (#[trigger] c2@[i]).0 == cases@[i].0 && seq_simplified(
                cases@[i].1@,
                c2@[i].1@,
                after,
            ),
        Statement::IfElseChain { branches, else_ } => b matches Statement::IfElseChain {
            branches: b2,
            else_: e2,
        } && seq_simplified(else_@, e2@, after) && b2.len() == branches.len() && forall|i: int|
            0 <= i < branches.len() ==> (#[trigger] b2@[i]).0 == branches@[i].0 && seq_simplified(
                branches@[i].1@,
                b2@[i].1@,
                after,
            ),
        _ => b == a,
    }
}

/// Simplify the bodies of switch cases, keeping their values.
#[verifier::loop_isolation(false)]
fn simplify_cases(arms: Vec<(Vec<Expr>, Vec<Statement>)>, ctx: &Vec<&[Statement]>) -> (res: Vec<(Vec<Expr>, Vec<Statement>)>)
    ensures
        res.len() == arms.len(),
        forall|i: int|
            0 <= i < arms.len() ==> (#[trigger] res@[i]).0 == arms@[i].0 && seq_simplified(
                arms@[i].1@,
                res@[i].1@,
                ctx_after(ctx@),
            ),
    decreases arms@,
{
    let ghost orig = arms@;
    let mut arms = arms;
    let mut res: Vec<(Vec<Expr>, Vec<Statement>)> = Vec::new();
    proof {
        assert(orig.skip(0) =~= orig);
    }
    while arms.len() > 0
        invariant
            res.len() + arms.len() == orig.len(),
            arms@ == orig.skip(res.len() as int),
            forall|k: int|
                0 <= k < res.len() ==> (#[trigger] res@[k]).0 == orig[k].0 && seq_simplified(
                    orig[k].1@,
                    res@[k].1@,
                    ctx_after(ctx@),
                ),
        decreases arms.len(),
    {
        let ghost k = res.len() as int;
        let (label, body) = arms.remove(0);
        proof {
            assert(orig[k] == (label, body));
            assert(arms@ =~= orig.skip(k + 1));
            assert(decreases_to!(orig => orig[k]));
            assert(decreases_to!(orig[k] => orig[k].1));
            assert(decreases_to!(orig[k].1 => orig[k].1@));
            assert(decreases_to!(orig => body@));
        }
        let simplified = simplify_in(body, ctx);
        res.push((label, simplified));
    }
    res
}

/// Simplify the bodies of if-else-chain branches, keeping their conditions.
#[verifier::loop_isolation(false)]
fn simplify_branches(arms: Vec<(Expr, Vec<Statement>)>, ctx: &Vec<&[Statement]>) -> (res: Vec<(Expr, Vec<Statement>)>)
    ensures
        res.len() == arms.len(),
        forall|i: int|
            0 <= i < arms.len() ==> (#[trigger] res@[i]).0 == arms@[i].0 && seq_simplified(
                arms@[i].1@,
                res@[i].1@,
                ctx_after(ctx@),
            ),
    decreases arms@,
{
    let ghost orig = arms@;
    let mut arms = arms;
    let mut res: Vec<(Expr, Vec<Statement>)> = Vec::new();
    proof {
        assert(orig.skip(0) =~= orig);
    }
    while arms.len() > 0
        invariant
            res.len() + arms.len() == orig.len(),
            arms@ == orig.skip(res.len() as int),
            forall|k: int|
                0 <= k < res.len() ==> (#[trigger] res@[k]).0 == orig[k].0 && seq_simplified(
                    orig[k].1@,
                    res@[k].1@,
                    ctx_after(ctx@),
                ),
        decreases arms.len(),
    {
        let ghost k = res.len() as int;
        let (label, body) = arms.remove(0);
        proof {
            assert(orig[k] == (label, body));
            assert(arms@ =~= orig.skip(k + 1));
            assert(decreases_to!(orig => orig[k]));
            assert(decreases_to!(orig[k] => orig[k].1));
            assert(decreases_to!(orig[k].1 => orig[k].1@));
            assert(decreases_to!(orig => body@));
        }
        let simplified = simplify_in(body, ctx);
        res.push((label, simplified));
    }
    res
}

/// Simplify the statement lists nested directly inside `stmt`; `ctx` holds
/// what follows `stmt`.
fn simplify_nested(stmt: Statement, ctx: &Vec<&[Statement]>) -> (res: Statement)
    ensures
        stmt_simplified(stmt, res, ctx_after(ctx@)),
    decreases stmt,
{
    match stmt {
        Statement::While { cond, stmts } => Statement::While { cond, stmts: simplify_in(stmts, ctx) },
        Statement::IfElse { cond, if_, else_ } => Statement::IfElse {
            cond,
            if_: simplify_in(if_, ctx),
            else_: simplify_in(else_, ctx),
        },
        Statement::Block { stmts } => Statement::Block { stmts: simplify_in(stmts, ctx) },
        Statement::Sequence { stmts } => Statement::Sequence { stmts: simplify_in(stmts, ctx) },
        Statement::TryCatch { try_stmts, catch_stmts, catch_var } => Statement::TryCatch {
            try_stmts: simplify_in(try_stmts, ctx),
            catch_stmts: simplify_in(catch_stmts, ctx),
            catch_var,
        },
        Statement::Switch { arg, default, cases, enum_type } => Statement::Switch {
            arg,
            default: simplify_in(default, ctx),
            cases: simplify_cases(cases, ctx),
            enum_type,
        },
        Statement::IfElseChain { branches, else_ } => Statement::IfElseChain {
            branches: simplify_branches(branches, ctx),
            else_: simplify_in(else_, ctx),
        },
        other => other,
    }
}

/// Whether `var` is read by the statements that `ctx` holds.
fn read_in_context(var: &Expr, ctx: &Vec<&[Statement]>) -> (res: bool)
    ensures
        res == var_read_in(*var, ctx_after(ctx@)),
{
    proof {
        lemma_ctx_reads(*var, ctx@);
    }
    let mut j: usize = 0;
    while j < ctx.len()
        invariant
            0 <= j <= ctx.len(),
            forall|k: int| 0 <= k < j ==> !var_read_in(*var, #[trigger] ctx@[k]@),
        decreases ctx.len() - j,
    {
        if is_var_used_in_stmts(var, ctx[j]) {
            assert(var_read_in(*var, ctx@[j as int]@));
            proof {
                lemma_ctx_reads(*var, ctx@);
            }
            return true;
        }
        j += 1;
    }
    false
}

/// Whether `stmts[i]` and `stmts[i + 1]` can be merged into one assignment,
/// `ctx` holding what follows the list.
fn is_merge_candidate_at(stmts: &Vec<Statement>, i: usize, ctx: &Vec<&[Statement]>) -> (res: bool)
    requires
        i < stmts.len(),
    ensures
        res == merge_candidate(stmts@.skip(i as int), ctx_after(ctx@)),
{
    let ghost rest = stmts@.skip(i as int);
    if i + 1 >= stmts.len() {
        return false;
    }
    assert(rest[0] == stmts@[i as int] && rest[1] == stmts@[i + 1]);
    if let Statement::Assign { declaration: decl1, variable: var1, .. } = &stmts[i] {
        if let Statement::Assign { variable: var2, assign: assign2, .. } = &stmts[i + 1] {
            let (_, later) = stmts.as_slice().split_at(i + 2);
            assert(later@ =~= rest.skip(2));
            proof {
                if let Expr::Variable(r, _) = *var1 {
                    lemma_stmts_read_concat(r, rest.skip(2), ctx_after(ctx@));
                }
            }
            let var1_used_later = is_var_used_in_stmts(var1, later) || read_in_context(var1, ctx);
            return is_same_expr(var1, assign2) && !is_same_expr(var1, var2) && !*decl1
                && !var1_used_later;
        }
    }
    false
}

/// Simplify the list `stmts`, which the statements that `ctx` holds follow.
#[verifier::loop_isolation(false)]
fn simplify_in(stmts: Vec<Statement>, ctx: &Vec<&[Statement]>) -> (res: Vec<Statement>)
    ensures
        seq_simplified(stmts@, res@, ctx_after(ctx@)),
    decreases stmts@,
{
    let ghost orig = stmts@;
    let ghost after = ctx_after(ctx@);
    let mut stmts = stmts;
    let n = stmts.len();
    let mut result: Vec<Statement> = Vec::new();
    let mut i: usize = 0;
    proof {
        assert(orig.skip(0) =~= orig);
        assert forall|b: Seq<Statement>|
            seq_simplified(orig.skip(0), b, after) implies #[trigger] seq_simplified(orig, result@ + b, after) by {
            assert(result@ + b =~= b);
        }
    }
    while i < n
        invariant
            stmts@.len() == n == orig.len(),
            0 <= i <= n,
            forall|j: int| i <= j < n ==> stmts@[j] == orig[j],
            forall|b: Seq<Statement>|
                seq_simplified(orig.skip(i as int), b, after) ==> #[trigger] seq_simplified(
                    orig,
                    result@ + b,
                    after,
                ),
        decreases n - i,
    {
        let ghost rest = orig.skip(i as int);
        assert(stmts@.skip(i as int) =~= rest);
        if is_merge_candidate_at(&stmts, i, ctx) {
            let mut first = Statement::Break;
            stmts.set_and_swap(i, &mut first);
            let mut second = Statement::Break;
            stmts.set_and_swap(i + 1, &mut second);
            assert(first == rest[0] && second == rest[1]);
            let merged = match (first, second) {
                (
                    Statement::Assign { assign: assign1, .. },
                    Statement::Assign { declaration: decl2, variable: var2, .. },
                ) => {
                    // Field and Array accesses can never be declarations
                    let is_field_or_array = matches!(var2, Expr::Field(_, _) | Expr::Array(_, _));
                    Statement::Assign {
                        declaration: if is_field_or_array {
                            false
                        } else {
                            decl2
                        },
                        variable: var2,
                        assign: assign1,
                    }
                },
                _ => {
                    assert(false);
                    Statement::Break
                },
            };
            assert(merged == merged_assign(rest[0], rest[1]));
            let ghost before = result@;
            result.push(merged);
            proof {
                assert(rest.skip(2) =~= orig.skip(i + 2));
                assert forall|b: Seq<Statement>|
                    seq_simplified(orig.skip(i + 2), b, after) implies #[trigger] seq_simplified(
                    orig,
                    result@ + b,
                    after,
                ) by {
                    let b2 = seq![merged] + b;
                    assert(b2.skip(1) =~= b);
                    assert(seq_simplified(rest, b2, after));
                    assert(before + b2 =~= result@ + b);
                }
            }
            i += 2;
        } else {
            let mut cur = Statement::Break;
            stmts.set_and_swap(i, &mut cur);
            assert(cur == orig[i as int]);
            assert(decreases_to!(orig => orig[i as int]));
            let (_, later) = stmts.as_slice().split_at(i + 1);
            let mut inner: Vec<&[Statement]> = Vec::new();
            let mut j: usize = 0;
            while j < ctx.len()
                invariant
                    0 <= j <= ctx.len(),
                    inner@ == ctx@.take(j as int),
                decreases ctx.len() - j,
            {
                inner.push(ctx[j]);
                proof {
                    assert(ctx@.take(j + 1) =~= ctx@.take(j as int).push(ctx@[j as int]));
                }
                j += 1;
            }
            inner.push(later);
            proof {
                assert(ctx@.take(j as int) =~= ctx@);
                assert(inner@.drop_last() =~= ctx@);
                assert(later@ =~= rest.skip(1));
                assert(ctx_after(inner@) == rest.skip(1) + after);
            }
            let simplified = simplify_nested(cur, &inner);
            let ghost before = result@;
            result.push(simplified);
            proof {
                assert(rest.skip(1) =~= orig.skip(i + 1));
                assert forall|b: Seq<Statement>|
                    seq_simplified(orig.skip(i + 1), b, after) implies #[trigger] seq_simplified(
                    orig,
                    result@ + b,
                    after,
                ) by {
                    let b2 = seq![simplified] + b;
                    assert(b2.skip(1) =~= b);
                    assert(seq_simplified(rest, b2, after));
                    assert(before + b2 =~= result@ + b);
                }
            }
            i += 1;
        }
    }
    proof {
        assert(orig.skip(n as int) =~= Seq::<Statement>::empty());
        assert(seq_simplified(orig.skip(n as int), Seq::<Statement>::empty(), after));
        assert(result@ + Seq::<Statement>::empty() =~= result@);
    }
    result
}

/// Simplify a list of statements by:
/// 1. Merging consecutive assignments (r3 = expr; r0 = r3; → r0 = expr;)
///    unless the temporary is read later, in the list or after it;
/// 2. Recursively simplifying nested blocks.
pub fn simplify_statements(stmts: Vec<Statement>) -> (res: Vec<Statement>)
    ensures
        seq_simplified(stmts@, res@, Seq::empty()),
{
    let ctx: Vec<&[Statement]> = Vec::new();
    assert(ctx_after(ctx@) =~= Seq::<Statement>::empty());
    simplify_in(stmts, &ctx)
}

/// Simplification introduces no new reads: if the simplified list reads a
/// register, the original list read it too.
pub proof fn lemma_simplify_adds_no_reads(reg: Reg, a: Seq<Statement>, b: Seq<Statement>, after: Seq<Statement>)
    requires
        seq_simplified(a, b, after),
        stmts_read(reg, b),
    ensures
        stmts_read(reg, a),
    decreases a,
{
    let k = choose|k: int| 0 <= k < b.len() && stmt_reads(reg, #[trigger] b[k]);
    if merge_candidate(a, after) {
        if k == 0 {
            if !stmt_reads(reg, a[0]) {
                assert(stmt_reads(reg, a[1]));
            }
        } else {
            assert(b.skip(1)[k - 1] == b[k]);
            lemma_simplify_adds_no_reads(reg, a.skip(2), b.skip(1), after);
            let k2 = choose|k2: int| 0 <= k2 < a.skip(2).len() && stmt_reads(reg, #[trigger] a.skip(2)[k2]);
            assert(a[k2 + 2] == a.skip(2)[k2]);
        }
    } else {
        if k == 0 {
            lemma_stmt_simplify_adds_no_reads(reg, a[0], b[0], a.skip(1) + after);
        } else {
            assert(b.skip(1)[k - 1] == b[k]);
            lemma_simplify_adds_no_reads(reg, a.skip(1), b.skip(1), after);
            let k2 = choose|k2: int| 0 <= k2 < a.skip(1).len() && stmt_reads(reg, #[trigger] a.skip(1)[k2]);
            assert(a[k2 + 1] == a.skip(1)[k2]);
        }
    }
}

/// The statement-level half of `lemma_simplify_adds_no_reads`.
pub proof fn lemma_stmt_simplify_adds_no_reads(reg: Reg, a: Statement, b: Statement, after: Seq<Statement>)
    requires
        stmt_simplified(a, b, after),
        stmt_reads(reg, b),
    ensures
        stmt_reads(reg, a),
    decreases a,
{
    match a {
        Statement::While { cond, stmts } => {
            let s = b->While_stmts;
            if stmts_read(reg, s@) {
                lemma_simplify_adds_no_reads(reg, stmts@, s@, after);
            }
        },
        Statement::IfElse { cond, if_, else_ } => {
            let i2 = b->IfElse_if_;
            let e2 = b->IfElse_else_;
            if stmts_read(reg, i2@) {
                lemma_simplify_adds_no_reads(reg, if_@, i2@, after);
            }
            if stmts_read(reg, e2@) {
                lemma_simplify_adds_no_reads(reg, else_@, e2@, after);
            }
        },
        Statement::Block { stmts } => {
            lemma_simplify_adds_no_reads(reg, stmts@, b->Block_stmts@, after);
        },
        Statement::Sequence { stmts } => {
            lemma_simplify_adds_no_reads(reg, stmts@, b->Sequence_stmts@, after);
        },
        Statement::TryCatch { try_stmts, catch_var, catch_stmts } => {
            let t2 = b->try_stmts;
            let c2 = b->catch_stmts;
            if stmts_read(reg, t2@) {
                lemma_simplify_adds_no_reads(reg, try_stmts@, t2@, after);
            }
            if stmts_read(reg, c2@) {
                lemma_simplify_adds_no_reads(reg, catch_stmts@, c2@, after);
            }
        },
        Statement::Switch { arg, default, cases, enum_type } => {
            let d2 = b->Switch_default;
            let c2 = b->cases;
            if stmts_read(reg, d2@) {
                lemma_simplify_adds_no_reads(reg, default@, d2@, after);
            }
            if exists|i: int, j: int| 0 <= i < c2.len() && 0 <= j < c2@[i].1.len()
                && stmt_reads(reg, #[trigger] c2@[i].1@[j]) {
                let (i, j) = choose|i: int, j: int| 0 <= i < c2.len() && 0 <= j < c2@[i].1.len()
                    && stmt_reads(reg, #[trigger] c2@[i].1@[j]);
                assert(stmts_read(reg, c2@[i].1@));
                assert(decreases_to!(a => cases));
                assert(decreases_to!(cases => cases@));
                assert(decreases_to!(cases@ => cases@[i]));
                assert(decreases_to!(cases@[i] => cases@[i].1));
                assert(decreases_to!(cases@[i].1 => cases@[i].1@));
                lemma_simplify_adds_no_reads(reg, cases@[i].1@, c2@[i].1@, after);
                let j2 = choose|j2: int| 0 <= j2 < cases@[i].1@.len() && stmt_reads(reg, #[trigger] cases@[i].1@[j2]);
                assert(stmt_reads(reg, cases@[i].1@[j2]));
            }
        },
        Statement::IfElseChain { branches, else_ } => {
            let b2 = b->IfElseChain_branches;
            let e2 = b->IfElseChain_else_;
            if stmts_read(reg, e2@) {
                lemma_simplify_adds_no_reads(reg, else_@, e2@, after);
            }
            if exists|i: int| 0 <= i < b2.len() && expr_reads(reg, (#[trigger] b2@[i]).0) {
                let i = choose|i: int| 0 <= i < b2.len() && expr_reads(reg, (#[trigger] b2@[i]).0);
                assert(expr_reads(reg, branches@[i].0));
            }
            if exists|i: int, j: int| 0 <= i < b2.len() && 0 <= j < b2@[i].1.len()
                && stmt_reads(reg, #[trigger] b2@[i].1@[j]) {
                let (i, j) = choose|i: int, j: int| 0 <= i < b2.len() && 0 <= j < b2@[i].1.len()
                    && stmt_reads(reg, #[trigger] b2@[i].1@[j]);
                assert(stmts_read(reg, b2@[i].1@));
                assert(decreases_to!(a => branches));
                assert(decreases_to!(branches => branches@));
                assert(decreases_to!(branches@ => branches@[i]));
                assert(decreases_to!(branches@[i] => branches@[i].1));
                assert(decreases_to!(branches@[i].1 => branches@[i].1@));
                lemma_simplify_adds_no_reads(reg, branches@[i].1@, b2@[i].1@, after);
                let j2 = choose|j2: int| 0 <= j2 < branches@[i].1@.len() && stmt_reads(reg, #[trigger] branches@[i].1@[j2]);
                assert(stmt_reads(reg, branches@[i].1@[j2]));
            }
        },
        _ => {},
    }
}

/// Simplification never makes a statement list longer.
pub proof fn lemma_simplify_never_lengthens(a: Seq<Statement>, b: Seq<Statement>, after: Seq<Statement>)
    requires
        seq_simplified(a, b, after),
    ensures
        b.len() <= a.len(),
    decreases a,
{
    if a.len() > 0 {
        if merge_candidate(a, after) {
            lemma_simplify_never_lengthens(a.skip(2), b.skip(1), after);
        } else {
            lemma_simplify_never_lengthens(a.skip(1), b.skip(1), after);
        }
    }
}

/// Nested lists are simplified as a separate call would simplify them: a
/// list of one statement simplifies to one statement, whose nested lists
/// (loop body, branches, block, sequence, try and catch bodies, switch and
/// if-else-chain bodies) stand in the relation `simplify_statements`
/// ensures of a list on its own, and whose condition and catch variable
/// are unchanged.
pub proof fn lemma_nested_simplified_like_separate(st: Statement, b: Seq<Statement>)
    requires
        seq_simplified(seq![st], b, Seq::empty()),
    ensures
        b.len() == 1,
        stmt_simplified(st, b[0], Seq::empty()),
{
    let a = seq![st];
    assert(!merge_candidate(a, Seq::empty()));
    assert(a.skip(1) + Seq::<Statement>::empty() =~= Seq::<Statement>::empty());
    assert(a.skip(1) =~= Seq::<Statement>::empty());
    assert(seq_simplified(a.skip(1), b.skip(1), Seq::empty()));
    assert(seq_simplified(Seq::<Statement>::empty(), b.skip(1), Seq::empty()));
    assert(b.skip(1).len() == 0);
}

} // verus!
