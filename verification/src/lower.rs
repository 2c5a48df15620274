//! Lowering helpers that read only the regions and the control-flow graph.
use vstd::prelude::*;

use crate::ast::{Constant, Expr, Operation, Reg, Statement};
use crate::cfg::{Cfg, NodeId};
use crate::region::{region_terminates, region_within, LoopKind, Region};

verus! {

broadcast use vstd::std_specs::vec::group_vec_axioms;

/// The exit merge of the innermost if without else whose then branch ends
/// the function: looked for in the then branch, then in the else branch,
/// then at the if itself (its merge must end the function); in a sequence,
/// in its last region.
pub open spec fn innermost_exit_merge(r: Region, exits: Seq<bool>) -> Option<NodeId>
    decreases r,
{
    match r {
        Region::IfThenElse { then_region, else_region, merge, .. } => match innermost_exit_merge(*then_region, exits) {
            Some(x) => Some(x),
            None => match match else_region {
                Some(e) => innermost_exit_merge(*e, exits),
                None => None,
            } {
                Some(x) => Some(x),
                None => if exits[merge as int] && else_region is None && region_terminates(*then_region, exits) {
                    Some(merge)
                } else {
                    None
                },
            },
        },
        Region::Sequence(regions) => if regions.len() > 0 {
            innermost_exit_merge(regions@[regions.len() - 1], exits)
        } else {
            None
        },
        _ => None,
    }
}

/// Every early-exit merge found is a block that ends the function.
pub proof fn lemma_exit_merge_ends_function(r: Region, exits: Seq<bool>)
    ensures
        innermost_exit_merge(r, exits) matches Some(m) ==> exits[m as int],
    decreases r,
{
    match r {
        Region::IfThenElse { then_region, else_region, .. } => {
            lemma_exit_merge_ends_function(*then_region, exits);
            match else_region {
                Some(e) => lemma_exit_merge_ends_function(*e, exits),
                None => {},
            }
        },
        Region::Sequence(regions) => {
            if regions.len() > 0 {
                assert(decreases_to!(regions => regions@[regions.len() - 1]));
                lemma_exit_merge_ends_function(regions@[regions.len() - 1], exits);
            }
        },
        _ => {},
    }
}

/// The exit merge of a sequence is that of its last region (none for an
/// empty sequence), and a block, loop, switch, OR chain, goto or empty
/// region has none of its own.
pub proof fn lemma_exit_merge_of_other_regions(r: Region, exits: Seq<bool>)
    ensures
        r matches Region::Sequence(rs) ==> innermost_exit_merge(r, exits) == if rs.len() > 0 {
            innermost_exit_merge(rs@.last(), exits)
        } else {
            None
        },
        !(r is Sequence) && !(r is IfThenElse) ==> innermost_exit_merge(r, exits) is None,
{
}

/// The search of an if-then-else looks into both branches, the then
/// branch first: an exit merge of the then branch is the region's; where
/// the then branch has none, an exit merge of the else branch is the
/// region's; and an if with an else is never its own exit merge, so where
/// neither branch has one, neither has the region.
pub proof fn lemma_exit_merge_searches_both_branches(
    cond: Expr,
    cond_block: Option<NodeId>,
    then_region: Region,
    else_region: Option<Box<Region>>,
    merge: NodeId,
    negated: bool,
    exits: Seq<bool>,
)
    ensures
        ({
            let r = Region::IfThenElse { cond, cond_block, then_region: Box::new(then_region), else_region, merge, negated };
            &&& innermost_exit_merge(then_region, exits) is Some ==> innermost_exit_merge(r, exits) == innermost_exit_merge(
                then_region,
                exits,
            )
            &&& innermost_exit_merge(then_region, exits) is None ==> match else_region {
                Some(e) => (innermost_exit_merge(*e, exits) is Some ==> innermost_exit_merge(r, exits) == innermost_exit_merge(
                    *e,
                    exits,
                )) && (innermost_exit_merge(*e, exits) is None ==> innermost_exit_merge(r, exits) is None),
                None => innermost_exit_merge(r, exits) == if exits[merge as int] && region_terminates(then_region, exits) {
                    Some(merge)
                } else {
                    None
                },
            }
        }),
{
}

/// Find the merge of the innermost if-then (without else) whose then
/// branch ends the function and whose merge is an exit block: the block
/// to emit after such an early exit (see `innermost_exit_merge`).
pub fn find_innermost_exit_merge(region: &Region, cfg: &Cfg) -> (res: Option<NodeId>)
    requires
        region_within(*region, cfg.blocks.len() as nat),
    ensures
        res == innermost_exit_merge(*region, cfg.exit_flags()),
    decreases region,
{
    match region {
        Region::IfThenElse { then_region, else_region, merge, .. } => {
            if let Some(inner) = find_innermost_exit_merge(then_region, cfg) {
                return Some(inner);
            }
            if let Some(else_r) = else_region {
                if let Some(inner) = find_innermost_exit_merge(else_r, cfg) {
                    return Some(inner);
                }
            }
            let is_exit = cfg.blocks[*merge].is_exit;
            if is_exit && else_region.is_none() {
                let then_terminates = then_region.terminates(cfg);
                if then_terminates {
                    return Some(*merge);
                }
            }
            None
        },
        Region::Sequence(regions) => {
            if regions.len() > 0 {
                let last = &regions[regions.len() - 1];
                proof {
                    assert(region_within(regions@[regions.len() - 1], cfg.blocks.len() as nat));
                }
                find_innermost_exit_merge(last, cfg)
            } else {
                None
            }
        },
        _ => None,
    }
}


/// Check if a statement assigns to the register `value_reg` (the value a
/// for-in loop's `next()` call produces), so that a for-in loop body can
/// leave that assignment out.
pub fn is_next_assignment(stmt: &Statement, value_reg: Reg) -> (res: bool)
    ensures
        res == (*stmt matches Statement::Assign { variable: Expr::Variable(r, _), .. } && r == value_reg),
{
    match stmt {
        Statement::Assign { variable, .. } => {
            if let Expr::Variable(reg, _) = variable {
                reg.0 == value_reg.0
            } else {
                false
            }
        },
        _ => false,
    }
}

/// `st` is `while (cond) { body }`.
pub open spec fn is_while_of(st: Statement, cond: Expr, body: Seq<Statement>) -> bool {
    st matches Statement::While { cond: c, stmts: s } && c == cond && s@ == body
}

/// `st` is `if (cond) break;`.
pub open spec fn is_break_if(st: Statement, cond: Expr) -> bool {
    st matches Statement::IfElse { cond: c, if_: i, else_: e } && c == cond && i@ == seq![Statement::Break]
        && e@.len() == 0
}

/// `st` is `while (true) { front; if (cond) break; back }`.
pub open spec fn is_guarded_loop(st: Statement, front: Seq<Statement>, cond: Expr, back: Seq<Statement>) -> bool {
    st matches Statement::While { cond: c, stmts: s } && c == Expr::Constant(Constant::Bool(true))
        && s@.len() == front.len() + 1 + back.len() && s@.take(front.len() as int) == front
        && is_break_if(s@[front.len() as int], cond) && s@.skip(front.len() as int + 1) == back
}

/// The statements a loop is lowered to, from its header's statements, the
/// condition of the header's jump (the exit condition) and its body's
/// statements. A while, for or for-in loop is `while (!cond) { body }`
/// when the header has no statements, and otherwise
/// `while (true) { header; if (cond) break; body }`; a do-while loop is
/// `while (true) { body; if (cond) break; }`; an endless loop is
/// `while (true) { header; body }`.
pub open spec fn is_loop_lowering(kind: LoopKind, header: Seq<Statement>, cond: Expr, body: Seq<Statement>, res: Seq<Statement>) -> bool {
    res.len() == 1 && match kind {
        LoopKind::DoWhile => is_guarded_loop(res[0], body, cond, Seq::empty()),
        LoopKind::Endless => is_while_of(res[0], Expr::Constant(Constant::Bool(true)), header + body),
        _ => if header.len() == 0 {
            is_while_of(res[0], Expr::Op(Operation::Not(Box::new(cond))), body)
        } else {
            is_guarded_loop(res[0], header, cond, body)
        },
    }
}

/// `if (cond) break;`
fn break_if(cond: Expr) -> (res: Statement)
    ensures
        is_break_if(res, cond),
{
    let mut if_: Vec<Statement> = Vec::new();
    if_.push(Statement::Break);
    proof {
        assert(if_@ =~= seq![Statement::Break]);
    }
    Statement::IfElse { cond, if_, else_: Vec::new() }
}

/// `while (true) { front; if (cond) break; back }`
fn guarded_loop(front: Vec<Statement>, cond: Expr, back: Vec<Statement>) -> (res: Statement)
    ensures
        is_guarded_loop(res, front@, cond, back@),
{
    let ghost f = front@;
    let ghost b = back@;
    let mut stmts = front;
    stmts.push(break_if(cond));
    let mut back = back;
    stmts.append(&mut back);
    proof {
        assert(stmts@.take(f.len() as int) =~= f);
        assert(stmts@.skip(f.len() as int + 1) =~= b);
    }
    Statement::While { cond: Expr::Constant(Constant::Bool(true)), stmts }
}

/// Assemble the statements of a loop of kind `kind` from the statements of
/// its header, the condition of the header's jump and the statements of its
/// body (see `is_loop_lowering`). A for-in loop whose collection is known is
/// written as a for-in statement by the lowering that reads the bytecode;
/// this is the while form it falls back to.
pub fn loop_statements(kind: &LoopKind, header: Vec<Statement>, cond: Expr, body: Vec<Statement>) -> (res: Vec<Statement>)
    ensures
        is_loop_lowering(*kind, header@, cond, body@, res@),
{
    let ghost h = header@;
    let ghost b = body@;
    let st = match kind {
        LoopKind::DoWhile => guarded_loop(body, cond, Vec::new()),
        LoopKind::Endless => {
            let mut stmts = header;
            let mut body = body;
            stmts.append(&mut body);
            Statement::While { cond: Expr::Constant(Constant::Bool(true)), stmts }
        },
        _ => if header.len() == 0 {
            Statement::While { cond: Expr::Op(Operation::Not(Box::new(cond))), stmts: body }
        } else {
            guarded_loop(header, cond, body)
        },
    };
    let mut res: Vec<Statement> = Vec::new();
    res.push(st);
    proof {
        assert(res@[0] == st);
    }
    res
}

} // verus!
