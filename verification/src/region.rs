//! Region-based control flow representation.
//!
//! A `Region` is a tree of single-entry single-exit pieces of the control-flow
//! graph: blocks, sequences, conditionals, loops, switches and, where nothing
//! else fits, gotos.
use vstd::prelude::*;

use crate::ast::{Constant, Expr, Reg};
use crate::cfg::{Cfg, NodeId};

use std::collections::HashMap;

verus! {

broadcast use {vstd::std_specs::vec::group_vec_axioms, vstd::std_specs::hash::group_hash_axioms};

/// The kind of loop detected during structuring.
#[derive(Debug, Clone, Copy, PartialEq, Eq, Structural)]
pub enum LoopKind {
    /// `while (cond) { body }`: the condition is tested at entry.
    While,
    /// `do { body } while (cond)`: the condition is tested at the end.
    DoWhile,
    /// `for (init; cond; incr) { body }`, with the opcode indices of the
    /// init and increment statements.
    For { init_op: Option<usize>, incr_op: Option<usize> },
    /// `for (value in collection) { body }` over an iterator.
    ForIn {
        iterator_reg: Reg,
        value_reg: Reg,
        next_op: Option<usize>,
        iterator_init_op: Option<usize>,
    },
    /// `while (true) { body }`.
    Endless,
}

/// A case of a `Region::Switch`.
#[derive(Debug)]
pub struct SwitchCase {
    /// The values that select this case.
    pub patterns: Vec<Constant>,
    /// The body of the case.
    pub body: Region,
}

/// A control-flow region representing structured code.
#[derive(Debug)]
pub enum Region {
    /// A single basic block.
    Block(NodeId),
    /// Regions executed one after the other.
    Sequence(Vec<Region>),
    /// An if-then-else; `merge` is where both branches meet again.
    IfThenElse {
        cond: Expr,
        cond_block: Option<NodeId>,
        then_region: Box<Region>,
        else_region: Option<Box<Region>>,
        merge: NodeId,
        negated: bool,
    },
    /// A loop entered at `header` and left to `exit`.
    Loop {
        kind: LoopKind,
        header: NodeId,
        condition: Option<Expr>,
        body: Box<Region>,
        exit: NodeId,
    },
    /// A switch over `selector`, meeting again at `merge`.
    Switch {
        selector: Expr,
        selector_block: Option<NodeId>,
        cases: Vec<SwitchCase>,
        default: Box<Region>,
        merge: NodeId,
    },
    /// An if whose condition is a chain of conditions joined by `||`, one
    /// per block of `condition_blocks` (a block may start a nested `&&`
    /// chain, listed in `nested_and_chains` under the condition's index);
    /// control goes on at node `continuation`.
    OrChain {
        condition_blocks: Vec<NodeId>,
        then_region: Box<Region>,
        else_region: Option<Box<Region>>,
        continuation: NodeId,
        last_condition_inverted: bool,
        nested_and_chains: HashMap<usize, Vec<NodeId>>,
    },
    /// A jump to `target`, for control flow that does not reduce.
    Goto { target: NodeId },
    /// Nothing.
    Empty,
}

/// The node where control enters a region.
pub open spec fn region_entry(r: Region) -> Option<NodeId>
    decreases r,
{
    match r {
        Region::Block(node) => Some(node),
        Region::Sequence(regions) => if regions.len() == 0 {
            None
        } else {
            region_entry(regions@[0])
        },
        Region::IfThenElse { then_region, .. } => region_entry(*then_region),
        Region::OrChain { then_region, .. } => region_entry(*then_region),
        Region::Loop { header, .. } => Some(header),
        Region::Switch { cases, default, .. } => {
            let first = if cases.len() == 0 {
                None
            } else {
                region_entry(cases@[0].body)
            };
            match first {
                Some(n) => Some(n),
                None => region_entry(*default),
            }
        },
        Region::Goto { target } => Some(target),
        Region::Empty => None,
    }
}

/// The node where control leaves a region.
pub open spec fn region_exit(r: Region) -> Option<NodeId>
    decreases r,
{
    match r {
        Region::Block(node) => Some(node),
        Region::Sequence(regions) => if regions.len() == 0 {
            None
        } else {
            region_exit(regions@[regions.len() - 1])
        },
        Region::IfThenElse { merge, .. } => Some(merge),
        Region::OrChain { continuation, .. } => Some(continuation),
        Region::Loop { exit, .. } => Some(exit),
        Region::Switch { merge, .. } => Some(merge),
        Region::Goto { target } => Some(target),
        Region::Empty => None,
    }
}

/// Whether every path through the region ends the function, given the exit
/// flag of each block.
pub open spec fn region_terminates(r: Region, exits: Seq<bool>) -> bool
    decreases r,
{
    match r {
        Region::Block(node) => exits[node as int],
        Region::Sequence(regions) => regions.len() > 0 && region_terminates(
            regions@[regions.len() - 1],
            exits,
        ),
        Region::IfThenElse { then_region, else_region, merge, .. } => {
            let then_t = region_terminates(*then_region, exits);
            let else_t = match else_region {
                Some(e) => region_terminates(*e, exits),
                None => false,
            };
            (then_t && else_t) || (then_t && else_region is None && exits[merge as int])
        },
        Region::OrChain { then_region, else_region, .. } => region_terminates(*then_region, exits) && match else_region {
            Some(e) => region_terminates(*e, exits),
            None => false,
        },
        Region::Switch { cases, default, .. } => (forall|i: int|
            0 <= i < cases.len() ==> region_terminates(#[trigger] cases@[i].body, exits))
            && region_terminates(*default, exits),
        Region::Loop { .. } | Region::Goto { .. } | Region::Empty => false,
    }
}

/// A constant or an unnamed register: the expressions regions hold, which
/// are placeholders until lowering reads the real ones from the blocks.
pub open spec fn simple_expr(e: Expr) -> bool {
    match e {
        Expr::Constant(_) => true,
        Expr::Variable(_, name) => name is None,
        _ => false,
    }
}

/// The region refers only to blocks numbered below `n` (in the places where
/// `terminates` looks at a block), and its expressions are simple.
pub open spec fn region_within(r: Region, n: nat) -> bool
    decreases r,
{
    match r {
        Region::Block(node) => node < n,
        Region::Sequence(regions) => forall|i: int|
            0 <= i < regions.len() ==> region_within(#[trigger] regions@[i], n),
        Region::IfThenElse { cond, then_region, else_region, merge, .. } => simple_expr(cond) && region_within(
            *then_region,
            n,
        ) && merge < n && match else_region {
            Some(e) => region_within(*e, n),
            None => true,
        },
        Region::Switch { selector, cases, default, .. } => simple_expr(selector) && (forall|i: int|
            0 <= i < cases.len() ==> region_within(#[trigger] cases@[i].body, n)) && region_within(
            *default,
            n,
        ),
        Region::Loop { condition, body, .. } => (match condition {
            Some(c) => simple_expr(c),
            None => true,
        }) && region_within(*body, n),
        Region::OrChain { then_region, else_region, .. } => region_within(*then_region, n) && match else_region {
            Some(e) => region_within(*e, n),
            None => true,
        },
        Region::Goto { .. } | Region::Empty => true,
    }
}

/// The blocks a region contains: its blocks, the condition blocks of its
/// conditionals, and those of the regions inside it.
pub open spec fn region_nodes(r: Region) -> Set<NodeId>
    decreases r,
{
    match r {
        Region::Block(node) => set![node],
        Region::Sequence(regions) => regions_nodes(regions@),
        Region::IfThenElse { cond_block, then_region, else_region, .. } => {
            let c = match cond_block {
                Some(b) => set![b],
                None => Set::empty(),
            };
            let e = match else_region {
                Some(er) => region_nodes(*er),
                None => Set::empty(),
            };
            c + region_nodes(*then_region) + e
        },
        Region::OrChain { condition_blocks, then_region, else_region, .. } => {
            let e = match else_region {
                Some(er) => region_nodes(*er),
                None => Set::empty(),
            };
            condition_blocks@.to_set() + region_nodes(*then_region) + e
        },
        Region::Loop { body, .. } => region_nodes(*body),
        Region::Switch { cases, default, .. } => cases_nodes(cases@) + region_nodes(*default),
        Region::Goto { .. } | Region::Empty => Set::empty(),
    }
}

/// The blocks contained in a list of regions.
pub open spec fn regions_nodes(rs: Seq<Region>) -> Set<NodeId>
    decreases rs,
{
    if rs.len() == 0 {
        Set::empty()
    } else {
        regions_nodes(rs.drop_last()) + region_nodes(rs.last())
    }
}

/// The blocks contained in the bodies of a list of switch cases.
pub open spec fn cases_nodes(cs: Seq<SwitchCase>) -> Set<NodeId>
    decreases cs,
{
    if cs.len() == 0 {
        Set::empty()
    } else {
        cases_nodes(cs.drop_last()) + region_nodes(cs.last().body)
    }
}

/// The number of basic blocks in a region (condition blocks not counted).
pub open spec fn region_block_count(r: Region) -> nat
    decreases r,
{
    match r {
        Region::Block(_) => 1,
        Region::Sequence(regions) => regions_block_count(regions@),
        Region::IfThenElse { then_region, else_region, .. } => region_block_count(*then_region)
            + match else_region {
            Some(e) => region_block_count(*e),
            None => 0,
        },
        Region::OrChain { then_region, else_region, .. } => region_block_count(*then_region) + match else_region {
            Some(e) => region_block_count(*e),
            None => 0,
        },
        Region::Loop { body, .. } => region_block_count(*body),
        Region::Switch { cases, default, .. } => cases_block_count(cases@) + region_block_count(
            *default,
        ),
        Region::Goto { .. } | Region::Empty => 0,
    }
}

/// The number of basic blocks in a list of regions.
pub open spec fn regions_block_count(rs: Seq<Region>) -> nat
    decreases rs,
{
    if rs.len() == 0 {
        0
    } else {
        regions_block_count(rs.drop_last()) + region_block_count(rs.last())
    }
}

/// The number of basic blocks in the bodies of a list of switch cases.
pub open spec fn cases_block_count(cs: Seq<SwitchCase>) -> nat
    decreases cs,
{
    if cs.len() == 0 {
        0
    } else {
        cases_block_count(cs.drop_last()) + region_block_count(cs.last().body)
    }
}

/// Whether no statements would be generated for the region.
pub open spec fn region_is_empty(r: Region) -> bool
    decreases r,
{
    match r {
        Region::Empty => true,
        Region::Sequence(regions) => forall|i: int|
            0 <= i < regions.len() ==> region_is_empty(#[trigger] regions@[i]),
        _ => false,
    }
}

/// What one region contributes to a flattened sequence.
pub open spec fn flatten_piece(r: Region) -> Seq<Region> {
    match r {
        Region::Sequence(inner) => inner@,
        Region::Empty => Seq::empty(),
        _ => seq![r],
    }
}

/// A list of regions with nested sequences spliced in and empty regions
/// left out.
pub open spec fn flatten_regions(rs: Seq<Region>) -> Seq<Region>
    decreases rs.len(),
{
    if rs.len() == 0 {
        Seq::empty()
    } else {
        flatten_regions(rs.drop_last()) + flatten_piece(rs.last())
    }
}

/// `res` is the region that `Region::sequence` builds from `rs`: empty for no
/// flattened piece, the piece itself for one, a sequence of them otherwise.
pub open spec fn is_sequence_of(res: Region, rs: Seq<Region>) -> bool {
    let f = flatten_regions(rs);
    &&& f.len() == 0 ==> res is Empty
    &&& f.len() == 1 ==> res == f[0]
    &&& f.len() >= 2 ==> res is Sequence && res->Sequence_0@ == f
}

proof fn lemma_regions_block_count_concat(a: Seq<Region>, b: Seq<Region>)
    ensures
        regions_block_count(a + b) == regions_block_count(a) + regions_block_count(b),
    decreases b.len(),
{
    if b.len() == 0 {
        assert(a + b =~= a);
    } else {
        assert((a + b).drop_last() =~= a + b.drop_last());
        lemma_regions_block_count_concat(a, b.drop_last());
    }
}

proof fn lemma_regions_nodes_concat(a: Seq<Region>, b: Seq<Region>)
    ensures
        regions_nodes(a + b) == regions_nodes(a) + regions_nodes(b),
    decreases b.len(),
{
    if b.len() == 0 {
        assert(a + b =~= a);
        assert(regions_nodes(a) + regions_nodes(b) =~= regions_nodes(a));
    } else {
        assert((a + b).drop_last() =~= a + b.drop_last());
        lemma_regions_nodes_concat(a, b.drop_last());
        assert(regions_nodes(a + b) =~= regions_nodes(a) + regions_nodes(b));
    }
}

proof fn lemma_single_region(r: Region)
    ensures
        regions_block_count(seq![r]) == region_block_count(r),
        regions_nodes(seq![r]) == region_nodes(r),
{
    let s = seq![r];
    assert(s.drop_last() =~= Seq::<Region>::empty());
    assert(s.last() == r);
    assert(regions_block_count(s.drop_last()) == 0);
    assert(regions_nodes(s.drop_last()) == Set::<NodeId>::empty());
    assert(regions_nodes(s) =~= region_nodes(r));
}

proof fn lemma_flatten_keeps_blocks(rs: Seq<Region>)
    ensures
        regions_block_count(flatten_regions(rs)) == regions_block_count(rs),
        regions_nodes(flatten_regions(rs)) == regions_nodes(rs),
        (forall|i: int| 0 <= i < flatten_regions(rs).len() ==> region_is_empty(
            #[trigger] flatten_regions(rs)[i],
        )) == (forall|i: int| 0 <= i < rs.len() ==> region_is_empty(#[trigger] rs[i])),
    decreases rs.len(),
{
    if rs.len() == 0 {
        assert(regions_nodes(flatten_regions(rs)) =~= regions_nodes(rs));
    } else {
        let init = rs.drop_last();
        let last = rs.last();
        lemma_flatten_keeps_blocks(init);
        let fi = flatten_regions(init);
        let p = flatten_piece(last);
        lemma_regions_block_count_concat(fi, p);
        lemma_regions_nodes_concat(fi, p);
        match last {
            Region::Sequence(inner) => {
                assert(p == inner@);
            },
            Region::Empty => {
                assert(p =~= Seq::<Region>::empty());
                assert(regions_nodes(p) =~= Set::<NodeId>::empty());
            },
            _ => {
                assert(p == seq![last]);
                lemma_single_region(last);
            },
        }
        assert(regions_block_count(p) == region_block_count(last));
        assert(regions_nodes(p) == region_nodes(last));
        assert(regions_block_count(rs) == regions_block_count(init) + region_block_count(last));
        assert(regions_nodes(rs) == regions_nodes(init) + region_nodes(last));
        let f = flatten_regions(rs);
        assert(f == fi + p);
        assert(regions_nodes(f) =~= regions_nodes(rs));
        let all_f = forall|i: int| 0 <= i < f.len() ==> region_is_empty(#[trigger] f[i]);
        let all_r = forall|i: int| 0 <= i < rs.len() ==> region_is_empty(#[trigger] rs[i]);
        let all_fi = forall|i: int| 0 <= i < fi.len() ==> region_is_empty(#[trigger] fi[i]);
        let all_init = forall|i: int| 0 <= i < init.len() ==> region_is_empty(#[trigger] init[i]);
        let all_p = forall|i: int| 0 <= i < p.len() ==> region_is_empty(#[trigger] p[i]);
        assert(all_f == (all_fi && all_p)) by {
            if all_fi && all_p {
                assert forall|i: int| 0 <= i < f.len() implies region_is_empty(#[trigger] f[i]) by {
                    if i < fi.len() {
                        assert(f[i] == fi[i]);
                    } else {
                        assert(f[i] == p[i - fi.len()]);
                    }
                }
            }
            if all_f {
                assert forall|i: int| 0 <= i < fi.len() implies region_is_empty(#[trigger] fi[i]) by {
                    assert(f[i] == fi[i]);
                }
                assert forall|i: int| 0 <= i < p.len() implies region_is_empty(#[trigger] p[i]) by {
                    assert(f[i + fi.len()] == p[i]);
                }
            }
        }
        assert(all_r == (all_init && region_is_empty(last))) by {
            if all_init && region_is_empty(last) {
                assert forall|i: int| 0 <= i < rs.len() implies region_is_empty(#[trigger] rs[i]) by {
                    if i < init.len() {
                        assert(rs[i] == init[i]);
                    }
                }
            }
            if all_r {
                assert forall|i: int| 0 <= i < init.len() implies region_is_empty(#[trigger] init[i]) by {
                    assert(rs[i] == init[i]);
                }
                assert(region_is_empty(rs[rs.len() - 1]));
            }
        }
        assert(all_p == region_is_empty(last)) by {
            if let Region::Sequence(inner) = last {
            } else if let Region::Empty = last {
            } else {
                assert(p[0] == last);
            }
        }
    }
}

/// `Region::sequence` keeps every block: the region it builds counts as many
/// blocks, contains the same nodes, and is empty exactly when every input
/// region is empty.
pub proof fn lemma_sequence_keeps_blocks(res: Region, rs: Seq<Region>)
    requires
        is_sequence_of(res, rs),
    ensures
        region_block_count(res) == regions_block_count(rs),
        region_nodes(res) == regions_nodes(rs),
        region_is_empty(res) == (forall|i: int| 0 <= i < rs.len() ==> region_is_empty(#[trigger] rs[i])),
{
    lemma_flatten_keeps_blocks(rs);
    let f = flatten_regions(rs);
    if f.len() == 0 {
        assert(regions_nodes(f) =~= Set::<NodeId>::empty());
        assert(region_nodes(res) =~= regions_nodes(rs));
    } else if f.len() == 1 {
        assert(f =~= seq![f[0]]);
        lemma_single_region(f[0]);
        assert(f[0] == f[0]);
    }
}

/// The sum of a prefix of a list never exceeds the sum of the whole list.
proof fn lemma_regions_block_count_prefix(rs: Seq<Region>, i: int)
    requires
        0 <= i <= rs.len(),
    ensures
        regions_block_count(rs.take(i)) <= regions_block_count(rs),
        i < rs.len() ==> regions_block_count(rs.take(i + 1)) == regions_block_count(rs.take(i))
            + region_block_count(rs[i]),
    decreases rs.len(),
{
    if i < rs.len() {
        assert(rs.take(i + 1).drop_last() =~= rs.take(i));
    }
    if rs.len() > 0 {
        if i == rs.len() {
            assert(rs.take(i) =~= rs);
        } else {
            assert(rs.drop_last().take(i) =~= rs.take(i));
            lemma_regions_block_count_prefix(rs.drop_last(), i);
        }
    }
}

proof fn lemma_cases_block_count_prefix(cs: Seq<SwitchCase>, i: int)
    requires
        0 <= i <= cs.len(),
    ensures
        cases_block_count(cs.take(i)) <= cases_block_count(cs),
        i < cs.len() ==> cases_block_count(cs.take(i + 1)) == cases_block_count(cs.take(i))
            + region_block_count(cs[i].body),
    decreases cs.len(),
{
    if i < cs.len() {
        assert(cs.take(i + 1).drop_last() =~= cs.take(i));
    }
    if cs.len() > 0 {
        if i == cs.len() {
            assert(cs.take(i) =~= cs);
        } else {
            assert(cs.drop_last().take(i) =~= cs.take(i));
            lemma_cases_block_count_prefix(cs.drop_last(), i);
        }
    }
}

impl Region {
    /// Returns the entry node of this region.
    pub fn entry_node(&self) -> (res: Option<NodeId>)
        ensures
            res == region_entry(*self),
        decreases self,
    {
        match self {
            Region::Block(node) => Some(*node),
            Region::Sequence(regions) => if regions.len() == 0 {
                None
            } else {
                regions[0].entry_node()
            },
            Region::IfThenElse { then_region, .. } => then_region.entry_node(),
            Region::OrChain { then_region, .. } => then_region.entry_node(),
            Region::Loop { header, .. } => Some(*header),
            Region::Switch { cases, default, .. } => {
                let first = if cases.len() == 0 {
                    None
                } else {
                    proof {
                        assert(decreases_to!(cases => cases[0]));
                    }
                    cases[0].body.entry_node()
                };
                match first {
                    Some(n) => Some(n),
                    None => default.entry_node(),
                }
            },
            Region::Goto { target } => Some(*target),
            Region::Empty => None,
        }
    }

    /// Returns the exit node of this region.
    pub fn exit_node(&self) -> (res: Option<NodeId>)
        ensures
            res == region_exit(*self),
        decreases self,
    {
        match self {
            Region::Block(node) => Some(*node),
            Region::Sequence(regions) => if regions.len() == 0 {
                None
            } else {
                regions[regions.len() - 1].exit_node()
            },
            Region::IfThenElse { merge, .. } => Some(*merge),
            Region::OrChain { continuation, .. } => Some(*continuation),
            Region::Loop { exit, .. } => Some(*exit),
            Region::Switch { merge, .. } => Some(*merge),
            Region::Goto { target } => Some(*target),
            Region::Empty => None,
        }
    }

    /// Check if this region terminates: every path through it ends with a
    /// return or throw.
    #[verifier::loop_isolation(false)]
    pub fn terminates(&self, cfg: &Cfg) -> (res: bool)
        requires
            region_within(*self, cfg.blocks.len() as nat),
        ensures
            res == region_terminates(*self, cfg.exit_flags()),
        decreases self,
    {
        match self {
            Region::Block(node) => cfg.blocks[*node].is_exit,
            Region::Sequence(regions) => {
                if regions.len() == 0 {
                    false
                } else {
                    regions[regions.len() - 1].terminates(cfg)
                }
            },
            Region::IfThenElse { then_region, else_region, merge, .. } => {
                let then_terminates = then_region.terminates(cfg);
                let else_terminates = match else_region {
                    Some(r) => r.terminates(cfg),
                    None => false,
                };
                if then_terminates && else_terminates {
                    return true;
                }
                if then_terminates && else_region.is_none() && cfg.blocks[*merge].is_exit {
                    return true;
                }
                false
            },
            Region::OrChain { then_region, else_region, .. } => {
                let then_terminates = then_region.terminates(cfg);
                let else_terminates = match else_region {
                    Some(r) => r.terminates(cfg),
                    None => false,
                };
                then_terminates && else_terminates
            },
            Region::Loop { .. } => false,
            Region::Switch { cases, default, .. } => {
                let mut all_cases_terminate = true;
                let mut i: usize = 0;
                while i < cases.len()
                    invariant
                        0 <= i <= cases.len(),
                        all_cases_terminate == forall|j: int|
                            0 <= j < i ==> region_terminates(
                                #[trigger] cases@[j].body,
                                cfg.exit_flags(),
                            ),
                    decreases cases.len() - i,
                {
                    proof {
                        assert(decreases_to!(cases => cases[i as int]));
                    }
                    let t = cases[i].body.terminates(cfg);
                    all_cases_terminate = all_cases_terminate && t;
                    i += 1;
                }
                let default_terminates = default.terminates(cfg);
                all_cases_terminate && default_terminates
            },
            Region::Goto { .. } => false,
            Region::Empty => false,
        }
    }

    /// Collects all basic block nodes contained within this region.
    pub fn contained_nodes(&self) -> (res: std::collections::HashSet<NodeId>)
        ensures
            res@ == region_nodes(*self),
    {
        let mut nodes = std::collections::HashSet::new();
        self.collect_nodes(&mut nodes);
        assert(nodes@ =~= region_nodes(*self));
        nodes
    }

    /// Adds the nodes of this region to `nodes`.
    #[verifier::loop_isolation(false)]
    fn collect_nodes(&self, nodes: &mut std::collections::HashSet<NodeId>)
        ensures
            final(nodes)@ == old(nodes)@ + region_nodes(*self),
        decreases self,
    {
        match self {
            Region::Block(node) => {
                nodes.insert(*node);
                assert(final(nodes)@ =~= old(nodes)@ + region_nodes(*self));
            },
            Region::Sequence(regions) => {
                let mut i: usize = 0;
                while i < regions.len()
                    invariant
                        0 <= i <= regions.len(),
                        nodes@ == old(nodes)@ + regions_nodes(regions@.take(i as int)),
                    decreases regions.len() - i,
                {
                    proof {
                        assert(regions@.take(i + 1).drop_last() =~= regions@.take(i as int));
                    }
                    regions[i].collect_nodes(nodes);
                    proof {
                        assert(nodes@ =~= old(nodes)@ + regions_nodes(regions@.take(i + 1)));
                    }
                    i += 1;
                }
                assert(regions@.take(i as int) =~= regions@);
            },
            Region::IfThenElse { cond_block, then_region, else_region, .. } => {
                if let Some(block) = cond_block {
                    nodes.insert(*block);
                }
                then_region.collect_nodes(nodes);
                if let Some(else_r) = else_region {
                    else_r.collect_nodes(nodes);
                }
                assert(nodes@ =~= old(nodes)@ + region_nodes(*self));
            },
            Region::OrChain { condition_blocks, then_region, else_region, .. } => {
                let mut i: usize = 0;
                while i < condition_blocks.len()
                    invariant
                        0 <= i <= condition_blocks.len(),
                        nodes@ == old(nodes)@ + condition_blocks@.take(i as int).to_set(),
                    decreases condition_blocks.len() - i,
                {
                    nodes.insert(condition_blocks[i]);
                    proof {
                        assert(condition_blocks@.take(i + 1) =~= condition_blocks@.take(i as int).push(condition_blocks@[i as int]));
                        condition_blocks@.take(i as int).lemma_push_to_set_commute(condition_blocks@[i as int]);
                        assert(nodes@ =~= old(nodes)@ + condition_blocks@.take(i + 1).to_set());
                    }
                    i += 1;
                }
                assert(condition_blocks@.take(i as int) =~= condition_blocks@);
                then_region.collect_nodes(nodes);
                if let Some(else_r) = else_region {
                    else_r.collect_nodes(nodes);
                }
                assert(nodes@ =~= old(nodes)@ + region_nodes(*self));
            },
            Region::Loop { body, .. } => {
                body.collect_nodes(nodes);
            },
            Region::Switch { cases, default, .. } => {
                let mut i: usize = 0;
                while i < cases.len()
                    invariant
                        0 <= i <= cases.len(),
                        nodes@ == old(nodes)@ + cases_nodes(cases@.take(i as int)),
                    decreases cases.len() - i,
                {
                    proof {
                        assert(cases@.take(i + 1).drop_last() =~= cases@.take(i as int));
                        assert(decreases_to!(cases => cases[i as int]));
                    }
                    cases[i].body.collect_nodes(nodes);
                    proof {
                        assert(nodes@ =~= old(nodes)@ + cases_nodes(cases@.take(i + 1)));
                    }
                    i += 1;
                }
                assert(cases@.take(i as int) =~= cases@);
                default.collect_nodes(nodes);
                assert(nodes@ =~= old(nodes)@ + region_nodes(*self));
            },
            Region::Goto { .. } | Region::Empty => {
                assert(nodes@ =~= old(nodes)@ + region_nodes(*self));
            },
        }
    }

    /// Returns true if this region is empty (no statements would be generated).
    #[verifier::loop_isolation(false)]
    pub fn is_empty(&self) -> (res: bool)
        ensures
            res == region_is_empty(*self),
        decreases self,
    {
        match self {
            Region::Empty => true,
            Region::Sequence(regions) => {
                let mut i: usize = 0;
                while i < regions.len()
                    invariant
                        0 <= i <= regions.len(),
                        forall|j: int| 0 <= j < i ==> region_is_empty(#[trigger] regions@[j]),
                    decreases regions.len() - i,
                {
                    if !regions[i].is_empty() {
                        return false;
                    }
                    i += 1;
                }
                true
            },
            _ => false,
        }
    }

    /// Returns the number of basic blocks in this region.
    #[verifier::loop_isolation(false)]
    pub fn block_count(&self) -> (res: usize)
        requires
            region_block_count(*self) <= usize::MAX,
        ensures
            res == region_block_count(*self),
        decreases self,
    {
        match self {
            Region::Block(_) => 1,
            Region::Sequence(regions) => {
                let mut sum: usize = 0;
                let mut i: usize = 0;
                while i < regions.len()
                    invariant
                        0 <= i <= regions.len(),
                        sum == regions_block_count(regions@.take(i as int)),
                    decreases regions.len() - i,
                {
                    proof {
                        lemma_regions_block_count_prefix(regions@, i as int);
                        lemma_regions_block_count_prefix(regions@, i + 1);
                    }
                    sum = sum + regions[i].block_count();
                    i += 1;
                }
                assert(regions@.take(i as int) =~= regions@);
                sum
            },
            Region::IfThenElse { then_region, else_region, .. } => {
                let t = then_region.block_count();
                let e = match else_region {
                    Some(r) => r.block_count(),
                    None => 0,
                };
                t + e
            },
            Region::OrChain { then_region, else_region, .. } => {
                let t = then_region.block_count();
                let e = match else_region {
                    Some(r) => r.block_count(),
                    None => 0,
                };
                t + e
            },
            Region::Loop { body, .. } => body.block_count(),
            Region::Switch { cases, default, .. } => {
                let mut sum: usize = 0;
                let mut i: usize = 0;
                while i < cases.len()
                    invariant
                        0 <= i <= cases.len(),
                        sum == cases_block_count(cases@.take(i as int)),
                    decreases cases.len() - i,
                {
                    proof {
                        lemma_cases_block_count_prefix(cases@, i as int);
                        lemma_cases_block_count_prefix(cases@, i + 1);
                        assert(decreases_to!(cases => cases[i as int]));
                    }
                    sum = sum + cases[i].body.block_count();
                    i += 1;
                }
                assert(cases@.take(i as int) =~= cases@);
                sum + default.block_count()
            },
            Region::Goto { .. } | Region::Empty => 0,
        }
    }

    /// Creates a sequence from multiple regions, flattening nested sequences
    /// and leaving out empty regions.
    pub fn sequence(regions: Vec<Region>) -> (res: Region)
        ensures
            is_sequence_of(res, regions@),
    {
        let ghost orig = regions@;
        let mut regions = regions;
        let mut flat: Vec<Region> = Vec::new();
        let n = regions.len();
        let mut i: usize = 0;
        while i < n
            invariant
                regions@.len() == n == orig.len(),
                0 <= i <= n,
                forall|j: int| i <= j < n ==> regions@[j] == orig[j],
                flat@ == flatten_regions(orig.take(i as int)),
            decreases n - i,
        {
            let mut r = Region::Empty;
            regions.set_and_swap(i, &mut r);
            proof {
                assert(orig.take(i + 1).drop_last() =~= orig.take(i as int));
            }
            match r {
                Region::Sequence(mut inner) => {
                    flat.append(&mut inner);
                },
                Region::Empty => {},
                other => {
                    flat.push(other);
                },
            }
            proof {
                assert(flat@ =~= flatten_regions(orig.take(i + 1)));
            }
            i += 1;
        }
        assert(orig.take(n as int) =~= orig);
        if flat.len() == 0 {
            Region::Empty
        } else if flat.len() == 1 {
            let r = flat.pop().unwrap();
            r
        } else {
            Region::Sequence(flat)
        }
    }

    /// Creates an if-then-else region (not negated).
    pub fn if_then_else(
        cond: Expr,
        cond_block: Option<NodeId>,
        then_region: Region,
        else_region: Option<Region>,
        merge: NodeId,
    ) -> (res: Region)
        ensures
            res == (Region::IfThenElse {
                cond,
                cond_block,
                then_region: Box::new(then_region),
                else_region: match else_region {
                    Some(e) => Some(Box::new(e)),
                    None => None,
                },
                merge,
                negated: false,
            }),
    {
        let else_boxed = match else_region {
            Some(e) => Some(Box::new(e)),
            None => None,
        };
        Region::IfThenElse {
            cond,
            cond_block,
            then_region: Box::new(then_region),
            else_region: else_boxed,
            merge,
            negated: false,
        }
    }

    /// Creates a while loop region.
    pub fn while_loop(header: NodeId, condition: Expr, body: Region, exit: NodeId) -> (res:
        Region)
        ensures
            res == (Region::Loop {
                kind: LoopKind::While,
                header,
                condition: Some(condition),
                body: Box::new(body),
                exit,
            }),
    {
        Region::Loop {
            kind: LoopKind::While,
            header,
            condition: Some(condition),
            body: Box::new(body),
            exit,
        }
    }

    /// Creates an endless loop region (`while (true)`).
    pub fn endless_loop(header: NodeId, body: Region, exit: NodeId) -> (res: Region)
        ensures
            res == (Region::Loop {
                kind: LoopKind::Endless,
                header,
                condition: None,
                body: Box::new(body),
                exit,
            }),
    {
        Region::Loop {
            kind: LoopKind::Endless,
            header,
            condition: None,
            body: Box::new(body),
            exit,
        }
    }
}

/// `b` is a copy of `a`: the same region, with the lists in it held anew.
pub open spec fn region_copy(a: Region, b: Region) -> bool
    decreases a,
{
    match a {
        Region::Sequence(rs) => b matches Region::Sequence(rs2) && rs2.len() == rs.len() && forall|i: int|
            0 <= i < rs.len() ==> region_copy(#[trigger] rs@[i], rs2@[i]),
        Region::IfThenElse { cond, cond_block, then_region, else_region, merge, negated } => b matches Region::IfThenElse {
            cond: c2,
            cond_block: cb2,
            then_region: t2,
            else_region: e2,
            merge: m2,
            negated: n2,
        } && c2 == cond && cb2 == cond_block && m2 == merge && n2 == negated && region_copy(*then_region, *t2)
            && match else_region {
            Some(x) => e2 matches Some(y) && region_copy(*x, *y),
            None => e2 is None,
        },
        Region::OrChain {
            condition_blocks,
            then_region,
            else_region,
            continuation,
            last_condition_inverted,
            nested_and_chains,
        } => b matches Region::OrChain {
            condition_blocks: cb2,
            then_region: t2,
            else_region: e2,
            continuation: c2,
            last_condition_inverted: l2,
            nested_and_chains: n2,
        } && cb2@ == condition_blocks@ && c2 == continuation && l2 == last_condition_inverted && n2@ == nested_and_chains@
            && region_copy(*then_region, *t2) && match else_region {
            Some(x) => e2 matches Some(y) && region_copy(*x, *y),
            None => e2 is None,
        },
        Region::Loop { kind, header, condition, body, exit } => b matches Region::Loop {
            kind: k2,
            header: h2,
            condition: c2,
            body: b2,
            exit: x2,
        } && k2 == kind && h2 == header && c2 == condition && x2 == exit && region_copy(*body, *b2),
        Region::Switch { selector, selector_block, cases, default, merge } => b matches Region::Switch {
            selector: s2,
            selector_block: sb2,
            cases: cs2,
            default: d2,
            merge: m2,
        } && s2 == selector && sb2 == selector_block && m2 == merge && cs2.len() == cases.len() && (forall|i: int|
            0 <= i < cases.len() ==> (#[trigger] cs2@[i]).patterns@ == cases@[i].patterns@ && region_copy(
                cases@[i].body,
                cs2@[i].body,
            )) && region_copy(*default, *d2),
        _ => b == a,
    }
}

/// A copy of a simple expression.
fn copy_expr(e: &Expr) -> (res: Expr)
    requires
        simple_expr(*e),
    ensures
        res == *e,
{
    match e {
        Expr::Constant(c) => Expr::Constant(*c),
        Expr::Variable(r, _) => Expr::Variable(*r, None),
        _ => {
            assert(false);
            Expr::Constant(Constant::Null)
        },
    }
}

/// A copy of a list of node indices.
pub(crate) fn copy_node_ids(v: &Vec<NodeId>) -> (res: Vec<NodeId>)
    ensures
        res@ == v@,
{
    let mut res: Vec<NodeId> = Vec::new();
    let mut i: usize = 0;
    while i < v.len()
        invariant
            0 <= i <= v.len(),
            res@ == v@.take(i as int),
        decreases v.len() - i,
    {
        res.push(v[i]);
        assert(v@.take(i + 1) =~= v@.take(i as int).push(v@[i as int]));
        i += 1;
    }
    assert(v@.take(i as int) =~= v@);
    res
}

/// A copy of a list of constants.
fn copy_constants(v: &Vec<Constant>) -> (res: Vec<Constant>)
    ensures
        res@ == v@,
{
    let mut res: Vec<Constant> = Vec::new();
    let mut i: usize = 0;
    while i < v.len()
        invariant
            0 <= i <= v.len(),
            res@ == v@.take(i as int),
        decreases v.len() - i,
    {
        res.push(v[i]);
        assert(v@.take(i + 1) =~= v@.take(i as int).push(v@[i as int]));
        i += 1;
    }
    assert(v@.take(i as int) =~= v@);
    res
}

/// A copy of a region within `n` blocks (see `region_copy`).
#[verifier::loop_isolation(false)]
pub(crate) fn copy_region(r: &Region, Ghost(n): Ghost<nat>) -> (res: Region)
    requires
        region_within(*r, n),
    ensures
        region_copy(*r, res),
        region_within(res, n),
    decreases r,
{
    match r {
        Region::Block(x) => Region::Block(*x),
        Region::Goto { target } => Region::Goto { target: *target },
        Region::Empty => Region::Empty,
        Region::Sequence(rs) => {
            let mut out: Vec<Region> = Vec::new();
            let mut i: usize = 0;
            while i < rs.len()
                invariant
                    0 <= i <= rs.len(),
                    out.len() == i,
                    forall|k: int| 0 <= k < rs.len() ==> region_within(#[trigger] rs@[k], n),
                    forall|k: int| 0 <= k < i ==> region_copy(#[trigger] rs@[k], out@[k]) && region_within(out@[k], n),
                decreases rs.len() - i,
            {
                proof {
                    assert(decreases_to!(rs => rs[i as int]));
                }
                let c = copy_region(&rs[i], Ghost(n));
                out.push(c);
                i += 1;
            }
            assert forall|k: int| 0 <= k < out.len() implies region_within(#[trigger] out@[k], n) by {
                assert(region_copy(rs@[k], out@[k]));
            }
            let res = Region::Sequence(out);
            assert(region_within(res, n));
            assert(region_copy(*r, res));
            res
        },
        Region::IfThenElse { cond, cond_block, then_region, else_region, merge, negated } => {
            let t = copy_region(then_region, Ghost(n));
            let e = match else_region {
                Some(x) => Some(Box::new(copy_region(x, Ghost(n)))),
                None => None,
            };
            let res = Region::IfThenElse {
                cond: copy_expr(cond),
                cond_block: *cond_block,
                then_region: Box::new(t),
                else_region: e,
                merge: *merge,
                negated: *negated,
            };
            assert(region_within(res, n));
            res
        },
        Region::OrChain {
            condition_blocks,
            then_region,
            else_region,
            continuation,
            last_condition_inverted,
            nested_and_chains,
        } => {
            let t = copy_region(then_region, Ghost(n));
            let e = match else_region {
                Some(x) => Some(Box::new(copy_region(x, Ghost(n)))),
                None => None,
            };
            let res = Region::OrChain {
                condition_blocks: copy_node_ids(condition_blocks),
                then_region: Box::new(t),
                else_region: e,
                continuation: *continuation,
                last_condition_inverted: *last_condition_inverted,
                nested_and_chains: nested_and_chains.clone(),
            };
            assert(region_within(res, n));
            res
        },
        Region::Loop { kind, header, condition, body, exit } => {
            let c = match condition {
                Some(x) => Some(copy_expr(x)),
                None => None,
            };
            let res = Region::Loop { kind: *kind, header: *header, condition: c, body: Box::new(copy_region(body, Ghost(n))), exit: *exit };
            assert(region_within(res, n));
            res
        },
        Region::Switch { selector, selector_block, cases, default, merge } => {
            let mut out: Vec<SwitchCase> = Vec::new();
            let mut i: usize = 0;
            while i < cases.len()
                invariant
                    0 <= i <= cases.len(),
                    out.len() == i,
                    forall|k: int| 0 <= k < cases.len() ==> region_within(#[trigger] cases@[k].body, n),
                    forall|k: int|
                        0 <= k < i ==> (#[trigger] out@[k]).patterns@ == cases@[k].patterns@ && region_copy(cases@[k].body, out@[k].body)
                            && region_within(out@[k].body, n),
                decreases cases.len() - i,
            {
                proof {
                    assert(decreases_to!(cases => cases[i as int]));
                }
                let body = copy_region(&cases[i].body, Ghost(n));
                let patterns = copy_constants(&cases[i].patterns);
                out.push(SwitchCase { patterns, body });
                i += 1;
            }
            let res = Region::Switch {
                selector: copy_expr(selector),
                selector_block: *selector_block,
                cases: out,
                default: Box::new(copy_region(default, Ghost(n))),
                merge: *merge,
            };
            assert(region_within(res, n));
            res
        },
    }
}

} // verus!
