//! The control-flow graph that structuring starts from: basic blocks
//! (numbered from 0) and the edges between them.
use vstd::prelude::*;

verus! {

/// Index of a node. For a control-flow graph it is the number of a basic
/// block; for a region graph it is the position of a node in the graph.
pub type NodeId = usize;

/// How control reaches the target of an edge.
#[derive(Clone, Copy, Debug, PartialEq, Eq, Structural)]
pub enum EdgeKind {
    /// Falling through to the next block.
    FallThrough,
    /// An unconditional jump.
    Unconditional,
    /// The taken side of a conditional jump.
    ConditionalTrue,
    /// The not-taken side of a conditional jump.
    ConditionalFalse,
    /// A target of a switch.
    Switch,
    /// The edge into an exception handler.
    ExceptionHandler,
}

/// A basic block: the opcodes `start..=end` of the function.
#[derive(Clone, Copy, Debug, PartialEq, Eq, Structural)]
pub struct BasicBlock {
    pub start: usize,
    pub end: usize,
    /// The block ends the function (return or throw).
    pub is_exit: bool,
}

/// An edge of the control-flow graph.
#[derive(Clone, Copy, Debug, PartialEq, Eq, Structural)]
pub struct CfgEdge {
    pub source: NodeId,
    pub target: NodeId,
    pub kind: EdgeKind,
}

/// A control-flow graph: blocks, edges in the order they were added, and
/// the entry block.
#[derive(Debug)]
pub struct Cfg {
    pub blocks: Vec<BasicBlock>,
    pub edges: Vec<CfgEdge>,
    pub entry: NodeId,
}

/// The targets of the edges of `s` that do not lead to an exception
/// handler, in order.
pub open spec fn normal_targets(s: Seq<(NodeId, EdgeKind)>) -> Seq<NodeId>
    decreases s.len(),
{
    if s.len() == 0 {
        Seq::empty()
    } else {
        normal_targets(s.drop_last()) + if s.last().1 == EdgeKind::ExceptionHandler {
            Seq::empty()
        } else {
            seq![s.last().0]
        }
    }
}

impl Cfg {
    /// The graph is well formed: the entry and every edge endpoint are blocks.
    pub open spec fn wf(&self) -> bool {
        &&& self.entry < self.blocks.len()
        &&& forall|i: int|
            0 <= i < self.edges.len() ==> (#[trigger] self.edges@[i]).source < self.blocks.len()
                && self.edges@[i].target < self.blocks.len()
    }

    /// The exit flag of every block.
    pub open spec fn exit_flags(&self) -> Seq<bool> {
        self.blocks@.map_values(|b: BasicBlock| b.is_exit)
    }

    /// The edges leaving `node`, most recently added first.
    pub open spec fn out_edges(&self, node: NodeId) -> Seq<(NodeId, EdgeKind)> {
        self.edges@.reverse().filter(|e: CfgEdge| e.source == node).map_values(
            |e: CfgEdge| (e.target, e.kind),
        )
    }

    /// Successors of `node` with the kind of each edge, most recently added
    /// edge first.
    pub fn successors_with_edges(&self, node: NodeId) -> (res: Vec<(NodeId, EdgeKind)>)
        ensures
            res@ == self.out_edges(node),
    {
        let mut res: Vec<(NodeId, EdgeKind)> = Vec::new();
        let n = self.edges.len();
        let mut k: usize = n;
        while k > 0
            invariant
                n == self.edges.len(),
                0 <= k <= n,
                res@ == self.edges@.subrange(k as int, n as int).reverse().filter(
                    |e: CfgEdge| e.source == node,
                ).map_values(|e: CfgEdge| (e.target, e.kind)),
            decreases k,
        {
            k -= 1;
            let e = self.edges[k];
            let ghost old_sub = self.edges@.subrange(k + 1, n as int);
            let ghost new_sub = self.edges@.subrange(k as int, n as int);
            proof {
                assert(new_sub =~= seq![e] + old_sub);
                assert(new_sub.reverse() =~= old_sub.reverse().push(e));
                reveal(Seq::filter);
                assert(new_sub.reverse().drop_last() =~= old_sub.reverse());
            }
            if e.source == node {
                res.push((e.target, e.kind));
            }
            proof {
                let f = |e: CfgEdge| e.source == node;
                let m = |e: CfgEdge| (e.target, e.kind);
                assert(new_sub.reverse().filter(f) == old_sub.reverse().filter(f) + (if f(e) {
                    seq![e]
                } else {
                    seq![]
                }));
                assert(res@ =~= new_sub.reverse().filter(f).map_values(m));
            }
        }
        assert(self.edges@.subrange(0, n as int) =~= self.edges@);
        res
    }

    /// Successor blocks of `node`, most recently added edge first.
    pub fn successors(&self, node: NodeId) -> (res: Vec<NodeId>)
        ensures
            res@ == self.out_edges(node).map_values(|p: (NodeId, EdgeKind)| p.0),
    {
        let succs = self.successors_with_edges(node);
        let mut res: Vec<NodeId> = Vec::new();
        let mut i: usize = 0;
        while i < succs.len()
            invariant
                0 <= i <= succs.len(),
                res@ =~= succs@.subrange(0, i as int).map_values(|p: (NodeId, EdgeKind)| p.0),
            decreases succs.len() - i,
        {
            res.push(succs[i].0);
            assert(succs@.subrange(0, i + 1) =~= succs@.subrange(0, i as int).push(succs@[i as int]));
            i += 1;
        }
        assert(succs@.subrange(0, i as int) =~= succs@);
        res
    }

    /// Successor blocks of `node` but for exception handlers, most recently
    /// added edge first.
    pub fn successors_no_exceptions(&self, node: NodeId) -> (res: Vec<NodeId>)
        ensures
            res@ == normal_targets(self.out_edges(node)),
    {
        let succs = self.successors_with_edges(node);
        let mut res: Vec<NodeId> = Vec::new();
        let mut i: usize = 0;
        while i < succs.len()
            invariant
                0 <= i <= succs.len(),
                res@ == normal_targets(succs@.take(i as int)),
            decreases succs.len() - i,
        {
            let (t, k) = succs[i];
            proof {
                assert(succs@.take(i + 1).drop_last() =~= succs@.take(i as int));
                assert(succs@.take(i + 1).last() == succs@[i as int]);
            }
            match k {
                EdgeKind::ExceptionHandler => {},
                _ => {
                    res.push(t);
                },
            }
            i += 1;
        }
        assert(succs@.take(i as int) =~= succs@);
        res
    }

    /// The edges entering `node`, most recently added first, as sources.
    pub open spec fn in_sources(&self, node: NodeId) -> Seq<NodeId> {
        self.edges@.reverse().filter(|e: CfgEdge| e.target == node).map_values(|e: CfgEdge| e.source)
    }

    /// Predecessor blocks of `node`, most recently added edge first.
    pub fn predecessors(&self, node: NodeId) -> (res: Vec<NodeId>)
        ensures
            res@ == self.in_sources(node),
    {
        let mut res: Vec<NodeId> = Vec::new();
        let n = self.edges.len();
        let mut k: usize = n;
        while k > 0
            invariant
                n == self.edges.len(),
                0 <= k <= n,
                res@ == self.edges@.subrange(k as int, n as int).reverse().filter(
                    |e: CfgEdge| e.target == node,
                ).map_values(|e: CfgEdge| e.source),
            decreases k,
        {
            k -= 1;
            let e = self.edges[k];
            let ghost old_sub = self.edges@.subrange(k + 1, n as int);
            let ghost new_sub = self.edges@.subrange(k as int, n as int);
            proof {
                assert(new_sub =~= seq![e] + old_sub);
                assert(new_sub.reverse() =~= old_sub.reverse().push(e));
                reveal(Seq::filter);
                assert(new_sub.reverse().drop_last() =~= old_sub.reverse());
            }
            if e.target == node {
                res.push(e.source);
            }
            proof {
                let f = |e: CfgEdge| e.target == node;
                let m = |e: CfgEdge| e.source;
                assert(new_sub.reverse().filter(f) == old_sub.reverse().filter(f) + (if f(e) {
                    seq![e]
                } else {
                    seq![]
                }));
                assert(res@ =~= new_sub.reverse().filter(f).map_values(m));
            }
        }
        assert(self.edges@.subrange(0, n as int) =~= self.edges@);
        res
    }
}

} // verus!
