//! The control-flow graph: basic blocks in one array, joined by tagged edges.
use vstd::prelude::*;
use crate::resource::{ExitKind, ResourceKind};
use crate::syntax::Span;

verus! {

/// The tag of an edge.
#[derive(Clone, Copy, Debug, PartialEq, Eq, Structural)]
pub enum EdgeKind {
    Unconditional,
    BranchTrue,
    BranchFalse,
    LoopBack,
    EarlyExit(ExitKind),
}

/// An edge to the block `target`.
#[derive(Clone, Copy, Debug, PartialEq, Eq, Structural)]
pub struct Edge {
    pub target: usize,
    pub kind: EdgeKind,
}

/// What a statement does, as far as the analysis cares.
#[derive(Clone, Copy, Debug, PartialEq, Eq, Structural)]
pub enum StmtKind {
    /// A statement that the analysis does not look into.
    Opaque,
    Acquire(ResourceKind),
    Release,
    Discard,
    Check,
    Unwrap,
    Return,
    Panic,
    Break,
    Continue,
    /// The boundary of the lexical scope of depth `depth`: nothing bound at
    /// that depth or deeper is in scope behind it.
    ScopeExit,
}

/// A statement of a block: a reference into the source with what it does.
#[derive(Clone, Copy, Debug, PartialEq, Eq, Structural)]
pub struct Stmt {
    pub kind: StmtKind,
    pub binding: u32,
    /// The depth of the lexical scope that the statement stands in; the body
    /// of the function has depth 1.
    pub depth: u32,
    pub span: Span,
}

/// A basic block.
#[derive(Debug)]
pub struct BasicBlock {
    pub stmts: Vec<Stmt>,
    pub edges: Vec<Edge>,
    /// `Some` for a terminal block, with the way in which control leaves.
    pub exit: Option<ExitKind>,
}

/// A control-flow graph. Edges name blocks by their index in `blocks`;
/// `roots` holds the entry of the function and of each closure in it.
#[derive(Debug)]
pub struct Cfg {
    pub blocks: Vec<BasicBlock>,
    pub roots: Vec<usize>,
}

/// The mathematical value of a block.
pub struct BlockModel {
    pub stmts: Seq<Stmt>,
    pub edges: Seq<Edge>,
    pub exit: Option<ExitKind>,
}

/// The mathematical value of a graph.
pub struct CfgModel {
    pub blocks: Seq<BlockModel>,
    pub roots: Seq<usize>,
}

impl View for BasicBlock {
    type V = BlockModel;

    open spec fn view(&self) -> BlockModel {
        BlockModel { stmts: self.stmts@, edges: self.edges@, exit: self.exit }
    }
}

impl View for Cfg {
    type V = CfgModel;

    open spec fn view(&self) -> CfgModel {
        CfgModel {
            blocks: Seq::new(self.blocks.len() as nat, |i: int| self.blocks[i]@),
            roots: self.roots@,
        }
    }
}

impl CfgModel {
    /// Whether `b` is the index of a block.
    pub open spec fn has_block(self, b: int) -> bool {
        0 <= b < self.blocks.len()
    }

    /// Whether an edge leads from block `a` to block `b`.
    pub open spec fn has_edge(self, a: int, b: int) -> bool {
        exists|k: int|
            0 <= k < self.blocks[a].edges.len() && #[trigger] self.blocks[a].edges[k].target == b
    }

    /// Whether every edge and every root names a block.
    pub open spec fn indexed(self) -> bool {
        &&& forall|b: int, k: int|
            0 <= b < self.blocks.len() && 0 <= k < self.blocks[b].edges.len()
                ==> (#[trigger] self.blocks[b].edges[k]).target < self.blocks.len()
        &&& forall|r: int| 0 <= r < self.roots.len() ==> #[trigger] self.roots[r] < self.blocks.len()
    }

    /// Whether `b` is a terminal block: one at which control leaves the
    /// function by a return or a panic.
    pub open spec fn is_terminal(self, b: int) -> bool {
        self.blocks[b].exit == Some(ExitKind::Return) || self.blocks[b].exit == Some(
            ExitKind::Panic,
        )
    }

    /// Well-formedness: the graph is indexed, only a return or a panic ends a
    /// block for good, a terminal block has no successor, and every other
    /// block has one.
    pub open spec fn wf(self) -> bool {
        &&& self.indexed()
        &&& forall|b: int|
            0 <= b < self.blocks.len() ==> (#[trigger] self.blocks[b]).exit != Some(
                ExitKind::Break,
            ) && self.blocks[b].exit != Some(ExitKind::Continue)
        &&& forall|b: int|
            0 <= b < self.blocks.len() ==> ((#[trigger] self.blocks[b]).exit is Some
                <==> self.blocks[b].edges.len() == 0)
    }

    /// Whether `path` leads from a root along edges of the graph.
    pub open spec fn is_path(self, path: Seq<usize>) -> bool {
        &&& path.len() > 0
        &&& self.roots.contains(path[0])
        &&& forall|i: int| 0 <= i < path.len() ==> (#[trigger] path[i]) < self.blocks.len()
        &&& forall|i: int|
            0 <= i < path.len() - 1 ==> self.has_edge(#[trigger] path[i] as int, path[i + 1] as int)
    }

    /// Whether some path leads from a root to block `b`.
    pub open spec fn reachable(self, b: int) -> bool {
        exists|path: Seq<usize>| #[trigger] self.is_path(path) && path.last() == b
    }
}

impl CfgModel {
    /// The graph with `block` appended.
    pub open spec fn push_block(self, block: BlockModel) -> CfgModel {
        CfgModel { blocks: self.blocks.push(block), roots: self.roots }
    }

    /// The graph with `stmt` appended to block `b`.
    pub open spec fn push_stmt(self, b: int, stmt: Stmt) -> CfgModel {
        CfgModel {
            blocks: self.blocks.update(
                b,
                BlockModel {
                    stmts: self.blocks[b].stmts.push(stmt),
                    edges: self.blocks[b].edges,
                    exit: self.blocks[b].exit,
                },
            ),
            roots: self.roots,
        }
    }

    /// The graph with `edge` appended to the edges of block `b`.
    pub open spec fn push_edge(self, b: int, edge: Edge) -> CfgModel {
        CfgModel {
            blocks: self.blocks.update(
                b,
                BlockModel {
                    stmts: self.blocks[b].stmts,
                    edges: self.blocks[b].edges.push(edge),
                    exit: self.blocks[b].exit,
                },
            ),
            roots: self.roots,
        }
    }

    /// The graph with `root` appended to its roots.
    pub open spec fn push_root(self, root: usize) -> CfgModel {
        CfgModel { blocks: self.blocks, roots: self.roots.push(root) }
    }
}

impl Cfg {
    /// Whether every edge and every root names a block.
    pub fn is_indexed(&self) -> (r: bool)
        ensures
            r == self@.indexed(),
    {
        let n = self.blocks.len();
        let mut b: usize = 0;
        while b < n
            invariant
                n == self.blocks.len(),
                b <= n,
                forall|i: int, k: int|
                    0 <= i < b && 0 <= k < self@.blocks[i].edges.len() ==> (
                    #[trigger] self@.blocks[i].edges[k]).target < n,
            decreases n - b,
        {
            let mut k: usize = 0;
            while k < self.blocks[b].edges.len()
                invariant
                    n == self.blocks.len(),
                    b < n,
                    k <= self.blocks[b as int].edges.len(),
                    forall|j: int|
                        0 <= j < k ==> (#[trigger] self@.blocks[b as int].edges[j]).target < n,
                decreases self.blocks[b as int].edges.len() - k,
            {
                if self.blocks[b].edges[k].target >= n {
                    assert(self@.blocks[b as int].edges[k as int].target >= n);
                    return false;
                }
                k = k + 1;
            }
            b = b + 1;
        }
        let mut r: usize = 0;
        while r < self.roots.len()
            invariant
                n == self.blocks.len(),
                r <= self.roots.len(),
                forall|j: int| 0 <= j < r ==> #[trigger] self@.roots[j] < n,
            decreases self.roots.len() - r,
        {
            if self.roots[r] >= n {
                assert(self@.roots[r as int] >= n);
                return false;
            }
            r = r + 1;
        }
        true
    }

    /// A graph without blocks.
    pub fn new() -> (g: Cfg)
        ensures
            g@.blocks == Seq::<BlockModel>::empty(),
            g@.roots == Seq::<usize>::empty(),
    {
        let g = Cfg { blocks: Vec::new(), roots: Vec::new() };
        assert(g@.blocks =~= Seq::<BlockModel>::empty());
        g
    }

    /// Appends an empty block that leaves by `exit`, and returns its index.
    pub fn push_block(&mut self, exit: Option<ExitKind>) -> (id: usize)
        ensures
            id == old(self)@.blocks.len(),
            final(self)@ == old(self)@.push_block(
                BlockModel { stmts: Seq::empty(), edges: Seq::empty(), exit },
            ),
    {
        let id = self.blocks.len();
        self.blocks.push(BasicBlock { stmts: Vec::new(), edges: Vec::new(), exit });
        assert(self@.blocks =~= old(self)@.blocks.push(
            BlockModel { stmts: Seq::empty(), edges: Seq::empty(), exit },
        ));
        id
    }

    /// Appends `stmt` to block `b`.
    pub fn push_stmt(&mut self, b: usize, stmt: Stmt)
        requires
            b < old(self)@.blocks.len(),
        ensures
            final(self)@ == old(self)@.push_stmt(b as int, stmt),
    {
        self.blocks[b].stmts.push(stmt);
        assert(self@.blocks =~= old(self)@.push_stmt(b as int, stmt).blocks);
    }

    /// Appends an edge of the given kind from block `b` to block `target`.
    pub fn push_edge(&mut self, b: usize, target: usize, kind: EdgeKind)
        requires
            b < old(self)@.blocks.len(),
        ensures
            final(self)@ == old(self)@.push_edge(b as int, Edge { target, kind }),
    {
        self.blocks[b].edges.push(Edge { target, kind });
        assert(self@.blocks =~= old(self)@.push_edge(b as int, Edge { target, kind }).blocks);
    }

    /// Makes block `root` an entry of the graph.
    pub fn push_root(&mut self, root: usize)
        ensures
            final(self)@ == old(self)@.push_root(root),
    {
        self.roots.push(root);
        assert(self@.blocks =~= old(self)@.blocks);
    }
}

} // verus!
