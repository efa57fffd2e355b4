//! The builder of the control-flow graph: it lowers the tree of a function
//! body to basic blocks and tagged edges.
//!
//! The blocks are numbered in the order of the source. Every edge but a loop's
//! back edge and a `continue` leads to a block with a higher number.
use vstd::prelude::*;
use crate::cfg::{BlockModel, Cfg, CfgModel, Edge, EdgeKind, Stmt, StmtKind};
use crate::resource::ExitKind;
use crate::shape::{flatten, lemma_lower_shape};
use crate::syntax::{NodeKind, SyntaxNode};

verus! {

/// The depth of a scope opened at depth `depth`. It stops growing at the
/// largest number that fits.
pub open spec fn spec_next_depth(depth: u32) -> u32 {
    if depth < u32::MAX {
        (depth + 1) as u32
    } else {
        depth
    }
}

/// Executable form of [`spec_next_depth`].
#[verifier::when_used_as_spec(spec_next_depth)]
pub fn next_depth(depth: u32) -> (r: u32)
    ensures
        r == spec_next_depth(depth),
{
    if depth < u32::MAX {
        depth + 1
    } else {
        depth
    }
}

/// The statement that stands for `node`, with the given kind and depth.
pub open spec fn spec_stmt_of(node: SyntaxNode, kind: StmtKind, depth: u32) -> Stmt {
    Stmt { kind, binding: node.binding, depth, span: node.span }
}

/// Executable form of [`spec_stmt_of`].
pub fn stmt_of(node: &SyntaxNode, kind: StmtKind, depth: u32) -> (r: Stmt)
    ensures
        r == spec_stmt_of(*node, kind, depth),
{
    Stmt { kind, binding: node.binding, depth, span: node.span }
}

/// The kind of the statement that a node of a simple kind becomes: one that
/// is lowered to a single statement of the current block, behind its operands.
pub open spec fn spec_simple_kind(kind: NodeKind) -> Option<StmtKind> {
    match kind {
        NodeKind::Acquire(r) => Some(StmtKind::Acquire(r)),
        NodeKind::Release => Some(StmtKind::Release),
        NodeKind::Discard => Some(StmtKind::Discard),
        NodeKind::Check => Some(StmtKind::Check),
        NodeKind::Unwrap => Some(StmtKind::Unwrap),
        _ => None,
    }
}

/// Executable form of [`spec_simple_kind`].
#[verifier::when_used_as_spec(spec_simple_kind)]
pub fn simple_kind(kind: NodeKind) -> (r: Option<StmtKind>)
    ensures
        r == spec_simple_kind(kind),
{
    match kind {
        NodeKind::Acquire(r) => Some(StmtKind::Acquire(r)),
        NodeKind::Release => Some(StmtKind::Release),
        NodeKind::Discard => Some(StmtKind::Discard),
        NodeKind::Check => Some(StmtKind::Check),
        NodeKind::Unwrap => Some(StmtKind::Unwrap),
        _ => None,
    }
}

/// The tag of the edge into the alternative `index` of a branch.
pub open spec fn spec_arm_edge(index: int) -> EdgeKind {
    if index == 0 {
        EdgeKind::BranchTrue
    } else {
        EdgeKind::BranchFalse
    }
}

/// A block without statements and edges.
pub open spec fn empty_block(exit: Option<ExitKind>) -> BlockModel {
    BlockModel { stmts: Seq::empty(), edges: Seq::empty(), exit }
}

/// The state of the builder between two nodes.
pub struct BuildState {
    /// The graph so far.
    pub graph: CfgModel,
    /// The block that the next statement goes to.
    pub cur: usize,
    /// Whether control can come to the next statement.
    pub live: bool,
    /// The blocks that end in a `break` out of the innermost loop, and wait
    /// for the block behind that loop.
    pub breaks: Seq<usize>,
}

impl BuildState {
    /// The index that the next new block gets.
    pub open spec fn next_id(self) -> usize {
        self.graph.blocks.len() as usize
    }

    /// The state with an empty block appended to the graph.
    pub open spec fn add_block(self, exit: Option<ExitKind>) -> BuildState {
        BuildState {
            graph: self.graph.push_block(empty_block(exit)),
            cur: self.cur,
            live: self.live,
            breaks: self.breaks,
        }
    }

    /// The state with `stmt` appended to block `b`.
    pub open spec fn add_stmt(self, b: usize, stmt: Stmt) -> BuildState {
        BuildState {
            graph: self.graph.push_stmt(b as int, stmt),
            cur: self.cur,
            live: self.live,
            breaks: self.breaks,
        }
    }

    /// The state with `stmt` appended to the current block.
    pub open spec fn emit(self, stmt: Stmt) -> BuildState {
        self.add_stmt(self.cur, stmt)
    }

    /// The state with an edge from `from` to `to`.
    pub open spec fn add_edge(self, from: usize, to: usize, kind: EdgeKind) -> BuildState {
        BuildState {
            graph: self.graph.push_edge(from as int, Edge { target: to, kind }),
            cur: self.cur,
            live: self.live,
            breaks: self.breaks,
        }
    }

    /// The state with an edge to `to` from each of `sources`, in their order.
    pub open spec fn add_edges(self, sources: Seq<usize>, to: usize, kind: EdgeKind) -> BuildState
        decreases sources.len(),
    {
        if sources.len() == 0 {
            self
        } else {
            self.add_edges(sources.drop_last(), to, kind).add_edge(sources.last(), to, kind)
        }
    }

    /// The state with block `root` as a further root of the graph.
    pub open spec fn add_root(self, root: usize) -> BuildState {
        BuildState {
            graph: self.graph.push_root(root),
            cur: self.cur,
            live: self.live,
            breaks: self.breaks,
        }
    }

    /// The state that continues in block `b`.
    pub open spec fn at(self, b: usize, live: bool) -> BuildState {
        BuildState { graph: self.graph, cur: b, live, breaks: self.breaks }
    }

    /// The state with `breaks` as the blocks that wait for the end of the
    /// innermost loop.
    pub open spec fn with_breaks(self, breaks: Seq<usize>) -> BuildState {
        BuildState { graph: self.graph, cur: self.cur, live: self.live, breaks }
    }

    /// The state behind a statement that the analysis does not look into: a
    /// block of its own that holds it, entered from the current block, and a
    /// new current block behind it.
    pub open spec fn opaque(self, stmt: Stmt) -> BuildState {
        let o = self.next_id();
        let s1 = self.add_block(None).add_stmt(o, stmt).add_edge(
            self.cur,
            o,
            EdgeKind::Unconditional,
        );
        let n = s1.next_id();
        s1.add_block(None).add_edge(o, n, EdgeKind::Unconditional).at(n, self.live)
    }

    /// The state behind a `return` or a panic: a terminal block that holds the
    /// statement, entered from the current block, and a new current block
    /// that no edge leads to.
    pub open spec fn leave(self, stmt: Stmt, exit: ExitKind) -> BuildState {
        let t = self.next_id();
        let s1 = self.add_block(Some(exit)).add_stmt(t, stmt).add_edge(
            self.cur,
            t,
            EdgeKind::EarlyExit(exit),
        );
        let d = s1.next_id();
        s1.add_block(None).at(d, false)
    }

    /// The state behind the end of a body: the current block runs into a
    /// terminal block that returns.
    pub open spec fn finish(self, stmt: Stmt) -> BuildState {
        let t = self.next_id();
        self.add_block(Some(ExitKind::Return)).add_stmt(t, stmt).add_edge(
            self.cur,
            t,
            EdgeKind::Unconditional,
        )
    }

    /// The invariant of the builder: the graph is indexed, and the current
    /// block and the waiting blocks exist.
    pub open spec fn ok(self) -> bool {
        &&& self.graph.indexed()
        &&& self.cur < self.graph.blocks.len()
        &&& forall|i: int|
            0 <= i < self.breaks.len() ==> #[trigger] self.breaks[i] < self.graph.blocks.len()
    }
}

/// Whether `header`, if there is one, is a block of the state's graph.
pub open spec fn header_ok(header: Option<usize>, st: BuildState) -> bool {
    header matches Some(h) ==> h < st.graph.blocks.len()
}

/// The state behind `node`, lowered at depth `depth` inside the loop whose
/// header is `header`.
///
/// - A block lowers its children one scope deeper and marks the end of that
///   scope.
/// - A branch gives every alternative a block of its own, entered from the
///   block that branches, and joins their ends in a new block.
/// - A loop gets a header, which is entered from the code before it and by
///   the back edge from the end of the body, and which leads into the body
///   and past it; a `break` leads past the loop, a `continue` to the header.
///   The header and the block behind the loop mark the boundary of the scope
///   of the body, so that nothing bound in one turn is held in the next or
///   behind the loop.
/// - A closure gets an entry of its own, which is a root of the graph if
///   control can come to the closure, and ends in its own return; the code
///   around it goes on in a new block.
/// - A `return` or a panic ends in a terminal block of its own; what follows
///   it goes to a block that no edge leads to.
/// - A statement that the builder does not know, and a `break` or `continue`
///   outside a loop, becomes a block of its own with one edge in and one out.
/// - Every other statement goes to the current block, behind its operands.
pub open spec fn lower_node(node: SyntaxNode, depth: u32, header: Option<usize>, st: BuildState)
    -> BuildState
    decreases node, 1nat, 0nat,
{
    match node.kind {
        NodeKind::Block => {
            let inner = spec_next_depth(depth);
            lower_children(node, 0, inner, header, st).emit(
                spec_stmt_of(node, StmtKind::ScopeExit, inner),
            )
        },
        NodeKind::Branch => lower_arms(node, 0, depth, header, st.cur, st.live, Seq::empty(), st),
        NodeKind::Loop => {
            let inner = spec_next_depth(depth);
            let marker = spec_stmt_of(node, StmtKind::ScopeExit, inner);
            let h = st.next_id();
            let s1 = st.add_block(None).add_stmt(h, marker).add_edge(
                st.cur,
                h,
                EdgeKind::Unconditional,
            );
            let b = s1.next_id();
            let s2 = s1.add_block(None).add_edge(h, b, EdgeKind::BranchTrue).at(
                b,
                st.live,
            ).with_breaks(Seq::empty());
            let s3 = lower_children(node, 0, inner, Some(h), s2);
            let s4 = s3.with_breaks(st.breaks).add_edge(s3.cur, h, EdgeKind::LoopBack);
            let x = s4.next_id();
            s4.add_block(None).add_stmt(x, marker).add_edge(h, x, EdgeKind::BranchFalse).add_edges(
                s3.breaks,
                x,
                EdgeKind::EarlyExit(ExitKind::Break),
            ).at(x, st.live)
        },
        NodeKind::Closure => {
            let inner = spec_next_depth(depth);
            let r = st.next_id();
            let s1 = st.add_block(None);
            let s2 = if st.live {
                s1.add_root(r)
            } else {
                s1
            };
            let s3 = lower_children(node, 0, inner, None, s2.at(r, st.live));
            let s4 = s3.emit(spec_stmt_of(node, StmtKind::ScopeExit, inner)).finish(
                spec_stmt_of(node, StmtKind::Return, inner),
            );
            let c = s4.next_id();
            s4.add_block(None).add_edge(st.cur, c, EdgeKind::Unconditional).at(c, st.live)
        },
        NodeKind::Return => lower_children(node, 0, depth, header, st).leave(
            spec_stmt_of(node, StmtKind::Return, depth),
            ExitKind::Return,
        ),
        NodeKind::Panic => lower_children(node, 0, depth, header, st).leave(
            spec_stmt_of(node, StmtKind::Panic, depth),
            ExitKind::Panic,
        ),
        NodeKind::Break => match header {
            Some(h) => {
                let s1 = st.emit(spec_stmt_of(node, StmtKind::Break, depth)).with_breaks(
                    st.breaks.push(st.cur),
                );
                let d = s1.next_id();
                s1.add_block(None).at(d, false)
            },
            None => st.opaque(spec_stmt_of(node, StmtKind::Opaque, depth)),
        },
        NodeKind::Continue => match header {
            Some(h) => {
                let s1 = st.emit(spec_stmt_of(node, StmtKind::Continue, depth)).add_edge(
                    st.cur,
                    h,
                    EdgeKind::EarlyExit(ExitKind::Continue),
                );
                let d = s1.next_id();
                s1.add_block(None).at(d, false)
            },
            None => st.opaque(spec_stmt_of(node, StmtKind::Opaque, depth)),
        },
        NodeKind::Other => st.opaque(spec_stmt_of(node, StmtKind::Opaque, depth)),
        _ => lower_children(node, 0, depth, header, st).emit(
            spec_stmt_of(node, spec_simple_kind(node.kind).unwrap(), depth),
        ),
    }
}

/// The state behind the children of `node` from index `from` on, lowered one
/// after the other.
pub open spec fn lower_children(
    node: SyntaxNode,
    from: int,
    depth: u32,
    header: Option<usize>,
    st: BuildState,
) -> BuildState
    decreases node, 0nat, node.children.len() - from,
{
    if 0 <= from < node.children.len() {
        lower_children(
            node,
            from + 1,
            depth,
            header,
            lower_node(node.children[from], depth, header, st),
        )
    } else {
        st
    }
}

/// The state behind a branch whose alternatives from index `from` on are
/// still to be lowered. `entry` is the block that branches, `ends` holds the
/// last block of each alternative lowered so far. Each alternative is a scope
/// of its own. Behind the last one, a new block joins them.
pub open spec fn lower_arms(
    node: SyntaxNode,
    from: int,
    depth: u32,
    header: Option<usize>,
    entry: usize,
    live: bool,
    ends: Seq<usize>,
    st: BuildState,
) -> BuildState
    decreases node, 0nat, node.children.len() - from,
{
    if 0 <= from < node.children.len() {
        let inner = spec_next_depth(depth);
        let a = st.next_id();
        let s1 = st.add_block(None).add_edge(entry, a, spec_arm_edge(from)).at(a, live);
        let s2 = lower_node(node.children[from], inner, header, s1).emit(
            spec_stmt_of(node.children[from], StmtKind::ScopeExit, inner),
        );
        lower_arms(node, from + 1, depth, header, entry, live, ends.push(s2.cur), s2)
    } else {
        let j = st.next_id();
        let s1 = st.add_block(None);
        let s2 = if ends.len() == 0 {
            s1.add_edge(entry, j, EdgeKind::Unconditional)
        } else {
            s1.add_edges(ends, j, EdgeKind::Unconditional)
        };
        s2.at(j, live)
    }
}

/// The state in which the builder starts: one empty block, which is the root.
pub open spec fn initial_state() -> BuildState {
    BuildState {
        graph: CfgModel { blocks: seq![empty_block(None)], roots: seq![0usize] },
        cur: 0,
        live: true,
        breaks: Seq::empty(),
    }
}

/// The control-flow graph of the function body `body`.
pub open spec fn lower(body: SyntaxNode) -> CfgModel {
    lower_node(body, 0, None, initial_state()).finish(
        spec_stmt_of(body, StmtKind::Return, 0),
    ).graph
}

/// Whether every one of `sources` is a block of the state's graph.
pub open spec fn sources_ok(sources: Seq<usize>, st: BuildState) -> bool {
    forall|i: int| 0 <= i < sources.len() ==> #[trigger] sources[i] < st.graph.blocks.len()
}

/// Adding edges between blocks that exist keeps the invariant, the blocks
/// that are there and the current block.
pub proof fn lemma_add_edges_ok(st: BuildState, sources: Seq<usize>, to: usize, kind: EdgeKind)
    requires
        st.ok(),
        sources_ok(sources, st),
        to < st.graph.blocks.len(),
    ensures
        st.add_edges(sources, to, kind).ok(),
        st.add_edges(sources, to, kind).graph.blocks.len() == st.graph.blocks.len(),
        st.add_edges(sources, to, kind).cur == st.cur,
        st.add_edges(sources, to, kind).live == st.live,
        st.add_edges(sources, to, kind).breaks == st.breaks,
    decreases sources.len(),
{
    if sources.len() > 0 {
        lemma_add_edges_ok(st, sources.drop_last(), to, kind);
    }
}

/// Lowering a node keeps the invariant of the builder and removes no block.
pub proof fn lemma_lower_node_ok(
    node: SyntaxNode,
    depth: u32,
    header: Option<usize>,
    st: BuildState,
)
    requires
        st.ok(),
        header_ok(header, st),
    ensures
        lower_node(node, depth, header, st).ok(),
        lower_node(node, depth, header, st).graph.blocks.len() >= st.graph.blocks.len(),
    decreases node, 1nat, 0nat,
{
    match node.kind {
        NodeKind::Block => {
            lemma_lower_children_ok(node, 0, spec_next_depth(depth), header, st);
        },
        NodeKind::Branch => {
            lemma_lower_arms_ok(node, 0, depth, header, st.cur, st.live, Seq::empty(), st);
        },
        NodeKind::Loop => {
            let inner = spec_next_depth(depth);
            let marker = spec_stmt_of(node, StmtKind::ScopeExit, inner);
            let h = st.next_id();
            let s1 = st.add_block(None).add_stmt(h, marker).add_edge(
                st.cur,
                h,
                EdgeKind::Unconditional,
            );
            let b = s1.next_id();
            let s2 = s1.add_block(None).add_edge(h, b, EdgeKind::BranchTrue).at(
                b,
                st.live,
            ).with_breaks(Seq::empty());
            assert(s2.ok());
            lemma_lower_children_ok(node, 0, inner, Some(h), s2);
            let s3 = lower_children(node, 0, inner, Some(h), s2);
            let s4 = s3.with_breaks(st.breaks).add_edge(s3.cur, h, EdgeKind::LoopBack);
            let x = s4.next_id();
            let s5 = s4.add_block(None).add_stmt(x, marker).add_edge(h, x, EdgeKind::BranchFalse);
            assert(s5.ok());
            lemma_add_edges_ok(s5, s3.breaks, x, EdgeKind::EarlyExit(ExitKind::Break));
        },
        NodeKind::Closure => {
            let inner = spec_next_depth(depth);
            let r = st.next_id();
            let s1 = st.add_block(None);
            let s2 = if st.live {
                s1.add_root(r)
            } else {
                s1
            };
            assert(s2.at(r, st.live).ok());
            lemma_lower_children_ok(node, 0, inner, None, s2.at(r, st.live));
        },
        NodeKind::Return => {
            lemma_lower_children_ok(node, 0, depth, header, st);
        },
        NodeKind::Panic => {
            lemma_lower_children_ok(node, 0, depth, header, st);
        },
        NodeKind::Break => {},
        NodeKind::Continue => {},
        NodeKind::Other => {},
        _ => {
            lemma_lower_children_ok(node, 0, depth, header, st);
        },
    }
}

/// Lowering the children of a node keeps the invariant of the builder and
/// removes no block.
pub proof fn lemma_lower_children_ok(
    node: SyntaxNode,
    from: int,
    depth: u32,
    header: Option<usize>,
    st: BuildState,
)
    requires
        st.ok(),
        header_ok(header, st),
    ensures
        lower_children(node, from, depth, header, st).ok(),
        lower_children(node, from, depth, header, st).graph.blocks.len() >= st.graph.blocks.len(),
    decreases node, 0nat, node.children.len() - from,
{
    if 0 <= from < node.children.len() {
        lemma_lower_node_ok(node.children[from], depth, header, st);
        lemma_lower_children_ok(
            node,
            from + 1,
            depth,
            header,
            lower_node(node.children[from], depth, header, st),
        );
    }
}

/// Lowering the alternatives of a branch keeps the invariant of the builder
/// and removes no block.
pub proof fn lemma_lower_arms_ok(
    node: SyntaxNode,
    from: int,
    depth: u32,
    header: Option<usize>,
    entry: usize,
    live: bool,
    ends: Seq<usize>,
    st: BuildState,
)
    requires
        st.ok(),
        header_ok(header, st),
        entry < st.graph.blocks.len(),
        sources_ok(ends, st),
    ensures
        lower_arms(node, from, depth, header, entry, live, ends, st).ok(),
        lower_arms(node, from, depth, header, entry, live, ends, st).graph.blocks.len()
            >= st.graph.blocks.len(),
    decreases node, 0nat, node.children.len() - from,
{
    if 0 <= from < node.children.len() {
        let inner = spec_next_depth(depth);
        let a = st.next_id();
        let s1 = st.add_block(None).add_edge(entry, a, spec_arm_edge(from)).at(a, live);
        assert(s1.ok());
        lemma_lower_node_ok(node.children[from], inner, header, s1);
        let s2 = lower_node(node.children[from], inner, header, s1).emit(
            spec_stmt_of(node.children[from], StmtKind::ScopeExit, inner),
        );
        assert(s2.ok());
        lemma_lower_arms_ok(node, from + 1, depth, header, entry, live, ends.push(s2.cur), s2);
    } else {
        let j = st.next_id();
        let s1 = st.add_block(None);
        assert(s1.ok());
        if ends.len() > 0 {
            lemma_add_edges_ok(s1, ends, j, EdgeKind::Unconditional);
        }
    }
}

/// Edges to a block from `sources` change the exit of no block and take no
/// edge away.
proof fn lemma_add_edges_keeps(
    st: BuildState,
    sources: Seq<usize>,
    to: usize,
    kind: EdgeKind,
    b: int,
)
    requires
        st.ok(),
        sources_ok(sources, st),
        to < st.graph.blocks.len(),
        0 <= b < st.graph.blocks.len(),
    ensures
        st.add_edges(sources, to, kind).graph.blocks[b].exit == st.graph.blocks[b].exit,
        st.add_edges(sources, to, kind).graph.blocks[b].edges.len()
            >= st.graph.blocks[b].edges.len(),
    decreases sources.len(),
{
    if sources.len() > 0 {
        let rest = sources.drop_last();
        lemma_add_edges_ok(st, rest, to, kind);
        lemma_add_edges_keeps(st, rest, to, kind, b);
    }
}

/// Edges to a block from `sources` give block `b` a successor if it is one
/// of `sources`, and leave it alone if not.
proof fn lemma_add_edges_block(
    st: BuildState,
    sources: Seq<usize>,
    to: usize,
    kind: EdgeKind,
    b: usize,
)
    requires
        st.ok(),
        sources_ok(sources, st),
        to < st.graph.blocks.len(),
        b < st.graph.blocks.len(),
    ensures
        sources.contains(b) ==> st.add_edges(sources, to, kind).graph.blocks[b as int].edges.len()
            > 0,
        !sources.contains(b) ==> st.add_edges(sources, to, kind).graph.blocks[b as int]
            == st.graph.blocks[b as int],
    decreases sources.len(),
{
    if sources.len() > 0 {
        let rest = sources.drop_last();
        lemma_add_edges_ok(st, rest, to, kind);
        lemma_add_edges_block(st, rest, to, kind, b);
        lemma_add_edges_keeps(st, rest, to, kind, b as int);
        if rest.contains(b) {
            let i = choose|i: int| 0 <= i < rest.len() && rest[i] == b;
            assert(sources[i] == b);
        }
        if sources.contains(b) && !rest.contains(b) {
            let i = choose|i: int| 0 <= i < sources.len() && sources[i] == b;
            if i < rest.len() {
                assert(rest[i] == b);
            }
        }
        if b == sources.last() {
            assert(sources[sources.len() - 1] == b);
        }
    }
}

/// Whether block `b` of `r` has the exit that it has in `st`, and no fewer
/// edges.
pub open spec fn block_kept(st: BuildState, r: BuildState, b: int) -> bool {
    &&& r.graph.blocks[b].exit == st.graph.blocks[b].exit
    &&& r.graph.blocks[b].edges.len() >= st.graph.blocks[b].edges.len()
}

/// Lowering a node changes the exit of no block and takes no edge away.
pub proof fn lemma_lower_node_keeps(
    node: SyntaxNode,
    depth: u32,
    header: Option<usize>,
    st: BuildState,
    b: int,
)
    requires
        st.ok(),
        header_ok(header, st),
        0 <= b < st.graph.blocks.len(),
    ensures
        block_kept(st, lower_node(node, depth, header, st), b),
    decreases node, 1nat, 0nat,
{
    lemma_lower_node_ok(node, depth, header, st);
    match node.kind {
        NodeKind::Block => {
            let inner = spec_next_depth(depth);
            lemma_lower_children_ok(node, 0, inner, header, st);
            lemma_lower_children_keeps(node, 0, inner, header, st, b);
        },
        NodeKind::Branch => {
            lemma_lower_arms_keeps(node, 0, depth, header, st.cur, st.live, Seq::empty(), st, b);
        },
        NodeKind::Loop => {
            let inner = spec_next_depth(depth);
            let marker = spec_stmt_of(node, StmtKind::ScopeExit, inner);
            let h = st.next_id();
            let s1 = st.add_block(None).add_stmt(h, marker).add_edge(
                st.cur,
                h,
                EdgeKind::Unconditional,
            );
            let body = s1.next_id();
            let s2 = s1.add_block(None).add_edge(h, body, EdgeKind::BranchTrue).at(
                body,
                st.live,
            ).with_breaks(Seq::empty());
            assert(s2.ok());
            lemma_lower_children_ok(node, 0, inner, Some(h), s2);
            lemma_lower_children_keeps(node, 0, inner, Some(h), s2, b);
            let s3 = lower_children(node, 0, inner, Some(h), s2);
            let s4 = s3.with_breaks(st.breaks).add_edge(s3.cur, h, EdgeKind::LoopBack);
            let x = s4.next_id();
            let s5 = s4.add_block(None).add_stmt(x, marker).add_edge(h, x, EdgeKind::BranchFalse);
            assert(s5.ok());
            lemma_add_edges_ok(s5, s3.breaks, x, EdgeKind::EarlyExit(ExitKind::Break));
            lemma_add_edges_keeps(s5, s3.breaks, x, EdgeKind::EarlyExit(ExitKind::Break), b);
        },
        NodeKind::Closure => {
            let inner = spec_next_depth(depth);
            let r = st.next_id();
            let s1 = st.add_block(None);
            let s2 = if st.live {
                s1.add_root(r)
            } else {
                s1
            };
            assert(s2.at(r, st.live).ok());
            lemma_lower_children_ok(node, 0, inner, None, s2.at(r, st.live));
            lemma_lower_children_keeps(node, 0, inner, None, s2.at(r, st.live), b);
        },
        NodeKind::Return => {
            lemma_lower_children_ok(node, 0, depth, header, st);
            lemma_lower_children_keeps(node, 0, depth, header, st, b);
        },
        NodeKind::Panic => {
            lemma_lower_children_ok(node, 0, depth, header, st);
            lemma_lower_children_keeps(node, 0, depth, header, st, b);
        },
        NodeKind::Break => {},
        NodeKind::Continue => {},
        NodeKind::Other => {},
        _ => {
            lemma_lower_children_ok(node, 0, depth, header, st);
            lemma_lower_children_keeps(node, 0, depth, header, st, b);
        },
    }
}

/// Lowering the children of a node changes the exit of no block and takes
/// no edge away.
pub proof fn lemma_lower_children_keeps(
    node: SyntaxNode,
    from: int,
    depth: u32,
    header: Option<usize>,
    st: BuildState,
    b: int,
)
    requires
        st.ok(),
        header_ok(header, st),
        0 <= b < st.graph.blocks.len(),
    ensures
        block_kept(st, lower_children(node, from, depth, header, st), b),
    decreases node, 0nat, node.children.len() - from,
{
    if 0 <= from < node.children.len() {
        let s1 = lower_node(node.children[from], depth, header, st);
        lemma_lower_node_ok(node.children[from], depth, header, st);
        lemma_lower_node_keeps(node.children[from], depth, header, st, b);
        lemma_lower_children_keeps(node, from + 1, depth, header, s1, b);
    }
}

/// Lowering the alternatives of a branch changes the exit of no block and
/// takes no edge away.
pub proof fn lemma_lower_arms_keeps(
    node: SyntaxNode,
    from: int,
    depth: u32,
    header: Option<usize>,
    entry: usize,
    live: bool,
    ends: Seq<usize>,
    st: BuildState,
    b: int,
)
    requires
        st.ok(),
        header_ok(header, st),
        entry < st.graph.blocks.len(),
        sources_ok(ends, st),
        0 <= b < st.graph.blocks.len(),
    ensures
        block_kept(st, lower_arms(node, from, depth, header, entry, live, ends, st), b),
    decreases node, 0nat, node.children.len() - from,
{
    if 0 <= from < node.children.len() {
        let inner = spec_next_depth(depth);
        let a = st.next_id();
        let s1 = st.add_block(None).add_edge(entry, a, spec_arm_edge(from)).at(a, live);
        assert(s1.ok());
        lemma_lower_node_ok(node.children[from], inner, header, s1);
        lemma_lower_node_keeps(node.children[from], inner, header, s1, b);
        let s2 = lower_node(node.children[from], inner, header, s1).emit(
            spec_stmt_of(node.children[from], StmtKind::ScopeExit, inner),
        );
        assert(s2.ok());
        lemma_lower_arms_keeps(node, from + 1, depth, header, entry, live, ends.push(s2.cur), s2, b);
    } else {
        let j = st.next_id();
        let s1 = st.add_block(None);
        assert(s1.ok());
        if ends.len() > 0 {
            lemma_add_edges_ok(s1, ends, j, EdgeKind::Unconditional);
            lemma_add_edges_keeps(s1, ends, j, EdgeKind::Unconditional, b);
        }
    }
}

/// Whether block `b` may still be without an edge: it is the current block,
/// waits for the end of a loop, or is set aside.
pub open spec fn may_wait(st: BuildState, aside: Set<usize>, b: usize) -> bool {
    b == st.cur || st.breaks.contains(b) || aside.contains(b)
}

/// Whether block `b` is as it should be: only a return or a panic ends a
/// block for good, a terminal block has no successor and waits for none, and
/// every other block has a successor unless it may still wait for one.
pub open spec fn block_settled(st: BuildState, aside: Set<usize>, b: usize) -> bool {
    let block = st.graph.blocks[b as int];
    &&& block.exit != Some(ExitKind::Break)
    &&& block.exit != Some(ExitKind::Continue)
    &&& block.exit is Some ==> block.edges.len() == 0 && !may_wait(st, aside, b)
    &&& block.exit is None && !may_wait(st, aside, b) ==> block.edges.len() > 0
}

/// Whether every block of the state is as it should be, and the blocks set
/// aside exist.
pub open spec fn settled(st: BuildState, aside: Set<usize>) -> bool {
    &&& st.graph.blocks.len() <= usize::MAX
    &&& forall|b: usize| b < st.graph.blocks.len() ==> #[trigger] block_settled(st, aside, b)
    &&& forall|x: usize| #[trigger] aside.contains(x) ==> x < st.graph.blocks.len()
}

/// The blocks that wait while the alternatives of a branch are lowered:
/// those set aside and the ends of the alternatives lowered so far.
pub open spec fn with_ends(aside: Set<usize>, ends: Seq<usize>) -> Set<usize> {
    Set::new(|x: usize| aside.contains(x) || ends.contains(x))
}

/// A further statement leaves the blocks as they should be.
proof fn lemma_emit_settled(st: BuildState, aside: Set<usize>, stmt: Stmt)
    requires
        st.ok(),
        settled(st, aside),
    ensures
        settled(st.emit(stmt), aside),
{
    let r = st.emit(stmt);
    assert forall|c: usize| c < r.graph.blocks.len() implies #[trigger] block_settled(
        r,
        aside,
        c,
    ) by {
        assert(block_settled(st, aside, c));
    }
}

/// A `return` or a panic leaves the blocks as they should be.
proof fn lemma_leave_settled(st: BuildState, aside: Set<usize>, stmt: Stmt, exit: ExitKind)
    requires
        st.ok(),
        settled(st, aside),
        exit == ExitKind::Return || exit == ExitKind::Panic,
        st.graph.blocks.len() + 2 <= usize::MAX,
    ensures
        settled(st.leave(stmt, exit), aside),
{
    let r = st.leave(stmt, exit);
    assert(block_settled(st, aside, st.cur));
    assert forall|c: usize| c < r.graph.blocks.len() implies #[trigger] block_settled(
        r,
        aside,
        c,
    ) by {
        if c < st.graph.blocks.len() {
            assert(block_settled(st, aside, c));
        } else {
            lemma_new_block_waits_not(st, aside, c);
        }
    }
}

/// A statement that is not looked into leaves the blocks as they should be.
proof fn lemma_opaque_settled(st: BuildState, aside: Set<usize>, stmt: Stmt)
    requires
        st.ok(),
        settled(st, aside),
        st.graph.blocks.len() + 2 <= usize::MAX,
    ensures
        settled(st.opaque(stmt), aside),
{
    let r = st.opaque(stmt);
    assert(block_settled(st, aside, st.cur));
    assert forall|c: usize| c < r.graph.blocks.len() implies #[trigger] block_settled(
        r,
        aside,
        c,
    ) by {
        if c < st.graph.blocks.len() {
            assert(block_settled(st, aside, c));
        } else {
            lemma_new_block_waits_not(st, aside, c);
        }
    }
}

/// No block that is yet to come waits for an edge.
proof fn lemma_new_block_waits_not(st: BuildState, aside: Set<usize>, c: usize)
    requires
        st.ok(),
        settled(st, aside),
        st.graph.blocks.len() <= c,
    ensures
        !st.breaks.contains(c),
        !aside.contains(c),
        c != st.cur,
{
    if st.breaks.contains(c) {
        let i = choose|i: int| 0 <= i < st.breaks.len() && st.breaks[i] == c;
        assert(st.breaks[i] < st.graph.blocks.len());
    }
}

/// What waits behind a further `break` is what waited before, and the block
/// of the `break`.
proof fn lemma_push_contains(s: Seq<usize>, x: usize, c: usize)
    ensures
        s.push(x).contains(c) <==> s.contains(c) || c == x,
{
    if s.contains(c) {
        let i = choose|i: int| 0 <= i < s.len() && s[i] == c;
        assert(s.push(x)[i] == c);
    }
    if c == x {
        assert(s.push(x)[s.len() as int] == c);
    }
    if s.push(x).contains(c) {
        let i = choose|i: int| 0 <= i < s.push(x).len() && s.push(x)[i] == c;
        if i < s.len() {
            assert(s[i] == c);
        }
    }
}

/// Lowering a node leaves the blocks as they should be.
pub proof fn lemma_lower_node_settled(
    node: SyntaxNode,
    depth: u32,
    header: Option<usize>,
    st: BuildState,
    aside: Set<usize>,
)
    requires
        st.ok(),
        header_ok(header, st),
        settled(st, aside),
        lower_node(node, depth, header, st).graph.blocks.len() <= usize::MAX,
    ensures
        settled(lower_node(node, depth, header, st), aside),
        header is None ==> lower_node(node, depth, header, st).breaks == st.breaks,
    decreases node, 1nat, 0nat,
{
    lemma_lower_node_ok(node, depth, header, st);
    let r = lower_node(node, depth, header, st);
    match node.kind {
        NodeKind::Block => {
            let inner = spec_next_depth(depth);
            lemma_lower_children_ok(node, 0, inner, header, st);
            lemma_lower_children_settled(node, 0, inner, header, st, aside);
            lemma_emit_settled(
                lower_children(node, 0, inner, header, st),
                aside,
                spec_stmt_of(node, StmtKind::ScopeExit, inner),
            );
        },
        NodeKind::Branch => {
            assert(with_ends(aside, Seq::empty()) =~= aside);
            assert(block_settled(st, aside, st.cur));
            lemma_lower_arms_settled(
                node,
                0,
                depth,
                header,
                st.cur,
                st.live,
                Seq::empty(),
                st,
                aside,
            );
        },
        NodeKind::Loop => {
            let inner = spec_next_depth(depth);
            let marker = spec_stmt_of(node, StmtKind::ScopeExit, inner);
            let h = st.next_id();
            let s1 = st.add_block(None).add_stmt(h, marker).add_edge(
                st.cur,
                h,
                EdgeKind::Unconditional,
            );
            let body = s1.next_id();
            let s2 = s1.add_block(None).add_edge(h, body, EdgeKind::BranchTrue).at(
                body,
                st.live,
            ).with_breaks(Seq::empty());
            assert(s2.ok());
            lemma_lower_children_ok(node, 0, inner, Some(h), s2);
            let s3 = lower_children(node, 0, inner, Some(h), s2);
            let s4 = s3.with_breaks(st.breaks).add_edge(s3.cur, h, EdgeKind::LoopBack);
            let x = s4.next_id();
            let s5 = s4.add_block(None).add_stmt(x, marker).add_edge(h, x, EdgeKind::BranchFalse);
            assert(s5.ok());
            lemma_add_edges_ok(s5, s3.breaks, x, EdgeKind::EarlyExit(ExitKind::Break));
            let waiting = with_ends(aside, st.breaks);
            assert(block_settled(st, aside, st.cur));
            assert forall|c: usize| c < s2.graph.blocks.len() implies #[trigger] block_settled(
                s2,
                waiting,
                c,
            ) by {
                if c < st.graph.blocks.len() {
                    assert(block_settled(st, aside, c));
                }
            }
            assert(settled(s2, waiting));
            lemma_lower_children_settled(node, 0, inner, Some(h), s2, waiting);
            lemma_lower_children_keeps(node, 0, inner, Some(h), s2, h as int);
            assert(block_settled(s3, waiting, s3.cur));
            assert forall|c: usize| c < r.graph.blocks.len() implies #[trigger] block_settled(
                r,
                aside,
                c,
            ) by {
                if c < s3.graph.blocks.len() {
                    assert(block_settled(s3, waiting, c));
                    lemma_add_edges_block(s5, s3.breaks, x, EdgeKind::EarlyExit(ExitKind::Break), c);
                    lemma_add_edges_keeps(
                        s5,
                        s3.breaks,
                        x,
                        EdgeKind::EarlyExit(ExitKind::Break),
                        c as int,
                    );
                    if s3.breaks.contains(c) {
                        assert(may_wait(s3, waiting, c));
                    }
                } else {
                    lemma_new_block_waits_not(s3, waiting, c);
                    lemma_add_edges_keeps(
                        s5,
                        s3.breaks,
                        x,
                        EdgeKind::EarlyExit(ExitKind::Break),
                        c as int,
                    );
                }
            }
        },
        NodeKind::Closure => {
            let inner = spec_next_depth(depth);
            let root = st.next_id();
            let s1 = st.add_block(None);
            let s2 = if st.live {
                s1.add_root(root)
            } else {
                s1
            };
            let s2 = s2.at(root, st.live);
            assert(s2.ok());
            lemma_lower_children_ok(node, 0, inner, None, s2);
            let s3 = lower_children(node, 0, inner, None, s2);
            let waiting = aside.insert(st.cur);
            assert(block_settled(st, aside, st.cur));
            assert forall|c: usize| c < s2.graph.blocks.len() implies #[trigger] block_settled(
                s2,
                waiting,
                c,
            ) by {
                if c < st.graph.blocks.len() {
                    assert(block_settled(st, aside, c));
                }
            }
            assert(settled(s2, waiting));
            lemma_lower_children_settled(node, 0, inner, None, s2, waiting);
            assert(block_settled(s3, waiting, s3.cur));
            assert(block_settled(s3, waiting, st.cur));
            assert forall|c: usize| c < r.graph.blocks.len() implies #[trigger] block_settled(
                r,
                aside,
                c,
            ) by {
                if c < s3.graph.blocks.len() {
                    assert(block_settled(s3, waiting, c));
                } else {
                    lemma_new_block_waits_not(s3, waiting, c);
                }
            }
        },
        NodeKind::Return => {
            lemma_lower_children_ok(node, 0, depth, header, st);
            lemma_lower_children_settled(node, 0, depth, header, st, aside);
            lemma_leave_settled(
                lower_children(node, 0, depth, header, st),
                aside,
                spec_stmt_of(node, StmtKind::Return, depth),
                ExitKind::Return,
            );
        },
        NodeKind::Panic => {
            lemma_lower_children_ok(node, 0, depth, header, st);
            lemma_lower_children_settled(node, 0, depth, header, st, aside);
            lemma_leave_settled(
                lower_children(node, 0, depth, header, st),
                aside,
                spec_stmt_of(node, StmtKind::Panic, depth),
                ExitKind::Panic,
            );
        },
        NodeKind::Break => {
            if header is Some {
                assert(block_settled(st, aside, st.cur));
                assert forall|c: usize| c < r.graph.blocks.len() implies #[trigger] block_settled(
                    r,
                    aside,
                    c,
                ) by {
                    lemma_push_contains(st.breaks, st.cur, c);
                    if c < st.graph.blocks.len() {
                        assert(block_settled(st, aside, c));
                    } else {
                        lemma_new_block_waits_not(st, aside, c);
                    }
                }
            } else {
                lemma_opaque_settled(st, aside, spec_stmt_of(node, StmtKind::Opaque, depth));
            }
        },
        NodeKind::Continue => {
            if header is Some {
                assert(block_settled(st, aside, st.cur));
                assert forall|c: usize| c < r.graph.blocks.len() implies #[trigger] block_settled(
                    r,
                    aside,
                    c,
                ) by {
                    if c < st.graph.blocks.len() {
                        assert(block_settled(st, aside, c));
                    } else {
                        lemma_new_block_waits_not(st, aside, c);
                    }
                }
            } else {
                lemma_opaque_settled(st, aside, spec_stmt_of(node, StmtKind::Opaque, depth));
            }
        },
        NodeKind::Other => {
            lemma_opaque_settled(st, aside, spec_stmt_of(node, StmtKind::Opaque, depth));
        },
        _ => {
            lemma_lower_children_ok(node, 0, depth, header, st);
            lemma_lower_children_settled(node, 0, depth, header, st, aside);
            lemma_emit_settled(
                lower_children(node, 0, depth, header, st),
                aside,
                spec_stmt_of(node, spec_simple_kind(node.kind).unwrap(), depth),
            );
        },
    }
}

/// Lowering the children of a node leaves the blocks as they should be.
pub proof fn lemma_lower_children_settled(
    node: SyntaxNode,
    from: int,
    depth: u32,
    header: Option<usize>,
    st: BuildState,
    aside: Set<usize>,
)
    requires
        0 <= from,
        st.ok(),
        header_ok(header, st),
        settled(st, aside),
        lower_children(node, from, depth, header, st).graph.blocks.len() <= usize::MAX,
    ensures
        settled(lower_children(node, from, depth, header, st), aside),
        header is None ==> lower_children(node, from, depth, header, st).breaks == st.breaks,
    decreases node, 0nat, node.children.len() - from,
{
    if 0 <= from < node.children.len() {
        let s1 = lower_node(node.children[from], depth, header, st);
        lemma_lower_node_ok(node.children[from], depth, header, st);
        lemma_lower_children_ok(node, from + 1, depth, header, s1);
        lemma_lower_node_settled(node.children[from], depth, header, st, aside);
        lemma_lower_children_settled(node, from + 1, depth, header, s1, aside);
    }
}

/// Lowering the alternatives of a branch leaves the blocks as they should be.
pub proof fn lemma_lower_arms_settled(
    node: SyntaxNode,
    from: int,
    depth: u32,
    header: Option<usize>,
    entry: usize,
    live: bool,
    ends: Seq<usize>,
    st: BuildState,
    aside: Set<usize>,
)
    requires
        0 <= from,
        st.ok(),
        header_ok(header, st),
        entry < st.graph.blocks.len(),
        sources_ok(ends, st),
        settled(st, with_ends(aside, ends)),
        st.graph.blocks[entry as int].exit is None,
        ends.len() == 0 ==> entry == st.cur,
        ends.len() > 0 ==> ends.last() == st.cur && st.graph.blocks[entry as int].edges.len() > 0,
        lower_arms(node, from, depth, header, entry, live, ends, st).graph.blocks.len()
            <= usize::MAX,
    ensures
        settled(lower_arms(node, from, depth, header, entry, live, ends, st), aside),
        header is None ==> lower_arms(node, from, depth, header, entry, live, ends, st).breaks
            == st.breaks,
    decreases node, 0nat, node.children.len() - from,
{
    let waiting = with_ends(aside, ends);
    let r = lower_arms(node, from, depth, header, entry, live, ends, st);
    if ends.len() > 0 {
        assert(ends[ends.len() - 1] == st.cur);
        assert(ends.contains(st.cur));
    }
    if 0 <= from < node.children.len() {
        let inner = spec_next_depth(depth);
        let a = st.next_id();
        let s1 = st.add_block(None).add_edge(entry, a, spec_arm_edge(from)).at(a, live);
        assert(s1.ok());
        lemma_lower_node_ok(node.children[from], inner, header, s1);
        let lowered = lower_node(node.children[from], inner, header, s1);
        let s2 = lowered.emit(spec_stmt_of(node.children[from], StmtKind::ScopeExit, inner));
        assert(s2.ok());
        let ends2 = ends.push(s2.cur);
        lemma_lower_arms_ok(node, from + 1, depth, header, entry, live, ends2, s2);
        assert forall|c: usize| c < s1.graph.blocks.len() implies #[trigger] block_settled(
            s1,
            waiting,
            c,
        ) by {
            if c < st.graph.blocks.len() {
                assert(block_settled(st, waiting, c));
            }
        }
        assert(settled(s1, waiting));
        lemma_lower_node_settled(node.children[from], inner, header, s1, waiting);
        lemma_lower_node_keeps(node.children[from], inner, header, s1, entry as int);
        lemma_emit_settled(
            lowered,
            waiting,
            spec_stmt_of(node.children[from], StmtKind::ScopeExit, inner),
        );
        let waiting2 = with_ends(aside, ends2);
        assert(block_settled(s2, waiting, s2.cur));
        assert forall|c: usize| c < s2.graph.blocks.len() implies #[trigger] block_settled(
            s2,
            waiting2,
            c,
        ) by {
            assert(block_settled(s2, waiting, c));
            lemma_push_contains(ends, s2.cur, c);
        }
        assert forall|x: usize| #[trigger] waiting2.contains(x) implies x
            < s2.graph.blocks.len() by {
            lemma_push_contains(ends, s2.cur, x);
            if !aside.contains(x) && x != s2.cur {
                assert(waiting.contains(x));
            }
            if aside.contains(x) {
                assert(waiting.contains(x));
            }
        }
        assert(settled(s2, waiting2));
        assert(ends2.last() == s2.cur);
        lemma_lower_arms_settled(node, from + 1, depth, header, entry, live, ends2, s2, aside);
    } else {
        let j = st.next_id();
        let s1 = st.add_block(None);
        assert(s1.ok());
        if ends.len() > 0 {
            lemma_add_edges_ok(s1, ends, j, EdgeKind::Unconditional);
        }
        assert forall|c: usize| c < r.graph.blocks.len() implies #[trigger] block_settled(
            r,
            aside,
            c,
        ) by {
            if c < st.graph.blocks.len() {
                assert(block_settled(st, waiting, c));
                if ends.len() > 0 {
                    lemma_add_edges_block(s1, ends, j, EdgeKind::Unconditional, c);
                    lemma_add_edges_keeps(s1, ends, j, EdgeKind::Unconditional, c as int);
                }
            } else {
                lemma_new_block_waits_not(st, waiting, c);
                if ends.len() > 0 {
                    lemma_add_edges_keeps(s1, ends, j, EdgeKind::Unconditional, c as int);
                }
            }
        }
        assert forall|x: usize| #[trigger] aside.contains(x) implies x < r.graph.blocks.len() by {
            assert(waiting.contains(x));
        }
    }
}

/// The graph of a body is well formed, as long as it fits the machine: only
/// a return or a panic ends a block for good, a terminal block has no
/// successor, and every other block has one.
pub proof fn lemma_lower_wf(body: SyntaxNode)
    requires
        lower(body).blocks.len() <= usize::MAX,
    ensures
        lower(body).wf(),
{
    let st = initial_state();
    let none: Set<usize> = Set::empty();
    assert(st.ok());
    assert(settled(st, none));
    lemma_lower_node_ok(body, 0, None, st);
    lemma_lower_node_settled(body, 0, None, st, none);
    let s = lower_node(body, 0, None, st);
    let g = lower(body);
    assert(s.breaks =~= Seq::empty());
    assert forall|b: int| 0 <= b < g.blocks.len() implies ((#[trigger] g.blocks[b]).exit is Some
        <==> g.blocks[b].edges.len() == 0) && g.blocks[b].exit != Some(ExitKind::Break)
        && g.blocks[b].exit != Some(ExitKind::Continue) by {
        if b < s.graph.blocks.len() {
            assert(block_settled(s, none, b as usize));
        }
    }
}

/// The builder at work: the graph so far and where the next statement goes.
struct Builder {
    cfg: Cfg,
    cur: usize,
    live: bool,
    breaks: Vec<usize>,
}

impl View for Builder {
    type V = BuildState;

    closed spec fn view(&self) -> BuildState {
        BuildState { graph: self.cfg@, cur: self.cur, live: self.live, breaks: self.breaks@ }
    }
}

impl Builder {
    /// The builder in its initial state.
    fn new() -> (b: Builder)
        ensures
            b@ == initial_state(),
    {
        let mut cfg = Cfg::new();
        let root = cfg.push_block(None);
        cfg.push_root(root);
        let b = Builder { cfg, cur: root, live: true, breaks: Vec::new() };
        assert(b@.graph.blocks =~= initial_state().graph.blocks);
        assert(b@.graph.roots =~= initial_state().graph.roots);
        b
    }

    /// Appends an empty block and returns its index.
    fn add_block(&mut self, exit: Option<ExitKind>) -> (id: usize)
        ensures
            final(self)@ == old(self)@.add_block(exit),
            id == old(self)@.next_id(),
            id == old(self)@.graph.blocks.len(),
    {
        self.cfg.push_block(exit)
    }

    /// Appends `stmt` to block `b`.
    fn add_stmt(&mut self, b: usize, stmt: Stmt)
        requires
            b < old(self)@.graph.blocks.len(),
        ensures
            final(self)@ == old(self)@.add_stmt(b, stmt),
    {
        self.cfg.push_stmt(b, stmt);
    }

    /// Appends `stmt` to the current block.
    fn emit(&mut self, stmt: Stmt)
        requires
            old(self)@.cur < old(self)@.graph.blocks.len(),
        ensures
            final(self)@ == old(self)@.emit(stmt),
    {
        self.cfg.push_stmt(self.cur, stmt);
    }

    /// Adds an edge from block `from` to block `to`.
    fn add_edge(&mut self, from: usize, to: usize, kind: EdgeKind)
        requires
            from < old(self)@.graph.blocks.len(),
        ensures
            final(self)@ == old(self)@.add_edge(from, to, kind),
    {
        self.cfg.push_edge(from, to, kind);
    }

    /// Adds an edge to block `to` from each of `sources`.
    fn add_edges(&mut self, sources: &Vec<usize>, to: usize, kind: EdgeKind)
        requires
            old(self)@.ok(),
            sources_ok(sources@, old(self)@),
            to < old(self)@.graph.blocks.len(),
        ensures
            final(self)@ == old(self)@.add_edges(sources@, to, kind),
    {
        let ghost start = self@;
        let mut i: usize = 0;
        while i < sources.len()
            invariant
                i <= sources.len(),
                start.ok(),
                sources_ok(sources@, start),
                to < start.graph.blocks.len(),
                self@ == start.add_edges(sources@.take(i as int), to, kind),
            decreases sources.len() - i,
        {
            proof {
                lemma_add_edges_ok(start, sources@.take(i as int), to, kind);
                assert(sources@.take(i + 1).drop_last() =~= sources@.take(i as int));
            }
            self.add_edge(sources[i], to, kind);
            i = i + 1;
        }
        assert(sources@.take(i as int) =~= sources@);
    }

    /// Lowers a statement that the analysis does not look into.
    fn opaque(&mut self, stmt: Stmt)
        requires
            old(self)@.ok(),
        ensures
            final(self)@ == old(self)@.opaque(stmt),
    {
        let o = self.add_block(None);
        self.add_stmt(o, stmt);
        self.add_edge(self.cur, o, EdgeKind::Unconditional);
        let n = self.add_block(None);
        self.add_edge(o, n, EdgeKind::Unconditional);
        self.cur = n;
    }

    /// Lowers a `return` or a panic.
    fn leave(&mut self, stmt: Stmt, exit: ExitKind)
        requires
            old(self)@.ok(),
        ensures
            final(self)@ == old(self)@.leave(stmt, exit),
    {
        let t = self.add_block(Some(exit));
        self.add_stmt(t, stmt);
        self.add_edge(self.cur, t, EdgeKind::EarlyExit(exit));
        let d = self.add_block(None);
        self.cur = d;
        self.live = false;
    }

    /// Lets the current block run into a terminal block that returns.
    fn finish(&mut self, stmt: Stmt)
        requires
            old(self)@.ok(),
        ensures
            final(self)@ == old(self)@.finish(stmt),
    {
        let t = self.add_block(Some(ExitKind::Return));
        self.add_stmt(t, stmt);
        self.add_edge(self.cur, t, EdgeKind::Unconditional);
    }

    /// Lowers `node` at depth `depth`, inside the loop whose header is
    /// `header`.
    fn lower_node(&mut self, node: &SyntaxNode, depth: u32, header: Option<usize>)
        requires
            old(self)@.ok(),
            header_ok(header, old(self)@),
        ensures
            final(self)@ == lower_node(*node, depth, header, old(self)@),
            final(self)@.ok(),
            final(self)@.graph.blocks.len() >= old(self)@.graph.blocks.len(),
        decreases *node, 1nat,
    {
        proof {
            lemma_lower_node_ok(*node, depth, header, self@);
        }
        match node.kind {
            NodeKind::Block => {
                let inner = next_depth(depth);
                self.lower_children(node, inner, header);
                self.emit(stmt_of(node, StmtKind::ScopeExit, inner));
            },
            NodeKind::Branch => {
                self.lower_arms(node, depth, header);
            },
            NodeKind::Loop => {
                let inner = next_depth(depth);
                let marker = stmt_of(node, StmtKind::ScopeExit, inner);
                let entry = self.cur;
                let was_live = self.live;
                let h = self.add_block(None);
                self.add_stmt(h, marker);
                self.add_edge(entry, h, EdgeKind::Unconditional);
                let b = self.add_block(None);
                self.add_edge(h, b, EdgeKind::BranchTrue);
                self.cur = b;
                let mut waiting: Vec<usize> = Vec::new();
                core::mem::swap(&mut self.breaks, &mut waiting);
                self.lower_children(node, inner, Some(h));
                core::mem::swap(&mut self.breaks, &mut waiting);
                self.add_edge(self.cur, h, EdgeKind::LoopBack);
                let x = self.add_block(None);
                self.add_stmt(x, marker);
                self.add_edge(h, x, EdgeKind::BranchFalse);
                self.add_edges(&waiting, x, EdgeKind::EarlyExit(ExitKind::Break));
                self.cur = x;
                self.live = was_live;
            },
            NodeKind::Closure => {
                let inner = next_depth(depth);
                let entry = self.cur;
                let was_live = self.live;
                let r = self.add_block(None);
                if was_live {
                    self.cfg.push_root(r);
                }
                self.cur = r;
                self.lower_children(node, inner, None);
                self.emit(stmt_of(node, StmtKind::ScopeExit, inner));
                self.finish(stmt_of(node, StmtKind::Return, inner));
                let c = self.add_block(None);
                self.add_edge(entry, c, EdgeKind::Unconditional);
                self.cur = c;
                self.live = was_live;
            },
            NodeKind::Return => {
                self.lower_children(node, depth, header);
                self.leave(stmt_of(node, StmtKind::Return, depth), ExitKind::Return);
            },
            NodeKind::Panic => {
                self.lower_children(node, depth, header);
                self.leave(stmt_of(node, StmtKind::Panic, depth), ExitKind::Panic);
            },
            NodeKind::Break => match header {
                Some(h) => {
                    self.emit(stmt_of(node, StmtKind::Break, depth));
                    self.breaks.push(self.cur);
                    let d = self.add_block(None);
                    self.cur = d;
                    self.live = false;
                },
                None => {
                    self.opaque(stmt_of(node, StmtKind::Opaque, depth));
                },
            },
            NodeKind::Continue => match header {
                Some(h) => {
                    self.emit(stmt_of(node, StmtKind::Continue, depth));
                    self.add_edge(self.cur, h, EdgeKind::EarlyExit(ExitKind::Continue));
                    let d = self.add_block(None);
                    self.cur = d;
                    self.live = false;
                },
                None => {
                    self.opaque(stmt_of(node, StmtKind::Opaque, depth));
                },
            },
            NodeKind::Other => {
                self.opaque(stmt_of(node, StmtKind::Opaque, depth));
            },
            _ => {
                self.lower_children(node, depth, header);
                match simple_kind(node.kind) {
                    Some(kind) => {
                        self.emit(stmt_of(node, kind, depth));
                    },
                    None => {},
                }
            },
        }
    }

    /// Lowers the children of `node`, one after the other.
    fn lower_children(&mut self, node: &SyntaxNode, depth: u32, header: Option<usize>)
        requires
            old(self)@.ok(),
            header_ok(header, old(self)@),
        ensures
            final(self)@ == lower_children(*node, 0, depth, header, old(self)@),
            final(self)@.ok(),
            final(self)@.graph.blocks.len() >= old(self)@.graph.blocks.len(),
        decreases *node, 0nat,
    {
        let ghost start = self@;
        let mut i: usize = 0;
        while i < node.children.len()
            invariant
                i <= node.children.len(),
                self@.ok(),
                self@.graph.blocks.len() >= start.graph.blocks.len(),
                header_ok(header, start),
                lower_children(*node, i as int, depth, header, self@) == lower_children(
                    *node,
                    0,
                    depth,
                    header,
                    start,
                ),
            decreases node.children.len() - i,
        {
            self.lower_node(&node.children[i], depth, header);
            i = i + 1;
        }
    }

    /// Lowers the alternatives of the branch `node` and joins them.
    fn lower_arms(&mut self, node: &SyntaxNode, depth: u32, header: Option<usize>)
        requires
            old(self)@.ok(),
            header_ok(header, old(self)@),
        ensures
            final(self)@ == lower_arms(
                *node,
                0,
                depth,
                header,
                old(self)@.cur,
                old(self)@.live,
                Seq::empty(),
                old(self)@,
            ),
            final(self)@.ok(),
            final(self)@.graph.blocks.len() >= old(self)@.graph.blocks.len(),
        decreases *node, 0nat,
    {
        let ghost start = self@;
        let inner = next_depth(depth);
        let entry = self.cur;
        let was_live = self.live;
        let mut ends: Vec<usize> = Vec::new();
        let mut i: usize = 0;
        while i < node.children.len()
            invariant
                i <= node.children.len(),
                self@.ok(),
                self@.graph.blocks.len() >= start.graph.blocks.len(),
                header_ok(header, start),
                entry < start.graph.blocks.len(),
                sources_ok(ends@, self@),
                inner == spec_next_depth(depth),
                lower_arms(*node, i as int, depth, header, entry, was_live, ends@, self@)
                    == lower_arms(
                    *node,
                    0,
                    depth,
                    header,
                    entry,
                    was_live,
                    Seq::empty(),
                    start,
                ),
            decreases node.children.len() - i,
        {
            let a = self.add_block(None);
            let kind = if i == 0 {
                EdgeKind::BranchTrue
            } else {
                EdgeKind::BranchFalse
            };
            self.add_edge(entry, a, kind);
            self.cur = a;
            self.live = was_live;
            self.lower_node(&node.children[i], inner, header);
            self.emit(stmt_of(&node.children[i], StmtKind::ScopeExit, inner));
            ends.push(self.cur);
            i = i + 1;
        }
        let j = self.add_block(None);
        if ends.len() == 0 {
            self.add_edge(entry, j, EdgeKind::Unconditional);
        } else {
            self.add_edges(&ends, j, EdgeKind::Unconditional);
        }
        self.cur = j;
        self.live = was_live;
        proof {
            lemma_lower_arms_ok(*node, 0, depth, header, start.cur, start.live, Seq::empty(), start);
        }
    }
}

/// Builds the control-flow graph of the function body `body`. No input is
/// refused: what the builder does not know becomes an opaque statement.
///
/// The graph is well formed. Its blocks hold the statements of the body,
/// each once and in the order of the source, with the depth of their scope.
/// Its blocks are numbered so that every edge but a loop's back edge and a
/// `continue` leads forward, so that a visit of the blocks in the order of
/// their numbers comes to a block behind its predecessors, back edges
/// excepted.
pub fn build_cfg(body: &SyntaxNode) -> (cfg: Cfg)
    ensures
        cfg@ == lower(*body),
        cfg@.wf(),
        cfg@.all_stmts() == flatten(*body),
        cfg@.numbered(),
{
    let mut b = Builder::new();
    b.lower_node(body, 0, None);
    b.finish(stmt_of(body, StmtKind::Return, 0));
    proof {
        lemma_lower_wf(*body);
        lemma_lower_shape(*body);
    }
    b.cfg
}

} // verus!
