//! The shape of the graphs that the builder makes: the blocks hold the
//! statements of the body, each once and in the order of the source, and
//! they are numbered so that only a loop's back edge and a `continue` lead
//! back.
use vstd::prelude::*;
use crate::cfg::{CfgModel, Edge, EdgeKind, Stmt, StmtKind};
use crate::lower::{
    header_ok, initial_state, lemma_add_edges_ok, lemma_lower_arms_ok, lemma_lower_children_ok,
    lemma_lower_node_ok, lower, lower_arms, lower_children, lower_node, sources_ok, spec_arm_edge,
    spec_next_depth, spec_simple_kind, spec_stmt_of, BuildState,
};
use crate::resource::ExitKind;
use crate::syntax::{NodeKind, SyntaxNode};

verus! {

/// The statements of `node` in the order of the source, lowered at depth
/// `depth`. `looping` says whether the node stands in a loop. The end of
/// each scope is marked, a loop is marked where it begins and where it ends,
/// and a closure ends with its return.
pub open spec fn flatten_node(node: SyntaxNode, depth: u32, looping: bool) -> Seq<Stmt>
    decreases node, 1nat, 0nat,
{
    let inner = spec_next_depth(depth);
    match node.kind {
        NodeKind::Block => flatten_children(node, 0, inner, looping).push(
            spec_stmt_of(node, StmtKind::ScopeExit, inner),
        ),
        NodeKind::Branch => flatten_arms(node, 0, depth, looping),
        NodeKind::Loop => (seq![spec_stmt_of(node, StmtKind::ScopeExit, inner)] + flatten_children(
            node,
            0,
            inner,
            true,
        )).push(spec_stmt_of(node, StmtKind::ScopeExit, inner)),
        NodeKind::Closure => flatten_children(node, 0, inner, false).push(
            spec_stmt_of(node, StmtKind::ScopeExit, inner),
        ).push(spec_stmt_of(node, StmtKind::Return, inner)),
        NodeKind::Return => flatten_children(node, 0, depth, looping).push(
            spec_stmt_of(node, StmtKind::Return, depth),
        ),
        NodeKind::Panic => flatten_children(node, 0, depth, looping).push(
            spec_stmt_of(node, StmtKind::Panic, depth),
        ),
        NodeKind::Break => if looping {
            seq![spec_stmt_of(node, StmtKind::Break, depth)]
        } else {
            seq![spec_stmt_of(node, StmtKind::Opaque, depth)]
        },
        NodeKind::Continue => if looping {
            seq![spec_stmt_of(node, StmtKind::Continue, depth)]
        } else {
            seq![spec_stmt_of(node, StmtKind::Opaque, depth)]
        },
        NodeKind::Other => seq![spec_stmt_of(node, StmtKind::Opaque, depth)],
        _ => flatten_children(node, 0, depth, looping).push(
            spec_stmt_of(node, spec_simple_kind(node.kind).unwrap(), depth),
        ),
    }
}

/// The statements of the children of `node` from index `from` on.
pub open spec fn flatten_children(node: SyntaxNode, from: int, depth: u32, looping: bool) -> Seq<
    Stmt,
>
    decreases node, 0nat, node.children.len() - from,
{
    if 0 <= from < node.children.len() {
        flatten_node(node.children[from], depth, looping) + flatten_children(
            node,
            from + 1,
            depth,
            looping,
        )
    } else {
        Seq::empty()
    }
}

/// The statements of the alternatives of the branch `node` from index `from`
/// on, each alternative with the end of its scope.
pub open spec fn flatten_arms(node: SyntaxNode, from: int, depth: u32, looping: bool) -> Seq<Stmt>
    decreases node, 0nat, node.children.len() - from,
{
    if 0 <= from < node.children.len() {
        let inner = spec_next_depth(depth);
        flatten_node(node.children[from], inner, looping).push(
            spec_stmt_of(node.children[from], StmtKind::ScopeExit, inner),
        ) + flatten_arms(node, from + 1, depth, looping)
    } else {
        Seq::empty()
    }
}

/// The statements of the function body `body` in the order of the source,
/// with the return at its end.
pub open spec fn flatten(body: SyntaxNode) -> Seq<Stmt> {
    flatten_node(body, 0, false).push(spec_stmt_of(body, StmtKind::Return, 0))
}

/// Whether `edge`, which leaves block `b`, leads the right way: back or to
/// `b` itself if it is a loop's back edge or a `continue`, and forward if not.
pub open spec fn edge_numbered(b: int, edge: Edge) -> bool {
    if edge.kind == EdgeKind::LoopBack || edge.kind == EdgeKind::EarlyExit(ExitKind::Continue) {
        edge.target <= b
    } else {
        b < edge.target
    }
}

impl CfgModel {
    /// The statements of the first `upto` blocks, block after block.
    pub open spec fn stmts_upto(self, upto: int) -> Seq<Stmt>
        decreases upto,
    {
        if upto <= 0 {
            Seq::empty()
        } else {
            self.stmts_upto(upto - 1) + self.blocks[upto - 1].stmts
        }
    }

    /// The statements of the graph, block after block.
    pub open spec fn all_stmts(self) -> Seq<Stmt> {
        self.stmts_upto(self.blocks.len() as int)
    }

    /// Whether every edge of block `b` leads the right way.
    pub open spec fn block_numbered(self, b: int) -> bool {
        forall|e: int|
            0 <= e < self.blocks[b].edges.len() ==> edge_numbered(b, #[trigger] self.blocks[b].edges[e])
    }

    /// Whether the blocks are numbered in an order in which control runs
    /// forward but for the turns of its loops: every edge leads to a block
    /// with a higher number, unless it is a loop's back edge or a `continue`.
    pub open spec fn numbered(self) -> bool {
        forall|b: int| 0 <= b < self.blocks.len() ==> #[trigger] self.block_numbered(b)
    }
}

/// Whether the state has the shape that the builder keeps: the current
/// block is the newest, and the blocks are numbered forward.
pub open spec fn shaped(st: BuildState) -> bool {
    &&& st.ok()
    &&& st.cur + 1 == st.graph.blocks.len()
    &&& st.graph.numbered()
}

/// Graphs with the same statements in their first blocks have the same
/// statements there.
proof fn lemma_stmts_upto_same(g1: CfgModel, g2: CfgModel, upto: int)
    requires
        upto <= g1.blocks.len(),
        upto <= g2.blocks.len(),
        forall|b: int| 0 <= b < upto ==> (#[trigger] g1.blocks[b]).stmts == g2.blocks[b].stmts,
    ensures
        g1.stmts_upto(upto) == g2.stmts_upto(upto),
    decreases upto,
{
    if upto > 0 {
        lemma_stmts_upto_same(g1, g2, upto - 1);
        assert(g1.blocks[upto - 1].stmts == g2.blocks[upto - 1].stmts);
    }
}

/// A new block adds no statement and no edge.
proof fn lemma_add_block_shape(st: BuildState, exit: Option<ExitKind>)
    requires
        st.ok(),
        st.graph.numbered(),
        st.graph.blocks.len() < usize::MAX,
    ensures
        st.add_block(exit).ok(),
        st.add_block(exit).graph.numbered(),
        st.add_block(exit).graph.all_stmts() == st.graph.all_stmts(),
        st.add_block(exit).graph.blocks.len() == st.graph.blocks.len() + 1,
        st.next_id() == st.graph.blocks.len(),
{
    let r = st.add_block(exit);
    lemma_stmts_upto_same(st.graph, r.graph, st.graph.blocks.len() as int);
    assert(r.graph.all_stmts() =~= st.graph.all_stmts());
    assert forall|b: int| 0 <= b < r.graph.blocks.len() implies #[trigger] r.graph.block_numbered(
        b,
    ) by {
        if b < st.graph.blocks.len() {
            assert(st.graph.block_numbered(b));
        }
    }
}

/// A statement for the newest block is the last statement of the graph.
proof fn lemma_add_stmt_shape(st: BuildState, b: usize, stmt: Stmt)
    requires
        st.ok(),
        st.graph.numbered(),
        b + 1 == st.graph.blocks.len(),
    ensures
        st.add_stmt(b, stmt).ok(),
        st.add_stmt(b, stmt).graph.numbered(),
        st.add_stmt(b, stmt).graph.all_stmts() == st.graph.all_stmts().push(stmt),
        st.add_stmt(b, stmt).graph.blocks.len() == st.graph.blocks.len(),
{
    let r = st.add_stmt(b, stmt);
    lemma_stmts_upto_same(st.graph, r.graph, b as int);
    assert(r.graph.all_stmts() =~= st.graph.all_stmts().push(stmt));
    assert forall|c: int| 0 <= c < r.graph.blocks.len() implies #[trigger] r.graph.block_numbered(
        c,
    ) by {
        assert(st.graph.block_numbered(c));
    }
}

/// An edge that leads the right way keeps the shape.
proof fn lemma_add_edge_shape(st: BuildState, from: usize, to: usize, kind: EdgeKind)
    requires
        st.ok(),
        st.graph.numbered(),
        from < st.graph.blocks.len(),
        to < st.graph.blocks.len(),
        edge_numbered(from as int, Edge { target: to, kind }),
    ensures
        st.add_edge(from, to, kind).ok(),
        st.add_edge(from, to, kind).graph.numbered(),
        st.add_edge(from, to, kind).graph.all_stmts() == st.graph.all_stmts(),
        st.add_edge(from, to, kind).graph.blocks.len() == st.graph.blocks.len(),
{
    let r = st.add_edge(from, to, kind);
    lemma_stmts_upto_same(st.graph, r.graph, st.graph.blocks.len() as int);
    assert forall|c: int| 0 <= c < r.graph.blocks.len() implies #[trigger] r.graph.block_numbered(
        c,
    ) by {
        assert(st.graph.block_numbered(c));
    }
}

/// Edges forward from earlier blocks keep the shape.
proof fn lemma_add_edges_shape(st: BuildState, sources: Seq<usize>, to: usize, kind: EdgeKind)
    requires
        st.ok(),
        st.graph.numbered(),
        to < st.graph.blocks.len(),
        forall|i: int| 0 <= i < sources.len() ==> #[trigger] sources[i] < to,
        kind != EdgeKind::LoopBack,
        kind != EdgeKind::EarlyExit(ExitKind::Continue),
    ensures
        st.add_edges(sources, to, kind).ok(),
        st.add_edges(sources, to, kind).graph.numbered(),
        st.add_edges(sources, to, kind).graph.all_stmts() == st.graph.all_stmts(),
        st.add_edges(sources, to, kind).graph.blocks.len() == st.graph.blocks.len(),
        st.add_edges(sources, to, kind).cur == st.cur,
        st.add_edges(sources, to, kind).live == st.live,
        st.add_edges(sources, to, kind).breaks == st.breaks,
    decreases sources.len(),
{
    if sources.len() > 0 {
        let rest = sources.drop_last();
        lemma_add_edges_shape(st, rest, to, kind);
        assert(sources[sources.len() - 1] < to);
        lemma_add_edge_shape(st.add_edges(rest, to, kind), sources.last(), to, kind);
    }
}

/// The breaks that wait are blocks before the current one.
pub open spec fn breaks_behind(st: BuildState) -> bool {
    forall|i: int| 0 <= i < st.breaks.len() ==> #[trigger] st.breaks[i] <= st.cur
}

/// Lowering a node keeps the shape and adds the statements of the node.
pub proof fn lemma_lower_node_shape(
    node: SyntaxNode,
    depth: u32,
    header: Option<usize>,
    st: BuildState,
)
    requires
        shaped(st),
        header_ok(header, st),
        breaks_behind(st),
        lower_node(node, depth, header, st).graph.blocks.len() <= usize::MAX,
    ensures
        shaped(lower_node(node, depth, header, st)),
        breaks_behind(lower_node(node, depth, header, st)),
        lower_node(node, depth, header, st).graph.all_stmts() == st.graph.all_stmts()
            + flatten_node(node, depth, header is Some),
    decreases node, 1nat, 0nat,
{
    let r = lower_node(node, depth, header, st);
    let base = st.graph.all_stmts();
    match node.kind {
        NodeKind::Branch => {
            lemma_lower_arms_shape(node, 0, depth, header, st.cur, st.live, Seq::empty(), st);
        },
        NodeKind::Loop => {
            lemma_loop_shape(node, depth, header, st);
        },
        NodeKind::Closure => {
            lemma_closure_shape(node, depth, header, st);
        },
        NodeKind::Break => {
            if header is Some {
                let stmt = spec_stmt_of(node, StmtKind::Break, depth);
                let s1 = st.emit(stmt);
                lemma_add_stmt_shape(st, st.cur, stmt);
                let s2 = s1.with_breaks(st.breaks.push(st.cur));
                lemma_add_block_shape(s2, None);
                assert(r.graph.all_stmts() =~= base + flatten_node(node, depth, header is Some));
            } else {
                lemma_opaque_shape(st, spec_stmt_of(node, StmtKind::Opaque, depth));
                assert(r.graph.all_stmts() =~= base + flatten_node(node, depth, header is Some));
            }
        },
        NodeKind::Continue => {
            match header {
                Some(h) => {
                    let stmt = spec_stmt_of(node, StmtKind::Continue, depth);
                    let s1 = st.emit(stmt);
                    lemma_add_stmt_shape(st, st.cur, stmt);
                    let s2 = s1.add_edge(st.cur, h, EdgeKind::EarlyExit(ExitKind::Continue));
                    lemma_add_edge_shape(s1, st.cur, h, EdgeKind::EarlyExit(ExitKind::Continue));
                    lemma_add_block_shape(s2, None);
                    assert(r.graph.all_stmts() =~= base + flatten_node(
                        node,
                        depth,
                        header is Some,
                    ));
                },
                None => {
                    lemma_opaque_shape(st, spec_stmt_of(node, StmtKind::Opaque, depth));
                    assert(r.graph.all_stmts() =~= base + flatten_node(
                        node,
                        depth,
                        header is Some,
                    ));
                },
            }
        },
        NodeKind::Other => {
            lemma_opaque_shape(st, spec_stmt_of(node, StmtKind::Opaque, depth));
            assert(r.graph.all_stmts() =~= base + flatten_node(node, depth, header is Some));
        },
        _ => {
            lemma_statement_shape(node, depth, header, st);
        },
    }
}

/// Lowering a block, a `return`, a panic or a simple statement keeps the
/// shape and adds the statements of the node.
proof fn lemma_statement_shape(
    node: SyntaxNode,
    depth: u32,
    header: Option<usize>,
    st: BuildState,
)
    requires
        shaped(st),
        header_ok(header, st),
        breaks_behind(st),
        node.kind == NodeKind::Block || node.kind == NodeKind::Return || node.kind
            == NodeKind::Panic || spec_simple_kind(node.kind) is Some,
        lower_node(node, depth, header, st).graph.blocks.len() <= usize::MAX,
    ensures
        shaped(lower_node(node, depth, header, st)),
        breaks_behind(lower_node(node, depth, header, st)),
        lower_node(node, depth, header, st).graph.all_stmts() == st.graph.all_stmts()
            + flatten_node(node, depth, header is Some),
    decreases node, 0nat, node.children.len() + 1,
{
    let r = lower_node(node, depth, header, st);
    let inner = spec_next_depth(depth);
    let base = st.graph.all_stmts();
    match node.kind {
        NodeKind::Block => {
            lemma_lower_children_ok(node, 0, inner, header, st);
            let s1 = lower_children(node, 0, inner, header, st);
            assert(r.graph.blocks.len() == s1.graph.blocks.len());
            lemma_lower_children_shape(node, 0, inner, header, st);
            let stmt = spec_stmt_of(node, StmtKind::ScopeExit, inner);
            lemma_add_stmt_shape(s1, s1.cur, stmt);
            assert(r.graph.all_stmts() =~= base + flatten_node(node, depth, header is Some));
        },
        NodeKind::Return => {
            lemma_lower_children_ok(node, 0, depth, header, st);
            let s1 = lower_children(node, 0, depth, header, st);
            assert(r.graph.blocks.len() == s1.graph.blocks.len() + 2);
            lemma_lower_children_shape(node, 0, depth, header, st);
            lemma_leave_shape(s1, spec_stmt_of(node, StmtKind::Return, depth), ExitKind::Return);
            assert(r.graph.all_stmts() =~= base + flatten_node(node, depth, header is Some));
        },
        NodeKind::Panic => {
            lemma_lower_children_ok(node, 0, depth, header, st);
            let s1 = lower_children(node, 0, depth, header, st);
            assert(r.graph.blocks.len() == s1.graph.blocks.len() + 2);
            lemma_lower_children_shape(node, 0, depth, header, st);
            lemma_leave_shape(s1, spec_stmt_of(node, StmtKind::Panic, depth), ExitKind::Panic);
            assert(r.graph.all_stmts() =~= base + flatten_node(node, depth, header is Some));
        },
        _ => {
            lemma_lower_children_ok(node, 0, depth, header, st);
            let s1 = lower_children(node, 0, depth, header, st);
            assert(r.graph.blocks.len() == s1.graph.blocks.len());
            lemma_lower_children_shape(node, 0, depth, header, st);
            let stmt = spec_stmt_of(node, spec_simple_kind(node.kind).unwrap(), depth);
            lemma_add_stmt_shape(s1, s1.cur, stmt);
            assert(r.graph.all_stmts() =~= base + flatten_node(node, depth, header is Some));
        },
    }
}

/// Lowering a loop keeps the shape and adds the statements of the loop.
proof fn lemma_loop_shape(node: SyntaxNode, depth: u32, header: Option<usize>, st: BuildState)
    requires
        shaped(st),
        header_ok(header, st),
        breaks_behind(st),
        node.kind == NodeKind::Loop,
        lower_node(node, depth, header, st).graph.blocks.len() <= usize::MAX,
    ensures
        shaped(lower_node(node, depth, header, st)),
        breaks_behind(lower_node(node, depth, header, st)),
        lower_node(node, depth, header, st).graph.all_stmts() == st.graph.all_stmts()
            + flatten_node(node, depth, header is Some),
    decreases node, 0nat, node.children.len() + 1,
{
    let r = lower_node(node, depth, header, st);
    let inner = spec_next_depth(depth);
    let base = st.graph.all_stmts();
    let marker = spec_stmt_of(node, StmtKind::ScopeExit, inner);
    let h = st.next_id();
    let a1 = st.add_block(None);
    let a2 = a1.add_stmt(h, marker);
    let s1 = a2.add_edge(st.cur, h, EdgeKind::Unconditional);
    let body = s1.next_id();
    let a3 = s1.add_block(None);
    let a4 = a3.add_edge(h, body, EdgeKind::BranchTrue);
    let s2 = a4.at(body, st.live).with_breaks(Seq::empty());
    assert(s2.ok());
    lemma_lower_children_ok(node, 0, inner, Some(h), s2);
    let s3 = lower_children(node, 0, inner, Some(h), s2);
    let b1 = s3.with_breaks(st.breaks);
    let s4 = b1.add_edge(s3.cur, h, EdgeKind::LoopBack);
    let x = s4.next_id();
    let b2 = s4.add_block(None);
    let b3 = b2.add_stmt(x, marker);
    let s5 = b3.add_edge(h, x, EdgeKind::BranchFalse);
    assert(s5.ok());
    lemma_add_edges_ok(s5, s3.breaks, x, EdgeKind::EarlyExit(ExitKind::Break));
    // The numbers of blocks along the way, none beyond what an index holds.
    assert(s2.graph.blocks.len() == st.graph.blocks.len() + 2);
    assert(r.graph.blocks.len() == s3.graph.blocks.len() + 1);
    lemma_add_block_shape(st, None);
    lemma_add_stmt_shape(a1, h, marker);
    lemma_add_edge_shape(a2, st.cur, h, EdgeKind::Unconditional);
    lemma_add_block_shape(s1, None);
    lemma_add_edge_shape(a3, h, body, EdgeKind::BranchTrue);
    assert(shaped(s2));
    assert(s2.graph.all_stmts() == base.push(marker));
    lemma_lower_children_shape(node, 0, inner, Some(h), s2);
    assert(shaped(b1));
    lemma_add_edge_shape(b1, s3.cur, h, EdgeKind::LoopBack);
    lemma_add_block_shape(s4, None);
    lemma_add_stmt_shape(b2, x, marker);
    lemma_add_edge_shape(b3, h, x, EdgeKind::BranchFalse);
    assert forall|i: int| 0 <= i < s3.breaks.len() implies #[trigger] s3.breaks[i] < x by {}
    lemma_add_edges_shape(s5, s3.breaks, x, EdgeKind::EarlyExit(ExitKind::Break));
    assert(r.graph.all_stmts() =~= base + flatten_node(node, depth, header is Some));
}

/// Lowering a closure keeps the shape and adds the statements of the
/// closure.
proof fn lemma_closure_shape(node: SyntaxNode, depth: u32, header: Option<usize>, st: BuildState)
    requires
        shaped(st),
        header_ok(header, st),
        breaks_behind(st),
        node.kind == NodeKind::Closure,
        lower_node(node, depth, header, st).graph.blocks.len() <= usize::MAX,
    ensures
        shaped(lower_node(node, depth, header, st)),
        breaks_behind(lower_node(node, depth, header, st)),
        lower_node(node, depth, header, st).graph.all_stmts() == st.graph.all_stmts()
            + flatten_node(node, depth, header is Some),
    decreases node, 0nat, node.children.len() + 1,
{
    let r = lower_node(node, depth, header, st);
    let inner = spec_next_depth(depth);
    let base = st.graph.all_stmts();
    let root = st.next_id();
    let s1 = st.add_block(None);
    let s2 = if st.live {
        s1.add_root(root)
    } else {
        s1
    };
    let s2 = s2.at(root, st.live);
    assert(s2.ok());
    lemma_lower_children_ok(node, 0, inner, None, s2);
    let s3 = lower_children(node, 0, inner, None, s2);
    let scope_end = spec_stmt_of(node, StmtKind::ScopeExit, inner);
    let ret = spec_stmt_of(node, StmtKind::Return, inner);
    let c1 = s3.emit(scope_end);
    let t = c1.next_id();
    let c2 = c1.add_block(Some(ExitKind::Return));
    let c3 = c2.add_stmt(t, ret);
    let s4 = c3.add_edge(c1.cur, t, EdgeKind::Unconditional);
    let c = s4.next_id();
    let c4 = s4.add_block(None);
    assert(r.graph.blocks.len() == s3.graph.blocks.len() + 2);
    lemma_add_block_shape(st, None);
    assert(s2.graph.blocks =~= s1.graph.blocks);
    lemma_stmts_upto_same(s1.graph, s2.graph, s1.graph.blocks.len() as int);
    assert forall|b: int| 0 <= b < s2.graph.blocks.len() implies #[trigger] s2.graph.block_numbered(
        b,
    ) by {
        assert(s1.graph.block_numbered(b));
    }
    assert(shaped(s2));
    assert(breaks_behind(s2));
    lemma_lower_children_shape(node, 0, inner, None, s2);
    lemma_add_stmt_shape(s3, s3.cur, scope_end);
    lemma_add_block_shape(c1, Some(ExitKind::Return));
    lemma_add_stmt_shape(c2, t, ret);
    lemma_add_edge_shape(c3, c1.cur, t, EdgeKind::Unconditional);
    lemma_add_block_shape(s4, None);
    lemma_add_edge_shape(c4, st.cur, c, EdgeKind::Unconditional);
    assert(r.graph.all_stmts() =~= base + flatten_node(node, depth, header is Some));
}

/// A `return` or a panic keeps the shape and adds its statement.
proof fn lemma_leave_shape(st: BuildState, stmt: Stmt, exit: ExitKind)
    requires
        shaped(st),
        breaks_behind(st),
        exit == ExitKind::Return || exit == ExitKind::Panic,
        st.graph.blocks.len() + 2 <= usize::MAX,
    ensures
        shaped(st.leave(stmt, exit)),
        breaks_behind(st.leave(stmt, exit)),
        st.leave(stmt, exit).graph.all_stmts() == st.graph.all_stmts().push(stmt),
{
    let t = st.next_id();
    let a1 = st.add_block(Some(exit));
    lemma_add_block_shape(st, Some(exit));
    let a2 = a1.add_stmt(t, stmt);
    lemma_add_stmt_shape(a1, t, stmt);
    let a3 = a2.add_edge(st.cur, t, EdgeKind::EarlyExit(exit));
    lemma_add_edge_shape(a2, st.cur, t, EdgeKind::EarlyExit(exit));
    lemma_add_block_shape(a3, None);
}

/// A statement that is not looked into keeps the shape and is added.
proof fn lemma_opaque_shape(st: BuildState, stmt: Stmt)
    requires
        shaped(st),
        breaks_behind(st),
        st.graph.blocks.len() + 2 <= usize::MAX,
    ensures
        shaped(st.opaque(stmt)),
        breaks_behind(st.opaque(stmt)),
        st.opaque(stmt).graph.all_stmts() == st.graph.all_stmts().push(stmt),
{
    let o = st.next_id();
    let a1 = st.add_block(None);
    lemma_add_block_shape(st, None);
    let a2 = a1.add_stmt(o, stmt);
    lemma_add_stmt_shape(a1, o, stmt);
    let a3 = a2.add_edge(st.cur, o, EdgeKind::Unconditional);
    lemma_add_edge_shape(a2, st.cur, o, EdgeKind::Unconditional);
    let n = a3.next_id();
    let a4 = a3.add_block(None);
    lemma_add_block_shape(a3, None);
    lemma_add_edge_shape(a4, o, n, EdgeKind::Unconditional);
}

/// Lowering the children of a node keeps the shape and adds their
/// statements.
pub proof fn lemma_lower_children_shape(
    node: SyntaxNode,
    from: int,
    depth: u32,
    header: Option<usize>,
    st: BuildState,
)
    requires
        0 <= from,
        shaped(st),
        header_ok(header, st),
        breaks_behind(st),
        lower_children(node, from, depth, header, st).graph.blocks.len() <= usize::MAX,
    ensures
        shaped(lower_children(node, from, depth, header, st)),
        breaks_behind(lower_children(node, from, depth, header, st)),
        lower_children(node, from, depth, header, st).graph.all_stmts() == st.graph.all_stmts()
            + flatten_children(node, from, depth, header is Some),
    decreases node, 0nat, node.children.len() - from,
{
    let base = st.graph.all_stmts();
    if 0 <= from < node.children.len() {
        let s1 = lower_node(node.children[from], depth, header, st);
        lemma_lower_node_ok(node.children[from], depth, header, st);
        lemma_lower_children_ok(node, from + 1, depth, header, s1);
        lemma_lower_node_shape(node.children[from], depth, header, st);
        lemma_lower_children_shape(node, from + 1, depth, header, s1);
        assert(lower_children(node, from, depth, header, st).graph.all_stmts() =~= base
            + flatten_children(node, from, depth, header is Some));
    } else {
        assert(base + flatten_children(node, from, depth, header is Some) =~= base);
    }
}

/// Lowering the alternatives of a branch keeps the shape and adds their
/// statements.
pub proof fn lemma_lower_arms_shape(
    node: SyntaxNode,
    from: int,
    depth: u32,
    header: Option<usize>,
    entry: usize,
    live: bool,
    ends: Seq<usize>,
    st: BuildState,
)
    requires
        0 <= from,
        shaped(st),
        header_ok(header, st),
        breaks_behind(st),
        entry <= st.cur,
        forall|i: int| 0 <= i < ends.len() ==> #[trigger] ends[i] <= st.cur,
        lower_arms(node, from, depth, header, entry, live, ends, st).graph.blocks.len()
            <= usize::MAX,
    ensures
        shaped(lower_arms(node, from, depth, header, entry, live, ends, st)),
        breaks_behind(lower_arms(node, from, depth, header, entry, live, ends, st)),
        lower_arms(node, from, depth, header, entry, live, ends, st).graph.all_stmts()
            == st.graph.all_stmts() + flatten_arms(node, from, depth, header is Some),
    decreases node, 0nat, node.children.len() - from,
{
    let base = st.graph.all_stmts();
    let r = lower_arms(node, from, depth, header, entry, live, ends, st);
    if 0 <= from < node.children.len() {
        let inner = spec_next_depth(depth);
        let a = st.next_id();
        let a1 = st.add_block(None);
        let a2 = a1.add_edge(entry, a, spec_arm_edge(from));
        let s1 = a2.at(a, live);
        assert(s1.ok());
        lemma_lower_node_ok(node.children[from], inner, header, s1);
        let lowered = lower_node(node.children[from], inner, header, s1);
        let scope_end = spec_stmt_of(node.children[from], StmtKind::ScopeExit, inner);
        let s2 = lowered.emit(scope_end);
        assert(s2.ok());
        let ends2 = ends.push(s2.cur);
        lemma_lower_arms_ok(node, from + 1, depth, header, entry, live, ends2, s2);
        assert(r.graph.blocks.len() >= s2.graph.blocks.len());
        assert(lowered.graph.blocks.len() >= st.graph.blocks.len() + 1);
        lemma_add_block_shape(st, None);
        lemma_add_edge_shape(a1, entry, a, spec_arm_edge(from));
        assert(shaped(s1));
        lemma_lower_node_shape(node.children[from], inner, header, s1);
        lemma_add_stmt_shape(lowered, lowered.cur, scope_end);
        assert(shaped(s2));
        lemma_lower_arms_shape(node, from + 1, depth, header, entry, live, ends2, s2);
        assert(r.graph.all_stmts() =~= base + flatten_arms(node, from, depth, header is Some));
    } else {
        let j = st.next_id();
        let s1 = st.add_block(None);
        assert(s1.ok());
        if ends.len() > 0 {
            assert(sources_ok(ends, s1));
            lemma_add_edges_ok(s1, ends, j, EdgeKind::Unconditional);
        }
        assert(r.graph.blocks.len() == st.graph.blocks.len() + 1);
        lemma_add_block_shape(st, None);
        if ends.len() == 0 {
            lemma_add_edge_shape(s1, entry, j, EdgeKind::Unconditional);
        } else {
            assert forall|i: int| 0 <= i < ends.len() implies #[trigger] ends[i] < j by {}
            lemma_add_edges_shape(s1, ends, j, EdgeKind::Unconditional);
        }
        assert(base + flatten_arms(node, from, depth, header is Some) =~= base);
    }
}

/// The graph of a body, as long as it fits the machine, holds the
/// statements of the body, each once and in the order of the source, and its
/// blocks are numbered forward.
pub proof fn lemma_lower_shape(body: SyntaxNode)
    requires
        lower(body).blocks.len() <= usize::MAX,
    ensures
        lower(body).all_stmts() == flatten(body),
        lower(body).numbered(),
{
    let st = initial_state();
    assert(st.ok());
    assert(st.graph.block_numbered(0));
    assert(st.graph.numbered());
    assert(st.graph.stmts_upto(0) =~= Seq::empty());
    assert(st.graph.all_stmts() =~= Seq::empty());
    lemma_lower_node_ok(body, 0, None, st);
    lemma_lower_node_shape(body, 0, None, st);
    let s = lower_node(body, 0, None, st);
    let ret = spec_stmt_of(body, StmtKind::Return, 0);
    let t = s.next_id();
    let a1 = s.add_block(Some(ExitKind::Return));
    lemma_add_block_shape(s, Some(ExitKind::Return));
    let a2 = a1.add_stmt(t, ret);
    lemma_add_stmt_shape(a1, t, ret);
    lemma_add_edge_shape(a2, s.cur, t, EdgeKind::Unconditional);
    assert(lower(body).all_stmts() =~= flatten(body));
}

} // verus!
