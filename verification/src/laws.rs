//! Laws of the engine, proved of every input.
use vstd::prelude::*;
use crate::aggregate::{
    dedup, insert_sorted, seen, sort, spec_ranks_before, spec_same_site,
    VerdictModel,
};
use crate::cfg::{CfgModel, EdgeKind, Stmt, StmtKind};
use crate::engine::{is_trace_of, raw_findings, spec_judge};
use crate::lower::{
    header_ok, initial_state, lemma_add_edges_ok, lemma_lower_children_ok,
    lemma_lower_node_ok, lower, lower_arms, lower_children, lower_node, sources_ok, spec_arm_edge,
    spec_next_depth, spec_simple_kind, spec_stmt_of, BuildState,
};
use crate::resource::{Event, ExitKind, ResourceKind};
use crate::rules::{
    block_findings, flags_block, flags_stmt, holds_kind, spec_evaluate, spec_unchecked,
    stmt_findings, unwrap_findings, FindingModel, RuleId, Severity,
};
use crate::syntax::Span;
use crate::scope::{
    block_handles, handles, handles_upto, held_along, held_through,
    lemma_path_to_is_path, lemma_reach_step, may_hold_at_entry, spec_effect, ResourceHandle,
    TraceModel,
};
use crate::syntax::{NodeKind, SyntaxNode};

verus! {

/// Whether no statement of block `b` acquires a resource.
pub open spec fn block_acquires_nothing(g: CfgModel, b: int) -> bool {
    forall|i: int| 0 <= i < g.blocks[b].stmts.len() ==> !((#[trigger] g.blocks[b].stmts[i]).kind is Acquire)
}

/// Whether no statement of the graph acquires a resource.
pub open spec fn acquires_nothing(g: CfgModel) -> bool {
    forall|b: int| 0 <= b < g.blocks.len() ==> #[trigger] block_acquires_nothing(g, b)
}

/// A new block acquires nothing.
proof fn lemma_add_block_acquires_nothing(st: BuildState, exit: Option<ExitKind>)
    requires
        acquires_nothing(st.graph),
    ensures
        acquires_nothing(st.add_block(exit).graph),
{
    let r = st.add_block(exit);
    assert forall|b: int| 0 <= b < r.graph.blocks.len() implies #[trigger] block_acquires_nothing(
        r.graph,
        b,
    ) by {
        if b < st.graph.blocks.len() {
            assert(block_acquires_nothing(st.graph, b));
            assert(r.graph.blocks[b] == st.graph.blocks[b]);
        }
    }
}

/// A statement that is no acquisition adds none.
proof fn lemma_add_stmt_acquires_nothing(st: BuildState, b: usize, stmt: Stmt)
    requires
        acquires_nothing(st.graph),
        b < st.graph.blocks.len(),
        !(stmt.kind is Acquire),
    ensures
        acquires_nothing(st.add_stmt(b, stmt).graph),
{
    let r = st.add_stmt(b, stmt);
    assert forall|c: int| 0 <= c < r.graph.blocks.len() implies #[trigger] block_acquires_nothing(
        r.graph,
        c,
    ) by {
        assert(block_acquires_nothing(st.graph, c));
        if c == b {
            assert forall|i: int| 0 <= i < r.graph.blocks[c].stmts.len() implies !((
            #[trigger] r.graph.blocks[c].stmts[i]).kind is Acquire) by {
                if i < st.graph.blocks[c].stmts.len() {
                    assert(r.graph.blocks[c].stmts[i] == st.graph.blocks[c].stmts[i]);
                }
            }
        } else {
            assert(r.graph.blocks[c] == st.graph.blocks[c]);
        }
    }
}

/// An edge adds no statement.
proof fn lemma_add_edge_acquires_nothing(st: BuildState, from: usize, to: usize, kind: EdgeKind)
    requires
        acquires_nothing(st.graph),
        from < st.graph.blocks.len(),
    ensures
        acquires_nothing(st.add_edge(from, to, kind).graph),
{
    let r = st.add_edge(from, to, kind);
    assert forall|c: int| 0 <= c < r.graph.blocks.len() implies #[trigger] block_acquires_nothing(
        r.graph,
        c,
    ) by {
        assert(block_acquires_nothing(st.graph, c));
        assert(r.graph.blocks[c].stmts == st.graph.blocks[c].stmts);
    }
}

/// A root adds no statement.
proof fn lemma_add_root_acquires_nothing(st: BuildState, root: usize)
    requires
        acquires_nothing(st.graph),
    ensures
        acquires_nothing(st.add_root(root).graph),
{
    let r = st.add_root(root);
    assert forall|c: int| 0 <= c < r.graph.blocks.len() implies #[trigger] block_acquires_nothing(
        r.graph,
        c,
    ) by {
        assert(block_acquires_nothing(st.graph, c));
    }
}

/// Edges add no statement.
proof fn lemma_add_edges_stmts(st: BuildState, sources: Seq<usize>, to: usize, kind: EdgeKind)
    requires
        st.ok(),
        sources_ok(sources, st),
        to < st.graph.blocks.len(),
        acquires_nothing(st.graph),
    ensures
        acquires_nothing(st.add_edges(sources, to, kind).graph),
    decreases sources.len(),
{
    if sources.len() > 0 {
        let rest = sources.drop_last();
        lemma_add_edges_ok(st, rest, to, kind);
        lemma_add_edges_stmts(st, rest, to, kind);
        assert(sources[sources.len() - 1] < st.graph.blocks.len());
        lemma_add_edge_acquires_nothing(st.add_edges(rest, to, kind), sources.last(), to, kind);
    }
}

/// A statement that is not looked into adds no acquisition.
proof fn lemma_opaque_acquires_nothing(st: BuildState, stmt: Stmt)
    requires
        st.ok(),
        acquires_nothing(st.graph),
        !(stmt.kind is Acquire),
    ensures
        acquires_nothing(st.opaque(stmt).graph),
{
    let o = st.next_id();
    let a1 = st.add_block(None);
    lemma_add_block_acquires_nothing(st, None);
    let a2 = a1.add_stmt(o, stmt);
    lemma_add_stmt_acquires_nothing(a1, o, stmt);
    let a3 = a2.add_edge(st.cur, o, EdgeKind::Unconditional);
    lemma_add_edge_acquires_nothing(a2, st.cur, o, EdgeKind::Unconditional);
    let n = a3.next_id();
    let a4 = a3.add_block(None);
    lemma_add_block_acquires_nothing(a3, None);
    lemma_add_edge_acquires_nothing(a4, o, n, EdgeKind::Unconditional);
}

/// A `return` or a panic adds no acquisition.
proof fn lemma_leave_acquires_nothing(st: BuildState, stmt: Stmt, exit: ExitKind)
    requires
        st.ok(),
        acquires_nothing(st.graph),
        !(stmt.kind is Acquire),
    ensures
        acquires_nothing(st.leave(stmt, exit).graph),
{
    let t = st.next_id();
    let a1 = st.add_block(Some(exit));
    lemma_add_block_acquires_nothing(st, Some(exit));
    let a2 = a1.add_stmt(t, stmt);
    lemma_add_stmt_acquires_nothing(a1, t, stmt);
    let a3 = a2.add_edge(st.cur, t, EdgeKind::EarlyExit(exit));
    lemma_add_edge_acquires_nothing(a2, st.cur, t, EdgeKind::EarlyExit(exit));
    lemma_add_block_acquires_nothing(a3, None);
}

/// The end of a body adds no acquisition.
proof fn lemma_finish_acquires_nothing(st: BuildState, stmt: Stmt)
    requires
        st.ok(),
        acquires_nothing(st.graph),
        !(stmt.kind is Acquire),
    ensures
        acquires_nothing(st.finish(stmt).graph),
{
    let t = st.next_id();
    let a1 = st.add_block(Some(ExitKind::Return));
    lemma_add_block_acquires_nothing(st, Some(ExitKind::Return));
    let a2 = a1.add_stmt(t, stmt);
    lemma_add_stmt_acquires_nothing(a1, t, stmt);
    lemma_add_edge_acquires_nothing(a2, st.cur, t, EdgeKind::Unconditional);
}

/// Lowering a node that acquires nothing adds no acquisition to the graph.
proof fn lemma_lower_node_acquires_nothing(
    node: SyntaxNode,
    depth: u32,
    header: Option<usize>,
    st: BuildState,
)
    requires
        st.ok(),
        header_ok(header, st),
        acquires_nothing(st.graph),
        !node.acquires(),
    ensures
        acquires_nothing(lower_node(node, depth, header, st).graph),
    decreases node, 1nat, 0nat,
{
    lemma_lower_node_ok(node, depth, header, st);
    let inner = spec_next_depth(depth);
    match node.kind {
        NodeKind::Block => {
            lemma_lower_children_ok(node, 0, inner, header, st);
            lemma_lower_children_acquires_nothing(node, 0, inner, header, st);
            let s1 = lower_children(node, 0, inner, header, st);
            lemma_add_stmt_acquires_nothing(
                s1,
                s1.cur,
                spec_stmt_of(node, StmtKind::ScopeExit, inner),
            );
        },
        NodeKind::Branch => {
            lemma_lower_arms_acquires_nothing(
                node,
                0,
                depth,
                header,
                st.cur,
                st.live,
                Seq::empty(),
                st,
            );
        },
        NodeKind::Loop => {
            let marker = spec_stmt_of(node, StmtKind::ScopeExit, inner);
            let h = st.next_id();
            let a1 = st.add_block(None);
            lemma_add_block_acquires_nothing(st, None);
            let a2 = a1.add_stmt(h, marker);
            lemma_add_stmt_acquires_nothing(a1, h, marker);
            let s1 = a2.add_edge(st.cur, h, EdgeKind::Unconditional);
            lemma_add_edge_acquires_nothing(a2, st.cur, h, EdgeKind::Unconditional);
            let b = s1.next_id();
            let a3 = s1.add_block(None);
            lemma_add_block_acquires_nothing(s1, None);
            let a4 = a3.add_edge(h, b, EdgeKind::BranchTrue);
            lemma_add_edge_acquires_nothing(a3, h, b, EdgeKind::BranchTrue);
            let s2 = a4.at(b, st.live).with_breaks(Seq::empty());
            assert(s2.ok());
            lemma_lower_children_ok(node, 0, inner, Some(h), s2);
            lemma_lower_children_acquires_nothing(node, 0, inner, Some(h), s2);
            let s3 = lower_children(node, 0, inner, Some(h), s2);
            let b1 = s3.with_breaks(st.breaks);
            let s4 = b1.add_edge(s3.cur, h, EdgeKind::LoopBack);
            lemma_add_edge_acquires_nothing(b1, s3.cur, h, EdgeKind::LoopBack);
            let x = s4.next_id();
            let b2 = s4.add_block(None);
            lemma_add_block_acquires_nothing(s4, None);
            let b3 = b2.add_stmt(x, marker);
            lemma_add_stmt_acquires_nothing(b2, x, marker);
            let s5 = b3.add_edge(h, x, EdgeKind::BranchFalse);
            lemma_add_edge_acquires_nothing(b3, h, x, EdgeKind::BranchFalse);
            assert(s5.ok());
            lemma_add_edges_ok(s5, s3.breaks, x, EdgeKind::EarlyExit(ExitKind::Break));
            lemma_add_edges_stmts(s5, s3.breaks, x, EdgeKind::EarlyExit(ExitKind::Break));
        },
        NodeKind::Closure => {
            let root = st.next_id();
            let s1 = st.add_block(None);
            lemma_add_block_acquires_nothing(st, None);
            if st.live {
                lemma_add_root_acquires_nothing(s1, root);
            }
            let s2 = if st.live {
                s1.add_root(root)
            } else {
                s1
            };
            let s2 = s2.at(root, st.live);
            assert(s2.ok());
            lemma_lower_children_ok(node, 0, inner, None, s2);
            lemma_lower_children_acquires_nothing(node, 0, inner, None, s2);
            let s3 = lower_children(node, 0, inner, None, s2);
            let scope_end = spec_stmt_of(node, StmtKind::ScopeExit, inner);
            let c1 = s3.emit(scope_end);
            lemma_add_stmt_acquires_nothing(s3, s3.cur, scope_end);
            let s4 = c1.finish(spec_stmt_of(node, StmtKind::Return, inner));
            lemma_finish_acquires_nothing(c1, spec_stmt_of(node, StmtKind::Return, inner));
            let c = s4.next_id();
            let c4 = s4.add_block(None);
            lemma_add_block_acquires_nothing(s4, None);
            assert(s4.ok());
            lemma_add_edge_acquires_nothing(c4, st.cur, c, EdgeKind::Unconditional);
        },
        NodeKind::Return => {
            lemma_lower_children_ok(node, 0, depth, header, st);
            lemma_lower_children_acquires_nothing(node, 0, depth, header, st);
            lemma_leave_acquires_nothing(
                lower_children(node, 0, depth, header, st),
                spec_stmt_of(node, StmtKind::Return, depth),
                ExitKind::Return,
            );
        },
        NodeKind::Panic => {
            lemma_lower_children_ok(node, 0, depth, header, st);
            lemma_lower_children_acquires_nothing(node, 0, depth, header, st);
            lemma_leave_acquires_nothing(
                lower_children(node, 0, depth, header, st),
                spec_stmt_of(node, StmtKind::Panic, depth),
                ExitKind::Panic,
            );
        },
        NodeKind::Break => {
            if header is Some {
                let stmt = spec_stmt_of(node, StmtKind::Break, depth);
                lemma_add_stmt_acquires_nothing(st, st.cur, stmt);
                let s1 = st.emit(stmt).with_breaks(st.breaks.push(st.cur));
                lemma_add_block_acquires_nothing(s1, None);
            } else {
                lemma_opaque_acquires_nothing(st, spec_stmt_of(node, StmtKind::Opaque, depth));
            }
        },
        NodeKind::Continue => {
            match header {
                Some(h) => {
                    let stmt = spec_stmt_of(node, StmtKind::Continue, depth);
                    lemma_add_stmt_acquires_nothing(st, st.cur, stmt);
                    let s1 = st.emit(stmt);
                    lemma_add_edge_acquires_nothing(
                        s1,
                        st.cur,
                        h,
                        EdgeKind::EarlyExit(ExitKind::Continue),
                    );
                    let s2 = s1.add_edge(st.cur, h, EdgeKind::EarlyExit(ExitKind::Continue));
                    lemma_add_block_acquires_nothing(s2, None);
                },
                None => {
                    lemma_opaque_acquires_nothing(st, spec_stmt_of(node, StmtKind::Opaque, depth));
                },
            }
        },
        NodeKind::Other => {
            lemma_opaque_acquires_nothing(st, spec_stmt_of(node, StmtKind::Opaque, depth));
        },
        _ => {
            lemma_lower_children_ok(node, 0, depth, header, st);
            lemma_lower_children_acquires_nothing(node, 0, depth, header, st);
            let s1 = lower_children(node, 0, depth, header, st);
            lemma_add_stmt_acquires_nothing(
                s1,
                s1.cur,
                spec_stmt_of(node, spec_simple_kind(node.kind).unwrap(), depth),
            );
        },
    }
}

/// Lowering children that acquire nothing adds no acquisition to the graph.
proof fn lemma_lower_children_acquires_nothing(
    node: SyntaxNode,
    from: int,
    depth: u32,
    header: Option<usize>,
    st: BuildState,
)
    requires
        0 <= from,
        st.ok(),
        header_ok(header, st),
        acquires_nothing(st.graph),
        !node.acquires_from(from),
    ensures
        acquires_nothing(lower_children(node, from, depth, header, st).graph),
    decreases node, 0nat, node.children.len() - from,
{
    if 0 <= from < node.children.len() {
        lemma_lower_node_ok(node.children[from], depth, header, st);
        lemma_lower_node_acquires_nothing(node.children[from], depth, header, st);
        lemma_lower_children_acquires_nothing(
            node,
            from + 1,
            depth,
            header,
            lower_node(node.children[from], depth, header, st),
        );
    }
}

/// Lowering alternatives that acquire nothing adds no acquisition to the
/// graph.
proof fn lemma_lower_arms_acquires_nothing(
    node: SyntaxNode,
    from: int,
    depth: u32,
    header: Option<usize>,
    entry: usize,
    live: bool,
    ends: Seq<usize>,
    st: BuildState,
)
    requires
        0 <= from,
        st.ok(),
        header_ok(header, st),
        entry < st.graph.blocks.len(),
        sources_ok(ends, st),
        acquires_nothing(st.graph),
        !node.acquires_from(from),
    ensures
        acquires_nothing(lower_arms(node, from, depth, header, entry, live, ends, st).graph),
    decreases node, 0nat, node.children.len() - from,
{
    if 0 <= from < node.children.len() {
        let inner = spec_next_depth(depth);
        let a = st.next_id();
        let a1 = st.add_block(None);
        lemma_add_block_acquires_nothing(st, None);
        let a2 = a1.add_edge(entry, a, spec_arm_edge(from));
        lemma_add_edge_acquires_nothing(a1, entry, a, spec_arm_edge(from));
        let s1 = a2.at(a, live);
        assert(s1.ok());
        lemma_lower_node_ok(node.children[from], inner, header, s1);
        lemma_lower_node_acquires_nothing(node.children[from], inner, header, s1);
        let lowered = lower_node(node.children[from], inner, header, s1);
        let scope_end = spec_stmt_of(node.children[from], StmtKind::ScopeExit, inner);
        let s2 = lowered.emit(scope_end);
        lemma_add_stmt_acquires_nothing(lowered, lowered.cur, scope_end);
        assert(s2.ok());
        lemma_lower_arms_acquires_nothing(
            node,
            from + 1,
            depth,
            header,
            entry,
            live,
            ends.push(s2.cur),
            s2,
        );
    } else {
        let j = st.next_id();
        let s1 = st.add_block(None);
        lemma_add_block_acquires_nothing(st, None);
        assert(s1.ok());
        if ends.len() == 0 {
            lemma_add_edge_acquires_nothing(s1, entry, j, EdgeKind::Unconditional);
        } else {
            lemma_add_edges_stmts(s1, ends, j, EdgeKind::Unconditional);
        }
    }
}

/// The graph of a body that acquires nothing holds no acquisition.
pub proof fn lemma_lower_acquires_nothing(body: SyntaxNode)
    requires
        !body.acquires(),
    ensures
        acquires_nothing(lower(body)),
{
    let st = initial_state();
    assert(st.ok());
    assert(block_acquires_nothing(st.graph, 0));
    assert(acquires_nothing(st.graph));
    lemma_lower_node_ok(body, 0, None, st);
    lemma_lower_node_acquires_nothing(body, 0, None, st);
    lemma_finish_acquires_nothing(
        lower_node(body, 0, None, st),
        spec_stmt_of(body, StmtKind::Return, 0),
    );
}

/// A graph without acquisitions has no handles.
pub proof fn lemma_no_handles(g: CfgModel, upto: int)
    requires
        acquires_nothing(g),
        upto <= g.blocks.len(),
    ensures
        handles_upto(g, upto).len() == 0,
    decreases upto,
{
    if upto > 0 {
        lemma_no_handles(g, upto - 1);
        lemma_no_block_handles(g, upto - 1, g.blocks[upto - 1].stmts.len() as int);
    }
}

/// A block without acquisitions has no handles.
proof fn lemma_no_block_handles(g: CfgModel, b: int, upto: int)
    requires
        acquires_nothing(g),
        0 <= b < g.blocks.len(),
        upto <= g.blocks[b].stmts.len(),
    ensures
        block_handles(g, b, upto).len() == 0,
    decreases upto,
{
    if upto > 0 {
        lemma_no_block_handles(g, b, upto - 1);
        assert(block_acquires_nothing(g, b));
        assert(!(g.blocks[b].stmts[upto - 1].kind is Acquire));
    }
}

/// Without handles, no rule that watches the exits has a finding.
pub proof fn lemma_no_handles_no_block_findings(
    rule: RuleId,
    g: CfgModel,
    tr: TraceModel,
    upto: int,
)
    requires
        tr.handles.len() == 0,
    ensures
        block_findings(rule, g, tr, upto).len() == 0,
    decreases upto,
{
    if upto > 0 {
        lemma_no_handles_no_block_findings(rule, g, tr, upto - 1);
    }
}

/// In a graph without acquisitions, no binding holds an unchecked optional
/// value.
proof fn lemma_nothing_unchecked(g: CfgModel, b: int, i: int, x: u32, limit: int)
    requires
        acquires_nothing(g),
        b < g.blocks.len(),
    ensures
        !spec_unchecked(g, b, i, x, limit),
    decreases b, i,
{
    if b < 0 {
    } else if 0 < i <= g.blocks[b].stmts.len() {
        let stmt = g.blocks[b].stmts[i - 1];
        assert(block_acquires_nothing(g, b));
        assert(!(stmt.kind is Acquire));
        if stmt.kind == StmtKind::ScopeExit {
            lemma_nothing_unchecked(
                g,
                b,
                i - 1,
                x,
                if stmt.depth < limit {
                    stmt.depth as int
                } else {
                    limit
                },
            );
        } else {
            lemma_nothing_unchecked(g, b, i - 1, x, limit);
        }
    } else if b > 0 {
        lemma_nothing_unchecked(g, b - 1, g.blocks[b - 1].stmts.len() as int, x, limit);
    }
}

/// In a graph without acquisitions, no unwrap is flagged.
proof fn lemma_no_stmt_findings(g: CfgModel, tr: TraceModel, b: int, upto: int)
    requires
        acquires_nothing(g),
        0 <= b < g.blocks.len(),
        upto <= g.blocks[b].stmts.len(),
    ensures
        stmt_findings(g, tr, b, upto).len() == 0,
    decreases upto,
{
    if upto > 0 {
        lemma_no_stmt_findings(g, tr, b, upto - 1);
        lemma_nothing_unchecked(
            g,
            b,
            upto - 1,
            g.blocks[b].stmts[upto - 1].binding,
            crate::rules::open_limit(),
        );
    }
}

/// In a graph without acquisitions, no unwrap is flagged.
proof fn lemma_no_unwrap_findings(g: CfgModel, tr: TraceModel, upto: int)
    requires
        acquires_nothing(g),
        upto <= g.blocks.len(),
    ensures
        unwrap_findings(g, tr, upto).len() == 0,
    decreases upto,
{
    if upto > 0 {
        lemma_no_unwrap_findings(g, tr, upto - 1);
        lemma_no_stmt_findings(g, tr, upto - 1, g.blocks[upto - 1].stmts.len() as int);
    }
}

/// Rules without findings give no findings together.
pub proof fn lemma_no_raw_findings(g: CfgModel, tr: TraceModel, rules: Seq<RuleId>)
    requires
        forall|rule: RuleId| #[trigger] spec_evaluate(rule, g, tr).len() == 0,
    ensures
        raw_findings(g, tr, rules).len() == 0,
    decreases rules.len(),
{
    if rules.len() > 0 {
        lemma_no_raw_findings(g, tr, rules.drop_last());
    }
}

/// A function that acquires no tracked resource is clean: whatever rules
/// are active, no rule has a finding about a body in which no node acquires a
/// lock, a task or an optional value.
pub proof fn law_no_acquisition_is_clean(body: SyntaxNode, tr: TraceModel, rules: Seq<RuleId>)
    requires
        !body.acquires(),
        tr.handles == handles(lower(body)),
    ensures
        spec_judge(lower(body), tr, rules) == VerdictModel::Clean,
{
    let g = lower(body);
    lemma_lower_acquires_nothing(body);
    lemma_no_handles(g, g.blocks.len() as int);
    assert forall|rule: RuleId| #[trigger] spec_evaluate(rule, g, tr).len() == 0 by {
        lemma_no_handles_no_block_findings(rule, g, tr, g.blocks.len() as int);
        lemma_no_unwrap_findings(g, tr, g.blocks.len() as int);
    }
    lemma_no_raw_findings(g, tr, rules);
    assert(raw_findings(g, tr, rules) =~= Seq::empty());
    assert(dedup(Seq::<FindingModel>::empty()) =~= Seq::empty());
    assert(sort(Seq::<FindingModel>::empty()) =~= Seq::empty());
}

/// The number of `findings` whose evidence ends in block `b`.
pub open spec fn count_about(findings: Seq<FindingModel>, b: usize) -> nat
    decreases findings.len(),
{
    if findings.len() == 0 {
        0
    } else {
        count_about(findings.drop_last(), b) + if findings.last().evidence.last() == b {
            1nat
        } else {
            0nat
        }
    }
}

/// The evidence of a finding ends in the block that the finding is about.
pub proof fn lemma_path_to_ends(tr: TraceModel, b: usize)
    ensures
        tr.path_to(b).last() == b,
{
}

/// A rule that watches the exits has one finding about each block that it
/// flags, and none about any other block.
pub proof fn lemma_one_finding_per_flagged_block(
    rule: RuleId,
    g: CfgModel,
    tr: TraceModel,
    upto: int,
    b: usize,
)
    requires
        upto <= usize::MAX,
    ensures
        count_about(block_findings(rule, g, tr, upto), b) == (if b < upto && flags_block(
            rule,
            g,
            tr,
            b as int,
        ) {
            1nat
        } else {
            0nat
        }),
    decreases upto,
{
    if upto > 0 {
        lemma_one_finding_per_flagged_block(rule, g, tr, upto - 1, b);
        let before = block_findings(rule, g, tr, upto - 1);
        if flags_block(rule, g, tr, upto - 1) {
            let all = block_findings(rule, g, tr, upto);
            assert(all.drop_last() =~= before);
            lemma_path_to_ends(tr, (upto - 1) as usize);
        }
    }
}

/// Where a lock is acquired and a path on which it is not released leads to
/// a panic, the rule against lock poisoning has exactly one finding about
/// that exit, however many locks are held there and however many paths lead
/// to it.
pub proof fn law_lock_poisoning_once_per_exit(g: CfgModel, tr: TraceModel, t: usize, k: int)
    requires
        g.indexed(),
        g.blocks.len() <= usize::MAX,
        tr.shaped(g),
        tr.exact(g),
        t < g.blocks.len(),
        g.blocks[t as int].exit == Some(ExitKind::Panic),
        0 <= k < tr.handles.len(),
        tr.handles[k].kind == ResourceKind::Lock,
        may_hold_at_entry(g, t as int, tr.handles[k]),
    ensures
        count_about(spec_evaluate(RuleId::LockPoisoning, g, tr), t) == 1,
{
    let p = choose|path: Seq<usize>|
        #[trigger] g.is_path(path) && g.has_edge(path.last() as int, t as int) && held_along(
            g,
            path,
            tr.handles[k],
        );
    assert(g.reachable(p.last() as int));
    lemma_reach_step(g, p.last(), t);
    assert(tr.reached[t as int]);
    assert(tr.live_in[t as int][k]);
    assert(holds_kind(tr, t as int, ResourceKind::Lock));
    assert(flags_block(RuleId::LockPoisoning, g, tr, t as int));
    lemma_one_finding_per_flagged_block(RuleId::LockPoisoning, g, tr, g.blocks.len() as int, t);
}

/// Whether `i` is the index of a statement of the block at place `j` of
/// `path`.
pub open spec fn on_path(g: CfgModel, path: Seq<usize>, j: int, i: int) -> bool {
    0 <= j < path.len() && 0 <= i < g.blocks[path[j] as int].stmts.len()
}

/// What statement `i` of the block at place `j` of `path` does to the
/// resource of `h`.
pub open spec fn effect_on_path(
    g: CfgModel,
    path: Seq<usize>,
    j: int,
    i: int,
    h: ResourceHandle,
) -> Option<Event> {
    spec_effect(g.blocks[path[j] as int].stmts[i], path[j], i as usize, h)
}

/// Whether the statement at `(j2, i2)` comes behind the one at `(j, i)` when
/// control runs along a path.
pub open spec fn later(j: int, i: int, j2: int, i2: int) -> bool {
    j < j2 || (j == j2 && i < i2)
}

/// Whether, behind statement `i` of the block at place `j` of `path`, a
/// statement on the path resolves the resource of `h`.
pub open spec fn resolved_behind(
    g: CfgModel,
    path: Seq<usize>,
    h: ResourceHandle,
    j: int,
    i: int,
) -> bool {
    exists|j2: int, i2: int|
        on_path(g, path, j2, i2) && later(j, i, j2, i2) && #[trigger] effect_on_path(
            g,
            path,
            j2,
            i2,
            h,
        ) == Some(Event::Resolve)
}

/// Whether the resource of `h` is acquired on `path` by a statement behind
/// which no statement on the path resolves it.
pub open spec fn acquired_for_good(g: CfgModel, path: Seq<usize>, h: ResourceHandle) -> bool {
    exists|j: int, i: int|
        on_path(g, path, j, i) && #[trigger] effect_on_path(g, path, j, i, h) == Some(
            Event::Acquire,
        ) && !resolved_behind(g, path, h, j, i)
}

/// Whether one of the first `upto` statements of block `b` acquires the
/// resource of `h`, and none of those behind it resolves it.
pub open spec fn acquired_in_block(g: CfgModel, b: usize, h: ResourceHandle, upto: int) -> bool {
    exists|i: int|
        0 <= i < upto && #[trigger] spec_effect(g.blocks[b as int].stmts[i], b, i as usize, h)
            == Some(Event::Acquire) && unresolved_from(g, b, h, i + 1, upto)
}

/// Whether none of the statements `from..upto` of block `b` resolves the
/// resource of `h`.
pub open spec fn unresolved_from(g: CfgModel, b: usize, h: ResourceHandle, from: int, upto: int)
    -> bool {
    forall|i: int|
        from <= i < upto ==> #[trigger] spec_effect(g.blocks[b as int].stmts[i], b, i as usize, h)
            != Some(Event::Resolve)
}

/// A resource is held behind statements of a block exactly when one of them
/// acquires it and none behind that resolves it, or when it was held before
/// and none of them resolves it.
pub proof fn lemma_held_through_last_word(
    g: CfgModel,
    b: usize,
    h: ResourceHandle,
    upto: int,
    held: bool,
)
    requires
        0 <= upto <= usize::MAX,
    ensures
        held_through(g, b as int, h, upto, held) <==> acquired_in_block(g, b, h, upto) || (held
            && unresolved_from(g, b, h, 0, upto)),
    decreases upto,
{
    if upto > 0 {
        lemma_held_through_last_word(g, b, h, upto - 1, held);
        let last = spec_effect(g.blocks[b as int].stmts[upto - 1], b, (upto - 1) as usize, h);
        if acquired_in_block(g, b, h, upto - 1) && last != Some(Event::Resolve) {
            let i = choose|i: int|
                0 <= i < upto - 1 && #[trigger] spec_effect(
                    g.blocks[b as int].stmts[i],
                    b,
                    i as usize,
                    h,
                ) == Some(Event::Acquire) && unresolved_from(g, b, h, i + 1, upto - 1);
            assert(unresolved_from(g, b, h, i + 1, upto));
        }
        if last == Some(Event::Acquire) {
            assert(unresolved_from(g, b, h, upto, upto));
            assert(acquired_in_block(g, b, h, upto));
        }
        if acquired_in_block(g, b, h, upto) {
            let i = choose|i: int|
                0 <= i < upto && #[trigger] spec_effect(
                    g.blocks[b as int].stmts[i],
                    b,
                    i as usize,
                    h,
                ) == Some(Event::Acquire) && unresolved_from(g, b, h, i + 1, upto);
            if i < upto - 1 {
                assert(unresolved_from(g, b, h, i + 1, upto - 1));
                assert(last != Some(Event::Resolve));
            }
        }
        if held && unresolved_from(g, b, h, 0, upto) {
            assert(unresolved_from(g, b, h, 0, upto - 1));
            assert(last != Some(Event::Resolve));
        }
        if held && unresolved_from(g, b, h, 0, upto - 1) && last != Some(Event::Resolve) {
            assert(unresolved_from(g, b, h, 0, upto));
        }
    }
}

/// What it means that a resource is held behind a path: a statement on the
/// path acquires it, and no statement behind that one on the path resolves
/// it.
pub proof fn lemma_held_along_last_word(g: CfgModel, path: Seq<usize>, h: ResourceHandle)
    requires
        g.sized(),
        forall|j: int| 0 <= j < path.len() ==> #[trigger] path[j] < g.blocks.len(),
    ensures
        held_along(g, path, h) <==> acquired_for_good(g, path, h),
    decreases path.len(),
{
    if path.len() == 0 {
        if acquired_for_good(g, path, h) {
            let (j, i) = choose|j: int, i: int|
                on_path(g, path, j, i) && #[trigger] effect_on_path(g, path, j, i, h) == Some(
                    Event::Acquire,
                ) && !resolved_behind(g, path, h, j, i);
            assert(false);
        }
    } else {
        let q = path.drop_last();
        let end = path.len() - 1;
        let b = path.last();
        let n = g.blocks[b as int].stmts.len() as int;
        assert(path[end] < g.blocks.len());
        assert(g.blocks[b as int].stmts.len() <= usize::MAX);
        lemma_held_along_last_word(g, q, h);
        lemma_held_through_last_word(g, b, h, n, held_along(g, q, h));
        if acquired_in_block(g, b, h, n) {
            let i = choose|i: int|
                0 <= i < n && #[trigger] spec_effect(g.blocks[b as int].stmts[i], b, i as usize, h)
                    == Some(Event::Acquire) && unresolved_from(g, b, h, i + 1, n);
            assert(effect_on_path(g, path, end, i, h) == Some(Event::Acquire));
            if resolved_behind(g, path, h, end, i) {
                let (j2, i2) = choose|j2: int, i2: int|
                    on_path(g, path, j2, i2) && later(end, i, j2, i2) && #[trigger] effect_on_path(
                        g,
                        path,
                        j2,
                        i2,
                        h,
                    ) == Some(Event::Resolve);
                assert(spec_effect(g.blocks[b as int].stmts[i2], b, i2 as usize, h) == Some(
                    Event::Resolve,
                ));
            }
            assert(on_path(g, path, end, i));
            assert(acquired_for_good(g, path, h));
        }
        if held_along(g, q, h) && unresolved_from(g, b, h, 0, n) {
            let (j, i) = choose|j: int, i: int|
                on_path(g, q, j, i) && #[trigger] effect_on_path(g, q, j, i, h) == Some(
                    Event::Acquire,
                ) && !resolved_behind(g, q, h, j, i);
            assert(effect_on_path(g, path, j, i, h) == Some(Event::Acquire));
            if resolved_behind(g, path, h, j, i) {
                let (j2, i2) = choose|j2: int, i2: int|
                    on_path(g, path, j2, i2) && later(j, i, j2, i2) && #[trigger] effect_on_path(
                        g,
                        path,
                        j2,
                        i2,
                        h,
                    ) == Some(Event::Resolve);
                if j2 < end {
                    assert(on_path(g, q, j2, i2) && later(j, i, j2, i2) && effect_on_path(
                        g,
                        q,
                        j2,
                        i2,
                        h,
                    ) == Some(Event::Resolve));
                } else {
                    assert(spec_effect(g.blocks[b as int].stmts[i2], b, i2 as usize, h) != Some(
                        Event::Resolve,
                    ));
                }
            }
            assert(on_path(g, path, j, i));
            assert(acquired_for_good(g, path, h));
        }
        if acquired_for_good(g, path, h) {
            let (j, i) = choose|j: int, i: int|
                on_path(g, path, j, i) && #[trigger] effect_on_path(g, path, j, i, h) == Some(
                    Event::Acquire,
                ) && !resolved_behind(g, path, h, j, i);
            if j == end {
                assert forall|i2: int| i + 1 <= i2 < n implies #[trigger] spec_effect(
                    g.blocks[b as int].stmts[i2],
                    b,
                    i2 as usize,
                    h,
                ) != Some(Event::Resolve) by {
                    if effect_on_path(g, path, end, i2, h) == Some(Event::Resolve) {
                        assert(on_path(g, path, end, i2) && later(j, i, end, i2));
                    }
                }
                assert(unresolved_from(g, b, h, i + 1, n));
                assert(acquired_in_block(g, b, h, n));
            } else {
                assert(effect_on_path(g, q, j, i, h) == Some(Event::Acquire));
                if resolved_behind(g, q, h, j, i) {
                    let (j2, i2) = choose|j2: int, i2: int|
                        on_path(g, q, j2, i2) && later(j, i, j2, i2) && #[trigger] effect_on_path(
                            g,
                            q,
                            j2,
                            i2,
                            h,
                        ) == Some(Event::Resolve);
                    assert(on_path(g, path, j2, i2) && later(j, i, j2, i2) && effect_on_path(
                        g,
                        path,
                        j2,
                        i2,
                        h,
                    ) == Some(Event::Resolve));
                }
                assert(on_path(g, q, j, i));
                assert(acquired_for_good(g, q, h));
                assert forall|i2: int| 0 <= i2 < n implies #[trigger] spec_effect(
                    g.blocks[b as int].stmts[i2],
                    b,
                    i2 as usize,
                    h,
                ) != Some(Event::Resolve) by {
                    if effect_on_path(g, path, end, i2, h) == Some(Event::Resolve) {
                        assert(on_path(g, path, end, i2) && later(j, i, end, i2));
                    }
                }
                assert(unresolved_from(g, b, h, 0, n));
            }
        }
    }
}

/// Whether every task that is spawned on a path to an exit is joined,
/// awaited or aborted behind that on the path: on every path from a root to
/// a block with an edge to a terminal block, every statement that acquires a
/// spawned task is followed by one that resolves it.
pub open spec fn tasks_joined_on_every_exit_path(g: CfgModel, tr: TraceModel) -> bool {
    forall|path: Seq<usize>, t: int, k: int, j: int, i: int|
        #![trigger g.has_edge(path.last() as int, t), effect_on_path(g, path, j, i, tr.handles[k])]
        g.is_path(path) && 0 <= t < g.blocks.len() && g.has_edge(path.last() as int, t)
            && g.blocks[t].exit is Some && 0 <= k < tr.handles.len() && tr.handles[k].kind
            == ResourceKind::SpawnedTask && on_path(g, path, j, i) && effect_on_path(
            g,
            path,
            j,
            i,
            tr.handles[k],
        ) == Some(Event::Acquire) ==> resolved_behind(g, path, tr.handles[k], j, i)
}

/// Where every spawned task is joined, awaited or aborted on every path to
/// an exit, the rule against task leaks has no finding. Dropping the handle
/// as well changes nothing, since a drop does nothing to a task.
pub proof fn law_joined_tasks_do_not_leak(g: CfgModel, tr: TraceModel)
    requires
        g.sized(),
        tr.shaped(g),
        tr.sound(g),
        tasks_joined_on_every_exit_path(g, tr),
    ensures
        spec_evaluate(RuleId::TaskLeak, g, tr) == Seq::<FindingModel>::empty(),
        forall|stmt: Stmt, b: usize, i: usize, h: ResourceHandle|
            stmt.kind == StmtKind::Discard && h.kind == ResourceKind::SpawnedTask
                ==> #[trigger] spec_effect(stmt, b, i, h) is None,
{
    assert forall|path: Seq<usize>, t: int, k: int|
        #![trigger g.is_path(path), g.has_edge(path.last() as int, t), tr.handles[k]]
        g.is_path(path) && 0 <= t < g.blocks.len() && g.has_edge(path.last() as int, t)
            && g.blocks[t].exit is Some && 0 <= k < tr.handles.len() && tr.handles[k].kind
            == ResourceKind::SpawnedTask implies !held_along(g, path, tr.handles[k]) by {
        let h = tr.handles[k];
        lemma_held_along_last_word(g, path, h);
        if acquired_for_good(g, path, h) {
            let (j, i) = choose|j: int, i: int|
                on_path(g, path, j, i) && #[trigger] effect_on_path(g, path, j, i, h) == Some(
                    Event::Acquire,
                ) && !resolved_behind(g, path, h, j, i);
            assert(resolved_behind(g, path, tr.handles[k], j, i));
        }
    }
    lemma_no_task_findings(g, tr, g.blocks.len() as int);
    assert(block_findings(RuleId::TaskLeak, g, tr, g.blocks.len() as int) =~= Seq::empty());
}

/// Where no task is held behind a path to an exit, no block is flagged for
/// a task leak.
proof fn lemma_no_task_findings(g: CfgModel, tr: TraceModel, upto: int)
    requires
        tr.shaped(g),
        tr.sound(g),
        upto <= g.blocks.len(),
        forall|path: Seq<usize>, t: int, k: int|
            #![trigger g.is_path(path), g.has_edge(path.last() as int, t), tr.handles[k]]
            g.is_path(path) && 0 <= t < g.blocks.len() && g.has_edge(path.last() as int, t)
                && g.blocks[t].exit is Some && 0 <= k < tr.handles.len() && tr.handles[k].kind
                == ResourceKind::SpawnedTask ==> !held_along(g, path, tr.handles[k]),
    ensures
        block_findings(RuleId::TaskLeak, g, tr, upto).len() == 0,
    decreases upto,
{
    if upto > 0 {
        lemma_no_task_findings(g, tr, upto - 1);
        let t = upto - 1;
        if flags_block(RuleId::TaskLeak, g, tr, t) {
            let k = choose|k: int|
                0 <= k < tr.handles.len() && #[trigger] tr.live_in[t][k] && tr.handles[k].kind
                    == ResourceKind::SpawnedTask;
            assert(may_hold_at_entry(g, t, tr.handles[k]));
            let p = choose|path: Seq<usize>|
                #[trigger] g.is_path(path) && g.has_edge(path.last() as int, t) && held_along(
                    g,
                    path,
                    tr.handles[k],
                );
            assert(g.is_path(p) && g.has_edge(p.last() as int, t));
            assert(!held_along(g, p, tr.handles[k]));
        }
    }
}

/// What a finding says, apart from the path that it gives as evidence.
pub struct Site {
    pub rule: RuleId,
    pub severity: Severity,
    pub location: Span,
    pub message: Seq<char>,
}

/// What `f` says, apart from its evidence.
pub open spec fn site(f: FindingModel) -> Site {
    Site { rule: f.rule, severity: f.severity, location: f.location, message: f.message }
}

/// What the findings say, apart from their evidence.
pub open spec fn sites(findings: Seq<FindingModel>) -> Seq<Site> {
    findings.map_values(|f: FindingModel| site(f))
}

/// What a verdict says, apart from the evidence of its findings.
pub open spec fn verdict_sites(verdict: VerdictModel) -> Seq<Site> {
    match verdict {
        VerdictModel::Clean => Seq::empty(),
        VerdictModel::Buggy(findings) => sites(findings),
    }
}

/// The sites of findings are the sites of each of them.
proof fn lemma_sites_index(a: Seq<FindingModel>, i: int)
    requires
        0 <= i < a.len(),
    ensures
        sites(a).len() == a.len(),
        sites(a)[i] == site(a[i]),
        sites(a)[i].rule == a[i].rule,
        sites(a)[i].severity == a[i].severity,
        sites(a)[i].location == a[i].location,
{
}

/// Whether a finding repeats an earlier one depends on what they say alone.
proof fn lemma_seen_sites(a: Seq<FindingModel>, b: Seq<FindingModel>, fa: FindingModel, fb: FindingModel)
    requires
        sites(a) == sites(b),
        site(fa) == site(fb),
    ensures
        seen(a, fa) == seen(b, fb),
{
    assert(a.len() == sites(a).len());
    assert(b.len() == sites(b).len());
    if seen(a, fa) {
        let w = choose|w: int| 0 <= w < a.len() && spec_same_site(a[w], fa);
        lemma_sites_index(a, w);
        lemma_sites_index(b, w);
        assert(site(fa).rule == site(fb).rule && site(fa).location == site(fb).location);
        assert(spec_same_site(b[w], fb));
    }
    if seen(b, fb) {
        let w = choose|w: int| 0 <= w < b.len() && spec_same_site(b[w], fb);
        lemma_sites_index(a, w);
        lemma_sites_index(b, w);
        assert(site(fa).rule == site(fb).rule && site(fa).location == site(fb).location);
        assert(spec_same_site(a[w], fa));
    }
}

/// What is kept of findings depends on what they say alone.
proof fn lemma_dedup_sites(a: Seq<FindingModel>, b: Seq<FindingModel>)
    requires
        sites(a) == sites(b),
    ensures
        sites(dedup(a)) == sites(dedup(b)),
    decreases a.len(),
{
    assert(a.len() == sites(a).len());
    assert(b.len() == sites(b).len());
    if a.len() > 0 {
        assert(sites(a.drop_last()) =~= sites(a).drop_last());
        assert(sites(b.drop_last()) =~= sites(b).drop_last());
        lemma_dedup_sites(a.drop_last(), b.drop_last());
        lemma_sites_index(a, a.len() - 1);
        lemma_sites_index(b, a.len() - 1);
        assert(site(a.last()) == site(b.last()));
        lemma_seen_sites(dedup(a.drop_last()), dedup(b.drop_last()), a.last(), b.last());
        if !seen(dedup(a.drop_last()), a.last()) {
            assert(sites(dedup(a)) =~= sites(dedup(a.drop_last())).push(site(a.last())));
            assert(sites(dedup(b)) =~= sites(dedup(b.drop_last())).push(site(b.last())));
        }
    } else {
        assert(sites(dedup(a)) =~= sites(dedup(b)));
    }
}

/// Where a finding is put depends on what the findings say alone.
proof fn lemma_insert_sites(
    a: Seq<FindingModel>,
    b: Seq<FindingModel>,
    fa: FindingModel,
    fb: FindingModel,
)
    requires
        sites(a) == sites(b),
        site(fa) == site(fb),
    ensures
        sites(insert_sorted(a, fa)) == sites(insert_sorted(b, fb)),
    decreases a.len(),
{
    assert(a.len() == sites(a).len());
    assert(b.len() == sites(b).len());
    if a.len() > 0 {
        lemma_sites_index(a, a.len() - 1);
        lemma_sites_index(b, a.len() - 1);
        assert(site(a.last()) == site(b.last()));
        assert(site(fa).severity == site(fb).severity && site(fa).location == site(fb).location);
        assert(spec_ranks_before(fa, a.last()) == spec_ranks_before(fb, b.last()));
    }
    if a.len() > 0 && spec_ranks_before(fa, a.last()) {
        assert(sites(a.drop_last()) =~= sites(a).drop_last());
        assert(sites(b.drop_last()) =~= sites(b).drop_last());
        lemma_insert_sites(a.drop_last(), b.drop_last(), fa, fb);
        assert(sites(insert_sorted(a, fa)) =~= sites(insert_sorted(a.drop_last(), fa)).push(
            site(a.last()),
        ));
        assert(sites(insert_sorted(b, fb)) =~= sites(insert_sorted(b.drop_last(), fb)).push(
            site(b.last()),
        ));
    } else {
        assert(sites(insert_sorted(a, fa)) =~= sites(a).push(site(fa)));
        assert(sites(insert_sorted(b, fb)) =~= sites(b).push(site(fb)));
    }
}

/// The order of findings depends on what they say alone.
proof fn lemma_sort_sites(a: Seq<FindingModel>, b: Seq<FindingModel>)
    requires
        sites(a) == sites(b),
    ensures
        sites(sort(a)) == sites(sort(b)),
    decreases a.len(),
{
    assert(a.len() == sites(a).len());
    assert(b.len() == sites(b).len());
    if a.len() > 0 {
        assert(sites(a.drop_last()) =~= sites(a).drop_last());
        assert(sites(b.drop_last()) =~= sites(b).drop_last());
        lemma_sort_sites(a.drop_last(), b.drop_last());
        lemma_sites_index(a, a.len() - 1);
        lemma_sites_index(b, a.len() - 1);
        assert(site(a.last()) == site(b.last()));
        lemma_insert_sites(sort(a.drop_last()), sort(b.drop_last()), a.last(), b.last());
    } else {
        assert(sites(sort(a)) =~= sites(sort(b)));
    }
}

/// Two exact traces of a graph flag the same blocks.
proof fn lemma_block_sites(rule: RuleId, g: CfgModel, tr1: TraceModel, tr2: TraceModel, upto: int)
    requires
        tr1.shaped(g),
        tr2.shaped(g),
        tr1.handles == tr2.handles,
        tr1.exact(g),
        tr2.exact(g),
        upto <= g.blocks.len(),
    ensures
        sites(block_findings(rule, g, tr1, upto)) == sites(block_findings(rule, g, tr2, upto)),
    decreases upto,
{
    if upto > 0 {
        lemma_block_sites(rule, g, tr1, tr2, upto - 1);
        let b = upto - 1;
        assert(tr1.reached[b] == tr2.reached[b]);
        if holds_kind(tr1, b, rule.spec_watches()) {
            let k = choose|k: int|
                0 <= k < tr1.handles.len() && #[trigger] tr1.live_in[b][k] && tr1.handles[k].kind
                    == rule.spec_watches();
            assert(tr2.live_in[b][k]);
        }
        if holds_kind(tr2, b, rule.spec_watches()) {
            let k = choose|k: int|
                0 <= k < tr2.handles.len() && #[trigger] tr2.live_in[b][k] && tr2.handles[k].kind
                    == rule.spec_watches();
            assert(tr1.live_in[b][k]);
        }
        assert(flags_block(rule, g, tr1, b) == flags_block(rule, g, tr2, b));
        if flags_block(rule, g, tr1, b) {
            assert(sites(block_findings(rule, g, tr1, upto)) =~= sites(
                block_findings(rule, g, tr1, upto - 1),
            ).push(site(block_findings(rule, g, tr1, upto).last())));
            assert(sites(block_findings(rule, g, tr2, upto)) =~= sites(
                block_findings(rule, g, tr2, upto - 1),
            ).push(site(block_findings(rule, g, tr2, upto).last())));
        }
    } else {
        assert(sites(block_findings(rule, g, tr1, upto)) =~= sites(
            block_findings(rule, g, tr2, upto),
        ));
    }
}

/// Two exact traces of a graph flag the same unwraps of a block.
proof fn lemma_stmt_sites(g: CfgModel, tr1: TraceModel, tr2: TraceModel, b: int, upto: int)
    requires
        tr1.shaped(g),
        tr2.shaped(g),
        tr1.exact(g),
        tr2.exact(g),
        0 <= b < g.blocks.len(),
    ensures
        sites(stmt_findings(g, tr1, b, upto)) == sites(stmt_findings(g, tr2, b, upto)),
    decreases upto,
{
    if upto > 0 {
        lemma_stmt_sites(g, tr1, tr2, b, upto - 1);
        assert(tr1.reached[b] == tr2.reached[b]);
        if flags_stmt(g, tr1, b, upto - 1) {
            assert(sites(stmt_findings(g, tr1, b, upto)) =~= sites(
                stmt_findings(g, tr1, b, upto - 1),
            ).push(site(stmt_findings(g, tr1, b, upto).last())));
            assert(sites(stmt_findings(g, tr2, b, upto)) =~= sites(
                stmt_findings(g, tr2, b, upto - 1),
            ).push(site(stmt_findings(g, tr2, b, upto).last())));
        }
    } else {
        assert(sites(stmt_findings(g, tr1, b, upto)) =~= sites(stmt_findings(g, tr2, b, upto)));
    }
}

/// Two exact traces of a graph flag the same unwraps.
proof fn lemma_unwrap_sites(g: CfgModel, tr1: TraceModel, tr2: TraceModel, upto: int)
    requires
        tr1.shaped(g),
        tr2.shaped(g),
        tr1.exact(g),
        tr2.exact(g),
        upto <= g.blocks.len(),
    ensures
        sites(unwrap_findings(g, tr1, upto)) == sites(unwrap_findings(g, tr2, upto)),
    decreases upto,
{
    if upto > 0 {
        lemma_unwrap_sites(g, tr1, tr2, upto - 1);
        let n = g.blocks[upto - 1].stmts.len() as int;
        lemma_stmt_sites(g, tr1, tr2, upto - 1, n);
        assert(sites(unwrap_findings(g, tr1, upto)) =~= sites(unwrap_findings(g, tr1, upto - 1))
            + sites(stmt_findings(g, tr1, upto - 1, n)));
        assert(sites(unwrap_findings(g, tr2, upto)) =~= sites(unwrap_findings(g, tr2, upto - 1))
            + sites(stmt_findings(g, tr2, upto - 1, n)));
    } else {
        assert(sites(unwrap_findings(g, tr1, upto)) =~= sites(unwrap_findings(g, tr2, upto)));
    }
}

/// Two exact traces of a graph give the rules the same findings, apart from
/// their evidence.
proof fn lemma_raw_sites(g: CfgModel, tr1: TraceModel, tr2: TraceModel, rules: Seq<RuleId>)
    requires
        tr1.shaped(g),
        tr2.shaped(g),
        tr1.handles == tr2.handles,
        tr1.exact(g),
        tr2.exact(g),
    ensures
        sites(raw_findings(g, tr1, rules)) == sites(raw_findings(g, tr2, rules)),
    decreases rules.len(),
{
    if rules.len() > 0 {
        lemma_raw_sites(g, tr1, tr2, rules.drop_last());
        let rule = rules.last();
        lemma_block_sites(rule, g, tr1, tr2, g.blocks.len() as int);
        lemma_unwrap_sites(g, tr1, tr2, g.blocks.len() as int);
        assert(sites(raw_findings(g, tr1, rules)) =~= sites(
            raw_findings(g, tr1, rules.drop_last()),
        ) + sites(spec_evaluate(rule, g, tr1)));
        assert(sites(raw_findings(g, tr2, rules)) =~= sites(
            raw_findings(g, tr2, rules.drop_last()),
        ) + sites(spec_evaluate(rule, g, tr2)));
    } else {
        assert(sites(raw_findings(g, tr1, rules)) =~= sites(raw_findings(g, tr2, rules)));
    }
}

/// The analysis of a graph can be repeated. Whatever complete trace the
/// tracker computes of a graph, the verdict says the same: the same rules
/// are broken at the same places, with the same weight, in the same order.
/// Only the path that a finding gives as evidence may be another one, where
/// several lead to the place.
pub proof fn law_analysis_is_repeatable(
    g: CfgModel,
    tr1: TraceModel,
    tr2: TraceModel,
    rules: Seq<RuleId>,
)
    requires
        is_trace_of(g, tr1),
        tr1.complete,
        is_trace_of(g, tr2),
        tr2.complete,
    ensures
        verdict_sites(spec_judge(g, tr1, rules)) == verdict_sites(spec_judge(g, tr2, rules)),
        spec_judge(g, tr1, rules) is Clean <==> spec_judge(g, tr2, rules) is Clean,
{
    let raw1 = raw_findings(g, tr1, rules);
    let raw2 = raw_findings(g, tr2, rules);
    lemma_raw_sites(g, tr1, tr2, rules);
    lemma_dedup_sites(raw1, raw2);
    lemma_sort_sites(dedup(raw1), dedup(raw2));
    let kept1 = sort(dedup(raw1));
    let kept2 = sort(dedup(raw2));
    assert(kept1.len() == sites(kept1).len());
    assert(kept2.len() == sites(kept2).len());
    if kept1.len() == 0 {
        assert(sites(kept1) =~= Seq::empty());
    }
}

/// Whether the evidence of `f` leads from a root along edges of the graph
/// to a block that the trace has reached.
pub open spec fn evident(g: CfgModel, tr: TraceModel, f: FindingModel) -> bool {
    &&& g.is_path(f.evidence)
    &&& f.evidence.last() < g.blocks.len()
    &&& tr.reached[f.evidence.last() as int]
}

/// The findings about the exits give paths as evidence.
proof fn lemma_block_findings_evident(
    rule: RuleId,
    g: CfgModel,
    tr: TraceModel,
    upto: int,
    k: int,
)
    requires
        tr.fits(g),
        upto <= g.blocks.len() <= usize::MAX,
        0 <= k < block_findings(rule, g, tr, upto).len(),
    ensures
        evident(g, tr, block_findings(rule, g, tr, upto)[k]),
    decreases upto,
{
    if upto > 0 {
        let before = block_findings(rule, g, tr, upto - 1);
        if k < before.len() {
            lemma_block_findings_evident(rule, g, tr, upto - 1, k);
        } else {
            lemma_path_to_is_path(g, tr, (upto - 1) as usize);
        }
    }
}

/// The findings about the unwraps of a block give paths as evidence.
proof fn lemma_stmt_findings_evident(g: CfgModel, tr: TraceModel, b: int, upto: int, k: int)
    requires
        tr.fits(g),
        0 <= b < g.blocks.len() <= usize::MAX,
        0 <= k < stmt_findings(g, tr, b, upto).len(),
    ensures
        evident(g, tr, stmt_findings(g, tr, b, upto)[k]),
    decreases upto,
{
    if upto > 0 {
        let before = stmt_findings(g, tr, b, upto - 1);
        if k < before.len() {
            lemma_stmt_findings_evident(g, tr, b, upto - 1, k);
        } else {
            lemma_path_to_is_path(g, tr, b as usize);
        }
    }
}

/// The findings about the unwraps give paths as evidence.
proof fn lemma_unwrap_findings_evident(g: CfgModel, tr: TraceModel, upto: int, k: int)
    requires
        tr.fits(g),
        upto <= g.blocks.len() <= usize::MAX,
        0 <= k < unwrap_findings(g, tr, upto).len(),
    ensures
        evident(g, tr, unwrap_findings(g, tr, upto)[k]),
    decreases upto,
{
    if upto > 0 {
        let before = unwrap_findings(g, tr, upto - 1);
        if k < before.len() {
            lemma_unwrap_findings_evident(g, tr, upto - 1, k);
        } else {
            lemma_stmt_findings_evident(
                g,
                tr,
                upto - 1,
                g.blocks[upto - 1].stmts.len() as int,
                k - before.len(),
            );
        }
    }
}

/// The evidence of every finding is a path of the graph: it leads from a
/// root, which is the entry of the function or of a closure in it, along
/// edges to the block that the finding is about, and control can come to
/// that block.
pub proof fn law_evidence_is_a_path(rule: RuleId, g: CfgModel, tr: TraceModel, k: int)
    requires
        tr.fits(g),
        tr.sound(g),
        g.blocks.len() <= usize::MAX,
        0 <= k < spec_evaluate(rule, g, tr).len(),
    ensures
        evident(g, tr, spec_evaluate(rule, g, tr)[k]),
        g.reachable(spec_evaluate(rule, g, tr)[k].evidence.last() as int),
{
    if rule == RuleId::UncheckedUnwrap {
        lemma_unwrap_findings_evident(g, tr, g.blocks.len() as int, k);
    } else {
        lemma_block_findings_evident(rule, g, tr, g.blocks.len() as int, k);
    }
}

/// Whether the finding `f` of `rule` is justified: its evidence ends in a
/// block that control can come to; if the rule watches the exits, that block
/// is an exit at which the kind of resource that the rule watches is owed,
/// and such a resource may be held where the block begins; if the rule
/// watches the unwraps, a statement of that block unwraps a binding that
/// holds an unchecked optional value there, and the finding points at it.
pub open spec fn justified(rule: RuleId, g: CfgModel, tr: TraceModel, f: FindingModel) -> bool {
    let b = f.evidence.last() as int;
    &&& f.rule == rule
    &&& f.severity == rule.spec_severity()
    &&& 0 <= b < g.blocks.len()
    &&& g.reachable(b)
    &&& if rule == RuleId::UncheckedUnwrap {
        exists|i: int|
            0 <= i < g.blocks[b].stmts.len() && (#[trigger] g.blocks[b].stmts[i]).kind
                == StmtKind::Unwrap && f.location == g.blocks[b].stmts[i].span && spec_unchecked(
                g,
                b,
                i,
                g.blocks[b].stmts[i].binding,
                crate::rules::open_limit(),
            )
    } else {
        &&& g.blocks[b].exit is Some
        &&& rule.spec_watches().owed_at(g.blocks[b].exit.unwrap())
        &&& exists|k: int|
            0 <= k < tr.handles.len() && (#[trigger] tr.handles[k]).kind == rule.spec_watches()
                && may_hold_at_entry(g, b, tr.handles[k])
    }
}

/// The findings about the exits are justified.
proof fn lemma_block_findings_justified(
    rule: RuleId,
    g: CfgModel,
    tr: TraceModel,
    upto: int,
    k: int,
)
    requires
        tr.shaped(g),
        tr.sound(g),
        rule != RuleId::UncheckedUnwrap,
        upto <= g.blocks.len() <= usize::MAX,
        0 <= k < block_findings(rule, g, tr, upto).len(),
    ensures
        justified(rule, g, tr, block_findings(rule, g, tr, upto)[k]),
    decreases upto,
{
    if upto > 0 {
        let before = block_findings(rule, g, tr, upto - 1);
        if k < before.len() {
            lemma_block_findings_justified(rule, g, tr, upto - 1, k);
        } else {
            let b = upto - 1;
            lemma_path_to_ends(tr, b as usize);
            let j = choose|j: int|
                0 <= j < tr.handles.len() && #[trigger] tr.live_in[b][j] && tr.handles[j].kind
                    == rule.spec_watches();
            assert(may_hold_at_entry(g, b, tr.handles[j]));
            assert(tr.handles[j].kind == rule.spec_watches());
        }
    }
}

/// The findings about the unwraps of a block are justified.
proof fn lemma_stmt_findings_justified(g: CfgModel, tr: TraceModel, b: int, upto: int, k: int)
    requires
        tr.shaped(g),
        tr.sound(g),
        0 <= b < g.blocks.len() <= usize::MAX,
        upto <= g.blocks[b].stmts.len(),
        0 <= k < stmt_findings(g, tr, b, upto).len(),
    ensures
        justified(RuleId::UncheckedUnwrap, g, tr, stmt_findings(g, tr, b, upto)[k]),
    decreases upto,
{
    if upto > 0 {
        let before = stmt_findings(g, tr, b, upto - 1);
        if k < before.len() {
            lemma_stmt_findings_justified(g, tr, b, upto - 1, k);
        } else {
            lemma_path_to_ends(tr, b as usize);
            assert(g.blocks[b].stmts[upto - 1].kind == StmtKind::Unwrap);
        }
    }
}

/// The findings about the unwraps are justified.
proof fn lemma_unwrap_findings_justified(g: CfgModel, tr: TraceModel, upto: int, k: int)
    requires
        tr.shaped(g),
        tr.sound(g),
        upto <= g.blocks.len() <= usize::MAX,
        0 <= k < unwrap_findings(g, tr, upto).len(),
    ensures
        justified(RuleId::UncheckedUnwrap, g, tr, unwrap_findings(g, tr, upto)[k]),
    decreases upto,
{
    if upto > 0 {
        let before = unwrap_findings(g, tr, upto - 1);
        if k < before.len() {
            lemma_unwrap_findings_justified(g, tr, upto - 1, k);
        } else {
            lemma_stmt_findings_justified(
                g,
                tr,
                upto - 1,
                g.blocks[upto - 1].stmts.len() as int,
                k - before.len(),
            );
        }
    }
}

/// Every finding of a rule is one of the findings of the rules together.
proof fn lemma_raw_findings_member(g: CfgModel, tr: TraceModel, rules: Seq<RuleId>, f: FindingModel)
    requires
        raw_findings(g, tr, rules).contains(f),
    ensures
        exists|r: int| 0 <= r < rules.len() && spec_evaluate(#[trigger] rules[r], g, tr).contains(f),
    decreases rules.len(),
{
    if rules.len() > 0 {
        let before = raw_findings(g, tr, rules.drop_last());
        let last = spec_evaluate(rules.last(), g, tr);
        let w = choose|w: int| 0 <= w < (before + last).len() && (before + last)[w] == f;
        if w < before.len() {
            assert(before[w] == f);
            lemma_raw_findings_member(g, tr, rules.drop_last(), f);
            let r = choose|r: int|
                0 <= r < rules.drop_last().len() && spec_evaluate(
                    #[trigger] rules.drop_last()[r],
                    g,
                    tr,
                ).contains(f);
            assert(spec_evaluate(rules[r], g, tr).contains(f));
        } else {
            assert(last[w - before.len()] == f);
            assert(spec_evaluate(rules[rules.len() - 1], g, tr).contains(f));
        }
    } else {
        let w = choose|w: int|
            0 <= w < raw_findings(g, tr, rules).len() && raw_findings(g, tr, rules)[w] == f;
        assert(false);
    }
}

/// Every finding of a verdict is justified, whether the trace is complete
/// or not: it is the finding of an active rule, its evidence is a path of
/// the graph, and what it reports is so.
pub proof fn law_every_finding_is_justified(
    g: CfgModel,
    tr: TraceModel,
    rules: Seq<RuleId>,
    k: int,
)
    requires
        tr.fits(g),
        tr.sound(g),
        g.blocks.len() <= usize::MAX,
        spec_judge(g, tr, rules) is Buggy,
        0 <= k < spec_judge(g, tr, rules)->Buggy_0.len(),
    ensures
        rules.contains(spec_judge(g, tr, rules)->Buggy_0[k].rule),
        justified(
            spec_judge(g, tr, rules)->Buggy_0[k].rule,
            g,
            tr,
            spec_judge(g, tr, rules)->Buggy_0[k],
        ),
        evident(g, tr, spec_judge(g, tr, rules)->Buggy_0[k]),
{
    let raw = raw_findings(g, tr, rules);
    let f = spec_judge(g, tr, rules)->Buggy_0[k];
    crate::aggregate::law_verdict_is_ordered_and_unique(raw);
    assert(raw.contains(f));
    lemma_raw_findings_member(g, tr, rules, f);
    let r = choose|r: int| 0 <= r < rules.len() && spec_evaluate(#[trigger] rules[r], g, tr).contains(f);
    let rule = rules[r];
    let found = spec_evaluate(rule, g, tr);
    let w = choose|w: int| 0 <= w < found.len() && found[w] == f;
    law_evidence_is_a_path(rule, g, tr, w);
    if rule == RuleId::UncheckedUnwrap {
        lemma_unwrap_findings_justified(g, tr, g.blocks.len() as int, w);
    } else {
        lemma_block_findings_justified(rule, g, tr, g.blocks.len() as int, w);
    }
    assert(f.rule == rule);
}

} // verus!
