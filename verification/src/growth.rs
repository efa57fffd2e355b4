//! Code that is added behind does not change what was found before.
//!
//! Two graphs that agree on their first blocks, and in which no edge leads
//! back into those blocks from the others, are judged alike as far as those
//! blocks go.
use vstd::prelude::*;
use crate::aggregate::{law_verdict_is_ordered_and_unique, VerdictModel};
use crate::cfg::{CfgModel, EdgeKind, Stmt, StmtKind};
use crate::dead_code::{
    lemma_handles_extend, lemma_handles_same, lemma_held_along_same, lemma_held_needs_origin,
    lemma_lower_children_split, lemma_lower_first_ok, lemma_lower_first_same,
    lemma_unchecked_same, lower_first,
};
use crate::engine::{is_trace_of, raw_findings, spec_judge};
use crate::laws::{lemma_path_to_ends, site, sites};
use crate::lower::{
    header_ok, initial_state, lemma_add_edges_ok, lemma_lower_arms_ok, lemma_lower_children_ok,
    lemma_lower_node_ok, lower, lower_arms, lower_children, lower_node, sources_ok,
    spec_arm_edge, spec_next_depth, spec_simple_kind, spec_stmt_of, BuildState,
};
use crate::shape::{breaks_behind, lemma_lower_node_shape, shaped};
use crate::resource::ExitKind;
use crate::syntax::{NodeKind, SyntaxNode};
use crate::rules::{
    block_findings, flags_block, flags_stmt, spec_evaluate, stmt_findings, unwrap_findings,
    FindingModel, RuleId,
};
use crate::scope::{
    handles, handles_upto, held_along, lemma_path_extend, lemma_path_prefix, may_hold_at_entry,
    TraceModel,
};

verus! {

impl CfgModel {
    /// Whether no edge leads from block `k` or a later one to a block before
    /// `k`.
    pub open spec fn no_way_back(self, k: int) -> bool {
        forall|b: int, e: int|
            k <= b < self.blocks.len() && 0 <= e < self.blocks[b].edges.len() ==> (
            #[trigger] self.blocks[b].edges[e]).target >= k
    }

    /// Whether `self` and `other` have the same roots among the blocks
    /// before `k`.
    pub open spec fn low_roots_agree(self, other: CfgModel, k: int) -> bool {
        forall|x: usize| x < k ==> (self.roots.contains(x) <==> other.roots.contains(x))
    }

    /// Whether `self` and `other` are the same as far as the blocks before
    /// `k` go, and those blocks cannot be come to from the others.
    pub open spec fn same_before(self, other: CfgModel, k: int) -> bool {
        &&& self.blocks_agree_below(other, k)
        &&& other.blocks_agree_below(self, k)
        &&& self.low_roots_agree(other, k)
        &&& self.no_way_back(k)
        &&& other.no_way_back(k)
    }
}

/// A path to one of the first `k` blocks, which cannot be come to from the
/// others, runs through the first `k` blocks alone.
pub proof fn lemma_path_before(g: CfgModel, k: int, path: Seq<usize>)
    requires
        g.is_path(path),
        g.no_way_back(k),
        path.last() < k,
    ensures
        forall|i: int| 0 <= i < path.len() ==> #[trigger] path[i] < k,
    decreases path.len(),
{
    if path.len() > 1 {
        lemma_path_prefix(g, path);
        let q = path.drop_last();
        let a = q.last() as int;
        let b = path.last();
        let e = choose|e: int|
            0 <= e < g.blocks[a].edges.len() && #[trigger] g.blocks[a].edges[e].target == b;
        if a >= k {
            assert(g.blocks[a].edges[e].target >= k);
        }
        lemma_path_before(g, k, q);
        assert forall|i: int| 0 <= i < path.len() implies #[trigger] path[i] < k by {
            if i < q.len() {
                assert(q[i] < k);
            }
        }
    }
}

/// A path through the first `k` blocks is a path of every graph that is the
/// same before `k`.
pub proof fn lemma_path_same_before(g1: CfgModel, g2: CfgModel, k: int, path: Seq<usize>)
    requires
        g1.same_before(g2, k),
        g1.is_path(path),
        forall|i: int| 0 <= i < path.len() ==> #[trigger] path[i] < k,
    ensures
        g2.is_path(path),
    decreases path.len(),
{
    assert(path[0] < k);
    assert(g2.roots.contains(path[0]));
    if path.len() > 1 {
        lemma_path_prefix(g1, path);
        let q = path.drop_last();
        assert forall|i: int| 0 <= i < q.len() implies #[trigger] q[i] < k by {
            assert(path[i] < k);
        }
        lemma_path_same_before(g1, g2, k, q);
        let a = q.last() as int;
        let b = path.last();
        assert(q[q.len() - 1] < k);
        assert(path[path.len() - 1] < k);
        let e = choose|e: int|
            0 <= e < g1.blocks[a].edges.len() && #[trigger] g1.blocks[a].edges[e].target == b;
        assert(g1.blocks[a] == g2.blocks[a]);
        assert(g2.blocks[a].edges[e].target == b);
        lemma_path_extend(g2, q, b);
        assert(q.push(b) =~= path);
    }
}

/// Control can come to one of the first `k` blocks in one graph exactly when
/// it can in the other.
pub proof fn lemma_reachable_before(g1: CfgModel, g2: CfgModel, k: int, b: int)
    requires
        g1.same_before(g2, k),
        0 <= b < k,
        g1.reachable(b),
    ensures
        g2.reachable(b),
{
    let p = choose|path: Seq<usize>| #[trigger] g1.is_path(path) && path.last() == b;
    lemma_path_before(g1, k, p);
    lemma_path_same_before(g1, g2, k, p);
    assert(g2.is_path(p) && p.last() == b);
}

/// What may be held at the entry of one of the first `k` blocks in one graph
/// is a handle of those blocks and may be held there in the other.
pub proof fn lemma_may_hold_before(g1: CfgModel, g2: CfgModel, k: int, b: int, j: int)
    requires
        g1.sized(),
        g2.sized(),
        g1.same_before(g2, k),
        0 <= b < k,
        0 <= j < handles(g1).len(),
        may_hold_at_entry(g1, b, handles(g1)[j]),
    ensures
        j < handles(g2).len(),
        handles(g2)[j] == handles(g1)[j],
        may_hold_at_entry(g2, b, handles(g2)[j]),
{
    let h = handles(g1)[j];
    let p = choose|path: Seq<usize>|
        #[trigger] g1.is_path(path) && g1.has_edge(path.last() as int, b) && held_along(
            g1,
            path,
            h,
        );
    let a = p.last() as int;
    let e = choose|e: int|
        0 <= e < g1.blocks[a].edges.len() && #[trigger] g1.blocks[a].edges[e].target == b;
    if a >= k {
        assert(g1.blocks[a].edges[e].target >= k);
    }
    lemma_path_before(g1, k, p);
    lemma_path_same_before(g1, g2, k, p);
    assert(g1.blocks[a] == g2.blocks[a]);
    assert(g2.blocks[a].edges[e].target == b);
    lemma_held_along_same(g1, g2, k, p, h);
    lemma_held_needs_origin(g1, p, h);
    let at = choose|at: int| 0 <= at < p.len() && #[trigger] p[at] == h.origin;
    assert(h.origin < k);
    lemma_handles_extend(g1, k, g1.blocks.len() as int);
    lemma_handles_extend(g2, k, g2.blocks.len() as int);
    lemma_handles_same(g1, g2, k, k);
    assert(j < handles_upto(g1, k).len());
    assert(g2.is_path(p) && g2.has_edge(p.last() as int, b) && held_along(g2, p, h));
}

/// A rule flags one of the first `k` blocks in one graph exactly when it
/// does in the other.
pub proof fn lemma_flags_block_before(
    rule: RuleId,
    g1: CfgModel,
    tr1: TraceModel,
    g2: CfgModel,
    tr2: TraceModel,
    k: int,
    b: int,
)
    requires
        g1.sized(),
        g2.sized(),
        g1.same_before(g2, k),
        tr1.shaped(g1),
        tr1.handles == handles(g1),
        tr1.exact(g1),
        tr2.shaped(g2),
        tr2.handles == handles(g2),
        tr2.exact(g2),
        0 <= b < k,
        flags_block(rule, g1, tr1, b),
    ensures
        flags_block(rule, g2, tr2, b),
{
    lemma_reachable_before(g1, g2, k, b);
    assert(g1.blocks[b] == g2.blocks[b]);
    let j = choose|j: int|
        0 <= j < tr1.handles.len() && #[trigger] tr1.live_in[b][j] && tr1.handles[j].kind
            == rule.spec_watches();
    lemma_may_hold_before(g1, g2, k, b, j);
    assert(tr2.live_in[b][j]);
}

/// The rule against unchecked unwraps flags a statement of one of the first
/// `k` blocks in one graph exactly when it does in the other.
pub proof fn lemma_flags_stmt_before(
    g1: CfgModel,
    tr1: TraceModel,
    g2: CfgModel,
    tr2: TraceModel,
    k: int,
    b: int,
    i: int,
)
    requires
        g1.same_before(g2, k),
        tr1.shaped(g1),
        tr1.exact(g1),
        tr2.shaped(g2),
        tr2.exact(g2),
        0 <= b < k,
        flags_stmt(g1, tr1, b, i),
    ensures
        flags_stmt(g2, tr2, b, i),
{
    lemma_reachable_before(g1, g2, k, b);
    assert(g1.blocks[b] == g2.blocks[b]);
    lemma_unchecked_same(g1, g2, k, b, i, g1.blocks[b].stmts[i].binding, crate::rules::open_limit());
}

/// Whether the graphs and their traces are as [`lemma_findings_before`] asks:
/// the graphs fit the machine and are the same before `k`, and each trace
/// is an exact trace of its graph.
pub open spec fn alike_before(
    g1: CfgModel,
    tr1: TraceModel,
    g2: CfgModel,
    tr2: TraceModel,
    k: int,
) -> bool {
    &&& g1.sized()
    &&& g2.sized()
    &&& g1.same_before(g2, k)
    &&& g2.same_before(g1, k)
    &&& tr1.shaped(g1)
    &&& tr1.handles == handles(g1)
    &&& tr1.exact(g1)
    &&& tr2.shaped(g2)
    &&& tr2.handles == handles(g2)
    &&& tr2.exact(g2)
}

/// The findings of a rule about the exits among the first blocks say the
/// same in both graphs.
pub proof fn lemma_block_findings_before(
    rule: RuleId,
    g1: CfgModel,
    tr1: TraceModel,
    g2: CfgModel,
    tr2: TraceModel,
    k: int,
    upto: int,
)
    requires
        alike_before(g1, tr1, g2, tr2, k),
        upto <= k,
    ensures
        sites(block_findings(rule, g1, tr1, upto)) == sites(block_findings(rule, g2, tr2, upto)),
    decreases upto,
{
    if upto > 0 {
        lemma_block_findings_before(rule, g1, tr1, g2, tr2, k, upto - 1);
        let b = upto - 1;
        assert(g1.blocks[b] == g2.blocks[b]);
        if flags_block(rule, g1, tr1, b) {
            lemma_flags_block_before(rule, g1, tr1, g2, tr2, k, b);
        }
        if flags_block(rule, g2, tr2, b) {
            lemma_flags_block_before(rule, g2, tr2, g1, tr1, k, b);
        }
        if flags_block(rule, g1, tr1, b) {
            assert(sites(block_findings(rule, g1, tr1, upto)) =~= sites(
                block_findings(rule, g1, tr1, upto - 1),
            ).push(site(block_findings(rule, g1, tr1, upto).last())));
            assert(sites(block_findings(rule, g2, tr2, upto)) =~= sites(
                block_findings(rule, g2, tr2, upto - 1),
            ).push(site(block_findings(rule, g2, tr2, upto).last())));
        }
    } else {
        assert(sites(block_findings(rule, g1, tr1, upto)) =~= sites(
            block_findings(rule, g2, tr2, upto),
        ));
    }
}

/// The findings about the unwraps of one of the first blocks say the same
/// in both graphs.
pub proof fn lemma_stmt_findings_before(
    g1: CfgModel,
    tr1: TraceModel,
    g2: CfgModel,
    tr2: TraceModel,
    k: int,
    b: int,
    upto: int,
)
    requires
        alike_before(g1, tr1, g2, tr2, k),
        0 <= b < k,
        upto <= g1.blocks[b].stmts.len(),
    ensures
        sites(stmt_findings(g1, tr1, b, upto)) == sites(stmt_findings(g2, tr2, b, upto)),
    decreases upto,
{
    if upto > 0 {
        lemma_stmt_findings_before(g1, tr1, g2, tr2, k, b, upto - 1);
        assert(g1.blocks[b] == g2.blocks[b]);
        if flags_stmt(g1, tr1, b, upto - 1) {
            lemma_flags_stmt_before(g1, tr1, g2, tr2, k, b, upto - 1);
        }
        if flags_stmt(g2, tr2, b, upto - 1) {
            lemma_flags_stmt_before(g2, tr2, g1, tr1, k, b, upto - 1);
        }
        if flags_stmt(g1, tr1, b, upto - 1) {
            assert(sites(stmt_findings(g1, tr1, b, upto)) =~= sites(
                stmt_findings(g1, tr1, b, upto - 1),
            ).push(site(stmt_findings(g1, tr1, b, upto).last())));
            assert(sites(stmt_findings(g2, tr2, b, upto)) =~= sites(
                stmt_findings(g2, tr2, b, upto - 1),
            ).push(site(stmt_findings(g2, tr2, b, upto).last())));
        }
    } else {
        assert(sites(stmt_findings(g1, tr1, b, upto)) =~= sites(stmt_findings(g2, tr2, b, upto)));
    }
}

/// The findings about the unwraps of the first blocks say the same in both
/// graphs.
pub proof fn lemma_unwrap_findings_before(
    g1: CfgModel,
    tr1: TraceModel,
    g2: CfgModel,
    tr2: TraceModel,
    k: int,
    upto: int,
)
    requires
        alike_before(g1, tr1, g2, tr2, k),
        upto <= k,
    ensures
        sites(unwrap_findings(g1, tr1, upto)) == sites(unwrap_findings(g2, tr2, upto)),
    decreases upto,
{
    if upto > 0 {
        lemma_unwrap_findings_before(g1, tr1, g2, tr2, k, upto - 1);
        let b = upto - 1;
        assert(g1.blocks[b] == g2.blocks[b]);
        let n = g1.blocks[b].stmts.len() as int;
        lemma_stmt_findings_before(g1, tr1, g2, tr2, k, b, n);
        assert(sites(unwrap_findings(g1, tr1, upto)) =~= sites(unwrap_findings(g1, tr1, upto - 1))
            + sites(stmt_findings(g1, tr1, b, n)));
        assert(sites(unwrap_findings(g2, tr2, upto)) =~= sites(unwrap_findings(g2, tr2, upto - 1))
            + sites(stmt_findings(g2, tr2, b, n)));
    } else {
        assert(sites(unwrap_findings(g1, tr1, upto)) =~= sites(unwrap_findings(g2, tr2, upto)));
    }
}

/// Whether the graph of `st` is the graph of `st0` as far as the blocks
/// before `k` go, and those blocks cannot be come to from the others.
pub open spec fn grown(st0: BuildState, st: BuildState, k: int) -> bool {
    &&& 0 <= k <= st0.graph.blocks.len() <= st.graph.blocks.len()
    &&& forall|b: int| 0 <= b < k ==> #[trigger] st.graph.blocks[b] == st0.graph.blocks[b]
    &&& st.graph.low_roots_agree(st0.graph, k)
    &&& st.graph.no_way_back(k)
}

/// Whether the builder works at block `k` or behind it: the current block
/// has no edge yet, and the loop around it, if there is one, began at `k` or
/// behind it.
pub open spec fn works_from(st: BuildState, k: int, header: Option<usize>) -> bool {
    &&& st.ok()
    &&& header_ok(header, st)
    &&& k <= st.cur
    &&& st.graph.blocks[st.cur as int].edges.len() == 0
    &&& header matches Some(h) ==> k <= h && forall|i: int|
        0 <= i < st.breaks.len() ==> k <= #[trigger] st.breaks[i]
}

/// A new block leaves the blocks before `k` alone.
proof fn lemma_add_block_grown(st0: BuildState, st: BuildState, k: int, exit: Option<ExitKind>)
    requires
        st.ok(),
        grown(st0, st, k),
        st.graph.blocks.len() < usize::MAX,
    ensures
        st.add_block(exit).ok(),
        grown(st0, st.add_block(exit), k),
        st.add_block(exit).graph.blocks.len() == st.graph.blocks.len() + 1,
        st.next_id() == st.graph.blocks.len(),
        st.add_block(exit).graph.blocks[st.graph.blocks.len() as int].edges.len() == 0,
        st.add_block(exit).graph.blocks[st.cur as int] == st.graph.blocks[st.cur as int],
{
    let r = st.add_block(exit);
    assert forall|b: int| 0 <= b < k implies #[trigger] r.graph.blocks[b] == st0.graph.blocks[b] by {
        assert(st.graph.blocks[b] == st0.graph.blocks[b]);
    }
    assert forall|b: int, e: int|
        k <= b < r.graph.blocks.len() && 0 <= e < r.graph.blocks[b].edges.len() implies (
    #[trigger] r.graph.blocks[b].edges[e]).target >= k by {
        if b < st.graph.blocks.len() {
            assert(st.graph.blocks[b].edges[e].target >= k);
        }
    }
}

/// A statement for a block at `k` or behind it leaves the blocks before `k`
/// alone.
proof fn lemma_add_stmt_grown(st0: BuildState, st: BuildState, k: int, b: usize, stmt: Stmt)
    requires
        st.ok(),
        grown(st0, st, k),
        k <= b < st.graph.blocks.len(),
    ensures
        st.add_stmt(b, stmt).ok(),
        grown(st0, st.add_stmt(b, stmt), k),
        st.add_stmt(b, stmt).graph.blocks.len() == st.graph.blocks.len(),
        st.add_stmt(b, stmt).graph.blocks[st.cur as int].edges
            == st.graph.blocks[st.cur as int].edges,
{
    let r = st.add_stmt(b, stmt);
    assert forall|c: int| 0 <= c < k implies #[trigger] r.graph.blocks[c] == st0.graph.blocks[c] by {
        assert(st.graph.blocks[c] == st0.graph.blocks[c]);
    }
    assert forall|c: int, e: int|
        k <= c < r.graph.blocks.len() && 0 <= e < r.graph.blocks[c].edges.len() implies (
    #[trigger] r.graph.blocks[c].edges[e]).target >= k by {
        assert(st.graph.blocks[c].edges[e].target >= k);
    }
}

/// An edge between blocks at `k` or behind it leaves the blocks before `k`
/// alone, and leads no way back.
proof fn lemma_add_edge_grown(
    st0: BuildState,
    st: BuildState,
    k: int,
    from: usize,
    to: usize,
    kind: EdgeKind,
)
    requires
        st.ok(),
        grown(st0, st, k),
        k <= from < st.graph.blocks.len(),
        k <= to < st.graph.blocks.len(),
    ensures
        st.add_edge(from, to, kind).ok(),
        grown(st0, st.add_edge(from, to, kind), k),
        st.add_edge(from, to, kind).graph.blocks.len() == st.graph.blocks.len(),
        forall|c: int|
            0 <= c < st.graph.blocks.len() && c != from ==> #[trigger] st.add_edge(
                from,
                to,
                kind,
            ).graph.blocks[c] == st.graph.blocks[c],
{
    let r = st.add_edge(from, to, kind);
    assert forall|c: int| 0 <= c < k implies #[trigger] r.graph.blocks[c] == st0.graph.blocks[c] by {
        assert(st.graph.blocks[c] == st0.graph.blocks[c]);
    }
    assert forall|c: int, e: int|
        k <= c < r.graph.blocks.len() && 0 <= e < r.graph.blocks[c].edges.len() implies (
    #[trigger] r.graph.blocks[c].edges[e]).target >= k by {
        if c != from || e < st.graph.blocks[c].edges.len() {
            assert(st.graph.blocks[c].edges[e].target >= k);
        }
    }
}

/// Edges between blocks at `k` or behind it leave the blocks before `k`
/// alone, and every block that is none of their sources.
proof fn lemma_add_edges_grown(
    st0: BuildState,
    st: BuildState,
    k: int,
    sources: Seq<usize>,
    to: usize,
    kind: EdgeKind,
    watch: int,
)
    requires
        st.ok(),
        grown(st0, st, k),
        sources_ok(sources, st),
        forall|i: int| 0 <= i < sources.len() ==> k <= #[trigger] sources[i],
        forall|i: int| 0 <= i < sources.len() ==> #[trigger] sources[i] != watch,
        k <= to < st.graph.blocks.len(),
        0 <= watch < st.graph.blocks.len(),
    ensures
        st.add_edges(sources, to, kind).ok(),
        grown(st0, st.add_edges(sources, to, kind), k),
        st.add_edges(sources, to, kind).graph.blocks.len() == st.graph.blocks.len(),
        st.add_edges(sources, to, kind).cur == st.cur,
        st.add_edges(sources, to, kind).live == st.live,
        st.add_edges(sources, to, kind).breaks == st.breaks,
        st.add_edges(sources, to, kind).graph.blocks[watch] == st.graph.blocks[watch],
    decreases sources.len(),
{
    if sources.len() > 0 {
        let rest = sources.drop_last();
        lemma_add_edges_grown(st0, st, k, rest, to, kind, watch);
        assert(k <= sources[sources.len() - 1]);
        assert(sources[sources.len() - 1] != watch);
        assert(sources[sources.len() - 1] < st.graph.blocks.len());
        lemma_add_edge_grown(st0, st.add_edges(rest, to, kind), k, sources.last(), to, kind);
    }
}

/// A root at `k` or behind it leaves the roots before `k` alone.
proof fn lemma_add_root_grown(st0: BuildState, st: BuildState, k: int, root: usize)
    requires
        st.ok(),
        grown(st0, st, k),
        k <= root < st.graph.blocks.len(),
    ensures
        st.add_root(root).ok(),
        grown(st0, st.add_root(root), k),
        st.add_root(root).graph.blocks == st.graph.blocks,
{
    let r = st.add_root(root);
    assert forall|x: usize| x < k implies (r.graph.roots.contains(x) <==> st0.graph.roots.contains(
        x,
    )) by {
        if st.graph.roots.contains(x) {
            let i = choose|i: int| 0 <= i < st.graph.roots.len() && st.graph.roots[i] == x;
            assert(r.graph.roots[i] == x);
        }
        if r.graph.roots.contains(x) {
            let i = choose|i: int| 0 <= i < r.graph.roots.len() && r.graph.roots[i] == x;
            assert(st.graph.roots[i] == x);
        }
    }
    assert forall|r2: int| 0 <= r2 < r.graph.roots.len() implies #[trigger] r.graph.roots[r2]
        < r.graph.blocks.len() by {
        if r2 < st.graph.roots.len() {
            assert(st.graph.roots[r2] < st.graph.blocks.len());
        }
    }
}

/// A statement that is not looked into, lowered at `k` or behind it, leaves
/// the blocks before `k` alone.
proof fn lemma_opaque_grown(
    st0: BuildState,
    st: BuildState,
    k: int,
    header: Option<usize>,
    stmt: Stmt,
)
    requires
        grown(st0, st, k),
        works_from(st, k, header),
        st.graph.blocks.len() + 2 <= usize::MAX,
    ensures
        grown(st0, st.opaque(stmt), k),
        works_from(st.opaque(stmt), k, header),
{
    let o = st.next_id();
    let a1 = st.add_block(None);
    lemma_add_block_grown(st0, st, k, None);
    let a2 = a1.add_stmt(o, stmt);
    lemma_add_stmt_grown(st0, a1, k, o, stmt);
    let a3 = a2.add_edge(st.cur, o, EdgeKind::Unconditional);
    lemma_add_edge_grown(st0, a2, k, st.cur, o, EdgeKind::Unconditional);
    let n = a3.next_id();
    let a4 = a3.add_block(None);
    lemma_add_block_grown(st0, a3, k, None);
    lemma_add_edge_grown(st0, a4, k, o, n, EdgeKind::Unconditional);
}

/// A `return` or a panic, lowered at `k` or behind it, leaves the blocks
/// before `k` alone.
proof fn lemma_leave_grown(
    st0: BuildState,
    st: BuildState,
    k: int,
    header: Option<usize>,
    stmt: Stmt,
    exit: ExitKind,
)
    requires
        grown(st0, st, k),
        works_from(st, k, header),
        st.graph.blocks.len() + 2 <= usize::MAX,
    ensures
        grown(st0, st.leave(stmt, exit), k),
        works_from(st.leave(stmt, exit), k, header),
{
    let t = st.next_id();
    let a1 = st.add_block(Some(exit));
    lemma_add_block_grown(st0, st, k, Some(exit));
    let a2 = a1.add_stmt(t, stmt);
    lemma_add_stmt_grown(st0, a1, k, t, stmt);
    let a3 = a2.add_edge(st.cur, t, EdgeKind::EarlyExit(exit));
    lemma_add_edge_grown(st0, a2, k, st.cur, t, EdgeKind::EarlyExit(exit));
    lemma_add_block_grown(st0, a3, k, None);
}

/// A node that is lowered at block `k` or behind it leaves the blocks before
/// `k` alone, and no edge of it leads back to them.
pub proof fn lemma_lower_node_grown(
    node: SyntaxNode,
    depth: u32,
    header: Option<usize>,
    st0: BuildState,
    st: BuildState,
    k: int,
)
    requires
        grown(st0, st, k),
        works_from(st, k, header),
        lower_node(node, depth, header, st).graph.blocks.len() <= usize::MAX,
    ensures
        grown(st0, lower_node(node, depth, header, st), k),
        works_from(lower_node(node, depth, header, st), k, header),
        header is None ==> lower_node(node, depth, header, st).breaks == st.breaks,
    decreases node, 1nat, 0nat,
{
    lemma_lower_node_ok(node, depth, header, st);
    let r = lower_node(node, depth, header, st);
    match node.kind {
        NodeKind::Branch => {
            lemma_lower_arms_grown(
                node,
                0,
                depth,
                header,
                st.cur,
                st.live,
                Seq::empty(),
                st0,
                st,
                k,
            );
        },
        NodeKind::Loop => {
            lemma_loop_grown(node, depth, header, st0, st, k);
        },
        NodeKind::Closure => {
            lemma_closure_grown(node, depth, header, st0, st, k);
        },
        NodeKind::Break => {
            if header is Some {
                let stmt = spec_stmt_of(node, StmtKind::Break, depth);
                let s1 = st.emit(stmt);
                lemma_add_stmt_grown(st0, st, k, st.cur, stmt);
                let s2 = s1.with_breaks(st.breaks.push(st.cur));
                assert(s2.ok());
                lemma_add_block_grown(st0, s2, k, None);
            } else {
                lemma_opaque_grown(st0, st, k, header, spec_stmt_of(node, StmtKind::Opaque, depth));
            }
        },
        NodeKind::Continue => {
            match header {
                Some(h) => {
                    let stmt = spec_stmt_of(node, StmtKind::Continue, depth);
                    let s1 = st.emit(stmt);
                    lemma_add_stmt_grown(st0, st, k, st.cur, stmt);
                    let s2 = s1.add_edge(st.cur, h, EdgeKind::EarlyExit(ExitKind::Continue));
                    lemma_add_edge_grown(
                        st0,
                        s1,
                        k,
                        st.cur,
                        h,
                        EdgeKind::EarlyExit(ExitKind::Continue),
                    );
                    lemma_add_block_grown(st0, s2, k, None);
                },
                None => {
                    lemma_opaque_grown(
                        st0,
                        st,
                        k,
                        header,
                        spec_stmt_of(node, StmtKind::Opaque, depth),
                    );
                },
            }
        },
        NodeKind::Other => {
            lemma_opaque_grown(st0, st, k, header, spec_stmt_of(node, StmtKind::Opaque, depth));
        },
        _ => {
            lemma_statement_grown(node, depth, header, st0, st, k);
        },
    }
}

/// A block, a `return`, a panic or a simple statement that is lowered at
/// block `k` or behind it leaves the blocks before `k` alone.
proof fn lemma_statement_grown(
    node: SyntaxNode,
    depth: u32,
    header: Option<usize>,
    st0: BuildState,
    st: BuildState,
    k: int,
)
    requires
        grown(st0, st, k),
        works_from(st, k, header),
        node.kind == NodeKind::Block || node.kind == NodeKind::Return || node.kind
            == NodeKind::Panic || spec_simple_kind(node.kind) is Some,
        lower_node(node, depth, header, st).graph.blocks.len() <= usize::MAX,
    ensures
        grown(st0, lower_node(node, depth, header, st), k),
        works_from(lower_node(node, depth, header, st), k, header),
        header is None ==> lower_node(node, depth, header, st).breaks == st.breaks,
    decreases node, 0nat, node.children.len() + 1,
{
    let r = lower_node(node, depth, header, st);
    let inner = spec_next_depth(depth);
    match node.kind {
        NodeKind::Block => {
            lemma_lower_children_ok(node, 0, inner, header, st);
            let s1 = lower_children(node, 0, inner, header, st);
            assert(r.graph.blocks.len() == s1.graph.blocks.len());
            lemma_lower_children_grown(node, 0, inner, header, st0, st, k);
            lemma_add_stmt_grown(
                st0,
                s1,
                k,
                s1.cur,
                spec_stmt_of(node, StmtKind::ScopeExit, inner),
            );
        },
        NodeKind::Return => {
            lemma_lower_children_ok(node, 0, depth, header, st);
            let s1 = lower_children(node, 0, depth, header, st);
            assert(r.graph.blocks.len() == s1.graph.blocks.len() + 2);
            lemma_lower_children_grown(node, 0, depth, header, st0, st, k);
            lemma_leave_grown(
                st0,
                s1,
                k,
                header,
                spec_stmt_of(node, StmtKind::Return, depth),
                ExitKind::Return,
            );
        },
        NodeKind::Panic => {
            lemma_lower_children_ok(node, 0, depth, header, st);
            let s1 = lower_children(node, 0, depth, header, st);
            assert(r.graph.blocks.len() == s1.graph.blocks.len() + 2);
            lemma_lower_children_grown(node, 0, depth, header, st0, st, k);
            lemma_leave_grown(
                st0,
                s1,
                k,
                header,
                spec_stmt_of(node, StmtKind::Panic, depth),
                ExitKind::Panic,
            );
        },
        _ => {
            lemma_lower_children_ok(node, 0, depth, header, st);
            let s1 = lower_children(node, 0, depth, header, st);
            assert(r.graph.blocks.len() == s1.graph.blocks.len());
            lemma_lower_children_grown(node, 0, depth, header, st0, st, k);
            lemma_add_stmt_grown(
                st0,
                s1,
                k,
                s1.cur,
                spec_stmt_of(node, spec_simple_kind(node.kind).unwrap(), depth),
            );
        },
    }
}

/// A loop that is lowered at block `k` or behind it leaves the blocks before
/// `k` alone.
proof fn lemma_loop_grown(
    node: SyntaxNode,
    depth: u32,
    header: Option<usize>,
    st0: BuildState,
    st: BuildState,
    k: int,
)
    requires
        grown(st0, st, k),
        works_from(st, k, header),
        node.kind == NodeKind::Loop,
        lower_node(node, depth, header, st).graph.blocks.len() <= usize::MAX,
    ensures
        grown(st0, lower_node(node, depth, header, st), k),
        works_from(lower_node(node, depth, header, st), k, header),
        header is None ==> lower_node(node, depth, header, st).breaks == st.breaks,
    decreases node, 0nat, node.children.len() + 1,
{
    let r = lower_node(node, depth, header, st);
    let inner = spec_next_depth(depth);
    let marker = spec_stmt_of(node, StmtKind::ScopeExit, inner);
    let h = st.next_id();
    let a1 = st.add_block(None);
    let a2 = a1.add_stmt(h, marker);
    let s1 = a2.add_edge(st.cur, h, EdgeKind::Unconditional);
    let body = s1.next_id();
    let a3 = s1.add_block(None);
    let a4 = a3.add_edge(h, body, EdgeKind::BranchTrue);
    let s2 = a4.at(body, st.live).with_breaks(Seq::empty());
    assert(s2.ok());
    lemma_lower_children_ok(node, 0, inner, Some(h), s2);
    let s3 = lower_children(node, 0, inner, Some(h), s2);
    let b1 = s3.with_breaks(st.breaks);
    let s4 = b1.add_edge(s3.cur, h, EdgeKind::LoopBack);
    let x = s4.next_id();
    let b2 = s4.add_block(None);
    let b3 = b2.add_stmt(x, marker);
    let s5 = b3.add_edge(h, x, EdgeKind::BranchFalse);
    assert(s5.ok());
    lemma_add_edges_ok(s5, s3.breaks, x, EdgeKind::EarlyExit(ExitKind::Break));
    assert(s2.graph.blocks.len() == st.graph.blocks.len() + 2);
    assert(r.graph.blocks.len() == s3.graph.blocks.len() + 1);
    lemma_add_block_grown(st0, st, k, None);
    lemma_add_stmt_grown(st0, a1, k, h, marker);
    lemma_add_edge_grown(st0, a2, k, st.cur, h, EdgeKind::Unconditional);
    lemma_add_block_grown(st0, s1, k, None);
    lemma_add_edge_grown(st0, a3, k, h, body, EdgeKind::BranchTrue);
    assert(grown(st0, s2, k));
    assert(works_from(s2, k, Some(h)));
    lemma_lower_children_grown(node, 0, inner, Some(h), st0, s2, k);
    assert(b1.ok());
    assert(grown(st0, b1, k));
    lemma_add_edge_grown(st0, b1, k, s3.cur, h, EdgeKind::LoopBack);
    lemma_add_block_grown(st0, s4, k, None);
    lemma_add_stmt_grown(st0, b2, k, x, marker);
    lemma_add_edge_grown(st0, b3, k, h, x, EdgeKind::BranchFalse);
    assert(s5.graph.blocks[x as int].edges.len() == 0);
    assert forall|i: int| 0 <= i < s3.breaks.len() implies #[trigger] s3.breaks[i] != x as int by {
        assert(s3.breaks[i] < s3.graph.blocks.len());
    }
    lemma_add_edges_grown(
        st0,
        s5,
        k,
        s3.breaks,
        x,
        EdgeKind::EarlyExit(ExitKind::Break),
        x as int,
    );
}

/// A closure that is lowered at block `k` or behind it leaves the blocks
/// before `k` alone.
proof fn lemma_closure_grown(
    node: SyntaxNode,
    depth: u32,
    header: Option<usize>,
    st0: BuildState,
    st: BuildState,
    k: int,
)
    requires
        grown(st0, st, k),
        works_from(st, k, header),
        node.kind == NodeKind::Closure,
        lower_node(node, depth, header, st).graph.blocks.len() <= usize::MAX,
    ensures
        grown(st0, lower_node(node, depth, header, st), k),
        works_from(lower_node(node, depth, header, st), k, header),
        header is None ==> lower_node(node, depth, header, st).breaks == st.breaks,
    decreases node, 0nat, node.children.len() + 1,
{
    let r = lower_node(node, depth, header, st);
    let inner = spec_next_depth(depth);
    let root = st.next_id();
    let s1 = st.add_block(None);
    let s1r = if st.live {
        s1.add_root(root)
    } else {
        s1
    };
    let s2 = s1r.at(root, st.live);
    assert(s2.ok());
    lemma_lower_children_ok(node, 0, inner, None, s2);
    let s3 = lower_children(node, 0, inner, None, s2);
    let scope_end = spec_stmt_of(node, StmtKind::ScopeExit, inner);
    let ret = spec_stmt_of(node, StmtKind::Return, inner);
    let c1 = s3.emit(scope_end);
    let t = c1.next_id();
    let c2 = c1.add_block(Some(ExitKind::Return));
    let c3 = c2.add_stmt(t, ret);
    let s4 = c3.add_edge(c1.cur, t, EdgeKind::Unconditional);
    let c = s4.next_id();
    let c4 = s4.add_block(None);
    assert(r.graph.blocks.len() == s3.graph.blocks.len() + 2);
    lemma_add_block_grown(st0, st, k, None);
    if st.live {
        lemma_add_root_grown(st0, s1, k, root);
    }
    assert(grown(st0, s2, k));
    assert(works_from(s2, k, None));
    lemma_lower_children_grown(node, 0, inner, None, st0, s2, k);
    lemma_add_stmt_grown(st0, s3, k, s3.cur, scope_end);
    lemma_add_block_grown(st0, c1, k, Some(ExitKind::Return));
    lemma_add_stmt_grown(st0, c2, k, t, ret);
    lemma_add_edge_grown(st0, c3, k, c1.cur, t, EdgeKind::Unconditional);
    lemma_add_block_grown(st0, s4, k, None);
    lemma_lower_children_keeps_block(node, inner, s2, st.cur as int);
    lemma_add_edge_grown(st0, c4, k, st.cur, c, EdgeKind::Unconditional);
}

/// Lowering the children of a closure leaves the blocks that were there.
proof fn lemma_lower_children_keeps_block(node: SyntaxNode, depth: u32, st: BuildState, b: int)
    requires
        st.ok(),
        0 <= b < st.graph.blocks.len(),
    ensures
        b < lower_children(node, 0, depth, None, st).graph.blocks.len(),
{
    lemma_lower_children_ok(node, 0, depth, None, st);
}

/// Children that are lowered at block `k` or behind it leave the blocks
/// before `k` alone.
pub proof fn lemma_lower_children_grown(
    node: SyntaxNode,
    from: int,
    depth: u32,
    header: Option<usize>,
    st0: BuildState,
    st: BuildState,
    k: int,
)
    requires
        0 <= from,
        grown(st0, st, k),
        works_from(st, k, header),
        lower_children(node, from, depth, header, st).graph.blocks.len() <= usize::MAX,
    ensures
        grown(st0, lower_children(node, from, depth, header, st), k),
        works_from(lower_children(node, from, depth, header, st), k, header),
        header is None ==> lower_children(node, from, depth, header, st).breaks == st.breaks,
    decreases node, 0nat, node.children.len() - from,
{
    if 0 <= from < node.children.len() {
        let s1 = lower_node(node.children[from], depth, header, st);
        lemma_lower_node_ok(node.children[from], depth, header, st);
        lemma_lower_children_ok(node, from + 1, depth, header, s1);
        lemma_lower_node_grown(node.children[from], depth, header, st0, st, k);
        lemma_lower_children_grown(node, from + 1, depth, header, st0, s1, k);
    }
}

/// Alternatives that are lowered at block `k` or behind it leave the blocks
/// before `k` alone.
pub proof fn lemma_lower_arms_grown(
    node: SyntaxNode,
    from: int,
    depth: u32,
    header: Option<usize>,
    entry: usize,
    live: bool,
    ends: Seq<usize>,
    st0: BuildState,
    st: BuildState,
    k: int,
)
    requires
        0 <= from,
        grown(st0, st, k),
        st.ok(),
        header_ok(header, st),
        k <= st.cur,
        header matches Some(h) ==> k <= h && forall|i: int|
            0 <= i < st.breaks.len() ==> k <= #[trigger] st.breaks[i],
        k <= entry < st.graph.blocks.len(),
        sources_ok(ends, st),
        forall|i: int| 0 <= i < ends.len() ==> k <= #[trigger] ends[i],
        lower_arms(node, from, depth, header, entry, live, ends, st).graph.blocks.len()
            <= usize::MAX,
    ensures
        grown(st0, lower_arms(node, from, depth, header, entry, live, ends, st), k),
        works_from(lower_arms(node, from, depth, header, entry, live, ends, st), k, header),
        header is None ==> lower_arms(node, from, depth, header, entry, live, ends, st).breaks
            == st.breaks,
    decreases node, 0nat, node.children.len() - from,
{
    let r = lower_arms(node, from, depth, header, entry, live, ends, st);
    if 0 <= from < node.children.len() {
        let inner = spec_next_depth(depth);
        let a = st.next_id();
        let a1 = st.add_block(None);
        let a2 = a1.add_edge(entry, a, spec_arm_edge(from));
        let s1 = a2.at(a, live);
        assert(s1.ok());
        lemma_lower_node_ok(node.children[from], inner, header, s1);
        let lowered = lower_node(node.children[from], inner, header, s1);
        let scope_end = spec_stmt_of(node.children[from], StmtKind::ScopeExit, inner);
        let s2 = lowered.emit(scope_end);
        assert(s2.ok());
        let ends2 = ends.push(s2.cur);
        lemma_lower_arms_ok(node, from + 1, depth, header, entry, live, ends2, s2);
        assert(r.graph.blocks.len() >= s2.graph.blocks.len());
        assert(lowered.graph.blocks.len() >= st.graph.blocks.len() + 1);
        lemma_add_block_grown(st0, st, k, None);
        lemma_add_edge_grown(st0, a1, k, entry, a, spec_arm_edge(from));
        assert(grown(st0, s1, k));
        assert(works_from(s1, k, header));
        lemma_lower_node_grown(node.children[from], inner, header, st0, s1, k);
        lemma_add_stmt_grown(st0, lowered, k, lowered.cur, scope_end);
        lemma_lower_arms_grown(node, from + 1, depth, header, entry, live, ends2, st0, s2, k);
    } else {
        let j = st.next_id();
        let s1 = st.add_block(None);
        assert(s1.ok());
        if ends.len() > 0 {
            assert(sources_ok(ends, s1));
            lemma_add_edges_ok(s1, ends, j, EdgeKind::Unconditional);
        }
        assert(r.graph.blocks.len() == st.graph.blocks.len() + 1);
        lemma_add_block_grown(st0, st, k, None);
        if ends.len() == 0 {
            lemma_add_edge_grown(st0, s1, k, entry, j, EdgeKind::Unconditional);
        } else {
            assert forall|i: int| 0 <= i < ends.len() implies #[trigger] ends[i] != j as int by {
                assert(ends[i] < st.graph.blocks.len());
            }
            lemma_add_edges_grown(st0, s1, k, ends, j, EdgeKind::Unconditional, j as int);
        }
    }
}

/// The first children of a body are lowered into a graph in which the
/// current block is the newest and has no edge yet.
proof fn lemma_lower_first_fresh(body: SyntaxNode, count: int, depth: u32)
    requires
        0 <= count <= body.children.len(),
        lower_first(body, count, depth, None, initial_state()).graph.blocks.len() <= usize::MAX,
    ensures
        shaped(lower_first(body, count, depth, None, initial_state())),
        works_from(lower_first(body, count, depth, None, initial_state()), 0, None),
        lower_first(body, count, depth, None, initial_state()).breaks == Seq::<usize>::empty(),
    decreases count,
{
    let st0 = initial_state();
    assert(st0.ok());
    assert(st0.graph.block_numbered(0));
    if count > 0 {
        let before = lower_first(body, count - 1, depth, None, st0);
        lemma_lower_first_ok(body, count - 1, depth, None, st0);
        lemma_lower_node_ok(body.children[count - 1], depth, None, before);
        lemma_lower_first_fresh(body, count - 1, depth);
        assert(breaks_behind(before));
        lemma_lower_node_shape(body.children[count - 1], depth, None, before);
        assert(grown(st0, before, 0));
        lemma_lower_node_grown(body.children[count - 1], depth, None, st0, before, 0);
    }
}

/// The block that the builder works in behind the first `cut` children of
/// the body `body`: the blocks before it hold what those children were
/// lowered to.
pub open spec fn block_behind(body: SyntaxNode, cut: int) -> int {
    lower_first(body, cut, spec_next_depth(0), None, initial_state()).cur as int
}

/// The graph of a body is the graph of its first children as far as the
/// blocks before the current one go, and those blocks cannot be come to from
/// the others.
proof fn lemma_lower_grown(body: SyntaxNode, cut: int)
    requires
        body.kind == NodeKind::Block,
        0 <= cut <= body.children.len(),
        lower(body).blocks.len() <= usize::MAX,
    ensures
        0 <= block_behind(body, cut) < lower(body).blocks.len(),
        lower(body).no_way_back(block_behind(body, cut)),
        lower(body).low_roots_agree(
            lower_first(body, cut, spec_next_depth(0), None, initial_state()).graph,
            block_behind(body, cut),
        ),
        forall|b: int|
            0 <= b < block_behind(body, cut) ==> #[trigger] lower(body).blocks[b] == lower_first(
                body,
                cut,
                spec_next_depth(0),
                None,
                initial_state(),
            ).graph.blocks[b],
{
    let inner = spec_next_depth(0);
    let st0 = initial_state();
    assert(st0.ok());
    let s = lower_first(body, cut, inner, None, st0);
    let k = s.cur as int;
    lemma_lower_first_ok(body, cut, inner, None, st0);
    lemma_lower_children_split(body, cut, inner, None, st0);
    lemma_lower_children_ok(body, cut, inner, None, s);
    let s_rest = lower_children(body, cut, inner, None, s);
    let scope_end = spec_stmt_of(body, StmtKind::ScopeExit, inner);
    let ret = spec_stmt_of(body, StmtKind::Return, 0);
    let c1 = s_rest.emit(scope_end);
    let t = c1.next_id();
    let c2 = c1.add_block(Some(ExitKind::Return));
    let c3 = c2.add_stmt(t, ret);
    let last = c3.add_edge(c1.cur, t, EdgeKind::Unconditional);
    assert(lower(body) == last.graph);
    assert(last.graph.blocks.len() == s_rest.graph.blocks.len() + 1);
    lemma_lower_first_fresh(body, cut, inner);
    assert(s.graph.no_way_back(k)) by {
        assert forall|b: int, e: int|
            k <= b < s.graph.blocks.len() && 0 <= e < s.graph.blocks[b].edges.len() implies (
        #[trigger] s.graph.blocks[b].edges[e]).target >= k by {}
    }
    assert(grown(s, s, k));
    assert(works_from(s, k, None));
    lemma_lower_children_grown(body, cut, inner, None, s, s, k);
    lemma_add_stmt_grown(s, s_rest, k, s_rest.cur, scope_end);
    lemma_add_block_grown(s, c1, k, Some(ExitKind::Return));
    lemma_add_stmt_grown(s, c2, k, t, ret);
    lemma_add_edge_grown(s, c3, k, c1.cur, t, EdgeKind::Unconditional);
    assert(grown(s, last, k));
}

/// A rule that watches the exits and flags none of the first `k` blocks has
/// findings about later blocks alone.
proof fn lemma_block_findings_behind(
    rule: RuleId,
    g: CfgModel,
    tr: TraceModel,
    k: int,
    upto: int,
    w: int,
)
    requires
        0 <= k,
        upto <= usize::MAX,
        block_findings(rule, g, tr, k).len() == 0,
        0 <= w < block_findings(rule, g, tr, upto).len(),
    ensures
        block_findings(rule, g, tr, upto)[w].evidence.last() >= k,
    decreases upto,
{
    if upto > k {
        let before = block_findings(rule, g, tr, upto - 1);
        if w < before.len() {
            lemma_block_findings_behind(rule, g, tr, k, upto - 1, w);
        } else {
            lemma_path_to_ends(tr, (upto - 1) as usize);
        }
    } else {
        lemma_block_findings_shorter(rule, g, tr, upto, k);
    }
}

/// The findings about the first blocks are among the findings about more
/// blocks.
proof fn lemma_block_findings_shorter(rule: RuleId, g: CfgModel, tr: TraceModel, upto: int, k: int)
    requires
        upto <= k,
    ensures
        block_findings(rule, g, tr, upto).len() <= block_findings(rule, g, tr, k).len(),
    decreases k - upto,
{
    if upto < k {
        lemma_block_findings_shorter(rule, g, tr, upto, k - 1);
    }
}

/// The findings about the unwraps of the first blocks are among the findings
/// about the unwraps of more blocks.
proof fn lemma_unwrap_findings_shorter(g: CfgModel, tr: TraceModel, upto: int, k: int)
    requires
        upto <= k,
    ensures
        unwrap_findings(g, tr, upto).len() <= unwrap_findings(g, tr, k).len(),
    decreases k - upto,
{
    if upto < k {
        lemma_unwrap_findings_shorter(g, tr, upto, k - 1);
    }
}

/// The findings about the unwraps of a block give paths to that block as
/// evidence.
proof fn lemma_stmt_findings_about(g: CfgModel, tr: TraceModel, b: usize, upto: int, w: int)
    requires
        0 <= w < stmt_findings(g, tr, b as int, upto).len(),
    ensures
        stmt_findings(g, tr, b as int, upto)[w].evidence.last() == b,
    decreases upto,
{
    if upto > 0 {
        let before = stmt_findings(g, tr, b as int, upto - 1);
        if w < before.len() {
            lemma_stmt_findings_about(g, tr, b, upto - 1, w);
        } else {
            lemma_path_to_ends(tr, b);
        }
    }
}

/// Where no unwrap of the first `k` blocks is flagged, the findings about
/// unwraps are about later blocks alone.
proof fn lemma_unwrap_findings_behind(g: CfgModel, tr: TraceModel, k: int, upto: int, w: int)
    requires
        0 <= k,
        upto <= usize::MAX,
        unwrap_findings(g, tr, k).len() == 0,
        0 <= w < unwrap_findings(g, tr, upto).len(),
    ensures
        unwrap_findings(g, tr, upto)[w].evidence.last() >= k,
    decreases upto,
{
    if upto > k {
        let before = unwrap_findings(g, tr, upto - 1);
        if w < before.len() {
            lemma_unwrap_findings_behind(g, tr, k, upto - 1, w);
        } else {
            lemma_stmt_findings_about(
                g,
                tr,
                (upto - 1) as usize,
                g.blocks[upto - 1].stmts.len() as int,
                w - before.len(),
            );
        }
    } else {
        lemma_unwrap_findings_shorter(g, tr, upto, k);
    }
}

/// Rules that have no finding together have none each.
proof fn lemma_raw_findings_none(g: CfgModel, tr: TraceModel, rules: Seq<RuleId>, r: int)
    requires
        raw_findings(g, tr, rules).len() == 0,
        0 <= r < rules.len(),
    ensures
        spec_evaluate(rules[r], g, tr).len() == 0,
    decreases rules.len(),
{
    if r < rules.len() - 1 {
        lemma_raw_findings_none(g, tr, rules.drop_last(), r);
    }
}

/// Every finding of the rules together is the finding of one of them.
proof fn lemma_raw_findings_from(g: CfgModel, tr: TraceModel, rules: Seq<RuleId>, w: int)
    requires
        0 <= w < raw_findings(g, tr, rules).len(),
    ensures
        exists|r: int, v: int|
            0 <= r < rules.len() && 0 <= v < spec_evaluate(rules[r], g, tr).len()
                && #[trigger] spec_evaluate(rules[r], g, tr)[v] == raw_findings(g, tr, rules)[w],
    decreases rules.len(),
{
    if rules.len() > 0 {
        let before = raw_findings(g, tr, rules.drop_last());
        let last = spec_evaluate(rules.last(), g, tr);
        if w < before.len() {
            lemma_raw_findings_from(g, tr, rules.drop_last(), w);
            let (r, v) = choose|r: int, v: int|
                0 <= r < rules.drop_last().len() && 0 <= v < spec_evaluate(
                    rules.drop_last()[r],
                    g,
                    tr,
                ).len() && #[trigger] spec_evaluate(rules.drop_last()[r], g, tr)[v] == before[w];
            assert(spec_evaluate(rules[r], g, tr)[v] == raw_findings(g, tr, rules)[w]);
        } else {
            let r = rules.len() - 1;
            let v = w - before.len();
            assert(spec_evaluate(rules[r], g, tr)[v] == raw_findings(g, tr, rules)[w]);
        }
    }
}

/// What was found before stays what it was when code is added behind. Let
/// `shorter` be a block with the first `cut` children of the block `body`.
/// Then every rule has the same findings, apart from the path that each
/// gives as evidence, about the blocks that those children are lowered to:
/// about every exit among them, and about every unwrap in them. What follows
/// those children in `body` adds nothing to them and takes nothing away.
pub proof fn law_code_behind_leaves_what_was_found(
    body: SyntaxNode,
    shorter: SyntaxNode,
    cut: int,
    tr: TraceModel,
    tr_shorter: TraceModel,
    rule: RuleId,
)
    requires
        body.kind == NodeKind::Block,
        shorter.kind == NodeKind::Block,
        0 <= cut <= body.children.len(),
        shorter.children@ == body.children@.take(cut),
        lower(body).sized(),
        lower(shorter).sized(),
        is_trace_of(lower(body), tr),
        tr.complete,
        is_trace_of(lower(shorter), tr_shorter),
        tr_shorter.complete,
    ensures
        sites(block_findings(rule, lower(body), tr, block_behind(body, cut))) == sites(
            block_findings(rule, lower(shorter), tr_shorter, block_behind(body, cut)),
        ),
        sites(unwrap_findings(lower(body), tr, block_behind(body, cut))) == sites(
            unwrap_findings(lower(shorter), tr_shorter, block_behind(body, cut)),
        ),
        0 <= block_behind(body, cut) < lower(body).blocks.len(),
        block_behind(body, cut) < lower(shorter).blocks.len(),
{
    let inner = spec_next_depth(0);
    let st0 = initial_state();
    let k = block_behind(body, cut);
    let s = lower_first(body, cut, inner, None, st0);
    lemma_lower_first_same(body, shorter, cut, inner, None, st0);
    assert(block_behind(shorter, cut) == k);
    lemma_lower_grown(body, cut);
    lemma_lower_grown(shorter, cut);
    let g = lower(body);
    let g0 = lower(shorter);
    assert(g.blocks_agree_below(g0, k)) by {
        assert forall|b: int| 0 <= b < k implies #[trigger] g.blocks[b] == g0.blocks[b] by {
            assert(g.blocks[b] == s.graph.blocks[b]);
            assert(g0.blocks[b] == s.graph.blocks[b]);
        }
    }
    assert(g0.blocks_agree_below(g, k)) by {
        assert forall|b: int| 0 <= b < k implies #[trigger] g0.blocks[b] == g.blocks[b] by {
            assert(g.blocks[b] == s.graph.blocks[b]);
            assert(g0.blocks[b] == s.graph.blocks[b]);
        }
    }
    assert(g.low_roots_agree(g0, k));
    assert(g0.low_roots_agree(g, k));
    assert(alike_before(g, tr, g0, tr_shorter, k));
    lemma_block_findings_before(rule, g, tr, g0, tr_shorter, k, k);
    lemma_unwrap_findings_before(g, tr, g0, tr_shorter, k, k);
}

/// Code that is added behind cannot spoil what was clean before. Where the
/// verdict on the first `cut` children of a body is clean, every finding
/// about the whole body is about the code behind those children: about a
/// block to which none of them was lowered.
pub proof fn law_code_behind_cannot_spoil_what_was_clean(
    body: SyntaxNode,
    shorter: SyntaxNode,
    cut: int,
    tr: TraceModel,
    tr_shorter: TraceModel,
    rules: Seq<RuleId>,
    w: int,
)
    requires
        body.kind == NodeKind::Block,
        shorter.kind == NodeKind::Block,
        0 <= cut <= body.children.len(),
        shorter.children@ == body.children@.take(cut),
        lower(body).sized(),
        lower(shorter).sized(),
        is_trace_of(lower(body), tr),
        tr.complete,
        is_trace_of(lower(shorter), tr_shorter),
        tr_shorter.complete,
        spec_judge(lower(shorter), tr_shorter, rules) == VerdictModel::Clean,
        spec_judge(lower(body), tr, rules) is Buggy,
        0 <= w < spec_judge(lower(body), tr, rules)->Buggy_0.len(),
    ensures
        spec_judge(lower(body), tr, rules)->Buggy_0[w].evidence.last() >= block_behind(body, cut),
{
    let g = lower(body);
    let g0 = lower(shorter);
    let k = block_behind(body, cut);
    let raw = raw_findings(g, tr, rules);
    let raw0 = raw_findings(g0, tr_shorter, rules);
    let f = spec_judge(g, tr, rules)->Buggy_0[w];
    law_verdict_is_ordered_and_unique(raw);
    law_verdict_is_ordered_and_unique(raw0);
    assert(raw.contains(f));
    let at = choose|at: int| 0 <= at < raw.len() && raw[at] == f;
    lemma_raw_findings_from(g, tr, rules, at);
    let (r, v) = choose|r: int, v: int|
        0 <= r < rules.len() && 0 <= v < spec_evaluate(rules[r], g, tr).len()
            && #[trigger] spec_evaluate(rules[r], g, tr)[v] == raw[at];
    let rule = rules[r];
    lemma_raw_findings_none(g0, tr_shorter, rules, r);
    law_code_behind_leaves_what_was_found(body, shorter, cut, tr, tr_shorter, rule);
    let n = g.blocks.len() as int;
    let n0 = g0.blocks.len() as int;
    if rule == RuleId::UncheckedUnwrap {
        lemma_unwrap_findings_shorter(g0, tr_shorter, k, n0);
        assert(unwrap_findings(g0, tr_shorter, k).len() == 0);
        assert(sites(unwrap_findings(g, tr, k)).len() == 0);
        assert(unwrap_findings(g, tr, k).len() == sites(unwrap_findings(g, tr, k)).len());
        lemma_unwrap_findings_behind(g, tr, k, n, v);
    } else {
        lemma_block_findings_shorter(rule, g0, tr_shorter, k, n0);
        assert(block_findings(rule, g0, tr_shorter, k).len() == 0);
        assert(sites(block_findings(rule, g, tr, k)).len() == 0);
        assert(block_findings(rule, g, tr, k).len() == sites(block_findings(rule, g, tr, k)).len());
        lemma_block_findings_behind(rule, g, tr, k, n, v);
    }
}

} // verus!
