//! Code that control cannot come to has no say in the verdict.
//!
//! Two graphs that agree on a part that holds every root and that no edge
//! leaves are judged alike: the one is clean exactly when the other is.
use vstd::prelude::*;
use crate::aggregate::{law_verdict_is_ordered_and_unique, VerdictModel};
use crate::cfg::{CfgModel, EdgeKind, StmtKind};
use crate::engine::{is_trace_of, raw_findings, spec_judge};
use crate::lower::{
    header_ok, initial_state, lemma_add_edges_ok, lemma_lower_arms_ok, lemma_lower_children_ok,
    lemma_lower_node_ok, lower, lower_arms, lower_children, lower_node, sources_ok, spec_arm_edge,
    spec_next_depth, spec_stmt_of, BuildState,
};
use crate::resource::ExitKind;
use crate::syntax::{NodeKind, SyntaxNode};
use crate::rules::{
    block_findings, flags_block, flags_stmt, spec_evaluate, spec_unchecked,
    stmt_findings, unwrap_findings, RuleId,
};
use crate::scope::{
    block_handles, handles, handles_upto, held_along, held_through,
    lemma_block_handles_valid, lemma_path_extend, lemma_path_prefix, may_hold_at_entry,
    ResourceHandle, TraceModel,
};

verus! {

impl CfgModel {
    /// Whether the graph fits the machine: the number of its blocks and the
    /// number of statements of each block are numbers that an index can hold.
    /// Every graph in memory does.
    pub open spec fn sized(self) -> bool {
        &&& self.blocks.len() <= usize::MAX
        &&& forall|b: int|
            0 <= b < self.blocks.len() ==> (#[trigger] self.blocks[b]).stmts.len() <= usize::MAX
    }

    /// Whether the first `k` blocks hold every root and are left by no edge.
    pub open spec fn closed_below(self, k: int) -> bool {
        &&& 0 <= k <= self.blocks.len()
        &&& forall|r: int| 0 <= r < self.roots.len() ==> #[trigger] self.roots[r] < k
        &&& forall|b: int, e: int|
            0 <= b < k && 0 <= e < self.blocks[b].edges.len() ==> (
            #[trigger] self.blocks[b].edges[e]).target < k
    }

    /// Whether `self` and `other` have the same first `k` blocks.
    pub open spec fn blocks_agree_below(self, other: CfgModel, k: int) -> bool {
        &&& 0 <= k <= self.blocks.len()
        &&& k <= other.blocks.len()
        &&& forall|b: int| 0 <= b < k ==> #[trigger] self.blocks[b] == other.blocks[b]
    }

    /// Whether `self` and `other` have the same roots and the same first `k`
    /// blocks.
    pub open spec fn agrees_below(self, other: CfgModel, k: int) -> bool {
        &&& self.blocks_agree_below(other, k)
        &&& self.roots == other.roots
    }
}

/// A path of a graph whose first `k` blocks are closed stays among them, and
/// is a path of every graph that agrees on them.
pub proof fn lemma_path_within(g1: CfgModel, g2: CfgModel, k: int, path: Seq<usize>)
    requires
        g1.closed_below(k),
        g1.agrees_below(g2, k),
        g1.is_path(path),
    ensures
        forall|i: int| 0 <= i < path.len() ==> #[trigger] path[i] < k,
        g2.is_path(path),
    decreases path.len(),
{
    let r = choose|r: int| 0 <= r < g1.roots.len() && g1.roots[r] == path[0];
    assert(g1.roots[r] < k);
    if path.len() == 1 {
        assert(g2.roots.contains(path[0]));
    } else {
        lemma_path_prefix(g1, path);
        let q = path.drop_last();
        lemma_path_within(g1, g2, k, q);
        let a = q.last() as int;
        let b = path.last();
        assert(q[q.len() - 1] < k);
        let e = choose|e: int|
            0 <= e < g1.blocks[a].edges.len() && #[trigger] g1.blocks[a].edges[e].target == b;
        assert(g1.blocks[a].edges[e].target < k);
        assert(g1.blocks[a] == g2.blocks[a]);
        assert(g2.blocks[a].edges[e].target == b);
        lemma_path_extend(g2, q, b);
        assert(q.push(b) =~= path);
    }
}

/// Two graphs with the same block `b` hold the same behind it.
pub proof fn lemma_held_through_same(
    g1: CfgModel,
    g2: CfgModel,
    b: int,
    h: ResourceHandle,
    upto: int,
    held: bool,
)
    requires
        g1.blocks[b] == g2.blocks[b],
    ensures
        held_through(g1, b, h, upto, held) == held_through(g2, b, h, upto, held),
    decreases upto,
{
    if upto > 0 {
        lemma_held_through_same(g1, g2, b, h, upto - 1, held);
    }
}

/// Two graphs that agree on the blocks of a path hold the same behind it.
pub proof fn lemma_held_along_same(
    g1: CfgModel,
    g2: CfgModel,
    k: int,
    path: Seq<usize>,
    h: ResourceHandle,
)
    requires
        g1.blocks_agree_below(g2, k),
        forall|i: int| 0 <= i < path.len() ==> #[trigger] path[i] < k,
    ensures
        held_along(g1, path, h) == held_along(g2, path, h),
    decreases path.len(),
{
    if path.len() > 0 {
        lemma_held_along_same(g1, g2, k, path.drop_last(), h);
        let b = path.last() as int;
        assert(path[path.len() - 1] < k);
        assert(g1.blocks[b] == g2.blocks[b]);
        lemma_held_through_same(
            g1,
            g2,
            b,
            h,
            g1.blocks[b].stmts.len() as int,
            held_along(g1, path.drop_last(), h),
        );
    }
}

/// A block behind which a resource is held that was not held before it is
/// the block that acquires the resource.
pub proof fn lemma_held_through_origin(g: CfgModel, b: usize, h: ResourceHandle, upto: int)
    requires
        held_through(g, b as int, h, upto, false),
    ensures
        h.origin == b,
    decreases upto,
{
    if upto > 0 {
        if held_through(g, b as int, h, upto - 1, false) {
            lemma_held_through_origin(g, b, h, upto - 1);
        }
    }
}

/// A resource is only held behind a path that leads through the block that
/// acquires it.
pub proof fn lemma_held_needs_origin(g: CfgModel, path: Seq<usize>, h: ResourceHandle)
    requires
        held_along(g, path, h),
    ensures
        exists|j: int| 0 <= j < path.len() && #[trigger] path[j] == h.origin,
    decreases path.len(),
{
    let q = path.drop_last();
    if held_along(g, q, h) {
        lemma_held_needs_origin(g, q, h);
        let j = choose|j: int| 0 <= j < q.len() && #[trigger] q[j] == h.origin;
        assert(path[j] == h.origin);
    } else {
        let b = path.last();
        crate::scope::lemma_held_through_monotone(g, b as int, h, 0);
        lemma_held_through_origin(g, b, h, g.blocks[b as int].stmts.len() as int);
        assert(path[path.len() - 1] == h.origin);
    }
}

/// Two graphs with the same block `b` have the same handles in it.
pub proof fn lemma_block_handles_same(g1: CfgModel, g2: CfgModel, b: int, upto: int)
    requires
        g1.blocks[b] == g2.blocks[b],
    ensures
        block_handles(g1, b, upto) == block_handles(g2, b, upto),
    decreases upto,
{
    if upto > 0 {
        lemma_block_handles_same(g1, g2, b, upto - 1);
    }
}

/// Two graphs that agree on their first `k` blocks have the same handles in
/// them.
pub proof fn lemma_handles_same(g1: CfgModel, g2: CfgModel, k: int, upto: int)
    requires
        g1.blocks_agree_below(g2, k),
        upto <= k,
    ensures
        handles_upto(g1, upto) == handles_upto(g2, upto),
    decreases upto,
{
    if upto > 0 {
        lemma_handles_same(g1, g2, k, upto - 1);
        assert(g1.blocks[upto - 1] == g2.blocks[upto - 1]);
        lemma_block_handles_same(g1, g2, upto - 1, g1.blocks[upto - 1].stmts.len() as int);
    }
}

/// The handles of the first `upto` blocks begin with the handles of the
/// first `k` blocks, and the others belong to later blocks.
pub proof fn lemma_handles_extend(g: CfgModel, k: int, upto: int)
    requires
        g.sized(),
        0 <= k <= upto <= g.blocks.len(),
    ensures
        handles_upto(g, k).len() <= handles_upto(g, upto).len(),
        forall|j: int|
            0 <= j < handles_upto(g, k).len() ==> #[trigger] handles_upto(g, upto)[j]
                == handles_upto(g, k)[j],
        forall|j: int|
            handles_upto(g, k).len() <= j < handles_upto(g, upto).len() ==> (
            #[trigger] handles_upto(g, upto)[j]).origin >= k,
    decreases upto,
{
    if upto > k {
        lemma_handles_extend(g, k, upto - 1);
        let before = handles_upto(g, upto - 1);
        let added = block_handles(g, upto - 1, g.blocks[upto - 1].stmts.len() as int);
        assert forall|j: int|
            handles_upto(g, k).len() <= j < handles_upto(g, upto).len() implies (
        #[trigger] handles_upto(g, upto)[j]).origin >= k by {
            if j >= before.len() {
                lemma_block_handles_valid(
                    g,
                    upto - 1,
                    g.blocks[upto - 1].stmts.len() as int,
                    j - before.len(),
                );
            } else {
                assert(handles_upto(g, upto)[j] == before[j]);
            }
        }
    }
}

/// What may be held at the entry of a block of the closed part of a graph is
/// a handle of that part, and may be held there in every graph that agrees
/// on the part.
pub proof fn lemma_may_hold_same(g1: CfgModel, g2: CfgModel, k: int, b: int, j: int)
    requires
        g1.sized(),
        g2.sized(),
        g1.closed_below(k),
        g1.agrees_below(g2, k),
        0 <= j < handles(g1).len(),
        may_hold_at_entry(g1, b, handles(g1)[j]),
    ensures
        0 <= b < k,
        j < handles(g2).len(),
        handles(g2)[j] == handles(g1)[j],
        may_hold_at_entry(g2, b, handles(g2)[j]),
{
    let h = handles(g1)[j];
    let p = choose|path: Seq<usize>|
        #[trigger] g1.is_path(path) && g1.has_edge(path.last() as int, b) && held_along(
            g1,
            path,
            h,
        );
    lemma_path_within(g1, g2, k, p);
    let a = p.last() as int;
    assert(p[p.len() - 1] < k);
    let e = choose|e: int|
        0 <= e < g1.blocks[a].edges.len() && #[trigger] g1.blocks[a].edges[e].target == b;
    assert(g1.blocks[a].edges[e].target < k);
    assert(g1.blocks[a] == g2.blocks[a]);
    assert(g2.blocks[a].edges[e].target == b);
    lemma_held_along_same(g1, g2, k, p, h);
    lemma_held_needs_origin(g1, p, h);
    let at = choose|at: int| 0 <= at < p.len() && #[trigger] p[at] == h.origin;
    assert(h.origin < k);
    lemma_handles_extend(g1, k, g1.blocks.len() as int);
    lemma_handles_extend(g2, k, g2.blocks.len() as int);
    lemma_handles_same(g1, g2, k, k);
    assert(j < handles_upto(g1, k).len());
    assert(g2.is_path(p) && g2.has_edge(p.last() as int, b) && held_along(g2, p, h));
}

/// What is reachable in the closed part of a graph is reachable in every
/// graph that agrees on the part.
pub proof fn lemma_reachable_same(g1: CfgModel, g2: CfgModel, k: int, b: int)
    requires
        g1.closed_below(k),
        g1.agrees_below(g2, k),
        g1.reachable(b),
    ensures
        0 <= b < k,
        g2.reachable(b),
{
    let p = choose|path: Seq<usize>| #[trigger] g1.is_path(path) && path.last() == b;
    lemma_path_within(g1, g2, k, p);
    assert(p[p.len() - 1] < k);
    assert(g2.is_path(p) && p.last() == b);
}

/// A block that a rule flags in one graph is flagged in every graph that
/// agrees with it on a closed part.
pub proof fn lemma_flags_block_same(
    rule: RuleId,
    g1: CfgModel,
    tr1: TraceModel,
    g2: CfgModel,
    tr2: TraceModel,
    k: int,
    b: int,
)
    requires
        g1.sized(),
        g2.sized(),
        g1.closed_below(k),
        g1.agrees_below(g2, k),
        tr1.shaped(g1),
        tr1.handles == handles(g1),
        tr1.exact(g1),
        tr2.shaped(g2),
        tr2.handles == handles(g2),
        tr2.exact(g2),
        0 <= b < g1.blocks.len(),
        flags_block(rule, g1, tr1, b),
    ensures
        0 <= b < k,
        flags_block(rule, g2, tr2, b),
{
    lemma_reachable_same(g1, g2, k, b);
    assert(g1.blocks[b] == g2.blocks[b]);
    let j = choose|j: int|
        0 <= j < tr1.handles.len() && #[trigger] tr1.live_in[b][j] && tr1.handles[j].kind
            == rule.spec_watches();
    lemma_may_hold_same(g1, g2, k, b, j);
    assert(tr2.live_in[b][j]);
}

/// Two graphs that agree on their first `k` blocks agree on what is
/// unchecked in them.
pub proof fn lemma_unchecked_same(
    g1: CfgModel,
    g2: CfgModel,
    k: int,
    b: int,
    i: int,
    x: u32,
    limit: int,
)
    requires
        g1.blocks_agree_below(g2, k),
        b < k,
    ensures
        spec_unchecked(g1, b, i, x, limit) == spec_unchecked(g2, b, i, x, limit),
    decreases b, i,
{
    if b < 0 {
    } else {
        assert(g1.blocks[b] == g2.blocks[b]);
        if 0 < i <= g1.blocks[b].stmts.len() {
            let stmt = g1.blocks[b].stmts[i - 1];
            if stmt.kind == crate::cfg::StmtKind::ScopeExit {
                lemma_unchecked_same(
                    g1,
                    g2,
                    k,
                    b,
                    i - 1,
                    x,
                    if stmt.depth < limit {
                        stmt.depth as int
                    } else {
                        limit
                    },
                );
            } else {
                lemma_unchecked_same(g1, g2, k, b, i - 1, x, limit);
            }
        } else if b > 0 {
            assert(g1.blocks[b - 1] == g2.blocks[b - 1]);
            lemma_unchecked_same(g1, g2, k, b - 1, g1.blocks[b - 1].stmts.len() as int, x, limit);
        }
    }
}

/// A rule that watches the exits and has no finding flags no block.
pub proof fn lemma_block_findings_none(
    rule: RuleId,
    g: CfgModel,
    tr: TraceModel,
    upto: int,
    b: int,
)
    requires
        block_findings(rule, g, tr, upto).len() == 0,
        0 <= b < upto,
    ensures
        !flags_block(rule, g, tr, b),
    decreases upto,
{
    if b < upto - 1 {
        lemma_block_findings_none(rule, g, tr, upto - 1, b);
    }
}

/// A rule that watches the exits and flags no block has no finding.
pub proof fn lemma_block_findings_empty(rule: RuleId, g: CfgModel, tr: TraceModel, upto: int)
    requires
        forall|b: int| 0 <= b < upto ==> !flags_block(rule, g, tr, b),
    ensures
        block_findings(rule, g, tr, upto).len() == 0,
    decreases upto,
{
    if upto > 0 {
        lemma_block_findings_empty(rule, g, tr, upto - 1);
    }
}

/// Where no unwrap of a block is reported, none is flagged.
pub proof fn lemma_stmt_findings_none(g: CfgModel, tr: TraceModel, b: int, upto: int, i: int)
    requires
        stmt_findings(g, tr, b, upto).len() == 0,
        0 <= i < upto,
    ensures
        !flags_stmt(g, tr, b, i),
    decreases upto,
{
    if i < upto - 1 {
        lemma_stmt_findings_none(g, tr, b, upto - 1, i);
    }
}

/// Where no unwrap of a block is flagged, none is reported.
pub proof fn lemma_stmt_findings_empty(g: CfgModel, tr: TraceModel, b: int, upto: int)
    requires
        forall|i: int| 0 <= i < upto ==> !flags_stmt(g, tr, b, i),
    ensures
        stmt_findings(g, tr, b, upto).len() == 0,
    decreases upto,
{
    if upto > 0 {
        lemma_stmt_findings_empty(g, tr, b, upto - 1);
    }
}

/// Where no unwrap is reported, none is flagged in any block.
pub proof fn lemma_unwrap_findings_none(g: CfgModel, tr: TraceModel, upto: int, b: int, i: int)
    requires
        unwrap_findings(g, tr, upto).len() == 0,
        0 <= b < upto,
        0 <= i < g.blocks[b].stmts.len(),
    ensures
        !flags_stmt(g, tr, b, i),
    decreases upto,
{
    if b < upto - 1 {
        lemma_unwrap_findings_none(g, tr, upto - 1, b, i);
    } else {
        lemma_stmt_findings_none(g, tr, b, g.blocks[b].stmts.len() as int, i);
    }
}

/// Where no unwrap is flagged in any block, none is reported.
pub proof fn lemma_unwrap_findings_empty(g: CfgModel, tr: TraceModel, upto: int)
    requires
        forall|b: int, i: int|
            0 <= b < upto && 0 <= i < g.blocks[b].stmts.len() ==> !flags_stmt(g, tr, b, i),
    ensures
        unwrap_findings(g, tr, upto).len() == 0,
    decreases upto,
{
    if upto > 0 {
        lemma_unwrap_findings_empty(g, tr, upto - 1);
        lemma_stmt_findings_empty(g, tr, upto - 1, g.blocks[upto - 1].stmts.len() as int);
    }
}

/// A rule without a finding in one graph has none in a graph that agrees
/// with the first on a part of its own that is closed.
pub proof fn lemma_evaluate_same(
    rule: RuleId,
    g1: CfgModel,
    tr1: TraceModel,
    g2: CfgModel,
    tr2: TraceModel,
    k: int,
)
    requires
        g1.sized(),
        g2.sized(),
        g2.closed_below(k),
        g2.agrees_below(g1, k),
        tr1.shaped(g1),
        tr1.handles == handles(g1),
        tr1.exact(g1),
        tr2.shaped(g2),
        tr2.handles == handles(g2),
        tr2.exact(g2),
        spec_evaluate(rule, g1, tr1).len() == 0,
    ensures
        spec_evaluate(rule, g2, tr2).len() == 0,
{
    let n1 = g1.blocks.len() as int;
    let n2 = g2.blocks.len() as int;
    if rule == RuleId::UncheckedUnwrap {
        assert forall|b: int, i: int|
            0 <= b < n2 && 0 <= i < g2.blocks[b].stmts.len() implies !flags_stmt(g2, tr2, b, i) by {
            if flags_stmt(g2, tr2, b, i) {
                lemma_reachable_same(g2, g1, k, b);
                assert(g2.blocks[b] == g1.blocks[b]);
                lemma_unchecked_same(
                    g2,
                    g1,
                    k,
                    b,
                    i,
                    g2.blocks[b].stmts[i].binding,
                    crate::rules::open_limit(),
                );
                assert(tr1.reached[b]);
                assert(flags_stmt(g1, tr1, b, i));
                lemma_unwrap_findings_none(g1, tr1, n1, b, i);
            }
        }
        lemma_unwrap_findings_empty(g2, tr2, n2);
    } else {
        assert forall|b: int| 0 <= b < n2 implies !flags_block(rule, g2, tr2, b) by {
            if flags_block(rule, g2, tr2, b) {
                lemma_flags_block_same(rule, g2, tr2, g1, tr1, k, b);
                lemma_block_findings_none(rule, g1, tr1, n1, b);
            }
        }
        lemma_block_findings_empty(rule, g2, tr2, n2);
    }
}

/// Where the rules have no finding in one graph, they have none in a graph
/// that agrees with the first on a part of its own that is closed.
pub proof fn lemma_raw_findings_same(
    g1: CfgModel,
    tr1: TraceModel,
    g2: CfgModel,
    tr2: TraceModel,
    k: int,
    rules: Seq<RuleId>,
)
    requires
        g1.sized(),
        g2.sized(),
        g2.closed_below(k),
        g2.agrees_below(g1, k),
        tr1.shaped(g1),
        tr1.handles == handles(g1),
        tr1.exact(g1),
        tr2.shaped(g2),
        tr2.handles == handles(g2),
        tr2.exact(g2),
        raw_findings(g1, tr1, rules).len() == 0,
    ensures
        raw_findings(g2, tr2, rules).len() == 0,
    decreases rules.len(),
{
    if rules.len() > 0 {
        lemma_raw_findings_same(g1, tr1, g2, tr2, k, rules.drop_last());
        lemma_evaluate_same(rules.last(), g1, tr1, g2, tr2, k);
    }
}

/// What control cannot come to cannot spoil a clean verdict. Two graphs that
/// agree on a part that holds every root and that no edge leaves are both
/// clean or both not, whatever else they hold.
pub proof fn law_unreached_code_is_not_judged(
    g1: CfgModel,
    tr1: TraceModel,
    g2: CfgModel,
    tr2: TraceModel,
    k: int,
    rules: Seq<RuleId>,
)
    requires
        g1.sized(),
        g2.sized(),
        g1.closed_below(k),
        g1.agrees_below(g2, k),
        tr1.shaped(g1),
        tr1.handles == handles(g1),
        tr1.exact(g1),
        tr2.shaped(g2),
        tr2.handles == handles(g2),
        tr2.exact(g2),
    ensures
        spec_judge(g1, tr1, rules) == VerdictModel::Clean <==> spec_judge(g2, tr2, rules)
            == VerdictModel::Clean,
{
    law_verdict_is_ordered_and_unique(raw_findings(g1, tr1, rules));
    law_verdict_is_ordered_and_unique(raw_findings(g2, tr2, rules));
    assert(g2.closed_below(k)) by {
        assert forall|b: int, e: int|
            0 <= b < k && 0 <= e < g2.blocks[b].edges.len() implies (
        #[trigger] g2.blocks[b].edges[e]).target < k by {
            assert(g1.blocks[b] == g2.blocks[b]);
            assert(g1.blocks[b].edges[e].target < k);
        }
    }
    assert(g2.agrees_below(g1, k)) by {
        assert forall|b: int| 0 <= b < k implies #[trigger] g2.blocks[b] == g1.blocks[b] by {
            assert(g1.blocks[b] == g2.blocks[b]);
        }
    }
    if raw_findings(g1, tr1, rules).len() == 0 {
        lemma_raw_findings_same(g1, tr1, g2, tr2, k, rules);
    }
    if raw_findings(g2, tr2, rules).len() == 0 {
        lemma_raw_findings_same(g2, tr2, g1, tr1, k, rules);
    }
}

/// The state behind the first `count` children of `node`, lowered one after
/// the other.
pub open spec fn lower_first(
    node: SyntaxNode,
    count: int,
    depth: u32,
    header: Option<usize>,
    st: BuildState,
) -> BuildState
    decreases count,
{
    if 0 < count <= node.children.len() {
        lower_node(
            node.children[count - 1],
            depth,
            header,
            lower_first(node, count - 1, depth, header, st),
        )
    } else {
        st
    }
}

/// Lowering the first children keeps the invariant of the builder.
pub proof fn lemma_lower_first_ok(
    node: SyntaxNode,
    count: int,
    depth: u32,
    header: Option<usize>,
    st: BuildState,
)
    requires
        st.ok(),
        header_ok(header, st),
    ensures
        lower_first(node, count, depth, header, st).ok(),
        lower_first(node, count, depth, header, st).graph.blocks.len() >= st.graph.blocks.len(),
    decreases count,
{
    if 0 < count <= node.children.len() {
        lemma_lower_first_ok(node, count - 1, depth, header, st);
        lemma_lower_node_ok(
            node.children[count - 1],
            depth,
            header,
            lower_first(node, count - 1, depth, header, st),
        );
    }
}

/// Lowering all children is lowering the first ones and then the others.
pub proof fn lemma_lower_children_split(
    node: SyntaxNode,
    count: int,
    depth: u32,
    header: Option<usize>,
    st: BuildState,
)
    requires
        0 <= count <= node.children.len(),
    ensures
        lower_children(node, 0, depth, header, st) == lower_children(
            node,
            count,
            depth,
            header,
            lower_first(node, count, depth, header, st),
        ),
    decreases count,
{
    if count > 0 {
        lemma_lower_children_split(node, count - 1, depth, header, st);
    }
}

/// Nodes with the same first children are lowered alike that far.
pub proof fn lemma_lower_first_same(
    a: SyntaxNode,
    b: SyntaxNode,
    count: int,
    depth: u32,
    header: Option<usize>,
    st: BuildState,
)
    requires
        0 <= count <= a.children.len(),
        count <= b.children.len(),
        forall|i: int| 0 <= i < count ==> a.children[i] == b.children[i],
    ensures
        lower_first(a, count, depth, header, st) == lower_first(b, count, depth, header, st),
    decreases count,
{
    if count > 0 {
        lemma_lower_first_same(a, b, count - 1, depth, header, st);
    }
}

/// Whether the builder works on code that control cannot come to, with
/// nothing left to do among the first `k` blocks.
pub open spec fn works_above(st: BuildState, k: int, header: Option<usize>) -> bool {
    &&& st.ok()
    &&& header_ok(header, st)
    &&& k <= st.cur
    &&& !st.live
    &&& header matches Some(h) ==> k <= h && forall|i: int|
        0 <= i < st.breaks.len() ==> k <= #[trigger] st.breaks[i]
}

/// Whether the builder has gone from `st` to `r` without a change to the
/// first `k` blocks or to the roots, and still works above them.
pub open spec fn kept_below(st: BuildState, r: BuildState, k: int, header: Option<usize>) -> bool {
    &&& works_above(r, k, header)
    &&& r.graph.roots == st.graph.roots
    &&& forall|b: int| 0 <= b < k ==> #[trigger] r.graph.blocks[b] == st.graph.blocks[b]
    &&& header is None ==> r.breaks == st.breaks
}

/// Edges between blocks above the first `k` leave those alone.
proof fn lemma_add_edges_above(
    st: BuildState,
    sources: Seq<usize>,
    to: usize,
    kind: EdgeKind,
    k: int,
)
    requires
        st.ok(),
        sources_ok(sources, st),
        to < st.graph.blocks.len(),
        forall|i: int| 0 <= i < sources.len() ==> k <= #[trigger] sources[i],
    ensures
        st.add_edges(sources, to, kind).graph.roots == st.graph.roots,
        forall|b: int|
            0 <= b < k ==> #[trigger] st.add_edges(sources, to, kind).graph.blocks[b]
                == st.graph.blocks[b],
    decreases sources.len(),
{
    if sources.len() > 0 {
        lemma_add_edges_ok(st, sources.drop_last(), to, kind);
        lemma_add_edges_above(st, sources.drop_last(), to, kind, k);
    }
}

/// A node that control cannot come to is lowered above the first `k` blocks.
proof fn lemma_lower_node_above(
    node: SyntaxNode,
    depth: u32,
    header: Option<usize>,
    st: BuildState,
    k: int,
)
    requires
        works_above(st, k, header),
        lower_node(node, depth, header, st).graph.blocks.len() <= usize::MAX,
    ensures
        kept_below(st, lower_node(node, depth, header, st), k, header),
    decreases node, 1nat, 0nat,
{
    lemma_lower_node_ok(node, depth, header, st);
    match node.kind {
        NodeKind::Block => {
            let inner = spec_next_depth(depth);
            lemma_lower_children_ok(node, 0, inner, header, st);
            lemma_lower_children_above(node, 0, inner, header, st, k);
        },
        NodeKind::Branch => {
            lemma_lower_arms_above(node, 0, depth, header, st.cur, st.live, Seq::empty(), st, k);
        },
        NodeKind::Loop => {
            let inner = spec_next_depth(depth);
            let marker = spec_stmt_of(node, StmtKind::ScopeExit, inner);
            let h = st.next_id();
            let s1 = st.add_block(None).add_stmt(h, marker).add_edge(
                st.cur,
                h,
                EdgeKind::Unconditional,
            );
            let b = s1.next_id();
            let s2 = s1.add_block(None).add_edge(h, b, EdgeKind::BranchTrue).at(
                b,
                st.live,
            ).with_breaks(Seq::empty());
            assert(s2.ok());
            lemma_lower_children_ok(node, 0, inner, Some(h), s2);
            let s3 = lower_children(node, 0, inner, Some(h), s2);
            let s4 = s3.with_breaks(st.breaks).add_edge(s3.cur, h, EdgeKind::LoopBack);
            let x = s4.next_id();
            let s5 = s4.add_block(None).add_stmt(x, marker).add_edge(h, x, EdgeKind::BranchFalse);
            assert(s5.ok());
            lemma_add_edges_ok(s5, s3.breaks, x, EdgeKind::EarlyExit(ExitKind::Break));
            assert(works_above(s2, k, Some(h)));
            lemma_lower_children_above(node, 0, inner, Some(h), s2, k);
            lemma_add_edges_above(s5, s3.breaks, x, EdgeKind::EarlyExit(ExitKind::Break), k);
        },
        NodeKind::Closure => {
            let inner = spec_next_depth(depth);
            let r = st.next_id();
            let s1 = st.add_block(None);
            let s2 = s1.at(r, st.live);
            assert(s2.ok());
            lemma_lower_children_ok(node, 0, inner, None, s2);
            assert(works_above(s2, k, None));
            lemma_lower_children_above(node, 0, inner, None, s2, k);
        },
        NodeKind::Return => {
            lemma_lower_children_ok(node, 0, depth, header, st);
            lemma_lower_children_above(node, 0, depth, header, st, k);
        },
        NodeKind::Panic => {
            lemma_lower_children_ok(node, 0, depth, header, st);
            lemma_lower_children_above(node, 0, depth, header, st, k);
        },
        NodeKind::Break => {},
        NodeKind::Continue => {},
        NodeKind::Other => {},
        _ => {
            lemma_lower_children_ok(node, 0, depth, header, st);
            lemma_lower_children_above(node, 0, depth, header, st, k);
        },
    }
}

/// Children that control cannot come to are lowered above the first `k`
/// blocks.
proof fn lemma_lower_children_above(
    node: SyntaxNode,
    from: int,
    depth: u32,
    header: Option<usize>,
    st: BuildState,
    k: int,
)
    requires
        0 <= from,
        works_above(st, k, header),
        lower_children(node, from, depth, header, st).graph.blocks.len() <= usize::MAX,
    ensures
        kept_below(st, lower_children(node, from, depth, header, st), k, header),
    decreases node, 0nat, node.children.len() - from,
{
    if 0 <= from < node.children.len() {
        let s1 = lower_node(node.children[from], depth, header, st);
        lemma_lower_node_ok(node.children[from], depth, header, st);
        lemma_lower_children_ok(node, from + 1, depth, header, s1);
        lemma_lower_node_above(node.children[from], depth, header, st, k);
        lemma_lower_children_above(node, from + 1, depth, header, s1, k);
    }
}

/// Alternatives that control cannot come to are lowered above the first `k`
/// blocks.
proof fn lemma_lower_arms_above(
    node: SyntaxNode,
    from: int,
    depth: u32,
    header: Option<usize>,
    entry: usize,
    live: bool,
    ends: Seq<usize>,
    st: BuildState,
    k: int,
)
    requires
        0 <= from,
        works_above(st, k, header),
        !live,
        k <= entry < st.graph.blocks.len(),
        sources_ok(ends, st),
        forall|i: int| 0 <= i < ends.len() ==> k <= #[trigger] ends[i],
        lower_arms(node, from, depth, header, entry, live, ends, st).graph.blocks.len()
            <= usize::MAX,
    ensures
        kept_below(st, lower_arms(node, from, depth, header, entry, live, ends, st), k, header),
    decreases node, 0nat, node.children.len() - from,
{
    if 0 <= from < node.children.len() {
        let inner = spec_next_depth(depth);
        let a = st.next_id();
        let s1 = st.add_block(None).add_edge(entry, a, spec_arm_edge(from)).at(a, live);
        assert(s1.ok());
        lemma_lower_node_ok(node.children[from], inner, header, s1);
        let s2 = lower_node(node.children[from], inner, header, s1).emit(
            spec_stmt_of(node.children[from], StmtKind::ScopeExit, inner),
        );
        assert(s2.ok());
        lemma_lower_arms_ok(node, from + 1, depth, header, entry, live, ends.push(s2.cur), s2);
        assert(works_above(s1, k, header));
        lemma_lower_node_above(node.children[from], inner, header, s1, k);
        lemma_lower_arms_above(
            node,
            from + 1,
            depth,
            header,
            entry,
            live,
            ends.push(s2.cur),
            s2,
            k,
        );
    } else {
        let j = st.next_id();
        let s1 = st.add_block(None);
        assert(s1.ok());
        if ends.len() > 0 {
            lemma_add_edges_ok(s1, ends, j, EdgeKind::Unconditional);
            lemma_add_edges_above(s1, ends, j, EdgeKind::Unconditional, k);
        }
    }
}

/// Code behind a `return` cannot spoil a clean verdict. Let `body` be a block
/// whose child before index `cut` returns, and `shorter` a block with the
/// children of `body` before `cut` alone. Then the two are judged alike:
/// what follows the `return` in `body`, whatever it holds, neither adds a
/// finding to a clean verdict nor takes one away.
pub proof fn law_code_behind_return_is_not_judged(
    body: SyntaxNode,
    shorter: SyntaxNode,
    cut: int,
    tr: TraceModel,
    tr_shorter: TraceModel,
    rules: Seq<RuleId>,
)
    requires
        body.kind == NodeKind::Block,
        shorter.kind == NodeKind::Block,
        0 < cut <= body.children.len(),
        shorter.children@ == body.children@.take(cut),
        body.children[cut - 1].kind == NodeKind::Return,
        lower(body).sized(),
        lower(shorter).sized(),
        is_trace_of(lower(body), tr),
        tr.complete,
        is_trace_of(lower(shorter), tr_shorter),
        tr_shorter.complete,
    ensures
        spec_judge(lower(shorter), tr_shorter, rules) == VerdictModel::Clean <==> spec_judge(
            lower(body),
            tr,
            rules,
        ) == VerdictModel::Clean,
{
    let inner = spec_next_depth(0);
    let st0 = initial_state();
    assert(st0.ok());
    let ret = body.children[cut - 1];
    // The state before the `return`, behind its operands, and behind it.
    let before = lower_first(body, cut - 1, inner, None, st0);
    lemma_lower_first_ok(body, cut - 1, inner, None, st0);
    let x = lower_children(ret, 0, inner, None, before);
    lemma_lower_children_ok(ret, 0, inner, None, before);
    let s = lower_first(body, cut, inner, None, st0);
    assert(s == x.leave(spec_stmt_of(ret, StmtKind::Return, inner), ExitKind::Return));
    lemma_lower_first_ok(body, cut, inner, None, st0);
    // The shorter body ends there.
    lemma_lower_first_same(body, shorter, cut, inner, None, st0);
    lemma_lower_children_split(shorter, cut, inner, None, st0);
    assert(lower_children(shorter, cut, inner, None, s) == s);
    let g0 = lower(shorter);
    assert(g0 == s.emit(spec_stmt_of(shorter, StmtKind::ScopeExit, inner)).finish(
        spec_stmt_of(shorter, StmtKind::Return, 0),
    ).graph);
    // The longer body goes on from there.
    lemma_lower_children_split(body, cut, inner, None, st0);
    let s_rest = lower_children(body, cut, inner, None, s);
    lemma_lower_children_ok(body, cut, inner, None, s);
    let g = lower(body);
    assert(g == s_rest.emit(spec_stmt_of(body, StmtKind::ScopeExit, inner)).finish(
        spec_stmt_of(body, StmtKind::Return, 0),
    ).graph);
    // Both graphs fit the machine, so no index has wrapped.
    assert(s_rest.graph.blocks.len() <= usize::MAX);
    assert(s.graph.blocks.len() <= usize::MAX);
    assert(x.graph.blocks.len() + 2 == s.graph.blocks.len());
    let k = s.cur as int;
    assert(k == x.graph.blocks.len() + 1);
    assert(works_above(s, k, None));
    lemma_lower_children_above(body, cut, inner, None, s, k);
    assert(kept_below(s, s_rest, k, None));
    // The part below the new current block is closed in the shorter graph.
    assert(g0.closed_below(k)) by {
        assert forall|b: int, e: int|
            0 <= b < k && 0 <= e < g0.blocks[b].edges.len() implies (
        #[trigger] g0.blocks[b].edges[e]).target < k by {
            if b < x.graph.blocks.len() && e < x.graph.blocks[b].edges.len() {
                assert(x.graph.blocks[b].edges[e].target < x.graph.blocks.len());
            }
        }
        assert forall|r: int| 0 <= r < g0.roots.len() implies #[trigger] g0.roots[r] < k by {
            assert(x.graph.roots[r] < x.graph.blocks.len());
        }
    }
    assert(g0.agrees_below(g, k)) by {
        assert forall|b: int| 0 <= b < k implies #[trigger] g0.blocks[b] == g.blocks[b] by {
            assert(s_rest.graph.blocks[b] == s.graph.blocks[b]);
        }
    }
    law_unreached_code_is_not_judged(g0, tr_shorter, g, tr, k, rules);
}

} // verus!
