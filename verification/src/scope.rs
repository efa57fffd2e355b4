//! The scope tracker: which resources may still be held where.
//!
//! Every acquisition in the graph gets a handle. A statement acquires a
//! handle, resolves it or leaves it alone; a handle is held behind a path if
//! the last statement on the path that touches it acquires it. The tracker
//! computes, for every block, the handles that are held behind some path from
//! a root to an edge into the block.
use vstd::prelude::*;
use crate::cfg::{Cfg, CfgModel, Stmt, StmtKind};
use crate::resource::{Event, ResourceKind, ResourceState};
use crate::syntax::Span;

verus! {

/// One instance of a tracked resource: the acquisition at statement `index`
/// of block `origin`.
#[derive(Clone, Copy, Debug, PartialEq, Eq, Structural)]
pub struct ResourceHandle {
    pub kind: ResourceKind,
    pub origin: usize,
    pub index: usize,
    pub binding: u32,
    /// The depth of the scope that the binding lives in.
    pub depth: u32,
    pub span: Span,
    pub state: ResourceState,
}

/// The handle of the acquisition `stmt`, which is statement `index` of block
/// `origin`.
pub open spec fn spec_handle_of(
    stmt: Stmt,
    kind: ResourceKind,
    origin: usize,
    index: usize,
) -> ResourceHandle {
    ResourceHandle {
        kind,
        origin,
        index,
        binding: stmt.binding,
        depth: stmt.depth,
        span: stmt.span,
        state: ResourceState::Acquired,
    }
}

/// The handles of the acquisitions among the first `upto` statements of
/// block `b`, in their order.
pub open spec fn block_handles(g: CfgModel, b: int, upto: int) -> Seq<ResourceHandle>
    decreases upto,
{
    if upto <= 0 {
        Seq::empty()
    } else {
        let before = block_handles(g, b, upto - 1);
        let stmt = g.blocks[b].stmts[upto - 1];
        match stmt.kind {
            StmtKind::Acquire(kind) => before.push(
                spec_handle_of(stmt, kind, b as usize, (upto - 1) as usize),
            ),
            _ => before,
        }
    }
}

/// The handles of the acquisitions in the first `upto` blocks, in the order
/// of the blocks and of their statements.
pub open spec fn handles_upto(g: CfgModel, upto: int) -> Seq<ResourceHandle>
    decreases upto,
{
    if upto <= 0 {
        Seq::empty()
    } else {
        handles_upto(g, upto - 1) + block_handles(
            g,
            upto - 1,
            g.blocks[upto - 1].stmts.len() as int,
        )
    }
}

/// The handles of all acquisitions of the graph, each in state `Acquired`.
pub open spec fn handles(g: CfgModel) -> Seq<ResourceHandle> {
    handles_upto(g, g.blocks.len() as int)
}

/// Lists the acquisitions of the graph.
pub fn collect_handles(cfg: &Cfg) -> (hs: Vec<ResourceHandle>)
    ensures
        hs@ == handles(cfg@),
{
    let mut hs: Vec<ResourceHandle> = Vec::new();
    let mut b: usize = 0;
    while b < cfg.blocks.len()
        invariant
            b <= cfg.blocks.len(),
            hs@ == handles_upto(cfg@, b as int),
        decreases cfg.blocks.len() - b,
    {
        let ghost before = hs@;
        let mut i: usize = 0;
        while i < cfg.blocks[b].stmts.len()
            invariant
                b < cfg.blocks.len(),
                i <= cfg.blocks[b as int].stmts.len(),
                before == handles_upto(cfg@, b as int),
                hs@ == before + block_handles(cfg@, b as int, i as int),
            decreases cfg.blocks[b as int].stmts.len() - i,
        {
            let stmt = cfg.blocks[b].stmts[i];
            match stmt.kind {
                StmtKind::Acquire(kind) => {
                    hs.push(
                        ResourceHandle {
                            kind,
                            origin: b,
                            index: i,
                            binding: stmt.binding,
                            depth: stmt.depth,
                            span: stmt.span,
                            state: ResourceState::Acquired,
                        },
                    );
                },
                _ => {},
            }
            i = i + 1;
            assert(hs@ =~= before + block_handles(cfg@, b as int, i as int));
        }
        b = b + 1;
    }
    hs
}

/// Whether `stmt` resolves the resource of handle `h`: a release, join, await
/// or abort of its binding resolves a lock or a task; a drop of its binding
/// and the end of its scope resolve what is scoped; a check of its binding
/// resolves an optional value.
pub open spec fn spec_resolves(stmt: Stmt, h: ResourceHandle) -> bool {
    match stmt.kind {
        StmtKind::Release => stmt.binding == h.binding && h.kind != ResourceKind::Optional,
        StmtKind::Discard => stmt.binding == h.binding && h.kind.scoped(),
        StmtKind::Check => stmt.binding == h.binding && h.kind == ResourceKind::Optional,
        StmtKind::ScopeExit => stmt.depth <= h.depth && h.kind.scoped(),
        _ => false,
    }
}

/// Executable form of [`spec_resolves`].
#[verifier::when_used_as_spec(spec_resolves)]
pub fn resolves(stmt: Stmt, h: ResourceHandle) -> (r: bool)
    ensures
        r == spec_resolves(stmt, h),
{
    match stmt.kind {
        StmtKind::Release => stmt.binding == h.binding && match h.kind {
            ResourceKind::Optional => false,
            _ => true,
        },
        StmtKind::Discard => stmt.binding == h.binding && h.kind.scoped(),
        StmtKind::Check => stmt.binding == h.binding && match h.kind {
            ResourceKind::Optional => true,
            _ => false,
        },
        StmtKind::ScopeExit => stmt.depth <= h.depth && h.kind.scoped(),
        _ => false,
    }
}

/// What statement `index` of block `b`, which is `stmt`, does to the
/// resource of handle `h`: it acquires it, resolves it, or neither.
pub open spec fn spec_effect(stmt: Stmt, b: usize, index: usize, h: ResourceHandle) -> Option<
    Event,
> {
    if stmt.kind is Acquire && h.origin == b && h.index == index {
        Some(Event::Acquire)
    } else if spec_resolves(stmt, h) {
        Some(Event::Resolve)
    } else {
        None
    }
}

/// Executable form of [`spec_effect`].
#[verifier::when_used_as_spec(spec_effect)]
pub fn effect(stmt: Stmt, b: usize, index: usize, h: ResourceHandle) -> (r: Option<Event>)
    ensures
        r == spec_effect(stmt, b, index, h),
{
    let acquires = match stmt.kind {
        StmtKind::Acquire(_) => true,
        _ => false,
    };
    if acquires && h.origin == b && h.index == index {
        Some(Event::Acquire)
    } else if resolves(stmt, h) {
        Some(Event::Resolve)
    } else {
        None
    }
}

/// Whether a resource is held behind an event, given whether it was held
/// before.
pub open spec fn spec_held_after(held: bool, event: Option<Event>) -> bool {
    match event {
        Some(Event::Acquire) => true,
        Some(Event::Resolve) => false,
        _ => held,
    }
}

/// Executable form of [`spec_held_after`].
#[verifier::when_used_as_spec(spec_held_after)]
pub fn held_after(held: bool, event: Option<Event>) -> (r: bool)
    ensures
        r == spec_held_after(held, event),
{
    match event {
        Some(Event::Acquire) => true,
        Some(Event::Resolve) => false,
        _ => held,
    }
}

/// Whether the resource of `h` is held behind the first `upto` statements
/// of block `b`, given whether it is held where the block begins.
pub open spec fn held_through(g: CfgModel, b: int, h: ResourceHandle, upto: int, held: bool)
    -> bool
    decreases upto,
{
    if upto <= 0 {
        held
    } else {
        spec_held_after(
            held_through(g, b, h, upto - 1, held),
            spec_effect(g.blocks[b].stmts[upto - 1], b as usize, (upto - 1) as usize, h),
        )
    }
}

/// Whether the resource of `h` is held where block `b` ends, given whether
/// it is held where the block begins.
pub open spec fn held_across(g: CfgModel, b: int, h: ResourceHandle, held: bool) -> bool {
    held_through(g, b, h, g.blocks[b].stmts.len() as int, held)
}

/// Whether the resource of `h` is held behind the last block of `path`,
/// when control has run along `path` from its first block on.
pub open spec fn held_along(g: CfgModel, path: Seq<usize>, h: ResourceHandle) -> bool
    decreases path.len(),
{
    if path.len() == 0 {
        false
    } else {
        held_across(g, path.last() as int, h, held_along(g, path.drop_last(), h))
    }
}

/// Whether the resource of `h` may be held where block `b` begins: it is held
/// behind some path from a root to a block with an edge to `b`.
pub open spec fn may_hold_at_entry(g: CfgModel, b: int, h: ResourceHandle) -> bool {
    exists|path: Seq<usize>|
        #[trigger] g.is_path(path) && g.has_edge(path.last() as int, b) && held_along(g, path, h)
}

/// Whether the resource of `h` may be held where block `b` ends: it is held
/// behind some path from a root to `b`.
pub open spec fn may_hold_at_exit(g: CfgModel, b: int, h: ResourceHandle) -> bool {
    exists|path: Seq<usize>| #[trigger] g.is_path(path) && path.last() == b && held_along(g, path, h)
}

/// A block passes on what is held: if the resource is held behind the block
/// when it was not held before it, it is also held behind the block when it
/// was.
pub proof fn lemma_held_through_monotone(g: CfgModel, b: int, h: ResourceHandle, upto: int)
    ensures
        held_through(g, b, h, upto, false) ==> held_through(g, b, h, upto, true),
    decreases upto,
{
    if upto > 0 {
        lemma_held_through_monotone(g, b, h, upto - 1);
    }
}

/// A path can be extended along an edge.
pub proof fn lemma_path_extend(g: CfgModel, path: Seq<usize>, b: usize)
    requires
        g.is_path(path),
        g.has_edge(path.last() as int, b as int),
        b < g.blocks.len(),
    ensures
        g.is_path(path.push(b)),
        path.push(b).last() == b,
        path.push(b).drop_last() == path,
{
    let p = path.push(b);
    assert(p.drop_last() =~= path);
    assert forall|i: int| 0 <= i < p.len() - 1 implies g.has_edge(
        #[trigger] p[i] as int,
        p[i + 1] as int,
    ) by {
        if i < path.len() - 1 {
            assert(g.has_edge(path[i] as int, path[i + 1] as int));
        }
    }
}

/// What is held behind a reachable block, given what may be held before it,
/// may be held at its exit.
pub proof fn lemma_exit_witness(g: CfgModel, b: usize, h: ResourceHandle, held: bool)
    requires
        b < g.blocks.len(),
        g.reachable(b as int),
        held ==> may_hold_at_entry(g, b as int, h),
        held_across(g, b as int, h, held),
    ensures
        may_hold_at_exit(g, b as int, h),
{
    if held {
        let p = choose|path: Seq<usize>|
            #[trigger] g.is_path(path) && g.has_edge(path.last() as int, b as int) && held_along(
                g,
                path,
                h,
            );
        lemma_path_extend(g, p, b);
        let q = p.push(b);
        assert(held_along(g, q, h));
        assert(g.is_path(q) && q.last() == b && held_along(g, q, h));
    } else {
        let p = choose|path: Seq<usize>| #[trigger] g.is_path(path) && path.last() == b;
        lemma_held_through_monotone(g, b as int, h, g.blocks[b as int].stmts.len() as int);
        assert(held_along(g, p, h));
        assert(g.is_path(p) && p.last() == b && held_along(g, p, h));
    }
}

/// What may be held at the exit of a block may be held at the entry of each
/// of its successors.
pub proof fn lemma_entry_witness(g: CfgModel, b: usize, s: usize, h: ResourceHandle)
    requires
        may_hold_at_exit(g, b as int, h),
        g.has_edge(b as int, s as int),
    ensures
        may_hold_at_entry(g, s as int, h),
{
    let p = choose|path: Seq<usize>|
        #[trigger] g.is_path(path) && path.last() == b && held_along(g, path, h);
    assert(g.is_path(p) && g.has_edge(p.last() as int, s as int) && held_along(g, p, h));
}

/// A block with an edge from a reachable block is reachable.
pub proof fn lemma_reach_step(g: CfgModel, b: usize, s: usize)
    requires
        g.reachable(b as int),
        g.has_edge(b as int, s as int),
        s < g.blocks.len(),
    ensures
        g.reachable(s as int),
{
    let p = choose|path: Seq<usize>| #[trigger] g.is_path(path) && path.last() == b;
    lemma_path_extend(g, p, s);
    assert(g.is_path(p.push(s)) && p.push(s).last() == s);
}

/// A root is reachable.
pub proof fn lemma_reach_root(g: CfgModel, r: int)
    requires
        0 <= r < g.roots.len(),
        g.roots[r] < g.blocks.len(),
    ensures
        g.reachable(g.roots[r] as int),
{
    let p = seq![g.roots[r]];
    assert(g.roots.contains(p[0]));
    assert(g.is_path(p) && p.last() == g.roots[r]);
}

/// Every handle of the graph stands for an acquisition in it.
pub proof fn lemma_block_handles_valid(g: CfgModel, b: int, upto: int, k: int)
    requires
        0 <= b < g.blocks.len(),
        b <= usize::MAX,
        upto <= g.blocks[b].stmts.len(),
        upto <= usize::MAX,
        0 <= k < block_handles(g, b, upto).len(),
    ensures
        block_handles(g, b, upto)[k].origin == b,
        block_handles(g, b, upto)[k].index < upto,
        g.blocks[b].stmts[block_handles(g, b, upto)[k].index as int].kind == StmtKind::Acquire(
            block_handles(g, b, upto)[k].kind,
        ),
    decreases upto,
{
    if upto > 0 {
        let before = block_handles(g, b, upto - 1);
        if k < before.len() {
            lemma_block_handles_valid(g, b, upto - 1, k);
        }
    }
}

/// Every handle of the graph stands for an acquisition in it.
pub proof fn lemma_handles_valid(g: CfgModel, upto: int, k: int)
    requires
        upto <= g.blocks.len() <= usize::MAX,
        forall|b: int| 0 <= b < g.blocks.len() ==> (#[trigger] g.blocks[b]).stmts.len() <= usize::MAX,
        0 <= k < handles_upto(g, upto).len(),
    ensures
        handles_upto(g, upto)[k].origin < upto,
        handles_upto(g, upto)[k].index < g.blocks[handles_upto(g, upto)[k].origin as int].stmts.len(),
        g.blocks[handles_upto(g, upto)[k].origin as int].stmts[handles_upto(
            g,
            upto,
        )[k].index as int].kind == StmtKind::Acquire(handles_upto(g, upto)[k].kind),
    decreases upto,
{
    if upto > 0 {
        let before = handles_upto(g, upto - 1);
        if k < before.len() {
            lemma_handles_valid(g, upto - 1, k);
        } else {
            lemma_block_handles_valid(
                g,
                upto - 1,
                g.blocks[upto - 1].stmts.len() as int,
                k - before.len(),
            );
        }
    }
}

/// The number of entries of `s` that are true.
pub open spec fn count_true(s: Seq<bool>) -> nat
    decreases s.len(),
{
    if s.len() == 0 {
        0
    } else {
        count_true(s.drop_last()) + if s.last() {
            1nat
        } else {
            0nat
        }
    }
}

/// The number of entries of the rows of `rows` that are true.
pub open spec fn total_true(rows: Seq<Seq<bool>>) -> nat
    decreases rows.len(),
{
    if rows.len() == 0 {
        0
    } else {
        total_true(rows.drop_last()) + count_true(rows.last())
    }
}

/// No more entries are true than there are entries.
pub proof fn lemma_count_bound(s: Seq<bool>)
    ensures
        count_true(s) <= s.len(),
    decreases s.len(),
{
    if s.len() > 0 {
        lemma_count_bound(s.drop_last());
    }
}

/// Making a false entry true adds one to the count.
pub proof fn lemma_count_set(s: Seq<bool>, i: int)
    requires
        0 <= i < s.len(),
        !s[i],
    ensures
        count_true(s.update(i, true)) == count_true(s) + 1,
    decreases s.len(),
{
    let t = s.update(i, true);
    if i == s.len() - 1 {
        assert(t.drop_last() =~= s.drop_last());
    } else {
        assert(t.drop_last() =~= s.drop_last().update(i, true));
        lemma_count_set(s.drop_last(), i);
    }
}

/// Replacing a row changes the total by the difference of the two rows.
pub proof fn lemma_total_update(rows: Seq<Seq<bool>>, b: int, row: Seq<bool>)
    requires
        0 <= b < rows.len(),
    ensures
        total_true(rows.update(b, row)) + count_true(rows[b]) == total_true(rows) + count_true(row),
    decreases rows.len(),
{
    let t = rows.update(b, row);
    if b == rows.len() - 1 {
        assert(t.drop_last() =~= rows.drop_last());
    } else {
        assert(t.drop_last() =~= rows.drop_last().update(b, row));
        lemma_total_update(rows.drop_last(), b, row);
    }
}

/// Rows of width `width` hold at most `width` true entries each.
pub proof fn lemma_total_bound(rows: Seq<Seq<bool>>, width: nat)
    requires
        forall|b: int| 0 <= b < rows.len() ==> (#[trigger] rows[b]).len() == width,
    ensures
        total_true(rows) <= rows.len() * width,
    decreases rows.len(),
{
    if rows.len() > 0 {
        lemma_total_bound(rows.drop_last(), width);
        lemma_count_bound(rows.last());
        assert((rows.len() - 1) * width + width == rows.len() * width) by (nonlinear_arith);
    }
}

/// The obligation trace: what the tracker found out about a graph.
#[derive(Debug)]
pub struct ObligationTrace {
    /// The acquisitions of the graph, as [`collect_handles`] lists them.
    pub handles: Vec<ResourceHandle>,
    /// For each handle, the state in which the function leaves it.
    pub states: Vec<ResourceState>,
    /// For each block, whether control can come to it.
    pub reached: Vec<bool>,
    /// For each block and each handle, whether the resource may be held
    /// where the block begins.
    pub live_in: Vec<Vec<bool>>,
    /// For each reached block that is no root, a reached block with an edge
    /// to it.
    pub parent: Vec<usize>,
    /// For each reached block, the number of steps to it from a root by way
    /// of `parent`.
    pub rank: Vec<usize>,
    /// Whether the tracker came to the end of its work. It is false only
    /// where the number of passes that the work might take does not fit the
    /// machine's integers; the trace may then say too little.
    pub complete: bool,
}

/// The mathematical value of a trace.
pub struct TraceModel {
    pub handles: Seq<ResourceHandle>,
    pub states: Seq<ResourceState>,
    pub reached: Seq<bool>,
    pub live_in: Seq<Seq<bool>>,
    pub parent: Seq<usize>,
    pub rank: Seq<usize>,
    pub complete: bool,
}

impl View for ObligationTrace {
    type V = TraceModel;

    open spec fn view(&self) -> TraceModel {
        TraceModel {
            handles: self.handles@,
            states: self.states@,
            reached: self.reached@,
            live_in: Seq::new(self.live_in.len() as nat, |b: int| self.live_in[b]@),
            parent: self.parent@,
            rank: self.rank@,
            complete: self.complete,
        }
    }
}

impl TraceModel {
    /// Whether the tables of the trace have the sizes that the graph asks for.
    pub open spec fn shaped(self, g: CfgModel) -> bool {
        &&& self.states.len() == self.handles.len()
        &&& self.reached.len() == g.blocks.len()
        &&& self.live_in.len() == g.blocks.len()
        &&& self.parent.len() == g.blocks.len()
        &&& self.rank.len() == g.blocks.len()
        &&& forall|b: int|
            0 <= b < self.live_in.len() ==> (#[trigger] self.live_in[b]).len() == self.handles.len()
    }

    /// Whether block `b`, if it is reached, is a root of rank 0 or has a
    /// reached parent of lower rank with an edge to it.
    pub open spec fn rooted_at(self, g: CfgModel, b: int) -> bool {
        self.reached[b] ==> {
            ||| self.rank[b] == 0 && g.roots.contains(b as usize)
            ||| {
                &&& self.rank[b] > 0
                &&& self.parent[b] < g.blocks.len()
                &&& self.reached[self.parent[b] as int]
                &&& self.rank[self.parent[b] as int] < self.rank[b]
                &&& g.has_edge(self.parent[b] as int, b)
            }
        }
    }

    /// Whether the parents lead every reached block back to a root.
    pub open spec fn rooted(self, g: CfgModel) -> bool {
        forall|b: int| 0 <= b < g.blocks.len() ==> #[trigger] self.rooted_at(g, b)
    }

    /// Whether the trace fits the graph: its tables have the right sizes and
    /// its parents lead back to the roots.
    pub open spec fn fits(self, g: CfgModel) -> bool {
        self.shaped(g) && self.rooted(g)
    }

    /// Whether the trace says nothing that is not so: a block that it has
    /// reached is reachable, and a resource that it calls held at the entry of
    /// a block may be held there.
    pub open spec fn sound(self, g: CfgModel) -> bool {
        &&& forall|b: int| 0 <= b < g.blocks.len() && #[trigger] self.reached[b] ==> g.reachable(b)
        &&& forall|b: int, k: int|
            0 <= b < g.blocks.len() && 0 <= k < self.handles.len() && #[trigger] self.live_in[b][k]
                ==> may_hold_at_entry(g, b, self.handles[k])
    }

    /// Whether the trace says all there is to say: it has reached exactly
    /// the reachable blocks, and calls held at the entry of a block exactly
    /// what may be held there.
    pub open spec fn exact(self, g: CfgModel) -> bool {
        &&& forall|b: int|
            0 <= b < g.blocks.len() ==> (#[trigger] self.reached[b] <==> g.reachable(b))
        &&& forall|b: int, k: int|
            0 <= b < g.blocks.len() && 0 <= k < self.handles.len() ==> (
            #[trigger] self.live_in[b][k] <==> may_hold_at_entry(g, b, self.handles[k]))
    }

    /// Whether the trace has reached every root.
    pub open spec fn roots_reached(self, g: CfgModel) -> bool {
        forall|r: int| 0 <= r < g.roots.len() ==> self.reached[#[trigger] g.roots[r] as int]
    }

    /// Whether the trace has followed edge `e` of block `b`: the target is
    /// reached, and what is held behind `b` is held at the entry of the target.
    pub open spec fn edge_closed(self, g: CfgModel, b: int, e: int) -> bool {
        let target = g.blocks[b].edges[e].target as int;
        &&& self.reached[target]
        &&& forall|k: int|
            0 <= k < self.handles.len() && held_across(g, b, self.handles[k], self.live_in[b][k])
                ==> #[trigger] self.live_in[target][k]
    }

    /// Whether the trace has followed every edge of block `b`, if it has
    /// reached `b`.
    pub open spec fn block_closed(self, g: CfgModel, b: int) -> bool {
        self.reached[b] ==> forall|e: int|
            0 <= e < g.blocks[b].edges.len() ==> #[trigger] self.edge_closed(g, b, e)
    }

    /// Whether nothing is left to follow.
    pub open spec fn closed(self, g: CfgModel) -> bool {
        &&& self.roots_reached(g)
        &&& forall|b: int| 0 <= b < g.blocks.len() ==> #[trigger] self.block_closed(g, b)
    }

    /// The number of facts that the trace holds.
    pub open spec fn measure(self) -> nat {
        count_true(self.reached) + total_true(self.live_in)
    }

    /// Whether every reached block has a rank below the number of reached
    /// blocks.
    pub open spec fn ranked(self) -> bool {
        forall|b: int|
            0 <= b < self.reached.len() && self.reached[b] ==> #[trigger] self.rank[b] < count_true(
                self.reached,
            )
    }

    /// Whether the resource of handle `k` is still held at block `t`, which
    /// is reached and is an exit at which the resource is owed.
    pub open spec fn leaks_at(self, g: CfgModel, k: int, t: int) -> bool {
        &&& self.reached[t]
        &&& self.live_in[t][k]
        &&& g.blocks[t].exit is Some
        &&& self.handles[k].kind.owed_at(g.blocks[t].exit.unwrap())
    }

    /// Whether the resource of handle `k` is still held at a reached exit at
    /// which it is owed.
    pub open spec fn leaked(self, g: CfgModel, k: int) -> bool {
        exists|t: int| 0 <= t < g.blocks.len() && #[trigger] self.leaks_at(g, k, t)
    }

    /// The state in which the function leaves the resource of handle `k`:
    /// unknown if its acquisition is never reached, leaked if it is still
    /// held at an exit at which it is owed, released otherwise.
    pub open spec fn final_state(self, g: CfgModel, k: int) -> ResourceState {
        if !self.reached[self.handles[k].origin as int] {
            ResourceState::Unknown
        } else if self.leaked(g, k) {
            ResourceState::Unknown.after(Event::Acquire).after(Event::Exit)
        } else {
            ResourceState::Unknown.after(Event::Acquire).after(Event::Resolve)
        }
    }
}

/// The first part of a path is a path.
pub proof fn lemma_path_prefix(g: CfgModel, path: Seq<usize>)
    requires
        g.is_path(path),
        path.len() > 1,
    ensures
        g.is_path(path.drop_last()),
        g.has_edge(path.drop_last().last() as int, path.last() as int),
{
    let p = path.drop_last();
    assert(p[0] == path[0]);
    assert forall|i: int| 0 <= i < p.len() - 1 implies g.has_edge(
        #[trigger] p[i] as int,
        p[i + 1] as int,
    ) by {
        assert(g.has_edge(path[i] as int, path[i + 1] as int));
    }
    assert(g.has_edge(path[path.len() - 2] as int, path[path.len() - 2 + 1] as int));
}

/// A trace with nothing left to follow has reached the end of every path, and
/// holds at that block's end what is held behind the path.
pub proof fn lemma_closed_path(g: CfgModel, tr: TraceModel, path: Seq<usize>, k: int)
    requires
        g.indexed(),
        tr.shaped(g),
        tr.closed(g),
        g.is_path(path),
        0 <= k < tr.handles.len(),
    ensures
        tr.reached[path.last() as int],
        held_along(g, path, tr.handles[k]) ==> held_across(
            g,
            path.last() as int,
            tr.handles[k],
            tr.live_in[path.last() as int][k],
        ),
    decreases path.len(),
{
    let b = path.last() as int;
    let h = tr.handles[k];
    lemma_held_through_monotone(g, b, h, g.blocks[b].stmts.len() as int);
    if path.len() == 1 {
        let r = choose|r: int| 0 <= r < g.roots.len() && g.roots[r] == path[0];
        assert(tr.reached[g.roots[r] as int]);
        assert(!held_along(g, path.drop_last(), h));
    } else {
        lemma_path_prefix(g, path);
        let p = path.drop_last();
        let a = p.last() as int;
        lemma_closed_path(g, tr, p, k);
        let e = choose|e: int|
            0 <= e < g.blocks[a].edges.len() && #[trigger] g.blocks[a].edges[e].target == b;
        assert(tr.block_closed(g, a));
        assert(tr.edge_closed(g, a, e));
        assert(held_along(g, path, h) == held_across(g, b, h, held_along(g, p, h)));
        if held_along(g, p, h) {
            assert(held_across(g, a, h, tr.live_in[a][k]));
            assert(tr.live_in[b][k]);
        }
    }
}

/// A sound trace with nothing left to follow is exact.
pub proof fn lemma_closed_exact(g: CfgModel, tr: TraceModel)
    requires
        g.indexed(),
        tr.shaped(g),
        tr.closed(g),
        tr.sound(g),
    ensures
        tr.exact(g),
{
    assert forall|b: int| 0 <= b < g.blocks.len() && g.reachable(b) implies #[trigger] tr.reached[b] by {
        let p = choose|path: Seq<usize>| #[trigger] g.is_path(path) && path.last() == b;
        if tr.handles.len() > 0 {
            lemma_closed_path(g, tr, p, 0);
        } else {
            lemma_closed_reach(g, tr, p);
        }
    }
    assert forall|b: int, k: int|
        0 <= b < g.blocks.len() && 0 <= k < tr.handles.len() && may_hold_at_entry(
            g,
            b,
            tr.handles[k],
        ) implies #[trigger] tr.live_in[b][k] by {
        let p = choose|path: Seq<usize>|
            #[trigger] g.is_path(path) && g.has_edge(path.last() as int, b) && held_along(
                g,
                path,
                tr.handles[k],
            );
        lemma_closed_path(g, tr, p, k);
        let a = p.last() as int;
        let e = choose|e: int|
            0 <= e < g.blocks[a].edges.len() && #[trigger] g.blocks[a].edges[e].target == b;
        assert(tr.block_closed(g, a));
        assert(tr.edge_closed(g, a, e));
    }
}

/// A trace with nothing left to follow has reached the end of every path.
pub proof fn lemma_closed_reach(g: CfgModel, tr: TraceModel, path: Seq<usize>)
    requires
        g.indexed(),
        tr.shaped(g),
        tr.closed(g),
        g.is_path(path),
    ensures
        tr.reached[path.last() as int],
    decreases path.len(),
{
    if path.len() == 1 {
        let r = choose|r: int| 0 <= r < g.roots.len() && g.roots[r] == path[0];
        assert(tr.reached[g.roots[r] as int]);
    } else {
        lemma_path_prefix(g, path);
        let p = path.drop_last();
        let a = p.last() as int;
        let b = path.last() as int;
        lemma_closed_reach(g, tr, p);
        let e = choose|e: int|
            0 <= e < g.blocks[a].edges.len() && #[trigger] g.blocks[a].edges[e].target == b;
        assert(tr.block_closed(g, a));
        assert(tr.edge_closed(g, a, e));
    }
}

/// A vector of `len` entries, each `value`.
fn filled<T: Copy>(len: usize, value: T) -> (v: Vec<T>)
    ensures
        v.len() == len,
        forall|i: int| 0 <= i < len ==> v[i] == value,
{
    let mut v: Vec<T> = Vec::new();
    let mut i: usize = 0;
    while i < len
        invariant
            i <= len,
            v.len() == i,
            forall|j: int| 0 <= j < i ==> v[j] == value,
        decreases len - i,
    {
        v.push(value);
        i = i + 1;
    }
    v
}

/// What is held behind block `b`, for each handle, given what is held
/// where the block begins.
pub fn flow_block(cfg: &Cfg, hs: &Vec<ResourceHandle>, b: usize, held: &Vec<bool>) -> (out: Vec<
    bool,
>)
    requires
        b < cfg.blocks.len(),
        held.len() == hs.len(),
    ensures
        out.len() == hs.len(),
        forall|k: int|
            0 <= k < hs.len() ==> out[k] == held_across(cfg@, b as int, hs[k], held[k]),
{
    let mut out: Vec<bool> = Vec::new();
    let mut k: usize = 0;
    while k < held.len()
        invariant
            k <= held.len(),
            out.len() == k,
            forall|j: int| 0 <= j < k ==> out[j] == held[j],
        decreases held.len() - k,
    {
        out.push(held[k]);
        k = k + 1;
    }
    let mut i: usize = 0;
    while i < cfg.blocks[b].stmts.len()
        invariant
            b < cfg.blocks.len(),
            i <= cfg.blocks[b as int].stmts.len(),
            held.len() == hs.len(),
            out.len() == hs.len(),
            forall|j: int|
                0 <= j < hs.len() ==> out[j] == held_through(
                    cfg@,
                    b as int,
                    hs[j],
                    i as int,
                    held[j],
                ),
        decreases cfg.blocks[b as int].stmts.len() - i,
    {
        let stmt = cfg.blocks[b].stmts[i];
        let mut k: usize = 0;
        while k < hs.len()
            invariant
                b < cfg.blocks.len(),
                i < cfg.blocks[b as int].stmts.len(),
                stmt == cfg@.blocks[b as int].stmts[i as int],
                k <= hs.len(),
                held.len() == hs.len(),
                out.len() == hs.len(),
                forall|j: int|
                    0 <= j < k ==> out[j] == held_through(
                        cfg@,
                        b as int,
                        hs[j],
                        i + 1,
                        held[j],
                    ),
                forall|j: int|
                    k <= j < hs.len() ==> out[j] == held_through(
                        cfg@,
                        b as int,
                        hs[j],
                        i as int,
                        held[j],
                    ),
            decreases hs.len() - k,
        {
            let v = held_after(out[k], effect(stmt, b, i, hs[k]));
            out.set(k, v);
            k = k + 1;
        }
        i = i + 1;
    }
    out
}

/// Adds to `dst` what `src` holds, and says whether that changed `dst`.
fn merge(dst: &mut Vec<bool>, src: &Vec<bool>) -> (changed: bool)
    requires
        old(dst).len() == src.len(),
    ensures
        final(dst).len() == src.len(),
        forall|k: int| 0 <= k < src.len() ==> #[trigger] final(dst)[k] == (old(dst)[k] || src[k]),
        !changed ==> final(dst)@ == old(dst)@,
        count_true(final(dst)@) >= count_true(old(dst)@) + if changed {
            1nat
        } else {
            0nat
        },
{
    let ghost start = dst@;
    let mut changed = false;
    let mut k: usize = 0;
    while k < src.len()
        invariant
            k <= src.len(),
            dst.len() == src.len(),
            start.len() == src.len(),
            forall|j: int| 0 <= j < k ==> #[trigger] dst[j] == (start[j] || src[j]),
            forall|j: int| k <= j < src.len() ==> #[trigger] dst[j] == start[j],
            !changed ==> dst@ == start,
            count_true(dst@) >= count_true(start) + if changed {
                1nat
            } else {
                0nat
            },
        decreases src.len() - k,
    {
        if src[k] && !dst[k] {
            proof {
                lemma_count_set(dst@, k as int);
            }
            dst.set(k, true);
            changed = true;
        }
        k = k + 1;
    }
    changed
}

/// Follows edge `e` of the reached block `b`: reaches its target and adds
/// `out`, which is held behind `b`, to what is held at the target's entry.
fn follow(cfg: &Cfg, tr: &mut ObligationTrace, b: usize, e: usize, out: &Vec<bool>) -> (changed:
    bool)
    requires
        cfg@.indexed(),
        b < cfg@.blocks.len(),
        e < cfg@.blocks[b as int].edges.len(),
        old(tr)@.fits(cfg@),
        old(tr)@.sound(cfg@),
        old(tr)@.ranked(),
        old(tr)@.reached[b as int],
        out.len() == old(tr)@.handles.len(),
        forall|k: int|
            0 <= k < out.len() && out[k] ==> may_hold_at_exit(cfg@, b as int, old(tr)@.handles[k]),
    ensures
        final(tr)@.fits(cfg@),
        final(tr)@.sound(cfg@),
        final(tr)@.ranked(),
        final(tr)@.handles == old(tr)@.handles,
        final(tr)@.states == old(tr)@.states,
        final(tr)@.complete == old(tr)@.complete,
        forall|i: int|
            0 <= i < cfg@.blocks.len() && old(tr)@.reached[i] ==> #[trigger] final(tr)@.reached[i],
        final(tr)@.measure() >= old(tr)@.measure() + if changed {
            1nat
        } else {
            0nat
        },
        !changed ==> final(tr)@ == old(tr)@,
        !changed ==> old(tr)@.reached[cfg@.blocks[b as int].edges[e as int].target as int],
        !changed ==> forall|k: int|
            0 <= k < out.len() && out[k] ==> old(tr)@.live_in[cfg@.blocks[b as int].edges[e as int].target as int][k],
{
    let ghost g = cfg@;
    let ghost before = tr@;
    let s = cfg.blocks[b].edges[e].target;
    assert(s == g.blocks[b as int].edges[e as int].target);
    assert(s < g.blocks.len());
    assert(g.has_edge(b as int, s as int));
    let mut changed = false;
    if !tr.reached[s] {
        proof {
            lemma_count_set(tr.reached@, s as int);
            lemma_count_bound(tr.reached@);
            lemma_reach_step(g, b, s);
        }
        let r = tr.rank[b] + 1;
        tr.reached.set(s, true);
        tr.parent.set(s, b);
        tr.rank.set(s, r);
        changed = true;
        proof {
            assert(tr@.live_in =~= before.live_in);
            assert forall|i: int| 0 <= i < g.blocks.len() implies #[trigger] tr@.rooted_at(g, i) by {
                assert(before.rooted_at(g, i));
            }
        }
    }
    let ghost mid = tr@;
    assert(mid.live_in[s as int].len() == mid.handles.len());
    let c = merge(&mut tr.live_in[s], out);
    proof {
        assert(tr@.live_in =~= mid.live_in.update(s as int, tr.live_in[s as int]@));
        lemma_total_update(mid.live_in, s as int, tr.live_in[s as int]@);
        assert forall|i: int| 0 <= i < g.blocks.len() implies #[trigger] tr@.rooted_at(g, i) by {
            assert(mid.rooted_at(g, i));
        }
        assert forall|i: int, k: int|
            0 <= i < g.blocks.len() && 0 <= k < tr@.handles.len() && #[trigger] tr@.live_in[i][k]
            implies may_hold_at_entry(g, i, tr@.handles[k]) by {
            if i == s && !mid.live_in[i][k] {
                assert(tr.live_in[s as int][k] == (mid.live_in[s as int][k] || out[k]));
                lemma_entry_witness(g, b, s, tr@.handles[k]);
            } else {
                assert(mid.live_in[i][k]);
            }
        }
        if !changed && !c {
            assert(tr@.live_in =~= before.live_in);
            assert forall|k: int| 0 <= k < out.len() && out[k] implies before.live_in[s as int][k] by {
                assert(tr.live_in[s as int][k] == (mid.live_in[s as int][k] || out[k]));
            }
        }
    }
    changed || c
}

/// One pass of the tracker over the blocks, in the order of their numbers. It
/// says whether the pass added anything to the trace.
fn pass(cfg: &Cfg, tr: &mut ObligationTrace) -> (changed: bool)
    requires
        cfg@.indexed(),
        old(tr)@.fits(cfg@),
        old(tr)@.sound(cfg@),
        old(tr)@.ranked(),
        old(tr)@.roots_reached(cfg@),
    ensures
        final(tr)@.fits(cfg@),
        final(tr)@.sound(cfg@),
        final(tr)@.ranked(),
        final(tr)@.roots_reached(cfg@),
        final(tr)@.handles == old(tr)@.handles,
        final(tr)@.states == old(tr)@.states,
        final(tr)@.complete == old(tr)@.complete,
        final(tr)@.measure() >= old(tr)@.measure() + if changed {
            1nat
        } else {
            0nat
        },
        !changed ==> final(tr)@.closed(cfg@),
{
    let ghost g = cfg@;
    let ghost start = tr@;
    let mut changed = false;
    let mut b: usize = 0;
    while b < cfg.blocks.len()
        invariant
            g == cfg@,
            g.indexed(),
            b <= cfg.blocks.len(),
            tr@.fits(g),
            tr@.sound(g),
            tr@.ranked(),
            tr@.roots_reached(g),
            tr@.handles == start.handles,
            tr@.states == start.states,
            tr@.complete == start.complete,
            tr@.measure() >= start.measure() + if changed {
                1nat
            } else {
                0nat
            },
            !changed ==> tr@ == start,
            !changed ==> forall|i: int| 0 <= i < b ==> #[trigger] tr@.block_closed(g, i),
        decreases cfg.blocks.len() - b,
    {
        if tr.reached[b] {
            assert(tr@.live_in[b as int].len() == tr@.handles.len());
            let out = flow_block(cfg, &tr.handles, b, &tr.live_in[b]);
            proof {
                assert forall|k: int| 0 <= k < out.len() && out[k] implies may_hold_at_exit(
                    g,
                    b as int,
                    tr@.handles[k],
                ) by {
                    lemma_exit_witness(g, b, tr@.handles[k], tr@.live_in[b as int][k]);
                }
            }
            let mut e: usize = 0;
            while e < cfg.blocks[b].edges.len()
                invariant
                    g == cfg@,
                    g.indexed(),
                    b < cfg.blocks.len(),
                    e <= cfg.blocks[b as int].edges.len(),
                    tr@.fits(g),
                    tr@.sound(g),
                    tr@.ranked(),
                    tr@.roots_reached(g),
                    tr@.reached[b as int],
                    tr@.handles == start.handles,
                    tr@.states == start.states,
                    tr@.complete == start.complete,
                    tr@.measure() >= start.measure() + if changed {
                        1nat
                    } else {
                        0nat
                    },
                    !changed ==> tr@ == start,
                    !changed ==> forall|i: int| 0 <= i < b ==> #[trigger] tr@.block_closed(g, i),
                    out.len() == tr@.handles.len(),
                    forall|k: int|
                        0 <= k < out.len() && out[k] ==> may_hold_at_exit(
                            g,
                            b as int,
                            tr@.handles[k],
                        ),
                    !changed ==> forall|k: int|
                        0 <= k < out.len() ==> out[k] == held_across(
                            g,
                            b as int,
                            tr@.handles[k],
                            tr@.live_in[b as int][k],
                        ),
                    !changed ==> forall|i: int| 0 <= i < e ==> #[trigger] tr@.edge_closed(g, b as int, i),
                decreases cfg.blocks[b as int].edges.len() - e,
            {
                let c = follow(cfg, tr, b, e, &out);
                changed = changed || c;
                proof {
                    if !changed {
                        let target = g.blocks[b as int].edges[e as int].target as int;
                        assert forall|k: int|
                            0 <= k < tr@.handles.len() && held_across(
                                g,
                                b as int,
                                tr@.handles[k],
                                tr@.live_in[b as int][k],
                            ) implies #[trigger] tr@.live_in[target][k] by {
                            assert(out[k]);
                        }
                        assert(tr@.edge_closed(g, b as int, e as int));
                    }
                }
                e = e + 1;
            }
        }
        b = b + 1;
    }
    changed
}

/// The largest number of passes that the tracker can need for `blocks`
/// blocks and `handles` handles, or the largest integer if that number does
/// not fit.
fn pass_limit(blocks: usize, handles: usize) -> (limit: usize)
    ensures
        blocks * (handles + 1) < usize::MAX ==> limit == blocks * (handles + 1) + 1,
{
    if blocks == 0 {
        return 1;
    }
    match handles.checked_add(1) {
        Some(width) => match blocks.checked_mul(width) {
            Some(facts) => match facts.checked_add(1) {
                Some(limit) => limit,
                None => usize::MAX,
            },
            None => usize::MAX,
        },
        None => {
            proof {
                assert(blocks * (handles + 1) >= handles + 1) by (nonlinear_arith)
                    requires
                        blocks >= 1,
                        handles >= 0,
                ;
            }
            usize::MAX
        },
    }
}

/// Whether the resource of handle `k` is still held at a reached exit at
/// which it is owed.
fn leaked(cfg: &Cfg, tr: &ObligationTrace, k: usize) -> (r: bool)
    requires
        tr@.shaped(cfg@),
        k < tr@.handles.len(),
    ensures
        r == tr@.leaked(cfg@, k as int),
{
    let kind = tr.handles[k].kind;
    let mut t: usize = 0;
    while t < cfg.blocks.len()
        invariant
            t <= cfg.blocks.len(),
            tr@.shaped(cfg@),
            k < tr@.handles.len(),
            kind == tr@.handles[k as int].kind,
            forall|i: int| 0 <= i < t ==> !#[trigger] tr@.leaks_at(cfg@, k as int, i),
        decreases cfg.blocks.len() - t,
    {
        assert(tr@.live_in[t as int].len() == tr@.handles.len());
        if tr.reached[t] && tr.live_in[t][k] {
            match cfg.blocks[t].exit {
                Some(exit) => {
                    if kind.owed_at(exit) {
                        assert(tr@.leaks_at(cfg@, k as int, t as int));
                        return true;
                    }
                },
                None => {},
            }
        }
        t = t + 1;
    }
    false
}

/// Computes the obligation trace of a graph: the handles of its
/// acquisitions, the blocks that control can come to, and for each of them
/// the resources that may be held where it begins.
///
/// The blocks are visited in the order of their numbers, pass after pass,
/// until a pass adds nothing. The number of passes is capped at one more
/// than the number of facts that a trace can hold, so the cap ends the work
/// only where that number does not fit the machine's integers.
pub fn track(cfg: &Cfg) -> (tr: ObligationTrace)
    requires
        cfg@.indexed(),
    ensures
        tr@.handles == handles(cfg@),
        tr@.fits(cfg@),
        tr@.sound(cfg@),
        tr@.complete ==> tr@.exact(cfg@),
        cfg@.blocks.len() * (handles(cfg@).len() + 1) < usize::MAX ==> tr@.complete,
        forall|k: int|
            0 <= k < tr@.handles.len() ==> #[trigger] tr@.states[k] == tr@.final_state(cfg@, k),
{
    let ghost g = cfg@;
    let hs = collect_handles(cfg);
    let n = cfg.blocks.len();
    let width = hs.len();
    let mut live_in: Vec<Vec<bool>> = Vec::new();
    let mut b: usize = 0;
    while b < n
        invariant
            b <= n,
            live_in.len() == b,
            forall|i: int| 0 <= i < b ==> (#[trigger] live_in[i]).len() == width,
            forall|i: int, k: int| 0 <= i < b && 0 <= k < width ==> !#[trigger] live_in[i][k],
        decreases n - b,
    {
        live_in.push(filled(width, false));
        b = b + 1;
    }
    let mut tr = ObligationTrace {
        handles: hs,
        states: filled(width, ResourceState::Unknown),
        reached: filled(n, false),
        live_in,
        parent: filled(n, 0),
        rank: filled(n, 0),
        complete: false,
    };
    let mut r: usize = 0;
    while r < cfg.roots.len()
        invariant
            g == cfg@,
            g.indexed(),
            n == g.blocks.len(),
            width == tr@.handles.len(),
            r <= cfg.roots.len(),
            tr@.handles == handles(g),
            tr@.fits(g),
            tr@.ranked(),
            !tr@.complete,
            forall|i: int, k: int| 0 <= i < n && 0 <= k < width ==> !#[trigger] tr@.live_in[i][k],
            forall|i: int| 0 <= i < n && #[trigger] tr@.reached[i] ==> g.roots.contains(i as usize),
            forall|i: int| 0 <= i < r ==> tr@.reached[#[trigger] g.roots[i] as int],
        decreases cfg.roots.len() - r,
    {
        let root = cfg.roots[r];
        assert(g.roots[r as int] == root);
        if !tr.reached[root] {
            let ghost before = tr@;
            proof {
                lemma_count_set(tr.reached@, root as int);
            }
            tr.reached.set(root, true);
            tr.parent.set(root, root);
            tr.rank.set(root, 0);
            proof {
                assert(tr@.live_in =~= before.live_in);
                assert forall|i: int| 0 <= i < n implies #[trigger] tr@.rooted_at(g, i) by {
                    assert(before.rooted_at(g, i));
                }
            }
        }
        r = r + 1;
    }
    proof {
        assert forall|i: int| 0 <= i < n && #[trigger] tr@.reached[i] implies g.reachable(i) by {
            let j = choose|j: int| 0 <= j < g.roots.len() && g.roots[j] == i as usize;
            lemma_reach_root(g, j);
        }
    }
    let limit = pass_limit(n, width);
    let mut passes: usize = 0;
    let mut changed = true;
    while changed && passes < limit
        invariant
            g == cfg@,
            g.indexed(),
            n == g.blocks.len(),
            width == tr@.handles.len(),
            tr@.handles == handles(g),
            tr@.fits(g),
            tr@.sound(g),
            tr@.ranked(),
            tr@.roots_reached(g),
            !tr@.complete,
            passes <= limit,
            changed ==> passes <= tr@.measure(),
            !changed ==> tr@.closed(g),
        decreases limit - passes,
    {
        changed = pass(cfg, &mut tr);
        passes = passes + 1;
    }
    proof {
        lemma_count_bound(tr@.reached);
        lemma_total_bound(tr@.live_in, width as nat);
        assert(n + n * width == n * (width + 1)) by (nonlinear_arith);
        if !changed {
            lemma_closed_exact(g, tr@);
        }
    }
    let ghost passed = tr@;
    tr.complete = !changed;
    let ghost tracked_model = tr@;
    proof {
        assert(tracked_model.live_in =~= passed.live_in);
        assert forall|i: int| 0 <= i < n implies #[trigger] tracked_model.rooted_at(g, i) by {
            assert(passed.rooted_at(g, i));
        }
        assert(tracked_model.sound(g));
        assert(tracked_model.complete ==> tracked_model.exact(g));
    }
    let mut states: Vec<ResourceState> = Vec::new();
    let mut k: usize = 0;
    while k < width
        invariant
            g == cfg@,
            n == g.blocks.len(),
            width == tr@.handles.len(),
            tr@ == tracked_model,
            tr@.handles == handles(g),
            tr@.fits(g),
            tr@.sound(g),
            tr@.complete ==> tr@.exact(g),
            n * (width + 1) < usize::MAX ==> tr@.complete,
            k <= width,
            states.len() == k,
            forall|i: int| 0 <= i < k ==> #[trigger] states[i] == tr@.final_state(g, i),
        decreases width - k,
    {
        proof {
            assert forall|i: int| 0 <= i < g.blocks.len() implies (#[trigger] g.blocks[i]).stmts.len()
                <= usize::MAX by {
                assert(g.blocks[i].stmts.len() == cfg.blocks[i].stmts.len());
            }
            lemma_handles_valid(g, n as int, k as int);
        }
        let origin = tr.handles[k].origin;
        let state = if !tr.reached[origin] {
            ResourceState::Unknown
        } else if leaked(cfg, &tr, k) {
            ResourceState::Unknown.after(Event::Acquire).after(Event::Exit)
        } else {
            ResourceState::Unknown.after(Event::Acquire).after(Event::Resolve)
        };
        states.push(state);
        k = k + 1;
    }
    tr.states = states;
    proof {
        let m = tr@;
        assert(m.live_in =~= tracked_model.live_in);
        assert forall|i: int| 0 <= i < n implies #[trigger] m.rooted_at(g, i) by {
            assert(tracked_model.rooted_at(g, i));
        }
        assert forall|i: int| 0 <= i < m.handles.len() implies #[trigger] m.states[i]
            == m.final_state(g, i) by {
            assert(states[i] == tracked_model.final_state(g, i));
            assert forall|t: int| 0 <= t < n implies m.leaks_at(g, i, t) == tracked_model.leaks_at(
                g,
                i,
                t,
            ) by {}
        }
        assert(m.sound(g));
        assert(m.complete ==> m.exact(g));
    }
    tr
}

impl TraceModel {
    /// The blocks from a root to block `b` by way of the parents, `b` last.
    pub open spec fn path_to(self, b: usize) -> Seq<usize>
        decreases
            (if b < self.rank.len() {
                self.rank[b as int]
            } else {
                0
            }),
    {
        if b < self.rank.len() && b < self.parent.len() && self.parent[b as int] < self.rank.len()
            && self.rank[self.parent[b as int] as int] < self.rank[b as int] {
            self.path_to(self.parent[b as int]).push(b)
        } else {
            seq![b]
        }
    }
}

/// In a trace that fits its graph, the parents lead from a root to every
/// reached block along edges of the graph.
pub proof fn lemma_path_to_is_path(g: CfgModel, tr: TraceModel, b: usize)
    requires
        tr.fits(g),
        b < g.blocks.len(),
        tr.reached[b as int],
    ensures
        g.is_path(tr.path_to(b)),
        tr.path_to(b).last() == b,
    decreases tr.rank[b as int],
{
    assert(tr.rooted_at(g, b as int));
    if tr.rank[b as int] == 0 {
        let p = seq![b];
        assert(g.roots.contains(p[0]));
    } else {
        let a = tr.parent[b as int];
        lemma_path_to_is_path(g, tr, a);
        lemma_path_extend(g, tr.path_to(a), b);
    }
}

impl ObligationTrace {
    /// Whether the tables of the trace have the sizes that the graph asks for.
    pub fn shaped(&self, cfg: &Cfg) -> (r: bool)
        ensures
            r == self@.shaped(cfg@),
    {
        let n = cfg.blocks.len();
        if self.states.len() != self.handles.len() || self.reached.len() != n || self.live_in.len()
            != n || self.parent.len() != n || self.rank.len() != n {
            return false;
        }
        let mut b: usize = 0;
        while b < n
            invariant
                b <= n,
                n == self.live_in.len(),
                forall|i: int|
                    0 <= i < b ==> (#[trigger] self@.live_in[i]).len() == self.handles.len(),
            decreases n - b,
        {
            if self.live_in[b].len() != self.handles.len() {
                assert(self@.live_in[b as int].len() != self@.handles.len());
                return false;
            }
            b = b + 1;
        }
        true
    }

    /// The blocks from a root to block `b` by way of the parents, `b` last.
    pub fn path_to(&self, b: usize) -> (path: Vec<usize>)
        ensures
            path@ == self@.path_to(b),
    {
        let mut back: Vec<usize> = Vec::new();
        let mut at = b;
        back.push(at);
        while at < self.rank.len() && at < self.parent.len() && self.parent[at] < self.rank.len()
            && self.rank[self.parent[at]] < self.rank[at]
            invariant
                back.len() > 0,
                back[back.len() - 1] == at,
                self@.path_to(b) == self@.path_to(at) + back@.drop_last().reverse(),
            decreases
                (if at < self.rank.len() {
                    self.rank[at as int]
                } else {
                    0
                }),
        {
            let ghost prev = at;
            let ghost old_back = back@;
            at = self.parent[at];
            back.push(at);
            proof {
                let tail = old_back.drop_last().reverse();
                assert(back@.drop_last() =~= old_back);
                assert(old_back =~= old_back.drop_last().push(prev));
                assert(old_back.reverse() =~= seq![prev] + tail);
                assert(self@.path_to(prev) == self@.path_to(at).push(prev));
                assert(self@.path_to(at).push(prev) + tail =~= self@.path_to(at) + (seq![prev]
                    + tail));
            }
        }
        let mut path: Vec<usize> = Vec::new();
        let mut i: usize = back.len();
        while i > 0
            invariant
                i <= back.len(),
                path@ == back@.subrange(i as int, back.len() as int).reverse(),
            decreases i,
        {
            i = i - 1;
            path.push(back[i]);
            proof {
                let hi = back.len() as int;
                assert(back@.subrange(i as int, hi).reverse() =~= back@.subrange(
                    i + 1,
                    hi,
                ).reverse().push(back@[i as int]));
            }
        }
        proof {
            assert(back@.subrange(0, back.len() as int) =~= back@);
            assert(self@.path_to(at) =~= seq![at]);
            assert(back@ =~= back@.drop_last().push(at));
            assert(back@.reverse() =~= seq![at] + back@.drop_last().reverse());
        }
        path
    }
}

} // verus!
