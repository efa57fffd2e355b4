//! The rules: what counts as a hazard, and the findings that report it.
//!
//! Every rule is evaluated in the same way, from the graph and its obligation
//! trace to a list of findings. No rule can silence another.
use vstd::prelude::*;
use vstd::string::*;
use crate::cfg::{Cfg, CfgModel, StmtKind};
use crate::resource::{ResourceKind};
use crate::scope::{ObligationTrace, TraceModel};
use crate::syntax::Span;

verus! {

/// The rules of the engine.
#[derive(Clone, Copy, Debug, PartialEq, Eq, Structural)]
pub enum RuleId {
    /// A panic while a lock is held poisons the lock.
    LockPoisoning,
    /// A spawned task that is never joined, awaited or aborted is left behind.
    TaskLeak,
    /// An optional value that is unwrapped unchecked may panic.
    UncheckedUnwrap,
}

/// How much a finding weighs.
#[derive(Clone, Copy, Debug, PartialEq, Eq, Structural)]
pub enum Severity {
    Low,
    Medium,
    High,
}

impl Severity {
    /// The weight as a number: the higher, the more severe.
    pub open spec fn spec_rank(self) -> u8 {
        match self {
            Severity::Low => 0,
            Severity::Medium => 1,
            Severity::High => 2,
        }
    }

    /// Executable form of [`Self::spec_rank`].
    #[verifier::when_used_as_spec(spec_rank)]
    pub fn rank(self) -> (r: u8)
        ensures
            r == self.spec_rank(),
    {
        match self {
            Severity::Low => 0,
            Severity::Medium => 1,
            Severity::High => 2,
        }
    }
}

impl RuleId {
    /// The severity of the findings of the rule.
    pub open spec fn spec_severity(self) -> Severity {
        match self {
            RuleId::LockPoisoning => Severity::High,
            RuleId::TaskLeak => Severity::Medium,
            RuleId::UncheckedUnwrap => Severity::Medium,
        }
    }

    /// Executable form of [`Self::spec_severity`].
    #[verifier::when_used_as_spec(spec_severity)]
    pub fn severity(self) -> (r: Severity)
        ensures
            r == self.spec_severity(),
    {
        match self {
            RuleId::LockPoisoning => Severity::High,
            RuleId::TaskLeak => Severity::Medium,
            RuleId::UncheckedUnwrap => Severity::Medium,
        }
    }

    /// The kind of resource that the rule watches.
    pub open spec fn spec_watches(self) -> ResourceKind {
        match self {
            RuleId::LockPoisoning => ResourceKind::Lock,
            RuleId::TaskLeak => ResourceKind::SpawnedTask,
            RuleId::UncheckedUnwrap => ResourceKind::Optional,
        }
    }

    /// Executable form of [`Self::spec_watches`].
    #[verifier::when_used_as_spec(spec_watches)]
    pub fn watches(self) -> (r: ResourceKind)
        ensures
            r == self.spec_watches(),
    {
        match self {
            RuleId::LockPoisoning => ResourceKind::Lock,
            RuleId::TaskLeak => ResourceKind::SpawnedTask,
            RuleId::UncheckedUnwrap => ResourceKind::Optional,
        }
    }

    /// The name by which the rule is known in a registry.
    pub open spec fn spec_name(self) -> Seq<char> {
        match self {
            RuleId::LockPoisoning => "lock-poisoning"@,
            RuleId::TaskLeak => "task-leak"@,
            RuleId::UncheckedUnwrap => "unchecked-unwrap"@,
        }
    }

    /// The name by which the rule is known in a registry.
    pub fn name(self) -> (r: String)
        ensures
            r@ == self.spec_name(),
    {
        match self {
            RuleId::LockPoisoning => String::from_str("lock-poisoning"),
            RuleId::TaskLeak => String::from_str("task-leak"),
            RuleId::UncheckedUnwrap => String::from_str("unchecked-unwrap"),
        }
    }

    /// What a finding of the rule says.
    pub open spec fn spec_message(self) -> Seq<char> {
        match self {
            RuleId::LockPoisoning => "panic while a lock is held: the lock is poisoned"@,
            RuleId::TaskLeak => "spawned task is never joined, awaited or aborted"@,
            RuleId::UncheckedUnwrap => "optional value is unwrapped without a check"@,
        }
    }

    /// What a finding of the rule says.
    pub fn message(self) -> (r: String)
        ensures
            r@ == self.spec_message(),
    {
        match self {
            RuleId::LockPoisoning => String::from_str(
                "panic while a lock is held: the lock is poisoned",
            ),
            RuleId::TaskLeak => String::from_str(
                "spawned task is never joined, awaited or aborted",
            ),
            RuleId::UncheckedUnwrap => String::from_str(
                "optional value is unwrapped without a check",
            ),
        }
    }
}

/// One violation of a rule.
#[derive(Debug, PartialEq, Eq)]
pub struct Finding {
    pub rule: RuleId,
    pub severity: Severity,
    /// The place in the source that the finding points at.
    pub location: Span,
    pub message: String,
    /// The blocks of a path from a root to the block of the violation.
    pub evidence: Vec<usize>,
}

/// The mathematical value of a finding.
pub struct FindingModel {
    pub rule: RuleId,
    pub severity: Severity,
    pub location: Span,
    pub message: Seq<char>,
    pub evidence: Seq<usize>,
}

impl View for Finding {
    type V = FindingModel;

    open spec fn view(&self) -> FindingModel {
        FindingModel {
            rule: self.rule,
            severity: self.severity,
            location: self.location,
            message: self.message@,
            evidence: self.evidence@,
        }
    }
}

/// The values of a list of findings.
pub open spec fn models(findings: Seq<Finding>) -> Seq<FindingModel> {
    findings.map_values(|f: Finding| f@)
}

/// The finding of `rule` at `location` in block `b`.
pub open spec fn finding_at(rule: RuleId, tr: TraceModel, b: usize, location: Span)
    -> FindingModel {
    FindingModel {
        rule,
        severity: rule.spec_severity(),
        location,
        message: rule.spec_message(),
        evidence: tr.path_to(b),
    }
}

/// The place that a finding about block `b` points at: the last statement of
/// the block, which is the exit itself in a terminal block.
pub open spec fn block_span(g: CfgModel, b: int) -> Span {
    if g.blocks[b].stmts.len() > 0 {
        g.blocks[b].stmts.last().span
    } else {
        Span { start: 0, end: 0 }
    }
}

/// Whether a resource of kind `kind` may be held where block `b` begins.
pub open spec fn holds_kind(tr: TraceModel, b: int, kind: ResourceKind) -> bool {
    exists|k: int| 0 <= k < tr.handles.len() && #[trigger] tr.live_in[b][k] && tr.handles[k].kind == kind
}

/// Whether `rule` flags block `b`: control can come to the block, the block
/// is an exit at which the kind of resource that the rule watches is owed,
/// and such a resource may be held where the block begins.
///
/// So the rule against lock poisoning flags the reached terminal blocks of a
/// panic at which a lock may be held, and the rule against task leaks flags
/// the reached terminal blocks, of a return or of a panic, at which a
/// spawned task may be held.
pub open spec fn flags_block(rule: RuleId, g: CfgModel, tr: TraceModel, b: int) -> bool {
    &&& tr.reached[b]
    &&& g.blocks[b].exit is Some
    &&& rule.spec_watches().owed_at(g.blocks[b].exit.unwrap())
    &&& holds_kind(tr, b, rule.spec_watches())
}

/// The findings of `rule` about the first `upto` blocks, in their order.
pub open spec fn block_findings(rule: RuleId, g: CfgModel, tr: TraceModel, upto: int) -> Seq<
    FindingModel,
>
    decreases upto,
{
    if upto <= 0 {
        Seq::empty()
    } else {
        let before = block_findings(rule, g, tr, upto - 1);
        if flags_block(rule, g, tr, upto - 1) {
            before.push(finding_at(rule, tr, (upto - 1) as usize, block_span(g, upto - 1)))
        } else {
            before
        }
    }
}

/// The depth limit of a backward scan that has not yet crossed the end of a
/// scope: every depth lies below it.
pub open spec fn open_limit() -> int {
    0x1_0000_0000
}

/// Whether the binding `x` holds an unchecked optional value at statement
/// `i` of block `b`, as the statements before that place show it. `limit` is
/// the lowest depth of a scope that ends between the statement looked at and
/// that place: only a statement below that depth is still in scope there.
///
/// The statements are looked at from that place backwards, through the
/// blocks in the order of their numbers, which is the order of the source.
/// The nearest statement in scope that checks `x` or binds an optional value
/// to `x` decides: a check means that the value is handled, a binding that it
/// is not. Where there is none, `x` holds no optional value.
pub open spec fn spec_unchecked(g: CfgModel, b: int, i: int, x: u32, limit: int) -> bool
    decreases b, i,
{
    if b < 0 {
        false
    } else if 0 < i <= g.blocks[b].stmts.len() {
        let stmt = g.blocks[b].stmts[i - 1];
        if stmt.kind == StmtKind::ScopeExit {
            spec_unchecked(
                g,
                b,
                i - 1,
                x,
                if stmt.depth < limit {
                    stmt.depth as int
                } else {
                    limit
                },
            )
        } else if stmt.depth < limit && stmt.binding == x && stmt.kind == StmtKind::Check {
            false
        } else if stmt.depth < limit && stmt.binding == x && stmt.kind == StmtKind::Acquire(
            ResourceKind::Optional,
        ) {
            true
        } else {
            spec_unchecked(g, b, i - 1, x, limit)
        }
    } else if b > 0 {
        spec_unchecked(g, b - 1, g.blocks[b - 1].stmts.len() as int, x, limit)
    } else {
        false
    }
}

/// Whether the rule against unchecked unwraps flags statement `i` of block
/// `b`: control can come to the block, the statement unwraps its binding,
/// and the binding holds an unchecked optional value there.
pub open spec fn flags_stmt(g: CfgModel, tr: TraceModel, b: int, i: int) -> bool {
    &&& tr.reached[b]
    &&& g.blocks[b].stmts[i].kind == StmtKind::Unwrap
    &&& spec_unchecked(g, b, i, g.blocks[b].stmts[i].binding, open_limit())
}

/// The findings about the first `upto` statements of block `b`.
pub open spec fn stmt_findings(g: CfgModel, tr: TraceModel, b: int, upto: int) -> Seq<FindingModel>
    decreases upto,
{
    if upto <= 0 {
        Seq::empty()
    } else {
        let before = stmt_findings(g, tr, b, upto - 1);
        if flags_stmt(g, tr, b, upto - 1) {
            before.push(
                finding_at(
                    RuleId::UncheckedUnwrap,
                    tr,
                    b as usize,
                    g.blocks[b].stmts[upto - 1].span,
                ),
            )
        } else {
            before
        }
    }
}

/// The findings about the statements of the first `upto` blocks.
pub open spec fn unwrap_findings(g: CfgModel, tr: TraceModel, upto: int) -> Seq<FindingModel>
    decreases upto,
{
    if upto <= 0 {
        Seq::empty()
    } else {
        unwrap_findings(g, tr, upto - 1) + stmt_findings(
            g,
            tr,
            upto - 1,
            g.blocks[upto - 1].stmts.len() as int,
        )
    }
}

/// The findings of `rule` on graph `g` with trace `tr`. A trace whose tables
/// do not have the sizes of the graph cannot be read, and gives no finding.
pub open spec fn spec_evaluate(rule: RuleId, g: CfgModel, tr: TraceModel) -> Seq<FindingModel> {
    if !tr.shaped(g) {
        Seq::empty()
    } else if rule == RuleId::UncheckedUnwrap {
        unwrap_findings(g, tr, g.blocks.len() as int)
    } else {
        block_findings(rule, g, tr, g.blocks.len() as int)
    }
}

/// Executable form of [`holds_kind`].
fn holds(tr: &ObligationTrace, b: usize, kind: ResourceKind) -> (r: bool)
    requires
        b < tr@.live_in.len(),
        tr@.live_in[b as int].len() == tr@.handles.len(),
    ensures
        r == holds_kind(tr@, b as int, kind),
{
    let mut k: usize = 0;
    while k < tr.handles.len()
        invariant
            b < tr@.live_in.len(),
            tr@.live_in[b as int].len() == tr@.handles.len(),
            k <= tr.handles.len(),
            forall|j: int|
                0 <= j < k ==> !(#[trigger] tr@.live_in[b as int][j] && tr@.handles[j].kind == kind),
        decreases tr.handles.len() - k,
    {
        if tr.live_in[b][k] && tr.handles[k].kind == kind {
            assert(tr@.live_in[b as int][k as int] && tr@.handles[k as int].kind == kind);
            return true;
        }
        k = k + 1;
    }
    false
}

/// Executable form of [`flags_block`].
fn flagged_block(rule: RuleId, cfg: &Cfg, tr: &ObligationTrace, b: usize) -> (r: bool)
    requires
        tr@.shaped(cfg@),
        b < cfg@.blocks.len(),
    ensures
        r == flags_block(rule, cfg@, tr@, b as int),
{
    assert(tr@.live_in[b as int].len() == tr@.handles.len());
    if !tr.reached[b] {
        return false;
    }
    match cfg.blocks[b].exit {
        Some(exit) => rule.watches().owed_at(exit) && holds(tr, b, rule.watches()),
        None => false,
    }
}

/// Builds the finding of `rule` at `location` in block `b`.
fn report(rule: RuleId, tr: &ObligationTrace, b: usize, location: Span) -> (f: Finding)
    ensures
        f@ == finding_at(rule, tr@, b, location),
{
    Finding {
        rule,
        severity: rule.severity(),
        location,
        message: rule.message(),
        evidence: tr.path_to(b),
    }
}

/// Executable form of [`spec_unchecked`] from an open scope.
fn unchecked(cfg: &Cfg, b: usize, i: usize, x: u32) -> (r: bool)
    requires
        b < cfg@.blocks.len(),
        i <= cfg@.blocks[b as int].stmts.len(),
    ensures
        r == spec_unchecked(cfg@, b as int, i as int, x, open_limit()),
{
    let ghost g = cfg@;
    let mut at_block = b;
    let mut at = i;
    let mut limit: u64 = 0x1_0000_0000;
    loop
        invariant
            g == cfg@,
            at_block < g.blocks.len(),
            at <= g.blocks[at_block as int].stmts.len(),
            limit <= 0x1_0000_0000,
            spec_unchecked(g, at_block as int, at as int, x, limit as int) == spec_unchecked(
                g,
                b as int,
                i as int,
                x,
                open_limit(),
            ),
        decreases at_block, at,
    {
        if at > 0 {
            let stmt = cfg.blocks[at_block].stmts[at - 1];
            assert(stmt == g.blocks[at_block as int].stmts[at - 1]);
            let in_scope = (stmt.depth as u64) < limit;
            let same = stmt.binding == x;
            match stmt.kind {
                StmtKind::ScopeExit => {
                    if in_scope {
                        limit = stmt.depth as u64;
                    }
                },
                StmtKind::Check => {
                    if in_scope && same {
                        return false;
                    }
                },
                StmtKind::Acquire(ResourceKind::Optional) => {
                    if in_scope && same {
                        return true;
                    }
                },
                _ => {},
            }
            at = at - 1;
        } else if at_block > 0 {
            at_block = at_block - 1;
            at = cfg.blocks[at_block].stmts.len();
        } else {
            return false;
        }
    }
}

impl RuleId {
    /// Evaluates the rule on a graph with its obligation trace, and returns
    /// its findings in the order of the blocks and of their statements.
    pub fn evaluate(self, cfg: &Cfg, trace: &ObligationTrace) -> (findings: Vec<Finding>)
        ensures
            models(findings@) == spec_evaluate(self, cfg@, trace@),
    {
        let ghost g = cfg@;
        let ghost tr = trace@;
        let mut findings: Vec<Finding> = Vec::new();
        assert(models(findings@) =~= Seq::<FindingModel>::empty());
        if !trace.shaped(cfg) {
            return findings;
        }
        let unwraps = match self {
            RuleId::UncheckedUnwrap => true,
            _ => false,
        };
        let mut b: usize = 0;
        while b < cfg.blocks.len()
            invariant
                g == cfg@,
                tr == trace@,
                tr.shaped(g),
                b <= cfg.blocks.len(),
                unwraps == (self == RuleId::UncheckedUnwrap),
                unwraps ==> models(findings@) == unwrap_findings(g, tr, b as int),
                !unwraps ==> models(findings@) == block_findings(self, g, tr, b as int),
            decreases cfg.blocks.len() - b,
        {
            if unwraps {
                let ghost before = models(findings@);
                let reached = trace.reached[b];
                let mut i: usize = 0;
                while i < cfg.blocks[b].stmts.len()
                    invariant
                        g == cfg@,
                        tr == trace@,
                        tr.shaped(g),
                        self == RuleId::UncheckedUnwrap,
                        b < cfg.blocks.len(),
                        reached == tr.reached[b as int],
                        i <= cfg.blocks[b as int].stmts.len(),
                        before == unwrap_findings(g, tr, b as int),
                        models(findings@) == before + stmt_findings(g, tr, b as int, i as int),
                    decreases cfg.blocks[b as int].stmts.len() - i,
                {
                    let stmt = cfg.blocks[b].stmts[i];
                    assert(stmt == g.blocks[b as int].stmts[i as int]);
                    let is_unwrap = match stmt.kind {
                        StmtKind::Unwrap => true,
                        _ => false,
                    };
                    if reached && is_unwrap && unchecked(cfg, b, i, stmt.binding) {
                        let ghost old_findings = findings@;
                        let f = report(self, trace, b, stmt.span);
                        findings.push(f);
                        assert(models(findings@) =~= models(old_findings).push(f@));
                    }
                    i = i + 1;
                    assert(models(findings@) =~= before + stmt_findings(g, tr, b as int, i as int));
                }
            } else {
                if flagged_block(self, cfg, trace, b) {
                    let n_stmts = cfg.blocks[b].stmts.len();
                    let location = if n_stmts > 0 {
                        cfg.blocks[b].stmts[n_stmts - 1].span
                    } else {
                        Span { start: 0, end: 0 }
                    };
                    assert(location == block_span(g, b as int));
                    let ghost old_findings = findings@;
                    let f = report(self, trace, b, location);
                    findings.push(f);
                    assert(models(findings@) =~= models(old_findings).push(f@));
                }
            }
            b = b + 1;
        }
        findings
    }
}

} // verus!
