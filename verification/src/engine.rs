//! The engine: from the tree of a function body to its verdict.
use vstd::prelude::*;
use crate::aggregate::{aggregate, spec_aggregate, Verdict, VerdictModel};
use crate::cfg::{Cfg, CfgModel};
use crate::lower::{build_cfg, lower};
use crate::rules::{models, spec_evaluate, Finding, FindingModel, RuleId};
use crate::scope::{handles, track, ObligationTrace, TraceModel};
use crate::syntax::SyntaxNode;

verus! {

/// The registry of active rules, in the order in which they are evaluated.
#[derive(Debug)]
pub struct Config {
    pub rules: Vec<RuleId>,
}

/// The registry that holds every rule.
pub open spec fn all_rules() -> Seq<RuleId> {
    seq![RuleId::LockPoisoning, RuleId::TaskLeak, RuleId::UncheckedUnwrap]
}

impl Config {
    /// The registry that holds every rule.
    pub fn all() -> (c: Config)
        ensures
            c.rules@ == all_rules(),
    {
        let mut rules: Vec<RuleId> = Vec::new();
        rules.push(RuleId::LockPoisoning);
        rules.push(RuleId::TaskLeak);
        rules.push(RuleId::UncheckedUnwrap);
        assert(rules@ =~= all_rules());
        Config { rules }
    }

    /// The registry that holds `rules`.
    pub fn only(rules: Vec<RuleId>) -> (c: Config)
        ensures
            c.rules == rules,
    {
        Config { rules }
    }

    /// Whether `rule` is active.
    pub fn enables(&self, rule: RuleId) -> (r: bool)
        ensures
            r == self.rules@.contains(rule),
    {
        let mut i: usize = 0;
        while i < self.rules.len()
            invariant
                i <= self.rules.len(),
                forall|j: int| 0 <= j < i ==> self.rules@[j] != rule,
            decreases self.rules.len() - i,
        {
            if self.rules[i] == rule {
                return true;
            }
            i = i + 1;
        }
        false
    }
}

impl Default for Config {
    fn default() -> (c: Config)
        ensures
            c.rules@ == all_rules(),
    {
        Config::all()
    }
}

/// The findings of `rules` on graph `g` with trace `tr`, rule after rule.
pub open spec fn raw_findings(g: CfgModel, tr: TraceModel, rules: Seq<RuleId>) -> Seq<FindingModel>
    decreases rules.len(),
{
    if rules.len() == 0 {
        Seq::empty()
    } else {
        raw_findings(g, tr, rules.drop_last()) + spec_evaluate(rules.last(), g, tr)
    }
}

/// The verdict of `rules` on graph `g` with trace `tr`.
pub open spec fn spec_judge(g: CfgModel, tr: TraceModel, rules: Seq<RuleId>) -> VerdictModel {
    spec_aggregate(raw_findings(g, tr, rules))
}

/// Evaluates the active rules on a graph with its obligation trace, each on
/// its own, and merges their findings into the verdict.
pub fn judge(cfg: &Cfg, trace: &ObligationTrace, config: &Config) -> (verdict: Verdict)
    ensures
        verdict@ == spec_judge(cfg@, trace@, config.rules@),
{
    let mut findings: Vec<Finding> = Vec::new();
    assert(models(findings@) =~= raw_findings(cfg@, trace@, config.rules@.take(0)));
    let mut i: usize = 0;
    while i < config.rules.len()
        invariant
            i <= config.rules.len(),
            models(findings@) == raw_findings(cfg@, trace@, config.rules@.take(i as int)),
        decreases config.rules.len() - i,
    {
        let ghost before = findings@;
        let mut found = config.rules[i].evaluate(cfg, trace);
        let ghost added = found@;
        findings.append(&mut found);
        proof {
            assert(models(findings@) =~= models(before) + models(added));
            assert(config.rules@.take(i + 1).drop_last() =~= config.rules@.take(i as int));
        }
        i = i + 1;
    }
    assert(config.rules@.take(i as int) =~= config.rules@);
    aggregate(findings)
}

/// Whether `tr` is an obligation trace of graph `g`, as the tracker computes
/// it: it holds the handles of the graph, fits the graph, says nothing that is
/// not so, and is exact where it is complete, which it is whenever the number
/// of facts that it can hold fits the machine's integers.
pub open spec fn is_trace_of(g: CfgModel, tr: TraceModel) -> bool {
    &&& tr.handles == handles(g)
    &&& tr.fits(g)
    &&& tr.sound(g)
    &&& tr.complete ==> tr.exact(g)
    &&& g.blocks.len() * (handles(g).len() + 1) < usize::MAX ==> tr.complete
    &&& forall|k: int| 0 <= k < tr.handles.len() ==> #[trigger] tr.states[k] == tr.final_state(g, k)
}

/// The result of an analysis.
#[derive(Debug)]
pub struct Analysis {
    pub verdict: Verdict,
    /// False where the tracker had to stop before it was done. The verdict
    /// may then lack findings; those that it holds are still justified.
    pub complete: bool,
}

/// Analyzes the body of one function: builds its graph, tracks its
/// obligations, evaluates the active rules and gives the verdict. Every body
/// gets a verdict.
pub fn analyze(body: &SyntaxNode, config: &Config) -> (a: Analysis)
    ensures
        exists|tr: TraceModel| #[trigger]
            is_trace_of(lower(*body), tr) && a.complete == tr.complete && a.verdict@ == spec_judge(
                lower(*body),
                tr,
                config.rules@,
            ),
{
    let cfg = build_cfg(body);
    let trace = track(&cfg);
    let verdict = judge(&cfg, &trace, config);
    assert(is_trace_of(lower(*body), trace@));
    Analysis { verdict, complete: trace.complete }
}

/// Analyzes a graph that was not made by the builder of this library. A
/// graph with an edge or a root that names no block cannot be analyzed and
/// gets `None`; every other graph gets its verdict.
pub fn analyze_graph(cfg: &Cfg, config: &Config) -> (a: Option<Analysis>)
    ensures
        a is Some <==> cfg@.indexed(),
        a matches Some(analysis) ==> exists|tr: TraceModel| #[trigger]
            is_trace_of(cfg@, tr) && analysis.complete == tr.complete && analysis.verdict@
                == spec_judge(cfg@, tr, config.rules@),
{
    if !cfg.is_indexed() {
        return None;
    }
    let trace = track(cfg);
    let verdict = judge(cfg, &trace, config);
    assert(is_trace_of(cfg@, trace@));
    Some(Analysis { verdict, complete: trace.complete })
}

} // verus!
