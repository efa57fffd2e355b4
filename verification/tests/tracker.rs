//! The obligation trace of graphs made by hand.
use hazard_scan::aggregate::Verdict;
use hazard_scan::cfg::{Cfg, EdgeKind, Stmt, StmtKind};
use hazard_scan::engine::{analyze_graph, Config};
use hazard_scan::resource::{ExitKind, ResourceKind, ResourceState};
use hazard_scan::rules::RuleId;
use hazard_scan::scope::{collect_handles, effect, flow_block, held_after, resolves, track, ResourceHandle};
use hazard_scan::resource::Event;
use hazard_scan::syntax::Span;

const GUARD: u32 = 1;
const HANDLE: u32 = 2;
const OTHER: u32 = 3;

fn at(line: u32) -> Span {
    Span::new(line * 100, line * 100 + 80)
}

fn stmt(kind: StmtKind, binding: u32, depth: u32, line: u32) -> Stmt {
    Stmt { kind, binding, depth, span: at(line) }
}

/// A fork that joins again and then panics, and a block that nothing leads
/// to:
///
/// ```text
/// 0: lock GUARD, spawn HANDLE  -> 1, 2
/// 1: release GUARD             -> 3
/// 2:                           -> 3
/// 3: end of scope 1            -> 4
/// 4: panic
/// 5: lock OTHER                -> 4
/// ```
fn diamond() -> Cfg {
    let mut cfg = Cfg::new();
    for exit in [None, None, None, None, Some(ExitKind::Panic), None] {
        cfg.push_block(exit);
    }
    cfg.push_root(0);
    cfg.push_stmt(0, stmt(StmtKind::Acquire(ResourceKind::Lock), GUARD, 1, 1));
    cfg.push_stmt(0, stmt(StmtKind::Acquire(ResourceKind::SpawnedTask), HANDLE, 1, 2));
    cfg.push_stmt(1, stmt(StmtKind::Release, GUARD, 2, 3));
    cfg.push_stmt(3, stmt(StmtKind::ScopeExit, 0, 1, 4));
    cfg.push_stmt(4, stmt(StmtKind::Panic, 0, 1, 5));
    cfg.push_stmt(5, stmt(StmtKind::Acquire(ResourceKind::Lock), OTHER, 1, 6));
    cfg.push_edge(0, 1, EdgeKind::BranchTrue);
    cfg.push_edge(0, 2, EdgeKind::BranchFalse);
    cfg.push_edge(1, 3, EdgeKind::Unconditional);
    cfg.push_edge(2, 3, EdgeKind::Unconditional);
    cfg.push_edge(3, 4, EdgeKind::EarlyExit(ExitKind::Panic));
    cfg.push_edge(5, 4, EdgeKind::EarlyExit(ExitKind::Panic));
    cfg
}

fn handle(kind: ResourceKind, origin: usize, index: usize, binding: u32, line: u32) -> ResourceHandle {
    ResourceHandle {
        kind,
        origin,
        index,
        binding,
        depth: 1,
        span: at(line),
        state: ResourceState::Acquired,
    }
}

#[test]
fn the_handles_are_the_acquisitions_in_their_order() {
    let cfg = diamond();
    assert_eq!(
        collect_handles(&cfg),
        vec![
            handle(ResourceKind::Lock, 0, 0, GUARD, 1),
            handle(ResourceKind::SpawnedTask, 0, 1, HANDLE, 2),
            handle(ResourceKind::Lock, 5, 0, OTHER, 6),
        ]
    );
    assert_eq!(collect_handles(&Cfg::new()), vec![]);
}

#[test]
fn the_trace_of_the_diamond() {
    let cfg = diamond();
    assert!(cfg.is_indexed());
    let trace = track(&cfg);
    assert!(trace.complete);
    assert!(trace.shaped(&cfg));
    assert_eq!(trace.handles, collect_handles(&cfg));
    assert_eq!(trace.reached, vec![true, true, true, true, true, false]);
    assert_eq!(
        trace.live_in,
        vec![
            vec![false, false, false],
            vec![true, true, false],
            vec![true, true, false],
            // The lock comes in by way of block 2, where it is not released.
            vec![true, true, false],
            // The end of the scope has given the lock up; the task is left.
            vec![false, true, false],
            vec![false, false, false],
        ]
    );
    assert_eq!(
        trace.states,
        vec![ResourceState::Released, ResourceState::Leaked, ResourceState::Unknown]
    );
    assert_eq!(trace.path_to(4), vec![0, 1, 3, 4]);
    assert_eq!(trace.path_to(2), vec![0, 2]);
    assert_eq!(trace.path_to(0), vec![0]);
    assert_eq!(&trace.rank[..5], &[0, 1, 1, 2, 3]);
}

#[test]
fn the_rules_read_the_trace() {
    let cfg = diamond();
    let trace = track(&cfg);
    assert_eq!(RuleId::LockPoisoning.evaluate(&cfg, &trace), vec![]);
    assert_eq!(RuleId::UncheckedUnwrap.evaluate(&cfg, &trace), vec![]);
    let leaks = RuleId::TaskLeak.evaluate(&cfg, &trace);
    assert_eq!(leaks.len(), 1);
    assert_eq!(leaks[0].location, at(5));
    assert_eq!(leaks[0].evidence, vec![0, 1, 3, 4]);
}

#[test]
fn a_trace_of_another_graph_gives_no_finding() {
    let cfg = diamond();
    let mut trace = track(&cfg);
    trace.reached.pop();
    assert!(!trace.shaped(&cfg));
    assert_eq!(RuleId::TaskLeak.evaluate(&cfg, &trace), vec![]);
    let mut trace = track(&cfg);
    trace.live_in[3].push(true);
    assert!(!trace.shaped(&cfg));
    assert_eq!(RuleId::TaskLeak.evaluate(&cfg, &trace), vec![]);
}

#[test]
fn a_lock_held_around_a_cycle() {
    // 0: lock -> 1;  1: -> 2, 3;  2: -> 1 (back);  3: panic
    let mut cfg = Cfg::new();
    for exit in [None, None, None, Some(ExitKind::Panic)] {
        cfg.push_block(exit);
    }
    cfg.push_root(0);
    cfg.push_stmt(0, stmt(StmtKind::Acquire(ResourceKind::Lock), GUARD, 1, 1));
    cfg.push_stmt(2, stmt(StmtKind::Discard, GUARD, 1, 2));
    cfg.push_stmt(2, stmt(StmtKind::Acquire(ResourceKind::SpawnedTask), HANDLE, 2, 3));
    cfg.push_stmt(3, stmt(StmtKind::Panic, 0, 1, 4));
    cfg.push_edge(0, 1, EdgeKind::Unconditional);
    cfg.push_edge(1, 2, EdgeKind::BranchTrue);
    cfg.push_edge(1, 3, EdgeKind::BranchFalse);
    cfg.push_edge(2, 1, EdgeKind::LoopBack);
    let trace = track(&cfg);
    assert!(trace.complete);
    assert_eq!(trace.reached, vec![true; 4]);
    // The task comes around the back edge; the lock is held on the way in.
    assert_eq!(
        trace.live_in,
        vec![vec![false, false], vec![true, true], vec![true, true], vec![true, true]]
    );
    assert_eq!(trace.states, vec![ResourceState::Leaked, ResourceState::Leaked]);
    assert_eq!(RuleId::LockPoisoning.evaluate(&cfg, &trace).len(), 1);
    assert_eq!(RuleId::TaskLeak.evaluate(&cfg, &trace).len(), 1);
}

#[test]
fn a_graph_with_a_stray_edge_is_not_indexed() {
    let mut cfg = Cfg::new();
    cfg.push_block(None);
    cfg.push_root(0);
    assert!(cfg.is_indexed());
    cfg.push_edge(0, 1, EdgeKind::Unconditional);
    assert!(!cfg.is_indexed());
    let mut cfg = Cfg::new();
    cfg.push_root(0);
    assert!(!cfg.is_indexed());
}

#[test]
fn a_graph_without_roots_reaches_nothing() {
    let mut cfg = Cfg::new();
    cfg.push_block(Some(ExitKind::Return));
    cfg.push_stmt(0, stmt(StmtKind::Acquire(ResourceKind::SpawnedTask), HANDLE, 1, 1));
    let trace = track(&cfg);
    assert!(trace.complete);
    assert_eq!(trace.reached, vec![false]);
    assert_eq!(trace.states, vec![ResourceState::Unknown]);
}

#[test]
fn what_a_statement_does_to_a_handle() {
    let lock = handle(ResourceKind::Lock, 0, 0, GUARD, 1);
    let task = handle(ResourceKind::SpawnedTask, 0, 1, GUARD, 2);
    let optional = handle(ResourceKind::Optional, 0, 2, GUARD, 3);
    let release = stmt(StmtKind::Release, GUARD, 1, 4);
    let discard = stmt(StmtKind::Discard, GUARD, 1, 4);
    let check = stmt(StmtKind::Check, GUARD, 1, 4);
    let scope_end = stmt(StmtKind::ScopeExit, 0, 1, 4);
    let inner_scope_end = stmt(StmtKind::ScopeExit, 0, 2, 4);
    let other_release = stmt(StmtKind::Release, OTHER, 1, 4);
    assert_eq!(
        [resolves(release, lock), resolves(release, task), resolves(release, optional)],
        [true, true, false]
    );
    assert_eq!(
        [resolves(discard, lock), resolves(discard, task), resolves(discard, optional)],
        [true, false, true]
    );
    assert_eq!(
        [resolves(check, lock), resolves(check, task), resolves(check, optional)],
        [false, false, true]
    );
    assert_eq!(
        [resolves(scope_end, lock), resolves(scope_end, task), resolves(scope_end, optional)],
        [true, false, true]
    );
    assert!(!resolves(inner_scope_end, lock));
    assert!(!resolves(other_release, lock));
    assert!(!resolves(stmt(StmtKind::Opaque, GUARD, 1, 4), lock));
    let acquire = stmt(StmtKind::Acquire(ResourceKind::Lock), GUARD, 1, 1);
    assert_eq!(effect(acquire, 0, 0, lock), Some(Event::Acquire));
    assert_eq!(effect(acquire, 0, 0, task), None);
    assert_eq!(effect(acquire, 1, 0, lock), None);
    assert_eq!(effect(release, 3, 7, lock), Some(Event::Resolve));
    assert_eq!(effect(other_release, 3, 7, lock), None);
    assert_eq!(
        [held_after(false, Some(Event::Acquire)), held_after(true, Some(Event::Resolve))],
        [true, false]
    );
    assert_eq!([held_after(false, None), held_after(true, None)], [false, true]);
}

#[test]
fn what_is_held_behind_a_block() {
    let cfg = diamond();
    let handles = collect_handles(&cfg);
    assert_eq!(flow_block(&cfg, &handles, 0, &vec![false, false, false]), vec![true, true, false]);
    assert_eq!(flow_block(&cfg, &handles, 1, &vec![true, true, false]), vec![false, true, false]);
    assert_eq!(flow_block(&cfg, &handles, 2, &vec![true, true, true]), vec![true, true, true]);
    assert_eq!(flow_block(&cfg, &handles, 3, &vec![true, true, true]), vec![false, true, false]);
}

#[test]
fn a_graph_made_by_hand_is_analyzed_if_it_is_indexed() {
    let cfg = diamond();
    let analysis = analyze_graph(&cfg, &Config::all()).expect("the diamond is indexed");
    assert!(analysis.complete);
    match analysis.verdict {
        Verdict::Clean => panic!("the task is left behind"),
        Verdict::Buggy(findings) => {
            assert_eq!(findings.len(), 1);
            assert_eq!(findings[0].rule, RuleId::TaskLeak);
            assert_eq!(findings[0].location, at(5));
        }
    }
    let mut stray = diamond();
    stray.push_edge(2, 6, EdgeKind::Unconditional);
    assert!(analyze_graph(&stray, &Config::all()).is_none());
    let empty = analyze_graph(&Cfg::new(), &Config::all()).expect("nothing is out of range");
    assert_eq!(empty.verdict, Verdict::Clean);
}
