//! The sample programs, written as the trees that a parser hands to the
//! engine, and the verdicts on them.
use hazard_scan::aggregate::Verdict;
use hazard_scan::cfg::Cfg;
use hazard_scan::engine::{analyze, Config};
use hazard_scan::lower::build_cfg;
use hazard_scan::resource::ResourceKind;
use hazard_scan::rules::{Finding, RuleId, Severity};
use hazard_scan::syntax::{NodeKind, Span, SyntaxNode};

const SHARED: u32 = 1;
const GUARD: u32 = 2;
const HANDLE: u32 = 3;
const HANDLES: u32 = 4;
const TASK: u32 = 5;
const SECRET: u32 = 6;
const VALUE: u32 = 7;
const RESULT: u32 = 8;

/// The span of columns `from..to` of line `line`.
fn at(line: u32, from: u32, to: u32) -> Span {
    Span::new(line * 100 + from, line * 100 + to)
}

fn leaf(kind: NodeKind, binding: u32, span: Span) -> SyntaxNode {
    SyntaxNode::leaf(kind, binding, span)
}

fn node(kind: NodeKind, binding: u32, span: Span, children: Vec<SyntaxNode>) -> SyntaxNode {
    SyntaxNode::new(kind, binding, span, children)
}

fn other(line: u32) -> SyntaxNode {
    leaf(NodeKind::Other, 0, at(line, 0, 80))
}

fn findings(verdict: &Verdict) -> &[Finding] {
    match verdict {
        Verdict::Clean => &[],
        Verdict::Buggy(findings) => findings,
    }
}

/// Whether `path` leads from a root of `cfg` along its edges.
fn is_path(cfg: &Cfg, path: &[usize]) -> bool {
    if path.is_empty() || !cfg.roots.contains(&path[0]) {
        return false;
    }
    path.windows(2).all(|w| cfg.blocks[w[0]].edges.iter().any(|e| e.target == w[1]))
}

/// Four threads are spawned in a loop. Each locks the shared counter and
/// panics with the lock held. Nobody joins them.
fn poisoning_pool() -> SyntaxNode {
    let thread_body = node(
        NodeKind::Closure,
        0,
        at(9, 22, 99),
        vec![
            leaf(NodeKind::Acquire(ResourceKind::Lock), GUARD, at(10, 12, 51)),
            other(11),
            leaf(NodeKind::Panic, 0, at(12, 12, 28)),
        ],
    );
    let spawn = node(NodeKind::Acquire(ResourceKind::SpawnedTask), 0, at(9, 8, 99), vec![thread_body]);
    let spawning = node(NodeKind::Loop, 0, at(7, 4, 99), vec![other(8), spawn]);
    node(
        NodeKind::Block,
        0,
        at(5, 0, 99),
        vec![
            other(6),
            spawning,
            other(15),
            leaf(NodeKind::Acquire(ResourceKind::Lock), SHARED, at(16, 19, 43)),
            leaf(NodeKind::Discard, SHARED, at(16, 4, 46)),
        ],
    )
}

/// The job of a thread of the joined pool: lock the counter, add one.
fn worker_body() -> SyntaxNode {
    node(
        NodeKind::Block,
        0,
        at(4, 0, 99),
        vec![leaf(NodeKind::Acquire(ResourceKind::Lock), GUARD, at(5, 4, 59)), other(6)],
    )
}

/// Four threads are spawned in a loop and their handles kept in a vector.
/// A second loop takes every handle out of the vector and joins it, which
/// the parser reports as the release of the vector behind that loop.
fn joined_pool() -> SyntaxNode {
    let thread_body = node(NodeKind::Closure, 0, at(15, 35, 56), vec![other(15)]);
    let spawn = node(
        NodeKind::Acquire(ResourceKind::SpawnedTask),
        HANDLES,
        at(15, 8, 59),
        vec![thread_body],
    );
    let spawning = node(NodeKind::Loop, 0, at(13, 4, 99), vec![other(14), spawn]);
    let joining = node(NodeKind::Loop, 0, at(18, 4, 99), vec![other(19)]);
    node(
        NodeKind::Block,
        0,
        at(9, 0, 99),
        vec![
            other(10),
            other(11),
            spawning,
            node(NodeKind::Release, HANDLES, at(18, 4, 99), vec![joining]),
            leaf(NodeKind::Acquire(ResourceKind::Lock), SHARED, at(22, 25, 49)),
            leaf(NodeKind::Discard, SHARED, at(22, 4, 52)),
        ],
    )
}

/// A thread is spawned and never joined, and an optional value is unwrapped
/// as it is made.
fn leaking_thread() -> SyntaxNode {
    let thread_body = node(NodeKind::Closure, 0, at(2, 36, 58), vec![other(2)]);
    node(
        NodeKind::Block,
        0,
        at(1, 0, 99),
        vec![
            node(NodeKind::Acquire(ResourceKind::SpawnedTask), HANDLE, at(2, 4, 60), vec![thread_body]),
            other(3),
            leaf(NodeKind::Acquire(ResourceKind::Optional), SECRET, at(5, 17, 25)),
            leaf(NodeKind::Unwrap, SECRET, at(5, 17, 34)),
            other(6),
        ],
    )
}

/// A task is spawned on the runtime, and its handle is dropped.
fn leaking_task() -> SyntaxNode {
    let task_body = node(NodeKind::Closure, 0, at(10, 29, 46), vec![other(10)]);
    node(
        NodeKind::Block,
        0,
        at(9, 0, 99),
        vec![
            node(NodeKind::Acquire(ResourceKind::SpawnedTask), TASK, at(10, 4, 48), vec![task_body]),
            leaf(NodeKind::Discard, TASK, at(12, 4, 17)),
        ],
    )
}

/// Every fallible call is followed by `?`. The first lock is taken in a
/// block of its own and given up where that block ends.
fn propagating() -> SyntaxNode {
    let fallible_lock = |line: u32, binding: u32| -> Vec<SyntaxNode> {
        vec![
            leaf(NodeKind::Acquire(ResourceKind::Optional), RESULT, at(line, 20, 33)),
            leaf(NodeKind::Check, RESULT, at(line, 20, 62)),
            node(
                NodeKind::Branch,
                0,
                at(line, 62, 63),
                vec![
                    node(
                        NodeKind::Block,
                        0,
                        at(line, 62, 63),
                        vec![leaf(NodeKind::Return, 0, at(line, 62, 63))],
                    ),
                    node(NodeKind::Block, 0, at(line, 62, 63), vec![]),
                ],
            ),
            leaf(NodeKind::Acquire(ResourceKind::Lock), binding, at(line, 8, 64)),
        ]
    };
    let mut inner = fallible_lock(6, GUARD);
    inner.push(other(7));
    let mut body = vec![other(4), node(NodeKind::Block, 0, at(5, 4, 99), inner)];
    body.extend(fallible_lock(9, VALUE));
    body.push(other(10));
    body.push(other(11));
    node(NodeKind::Block, 0, at(3, 0, 99), body)
}

#[test]
fn poisoning_pool_is_buggy_twice() {
    let body = poisoning_pool();
    let analysis = analyze(&body, &Config::all());
    assert!(analysis.complete);
    let found = findings(&analysis.verdict);
    assert_eq!(found.len(), 2);
    assert_eq!(found[0].rule, RuleId::LockPoisoning);
    assert_eq!(found[0].severity, Severity::High);
    assert_eq!(found[0].location, at(12, 12, 28));
    assert_eq!(found[0].message, "panic while a lock is held: the lock is poisoned");
    assert_eq!(found[1].rule, RuleId::TaskLeak);
    assert_eq!(found[1].severity, Severity::Medium);
    assert_eq!(found[1].location, at(5, 0, 99));
    assert_eq!(found[1].message, "spawned task is never joined, awaited or aborted");
    let cfg = build_cfg(&body);
    for f in found {
        assert!(is_path(&cfg, &f.evidence));
        let last = *f.evidence.last().unwrap();
        assert!(cfg.blocks[last].exit.is_some());
        assert_eq!(cfg.blocks[last].stmts.last().unwrap().span, f.location);
    }
}

#[test]
fn joined_pool_is_clean() {
    assert_eq!(analyze(&joined_pool(), &Config::all()).verdict, Verdict::Clean);
    assert_eq!(analyze(&worker_body(), &Config::all()).verdict, Verdict::Clean);
}

#[test]
fn unjoined_pool_leaks() {
    // The same pool without the release of the vector of handles.
    let mut body = joined_pool();
    let release = body.children.remove(3);
    body.children.insert(3, release.children.into_iter().next().unwrap());
    let analysis = analyze(&body, &Config::all());
    let found = findings(&analysis.verdict);
    assert_eq!(found.len(), 1);
    assert_eq!(found[0].rule, RuleId::TaskLeak);
}

#[test]
fn unchecked_unwrap_is_found_once() {
    let body = node(
        NodeKind::Block,
        0,
        at(1, 0, 99),
        vec![
            leaf(NodeKind::Acquire(ResourceKind::Optional), SECRET, at(2, 4, 20)),
            leaf(NodeKind::Unwrap, SECRET, at(3, 4, 19)),
        ],
    );
    let analysis = analyze(&body, &Config::all());
    let expected = Finding {
        rule: RuleId::UncheckedUnwrap,
        severity: Severity::Medium,
        location: at(3, 4, 19),
        message: String::from("optional value is unwrapped without a check"),
        evidence: vec![0],
    };
    assert_eq!(analysis.verdict, Verdict::Buggy(vec![expected]));
}

#[test]
fn leaking_thread_is_buggy() {
    let analysis = analyze(&leaking_thread(), &Config::all());
    let found = findings(&analysis.verdict);
    assert_eq!(found.len(), 2);
    assert_eq!(found[0].rule, RuleId::TaskLeak);
    assert_eq!(found[0].location, at(1, 0, 99));
    assert_eq!(found[1].rule, RuleId::UncheckedUnwrap);
    assert_eq!(found[1].location, at(5, 17, 34));
    let unwraps = found.iter().filter(|f| f.rule == RuleId::UncheckedUnwrap).count();
    assert_eq!(unwraps, 1);
}

#[test]
fn dropped_task_handle_leaks() {
    let analysis = analyze(&leaking_task(), &Config::all());
    let found = findings(&analysis.verdict);
    assert_eq!(found.len(), 1);
    assert_eq!(found[0].rule, RuleId::TaskLeak);
    assert_eq!(found[0].severity, Severity::Medium);
}

#[test]
fn propagating_errors_is_clean() {
    let analysis = analyze(&propagating(), &Config::all());
    assert!(analysis.complete);
    assert_eq!(analysis.verdict, Verdict::Clean);
}
