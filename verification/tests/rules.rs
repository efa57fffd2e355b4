//! What the rules flag and what they let pass.
use hazard_scan::aggregate::Verdict;
use hazard_scan::engine::{analyze, Config};
use hazard_scan::resource::ResourceKind;
use hazard_scan::rules::{Finding, RuleId, Severity};
use hazard_scan::syntax::{NodeKind, Span, SyntaxNode};

const X: u32 = 1;
const Y: u32 = 2;
const GUARD: u32 = 3;
const HANDLE: u32 = 4;

fn at(line: u32) -> Span {
    Span::new(line * 100, line * 100 + 80)
}

fn leaf(kind: NodeKind, binding: u32, line: u32) -> SyntaxNode {
    SyntaxNode::leaf(kind, binding, at(line))
}

fn node(kind: NodeKind, line: u32, children: Vec<SyntaxNode>) -> SyntaxNode {
    SyntaxNode::new(kind, 0, at(line), children)
}

fn body(children: Vec<SyntaxNode>) -> SyntaxNode {
    node(NodeKind::Block, 1, children)
}

fn block(line: u32, children: Vec<SyntaxNode>) -> SyntaxNode {
    node(NodeKind::Block, line, children)
}

fn optional(binding: u32, line: u32) -> SyntaxNode {
    leaf(NodeKind::Acquire(ResourceKind::Optional), binding, line)
}

fn lock(binding: u32, line: u32) -> SyntaxNode {
    leaf(NodeKind::Acquire(ResourceKind::Lock), binding, line)
}

fn spawn(binding: u32, line: u32) -> SyntaxNode {
    leaf(NodeKind::Acquire(ResourceKind::SpawnedTask), binding, line)
}

/// The rule and the place of each finding, in the order of the verdict.
fn sites(tree: &SyntaxNode) -> Vec<(RuleId, Span)> {
    match analyze(tree, &Config::all()).verdict {
        Verdict::Clean => vec![],
        Verdict::Buggy(findings) => findings.iter().map(|f| (f.rule, f.location)).collect(),
    }
}

#[test]
fn unwrap_behind_a_check_is_clean() {
    let tree = body(vec![optional(X, 2), leaf(NodeKind::Check, X, 3), leaf(NodeKind::Unwrap, X, 4)]);
    assert_eq!(sites(&tree), vec![]);
}

#[test]
fn unwrap_behind_a_check_in_an_enclosing_scope_is_clean() {
    let tree = body(vec![
        optional(X, 2),
        leaf(NodeKind::Check, X, 3),
        block(4, vec![node(NodeKind::Loop, 5, vec![leaf(NodeKind::Unwrap, X, 6)])]),
    ]);
    assert_eq!(sites(&tree), vec![]);
}

#[test]
fn a_check_in_a_closed_scope_does_not_count() {
    let tree = body(vec![
        optional(X, 2),
        block(3, vec![leaf(NodeKind::Check, X, 4)]),
        leaf(NodeKind::Unwrap, X, 5),
    ]);
    assert_eq!(sites(&tree), vec![(RuleId::UncheckedUnwrap, at(5))]);
}

#[test]
fn a_check_in_every_alternative_does_not_count() {
    let tree = body(vec![
        optional(X, 2),
        node(
            NodeKind::Branch,
            3,
            vec![
                block(3, vec![leaf(NodeKind::Check, X, 4)]),
                block(5, vec![leaf(NodeKind::Check, X, 6)]),
            ],
        ),
        leaf(NodeKind::Unwrap, X, 7),
    ]);
    assert_eq!(sites(&tree), vec![(RuleId::UncheckedUnwrap, at(7))]);
}

#[test]
fn a_check_of_another_binding_does_not_count() {
    let tree = body(vec![
        optional(X, 2),
        optional(Y, 3),
        leaf(NodeKind::Check, Y, 4),
        leaf(NodeKind::Unwrap, X, 5),
        leaf(NodeKind::Unwrap, Y, 6),
    ]);
    assert_eq!(sites(&tree), vec![(RuleId::UncheckedUnwrap, at(5))]);
}

#[test]
fn a_new_binding_of_the_name_has_to_be_checked_again() {
    let tree = body(vec![
        optional(X, 2),
        leaf(NodeKind::Check, X, 3),
        optional(X, 4),
        leaf(NodeKind::Unwrap, X, 5),
    ]);
    assert_eq!(sites(&tree), vec![(RuleId::UncheckedUnwrap, at(5))]);
}

#[test]
fn unwrap_of_what_is_no_optional_binding_is_clean() {
    let tree = body(vec![leaf(NodeKind::Unwrap, X, 2)]);
    assert_eq!(sites(&tree), vec![]);
    // The binding went out of scope with its block.
    let tree = body(vec![block(2, vec![optional(X, 3)]), leaf(NodeKind::Unwrap, X, 4)]);
    assert_eq!(sites(&tree), vec![]);
}

#[test]
fn unwrap_in_a_closure_sees_the_bindings_around_it() {
    let checked = body(vec![
        optional(X, 2),
        leaf(NodeKind::Check, X, 3),
        node(NodeKind::Closure, 4, vec![leaf(NodeKind::Unwrap, X, 5)]),
    ]);
    assert_eq!(sites(&checked), vec![]);
    let unchecked = body(vec![
        optional(X, 2),
        node(NodeKind::Closure, 4, vec![leaf(NodeKind::Unwrap, X, 5)]),
    ]);
    assert_eq!(sites(&unchecked), vec![(RuleId::UncheckedUnwrap, at(5))]);
}

#[test]
fn every_unchecked_unwrap_is_reported() {
    let tree = body(vec![
        optional(X, 2),
        leaf(NodeKind::Unwrap, X, 3),
        leaf(NodeKind::Unwrap, X, 4),
    ]);
    assert_eq!(
        sites(&tree),
        vec![(RuleId::UncheckedUnwrap, at(3)), (RuleId::UncheckedUnwrap, at(4))]
    );
}

#[test]
fn panic_with_a_lock_held_is_reported_once() {
    let tree = body(vec![lock(GUARD, 2), leaf(NodeKind::Other, 0, 3), leaf(NodeKind::Panic, 0, 4)]);
    let first = analyze(&tree, &Config::all());
    let expected = Finding {
        rule: RuleId::LockPoisoning,
        severity: Severity::High,
        location: at(4),
        message: String::from("panic while a lock is held: the lock is poisoned"),
        evidence: vec![0, 1, 2, 3],
    };
    assert_eq!(first.verdict, Verdict::Buggy(vec![expected]));
    assert!(first.complete);
    // The same input gives the same findings again.
    let second = analyze(&tree, &Config::all());
    assert_eq!(first.verdict, second.verdict);
}

#[test]
fn two_locks_held_at_one_panic_give_one_finding() {
    let tree = body(vec![lock(GUARD, 2), lock(X, 3), leaf(NodeKind::Panic, 0, 4)]);
    assert_eq!(sites(&tree), vec![(RuleId::LockPoisoning, at(4))]);
}

#[test]
fn every_panic_with_a_lock_held_gives_a_finding() {
    let tree = body(vec![
        lock(GUARD, 2),
        node(
            NodeKind::Branch,
            3,
            vec![
                block(3, vec![leaf(NodeKind::Panic, 0, 4)]),
                block(5, vec![leaf(NodeKind::Panic, 0, 6)]),
            ],
        ),
    ]);
    assert_eq!(
        sites(&tree),
        vec![(RuleId::LockPoisoning, at(4)), (RuleId::LockPoisoning, at(6))]
    );
}

#[test]
fn a_lock_given_up_before_the_panic_is_clean() {
    let released = body(vec![lock(GUARD, 2), leaf(NodeKind::Release, GUARD, 3), leaf(NodeKind::Panic, 0, 4)]);
    assert_eq!(sites(&released), vec![]);
    let dropped = body(vec![lock(GUARD, 2), leaf(NodeKind::Discard, GUARD, 3), leaf(NodeKind::Panic, 0, 4)]);
    assert_eq!(sites(&dropped), vec![]);
    let scoped = body(vec![block(2, vec![lock(GUARD, 3)]), leaf(NodeKind::Panic, 0, 5)]);
    assert_eq!(sites(&scoped), vec![]);
    let other_name = body(vec![lock(GUARD, 2), leaf(NodeKind::Release, X, 3), leaf(NodeKind::Panic, 0, 4)]);
    assert_eq!(sites(&other_name), vec![(RuleId::LockPoisoning, at(4))]);
}

#[test]
fn a_lock_held_at_a_return_is_clean() {
    let tree = body(vec![lock(GUARD, 2), leaf(NodeKind::Return, 0, 3)]);
    assert_eq!(sites(&tree), vec![]);
}

#[test]
fn a_lock_of_a_loop_body_is_given_up_with_each_turn() {
    // The guard lives in the body of the loop. Neither the next turn nor the
    // code behind the loop holds it, however the turn ends.
    let tree = body(vec![
        node(
            NodeKind::Loop,
            2,
            vec![
                lock(GUARD, 3),
                node(
                    NodeKind::Branch,
                    4,
                    vec![
                        block(4, vec![leaf(NodeKind::Break, 0, 5)]),
                        block(6, vec![leaf(NodeKind::Continue, 0, 7)]),
                    ],
                ),
            ],
        ),
        leaf(NodeKind::Panic, 0, 9),
    ]);
    assert_eq!(sites(&tree), vec![]);
    // A panic in the body, behind the lock, poisons it.
    let tree = body(vec![node(
        NodeKind::Loop,
        2,
        vec![lock(GUARD, 3), leaf(NodeKind::Panic, 0, 4)],
    )]);
    assert_eq!(sites(&tree), vec![(RuleId::LockPoisoning, at(4))]);
}

#[test]
fn a_lock_held_on_one_path_to_a_panic_is_enough() {
    let tree = body(vec![
        node(
            NodeKind::Branch,
            2,
            vec![leaf(NodeKind::Other, 0, 3), leaf(NodeKind::Other, 0, 4)],
        ),
        lock(GUARD, 5),
        node(
            NodeKind::Branch,
            6,
            vec![leaf(NodeKind::Release, GUARD, 7), leaf(NodeKind::Other, 0, 8)],
        ),
        leaf(NodeKind::Panic, 0, 9),
    ]);
    assert_eq!(sites(&tree), vec![(RuleId::LockPoisoning, at(9))]);
}

#[test]
fn a_panic_in_a_closure_does_not_see_the_locks_around_it() {
    let tree = body(vec![
        lock(GUARD, 2),
        node(NodeKind::Closure, 3, vec![leaf(NodeKind::Panic, 0, 4)]),
    ]);
    assert_eq!(sites(&tree), vec![]);
}

#[test]
fn a_task_joined_on_every_path_is_clean() {
    let tree = body(vec![
        spawn(HANDLE, 2),
        node(
            NodeKind::Branch,
            3,
            vec![
                block(3, vec![leaf(NodeKind::Release, HANDLE, 4), leaf(NodeKind::Return, 0, 5)]),
                block(
                    6,
                    vec![leaf(NodeKind::Discard, HANDLE, 7), leaf(NodeKind::Release, HANDLE, 8)],
                ),
            ],
        ),
    ]);
    assert_eq!(sites(&tree), vec![]);
    let joined_and_dropped = body(vec![
        spawn(HANDLE, 2),
        leaf(NodeKind::Release, HANDLE, 3),
        leaf(NodeKind::Discard, HANDLE, 4),
    ]);
    assert_eq!(sites(&joined_and_dropped), vec![]);
}

#[test]
fn a_task_that_is_only_dropped_leaks() {
    let tree = body(vec![spawn(HANDLE, 2), leaf(NodeKind::Discard, HANDLE, 3)]);
    assert_eq!(sites(&tree), vec![(RuleId::TaskLeak, at(1))]);
    // The end of its scope does not join it either.
    let tree = body(vec![block(2, vec![spawn(HANDLE, 3)])]);
    assert_eq!(sites(&tree), vec![(RuleId::TaskLeak, at(1))]);
}

#[test]
fn a_task_left_behind_on_one_path_leaks_there() {
    let tree = body(vec![
        spawn(HANDLE, 2),
        node(
            NodeKind::Branch,
            3,
            vec![
                block(3, vec![leaf(NodeKind::Return, 0, 4)]),
                block(5, vec![leaf(NodeKind::Panic, 0, 6)]),
                block(7, vec![]),
            ],
        ),
        leaf(NodeKind::Release, HANDLE, 8),
    ]);
    assert_eq!(sites(&tree), vec![(RuleId::TaskLeak, at(4)), (RuleId::TaskLeak, at(6))]);
}

#[test]
fn a_task_of_an_earlier_turn_is_seen_in_the_inner_loop() {
    // The task is spawned at the end of a turn of the outer loop. The return
    // in the inner loop leaves it behind from the second turn on.
    let inner = node(
        NodeKind::Loop,
        3,
        vec![node(
            NodeKind::Branch,
            4,
            vec![block(4, vec![leaf(NodeKind::Return, 0, 5)]), block(6, vec![])],
        )],
    );
    let tree = body(vec![node(NodeKind::Loop, 2, vec![inner, spawn(HANDLE, 8)])]);
    let analysis = analyze(&tree, &Config::all());
    assert!(analysis.complete);
    assert_eq!(sites(&tree), vec![(RuleId::TaskLeak, at(1)), (RuleId::TaskLeak, at(5))]);
}

#[test]
fn one_function_can_break_several_rules() {
    let tree = body(vec![
        spawn(HANDLE, 2),
        optional(X, 3),
        leaf(NodeKind::Unwrap, X, 4),
        lock(GUARD, 5),
        leaf(NodeKind::Panic, 0, 6),
    ]);
    assert_eq!(
        sites(&tree),
        vec![
            (RuleId::LockPoisoning, at(6)),
            (RuleId::UncheckedUnwrap, at(4)),
            (RuleId::TaskLeak, at(6)),
        ]
    );
}

#[test]
fn only_the_active_rules_are_evaluated() {
    let tree = body(vec![
        spawn(HANDLE, 2),
        optional(X, 3),
        leaf(NodeKind::Unwrap, X, 4),
        lock(GUARD, 5),
        leaf(NodeKind::Panic, 0, 6),
    ]);
    let only = |rules: Vec<RuleId>| -> Vec<RuleId> {
        match analyze(&tree, &Config::only(rules)).verdict {
            Verdict::Clean => vec![],
            Verdict::Buggy(findings) => findings.iter().map(|f| f.rule).collect(),
        }
    };
    assert_eq!(only(vec![]), vec![]);
    assert_eq!(only(vec![RuleId::TaskLeak]), vec![RuleId::TaskLeak]);
    assert_eq!(only(vec![RuleId::UncheckedUnwrap]), vec![RuleId::UncheckedUnwrap]);
    assert_eq!(
        only(vec![RuleId::TaskLeak, RuleId::LockPoisoning, RuleId::TaskLeak]),
        vec![RuleId::LockPoisoning, RuleId::TaskLeak]
    );
    let config = Config::default();
    assert_eq!(
        config.rules,
        vec![RuleId::LockPoisoning, RuleId::TaskLeak, RuleId::UncheckedUnwrap]
    );
    assert!(config.enables(RuleId::TaskLeak));
    assert!(!Config::only(vec![RuleId::TaskLeak]).enables(RuleId::LockPoisoning));
}

#[test]
fn the_rules_have_names_weights_and_messages() {
    assert_eq!(RuleId::LockPoisoning.name(), "lock-poisoning");
    assert_eq!(RuleId::TaskLeak.name(), "task-leak");
    assert_eq!(RuleId::UncheckedUnwrap.name(), "unchecked-unwrap");
    assert_eq!(RuleId::LockPoisoning.severity(), Severity::High);
    assert_eq!(RuleId::TaskLeak.severity(), Severity::Medium);
    assert_eq!(RuleId::UncheckedUnwrap.severity(), Severity::Medium);
    assert_eq!(RuleId::LockPoisoning.watches(), ResourceKind::Lock);
    assert_eq!(RuleId::TaskLeak.watches(), ResourceKind::SpawnedTask);
    assert_eq!(RuleId::UncheckedUnwrap.watches(), ResourceKind::Optional);
    assert_eq!(RuleId::TaskLeak.message(), "spawned task is never joined, awaited or aborted");
    assert_eq!(RuleId::UncheckedUnwrap.message(), "optional value is unwrapped without a check");
    assert_eq!((Severity::Low.rank(), Severity::Medium.rank(), Severity::High.rank()), (0, 1, 2));
}
