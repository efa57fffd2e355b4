//! The laws of the engine, each on values.
use hazard_scan::aggregate::Verdict;
use hazard_scan::engine::{analyze, Config};
use hazard_scan::lower::build_cfg;
use hazard_scan::resource::ResourceKind;
use hazard_scan::rules::RuleId;
use hazard_scan::syntax::{NodeKind, Span, SyntaxNode};

fn at(line: u32) -> Span {
    Span::new(line * 100, line * 100 + 80)
}

fn leaf(kind: NodeKind, binding: u32, line: u32) -> SyntaxNode {
    SyntaxNode::leaf(kind, binding, at(line))
}

fn node(kind: NodeKind, line: u32, children: Vec<SyntaxNode>) -> SyntaxNode {
    SyntaxNode::new(kind, 0, at(line), children)
}

fn verdict(tree: &SyntaxNode) -> Verdict {
    analyze(tree, &Config::all()).verdict
}

/// Code full of hazards: a panic with a lock held, a task that nobody joins,
/// an unchecked unwrap, and a thread that poisons a lock.
fn hazards(line: u32) -> Vec<SyntaxNode> {
    vec![
        leaf(NodeKind::Acquire(ResourceKind::SpawnedTask), 1, line),
        leaf(NodeKind::Acquire(ResourceKind::Optional), 2, line + 1),
        leaf(NodeKind::Unwrap, 2, line + 2),
        node(
            NodeKind::Closure,
            line + 3,
            vec![
                leaf(NodeKind::Acquire(ResourceKind::Lock), 3, line + 4),
                leaf(NodeKind::Panic, 0, line + 5),
            ],
        ),
        leaf(NodeKind::Acquire(ResourceKind::Lock), 3, line + 6),
        node(
            NodeKind::Loop,
            line + 7,
            vec![node(
                NodeKind::Branch,
                line + 8,
                vec![leaf(NodeKind::Panic, 0, line + 9), leaf(NodeKind::Break, 0, line + 10)],
            )],
        ),
    ]
}

#[test]
fn without_an_acquisition_the_verdict_is_clean() {
    let tree = node(
        NodeKind::Block,
        1,
        vec![
            leaf(NodeKind::Unwrap, 1, 2),
            leaf(NodeKind::Release, 2, 3),
            leaf(NodeKind::Discard, 3, 4),
            leaf(NodeKind::Check, 1, 5),
            node(
                NodeKind::Loop,
                6,
                vec![
                    node(
                        NodeKind::Branch,
                        7,
                        vec![
                            leaf(NodeKind::Panic, 0, 8),
                            leaf(NodeKind::Break, 0, 9),
                            leaf(NodeKind::Continue, 0, 10),
                            leaf(NodeKind::Return, 0, 11),
                        ],
                    ),
                    node(NodeKind::Closure, 12, vec![leaf(NodeKind::Panic, 0, 13)]),
                ],
            ),
            leaf(NodeKind::Other, 0, 14),
            leaf(NodeKind::Panic, 0, 15),
        ],
    );
    assert!(!contains_acquire(&tree));
    assert_eq!(verdict(&tree), Verdict::Clean);
    assert_eq!(verdict(&leaf(NodeKind::Panic, 0, 1)), Verdict::Clean);
    assert_eq!(verdict(&node(NodeKind::Block, 1, vec![])), Verdict::Clean);
}

fn contains_acquire(tree: &SyntaxNode) -> bool {
    matches!(tree.kind, NodeKind::Acquire(_)) || tree.children.iter().any(contains_acquire)
}

#[test]
fn code_behind_a_return_does_not_change_a_clean_verdict() {
    let clean = vec![
        leaf(NodeKind::Acquire(ResourceKind::Lock), 3, 2),
        leaf(NodeKind::Release, 3, 3),
        leaf(NodeKind::Acquire(ResourceKind::SpawnedTask), 1, 4),
        leaf(NodeKind::Release, 1, 5),
        leaf(NodeKind::Return, 0, 6),
    ];
    let shorter = node(NodeKind::Block, 1, clean.clone_nodes());
    assert_eq!(verdict(&shorter), Verdict::Clean);
    let mut longer = clean.clone_nodes();
    longer.extend(hazards(10));
    let longer = node(NodeKind::Block, 1, longer);
    assert_eq!(verdict(&longer), Verdict::Clean);
}

#[test]
fn the_same_code_before_the_return_is_judged() {
    let mut children = hazards(2);
    children.push(leaf(NodeKind::Return, 0, 20));
    let tree = node(NodeKind::Block, 1, children);
    match verdict(&tree) {
        Verdict::Clean => panic!("hazards before the return have to be found"),
        Verdict::Buggy(findings) => {
            let sites: Vec<(RuleId, Span)> = findings.iter().map(|f| (f.rule, f.location)).collect();
            assert_eq!(
                sites,
                vec![
                    // The thread panics with its own lock held.
                    (RuleId::LockPoisoning, at(7)),
                    // The loop panics with the lock of the function held.
                    (RuleId::LockPoisoning, at(11)),
                    (RuleId::UncheckedUnwrap, at(4)),
                    // The task is left behind by the panic and by the return.
                    (RuleId::TaskLeak, at(11)),
                    (RuleId::TaskLeak, at(20)),
                ]
            );
        }
    }
}

#[test]
fn code_behind_a_return_in_a_branch_is_not_judged() {
    let mut arm = vec![leaf(NodeKind::Return, 0, 3)];
    arm.extend(hazards(4));
    let tree = node(
        NodeKind::Block,
        1,
        vec![node(
            NodeKind::Branch,
            2,
            vec![node(NodeKind::Block, 2, arm), node(NodeKind::Block, 20, vec![])],
        )],
    );
    assert_eq!(verdict(&tree), Verdict::Clean);
}

trait CloneNodes {
    fn clone_nodes(&self) -> Vec<SyntaxNode>;
}

impl CloneNodes for Vec<SyntaxNode> {
    fn clone_nodes(&self) -> Vec<SyntaxNode> {
        self.iter()
            .map(|n| SyntaxNode::new(n.kind, n.binding, n.span, n.children.clone_nodes()))
            .collect()
    }
}

#[test]
fn code_added_behind_leaves_what_was_found_before() {
    // A task is spawned and left behind by an early return.
    let before = vec![
        leaf(NodeKind::Acquire(ResourceKind::SpawnedTask), 1, 2),
        node(
            NodeKind::Branch,
            3,
            vec![
                node(NodeKind::Block, 3, vec![leaf(NodeKind::Return, 0, 4)]),
                node(NodeKind::Block, 5, vec![]),
            ],
        ),
    ];
    let shorter = node(NodeKind::Block, 1, before.clone_nodes());
    let sites = |tree: &SyntaxNode| -> Vec<(RuleId, Span)> {
        match verdict(tree) {
            Verdict::Clean => vec![],
            Verdict::Buggy(findings) => findings.iter().map(|f| (f.rule, f.location)).collect(),
        }
    };
    assert_eq!(sites(&shorter), vec![(RuleId::TaskLeak, at(1)), (RuleId::TaskLeak, at(4))]);
    // The task is joined behind the branch. That mends the end of the
    // function, and leaves the early return as it was.
    let mut joined = before.clone_nodes();
    joined.push(leaf(NodeKind::Release, 1, 7));
    let joined = node(NodeKind::Block, 1, joined);
    assert_eq!(sites(&joined), vec![(RuleId::TaskLeak, at(4))]);
    // More hazards behind it add their findings, and leave the early return
    // as it was.
    let mut longer = before.clone_nodes();
    longer.push(leaf(NodeKind::Release, 1, 7));
    longer.extend(hazards(10));
    let longer = node(NodeKind::Block, 1, longer);
    let found = sites(&longer);
    assert!(found.contains(&(RuleId::TaskLeak, at(4))));
    assert_eq!(found.iter().filter(|(_, place)| place.start < 700).count(), 2);
}

#[test]
fn code_added_behind_what_was_clean_is_found_in_the_new_blocks() {
    let clean = vec![
        leaf(NodeKind::Acquire(ResourceKind::Lock), 3, 2),
        node(
            NodeKind::Branch,
            3,
            vec![
                node(NodeKind::Block, 3, vec![leaf(NodeKind::Return, 0, 4)]),
                node(NodeKind::Block, 5, vec![leaf(NodeKind::Other, 0, 6)]),
            ],
        ),
    ];
    let shorter = node(NodeKind::Block, 1, clean.clone_nodes());
    assert_eq!(verdict(&shorter), Verdict::Clean);
    // The block in which the builder goes on behind the first children.
    let behind = build_cfg(&shorter).blocks.len() - 2;
    let mut longer = clean.clone_nodes();
    longer.extend(hazards(10));
    let longer = node(NodeKind::Block, 1, longer);
    match verdict(&longer) {
        Verdict::Clean => panic!("the hazards behind have to be found"),
        Verdict::Buggy(findings) => {
            assert_eq!(findings.len(), 5);
            for f in &findings {
                assert!(*f.evidence.last().unwrap() >= behind);
            }
        }
    }
}
