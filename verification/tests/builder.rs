//! The graphs that the builder makes of small bodies.
use hazard_scan::cfg::{BasicBlock, Cfg, EdgeKind, StmtKind};
use hazard_scan::lower::{build_cfg, next_depth};
use hazard_scan::resource::{ExitKind, ResourceKind};
use hazard_scan::syntax::{NodeKind, Span, SyntaxNode};

fn at(line: u32) -> Span {
    Span::new(line * 100, line * 100 + 80)
}

fn leaf(kind: NodeKind, binding: u32, line: u32) -> SyntaxNode {
    SyntaxNode::leaf(kind, binding, at(line))
}

fn node(kind: NodeKind, line: u32, children: Vec<SyntaxNode>) -> SyntaxNode {
    SyntaxNode::new(kind, 0, at(line), children)
}

/// The statements of a block as pairs of kind and depth.
fn stmts(block: &BasicBlock) -> Vec<(StmtKind, u32)> {
    block.stmts.iter().map(|s| (s.kind, s.depth)).collect()
}

/// The edges of a block as pairs of target and tag.
fn edges(block: &BasicBlock) -> Vec<(usize, EdgeKind)> {
    block.edges.iter().map(|e| (e.target, e.kind)).collect()
}

/// Whether the graph is well formed: every edge and root names a block, a
/// terminal block returns or panics and has no successor, every other block
/// has one.
fn well_formed(cfg: &Cfg) -> bool {
    cfg.is_indexed()
        && cfg.blocks.iter().all(|b| match b.exit {
            Some(ExitKind::Return) | Some(ExitKind::Panic) => b.edges.is_empty(),
            Some(_) => false,
            None => !b.edges.is_empty(),
        })
}

/// Whether every edge but a loop's back edge and a `continue` leads to a
/// block with a higher number.
fn numbered_forward(cfg: &Cfg) -> bool {
    cfg.blocks.iter().enumerate().all(|(b, block)| {
        block.edges.iter().all(|e| match e.kind {
            EdgeKind::LoopBack | EdgeKind::EarlyExit(ExitKind::Continue) => e.target <= b,
            _ => e.target > b,
        })
    })
}

#[test]
fn an_opaque_statement_gets_a_block_of_its_own() {
    let body = node(NodeKind::Block, 1, vec![leaf(NodeKind::Other, 0, 2)]);
    let cfg = build_cfg(&body);
    assert_eq!(cfg.roots, vec![0]);
    assert_eq!(cfg.blocks.len(), 4);
    assert_eq!(stmts(&cfg.blocks[0]), vec![]);
    assert_eq!(edges(&cfg.blocks[0]), vec![(1, EdgeKind::Unconditional)]);
    assert_eq!(stmts(&cfg.blocks[1]), vec![(StmtKind::Opaque, 1)]);
    assert_eq!(cfg.blocks[1].stmts[0].span, at(2));
    assert_eq!(edges(&cfg.blocks[1]), vec![(2, EdgeKind::Unconditional)]);
    assert_eq!(stmts(&cfg.blocks[2]), vec![(StmtKind::ScopeExit, 1)]);
    assert_eq!(edges(&cfg.blocks[2]), vec![(3, EdgeKind::Unconditional)]);
    assert_eq!(stmts(&cfg.blocks[3]), vec![(StmtKind::Return, 0)]);
    assert_eq!(cfg.blocks[3].stmts[0].span, at(1));
    assert_eq!(edges(&cfg.blocks[3]), vec![]);
    assert_eq!(cfg.blocks[3].exit, Some(ExitKind::Return));
    assert!(cfg.blocks[..3].iter().all(|b| b.exit.is_none()));
    assert!(well_formed(&cfg));
}

#[test]
fn a_branch_forks_and_joins() {
    let body = node(
        NodeKind::Block,
        1,
        vec![
            node(
                NodeKind::Branch,
                2,
                vec![
                    node(NodeKind::Block, 2, vec![leaf(NodeKind::Return, 0, 3)]),
                    node(NodeKind::Block, 4, vec![]),
                ],
            ),
            leaf(NodeKind::Acquire(ResourceKind::Lock), 7, 6),
        ],
    );
    let cfg = build_cfg(&body);
    assert_eq!(cfg.blocks.len(), 7);
    assert_eq!(
        edges(&cfg.blocks[0]),
        vec![(1, EdgeKind::BranchTrue), (4, EdgeKind::BranchFalse)]
    );
    assert_eq!(edges(&cfg.blocks[1]), vec![(2, EdgeKind::EarlyExit(ExitKind::Return))]);
    assert_eq!(stmts(&cfg.blocks[2]), vec![(StmtKind::Return, 3)]);
    assert_eq!(cfg.blocks[2].exit, Some(ExitKind::Return));
    // What follows the return in its block: the ends of the two scopes.
    assert_eq!(stmts(&cfg.blocks[3]), vec![(StmtKind::ScopeExit, 3), (StmtKind::ScopeExit, 2)]);
    assert_eq!(edges(&cfg.blocks[3]), vec![(5, EdgeKind::Unconditional)]);
    assert_eq!(stmts(&cfg.blocks[4]), vec![(StmtKind::ScopeExit, 3), (StmtKind::ScopeExit, 2)]);
    assert_eq!(edges(&cfg.blocks[4]), vec![(5, EdgeKind::Unconditional)]);
    assert_eq!(
        stmts(&cfg.blocks[5]),
        vec![(StmtKind::Acquire(ResourceKind::Lock), 1), (StmtKind::ScopeExit, 1)]
    );
    assert_eq!(cfg.blocks[5].stmts[0].binding, 7);
    assert_eq!(edges(&cfg.blocks[5]), vec![(6, EdgeKind::Unconditional)]);
    assert_eq!(cfg.blocks[6].exit, Some(ExitKind::Return));
    assert!(well_formed(&cfg));
    assert!(numbered_forward(&cfg));
}

#[test]
fn a_branch_without_alternatives_falls_through() {
    let body = node(NodeKind::Block, 1, vec![node(NodeKind::Branch, 2, vec![])]);
    let cfg = build_cfg(&body);
    assert_eq!(cfg.blocks.len(), 3);
    assert_eq!(edges(&cfg.blocks[0]), vec![(1, EdgeKind::Unconditional)]);
    assert!(well_formed(&cfg));
}

#[test]
fn a_loop_has_a_header_a_back_edge_and_an_exit() {
    let body = node(
        NodeKind::Block,
        1,
        vec![node(
            NodeKind::Loop,
            2,
            vec![node(
                NodeKind::Branch,
                3,
                vec![
                    node(NodeKind::Block, 3, vec![leaf(NodeKind::Break, 0, 4)]),
                    node(NodeKind::Block, 5, vec![leaf(NodeKind::Continue, 0, 6)]),
                ],
            )],
        )],
    );
    let cfg = build_cfg(&body);
    assert_eq!(cfg.blocks.len(), 10);
    assert_eq!(edges(&cfg.blocks[0]), vec![(1, EdgeKind::Unconditional)]);
    // The header, with the boundary of the scope of the body.
    assert_eq!(stmts(&cfg.blocks[1]), vec![(StmtKind::ScopeExit, 2)]);
    assert_eq!(
        edges(&cfg.blocks[1]),
        vec![(2, EdgeKind::BranchTrue), (8, EdgeKind::BranchFalse)]
    );
    assert_eq!(
        edges(&cfg.blocks[2]),
        vec![(3, EdgeKind::BranchTrue), (5, EdgeKind::BranchFalse)]
    );
    assert_eq!(stmts(&cfg.blocks[3]), vec![(StmtKind::Break, 4)]);
    assert_eq!(edges(&cfg.blocks[3]), vec![(8, EdgeKind::EarlyExit(ExitKind::Break))]);
    assert_eq!(edges(&cfg.blocks[4]), vec![(7, EdgeKind::Unconditional)]);
    assert_eq!(stmts(&cfg.blocks[5]), vec![(StmtKind::Continue, 4)]);
    assert_eq!(edges(&cfg.blocks[5]), vec![(1, EdgeKind::EarlyExit(ExitKind::Continue))]);
    assert_eq!(edges(&cfg.blocks[6]), vec![(7, EdgeKind::Unconditional)]);
    assert_eq!(edges(&cfg.blocks[7]), vec![(1, EdgeKind::LoopBack)]);
    assert_eq!(stmts(&cfg.blocks[8]), vec![(StmtKind::ScopeExit, 2), (StmtKind::ScopeExit, 1)]);
    assert_eq!(edges(&cfg.blocks[8]), vec![(9, EdgeKind::Unconditional)]);
    assert_eq!(cfg.blocks[9].exit, Some(ExitKind::Return));
    assert!(well_formed(&cfg));
    assert!(numbered_forward(&cfg));
}

#[test]
fn break_and_continue_outside_a_loop_are_opaque() {
    let body = node(
        NodeKind::Block,
        1,
        vec![leaf(NodeKind::Break, 0, 2), leaf(NodeKind::Continue, 0, 3)],
    );
    let cfg = build_cfg(&body);
    assert_eq!(cfg.blocks.len(), 6);
    assert_eq!(stmts(&cfg.blocks[1]), vec![(StmtKind::Opaque, 1)]);
    assert_eq!(stmts(&cfg.blocks[3]), vec![(StmtKind::Opaque, 1)]);
    assert!(well_formed(&cfg));
}

#[test]
fn a_closure_is_a_body_of_its_own() {
    let body = node(
        NodeKind::Block,
        1,
        vec![node(
            NodeKind::Acquire(ResourceKind::SpawnedTask),
            2,
            vec![node(NodeKind::Closure, 2, vec![leaf(NodeKind::Panic, 0, 3)])],
        )],
    );
    let cfg = build_cfg(&body);
    assert_eq!(cfg.roots, vec![0, 1]);
    assert_eq!(cfg.blocks.len(), 7);
    // The closure: it panics, and what follows runs into its own return.
    assert_eq!(edges(&cfg.blocks[1]), vec![(2, EdgeKind::EarlyExit(ExitKind::Panic))]);
    assert_eq!(stmts(&cfg.blocks[2]), vec![(StmtKind::Panic, 2)]);
    assert_eq!(cfg.blocks[2].exit, Some(ExitKind::Panic));
    assert_eq!(stmts(&cfg.blocks[3]), vec![(StmtKind::ScopeExit, 2)]);
    assert_eq!(edges(&cfg.blocks[3]), vec![(4, EdgeKind::Unconditional)]);
    assert_eq!(stmts(&cfg.blocks[4]), vec![(StmtKind::Return, 2)]);
    assert_eq!(cfg.blocks[4].exit, Some(ExitKind::Return));
    // The code around it goes on behind it, and acquires the task there.
    assert_eq!(edges(&cfg.blocks[0]), vec![(5, EdgeKind::Unconditional)]);
    assert_eq!(
        stmts(&cfg.blocks[5]),
        vec![(StmtKind::Acquire(ResourceKind::SpawnedTask), 1), (StmtKind::ScopeExit, 1)]
    );
    assert_eq!(cfg.blocks[6].exit, Some(ExitKind::Return));
    assert!(well_formed(&cfg));
}

#[test]
fn a_closure_behind_a_return_is_no_root() {
    let body = node(
        NodeKind::Block,
        1,
        vec![
            leaf(NodeKind::Return, 0, 2),
            node(NodeKind::Closure, 3, vec![leaf(NodeKind::Panic, 0, 4)]),
        ],
    );
    let cfg = build_cfg(&body);
    assert_eq!(cfg.roots, vec![0]);
    assert!(well_formed(&cfg));
}

#[test]
fn operands_are_lowered_before_their_statement() {
    let body = node(
        NodeKind::Block,
        1,
        vec![node(NodeKind::Return, 2, vec![leaf(NodeKind::Unwrap, 9, 2)])],
    );
    let cfg = build_cfg(&body);
    assert_eq!(stmts(&cfg.blocks[0]), vec![(StmtKind::Unwrap, 1)]);
    assert_eq!(edges(&cfg.blocks[0]), vec![(1, EdgeKind::EarlyExit(ExitKind::Return))]);
    assert_eq!(stmts(&cfg.blocks[1]), vec![(StmtKind::Return, 1)]);
}

#[test]
fn every_graph_built_is_well_formed() {
    let deep = node(
        NodeKind::Loop,
        1,
        vec![node(
            NodeKind::Closure,
            2,
            vec![node(
                NodeKind::Loop,
                3,
                vec![
                    leaf(NodeKind::Continue, 0, 4),
                    node(
                        NodeKind::Branch,
                        5,
                        vec![
                            leaf(NodeKind::Break, 0, 6),
                            leaf(NodeKind::Panic, 0, 7),
                            node(NodeKind::Block, 8, vec![leaf(NodeKind::Return, 0, 9)]),
                        ],
                    ),
                    leaf(NodeKind::Release, 1, 10),
                ],
            )],
        )],
    );
    for body in [deep, leaf(NodeKind::Other, 0, 1), leaf(NodeKind::Return, 0, 1), node(NodeKind::Branch, 1, vec![])] {
        let cfg = build_cfg(&body);
        assert!(well_formed(&cfg));
        assert!(numbered_forward(&cfg));
    }
}

#[test]
fn depth_stops_at_the_largest_number() {
    assert_eq!(next_depth(0), 1);
    assert_eq!(next_depth(41), 42);
    assert_eq!(next_depth(u32::MAX - 1), u32::MAX);
    assert_eq!(next_depth(u32::MAX), u32::MAX);
}

#[test]
fn the_blocks_hold_the_statements_in_the_order_of_the_source() {
    let body = node(
        NodeKind::Block,
        1,
        vec![
            leaf(NodeKind::Acquire(ResourceKind::Optional), 5, 2),
            node(
                NodeKind::Loop,
                3,
                vec![node(
                    NodeKind::Branch,
                    4,
                    vec![leaf(NodeKind::Break, 0, 5), leaf(NodeKind::Other, 0, 6)],
                )],
            ),
            node(
                NodeKind::Discard,
                7,
                vec![node(NodeKind::Closure, 7, vec![leaf(NodeKind::Unwrap, 5, 8)])],
            ),
            leaf(NodeKind::Panic, 0, 9),
            leaf(NodeKind::Check, 5, 10),
        ],
    );
    let cfg = build_cfg(&body);
    let all: Vec<(StmtKind, u32, u32)> = cfg
        .blocks
        .iter()
        .flat_map(|b| b.stmts.iter())
        .map(|s| (s.kind, s.depth, s.span.start / 100))
        .collect();
    assert_eq!(
        all,
        vec![
            (StmtKind::Acquire(ResourceKind::Optional), 1, 2),
            // The loop: where it begins, its body, where it ends.
            (StmtKind::ScopeExit, 2, 3),
            (StmtKind::Break, 3, 5),
            (StmtKind::ScopeExit, 3, 5),
            (StmtKind::Opaque, 3, 6),
            (StmtKind::ScopeExit, 3, 6),
            (StmtKind::ScopeExit, 2, 3),
            // The closure, and behind it the statement that it is an operand of.
            (StmtKind::Unwrap, 2, 8),
            (StmtKind::ScopeExit, 2, 7),
            (StmtKind::Return, 2, 7),
            (StmtKind::Discard, 1, 7),
            (StmtKind::Panic, 1, 9),
            (StmtKind::Check, 1, 10),
            (StmtKind::ScopeExit, 1, 1),
            (StmtKind::Return, 0, 1),
        ]
    );
    assert!(well_formed(&cfg));
    assert!(numbered_forward(&cfg));
}
