//! The parsed function body as the analysis receives it: a tree of nodes, each
//! with a kind, a source span and its children.
use vstd::prelude::*;
use crate::resource::ResourceKind;

verus! {

/// A range of the source text, as offsets of its first byte and of the byte
/// after its last.
#[derive(Clone, Copy, Debug, PartialEq, Eq, Structural)]
pub struct Span {
    pub start: u32,
    pub end: u32,
}

impl Span {
    /// Whether `self` comes strictly before `other`: by start, then by end.
    pub open spec fn spec_before(self, other: Span) -> bool {
        self.start < other.start || (self.start == other.start && self.end < other.end)
    }

    /// Executable form of [`Self::spec_before`].
    #[verifier::when_used_as_spec(spec_before)]
    pub fn before(self, other: Span) -> (r: bool)
        ensures
            r == self.spec_before(other),
    {
        self.start < other.start || (self.start == other.start && self.end < other.end)
    }

    /// The span from `start` to `end`.
    pub fn new(start: u32, end: u32) -> (r: Span)
        ensures
            r == (Span { start, end }),
    {
        Span { start, end }
    }
}

/// What a node of the tree is.
#[derive(Clone, Copy, Debug, PartialEq, Eq, Structural)]
pub enum NodeKind {
    /// A braced block: a lexical scope around its children.
    Block,
    /// An `if` or a `match`: each child is one alternative, and exactly one of
    /// them runs.
    Branch,
    /// A `for`, `while` or `loop`: the children are the statements of its body.
    Loop,
    /// A closure or an async block: a body of its own, which runs apart from
    /// the code around it.
    Closure,
    /// `return`, or `?` where it leaves the function.
    Return,
    /// A call that is known not to come back, such as `panic!`.
    Panic,
    /// `break` out of the innermost loop.
    Break,
    /// `continue` with the innermost loop.
    Continue,
    /// The node's binding receives a resource of the given kind.
    Acquire(ResourceKind),
    /// The node's binding is released, joined, awaited or aborted.
    Release,
    /// The node's binding is dropped or moved away.
    Discard,
    /// The node's binding is matched on, propagated with `?` or has its
    /// error mapped.
    Check,
    /// The value inside the node's binding is taken out without a test.
    Unwrap,
    /// Anything else. The analysis does not look inside.
    Other,
}

/// One node of the parsed tree.
#[derive(Debug)]
pub struct SyntaxNode {
    pub kind: NodeKind,
    /// The name that the node binds or refers to, as the parser interned it.
    /// It has a meaning only for the kinds that speak of a binding.
    pub binding: u32,
    pub span: Span,
    pub children: Vec<SyntaxNode>,
}

impl SyntaxNode {
    /// A node without children.
    pub fn leaf(kind: NodeKind, binding: u32, span: Span) -> (r: SyntaxNode)
        ensures
            r.kind == kind,
            r.binding == binding,
            r.span == span,
            r.children@ == Seq::<SyntaxNode>::empty(),
    {
        SyntaxNode { kind, binding, span, children: Vec::new() }
    }

    /// A node with the given children.
    pub fn new(kind: NodeKind, binding: u32, span: Span, children: Vec<SyntaxNode>) -> (r:
        SyntaxNode)
        ensures
            r.kind == kind,
            r.binding == binding,
            r.span == span,
            r.children == children,
    {
        SyntaxNode { kind, binding, span, children }
    }

    /// Whether some node of the tree, this one included, acquires a resource.
    pub open spec fn acquires(self) -> bool
        decreases self, 1nat,
    {
        self.kind is Acquire || self.acquires_from(0)
    }

    /// Whether a child from index `from` on holds a node that acquires a
    /// resource.
    pub open spec fn acquires_from(self, from: int) -> bool
        decreases self, 0nat, self.children.len() - from,
    {
        if 0 <= from < self.children.len() {
            self.children[from].acquires() || self.acquires_from(from + 1)
        } else {
            false
        }
    }
}

} // verus!
