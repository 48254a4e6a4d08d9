//! The node store: an arena of syntax nodes addressed by index, each with a
//! link to its parent, and the upward walks that answer "which node encloses
//! this one".

use vstd::prelude::*;
use crate::span::Span;

verus! {

pub type NodeId = usize;

pub type ScopeId = usize;

pub type SymbolId = usize;

pub type ReferenceId = usize;

/// What a node is, as far as the walks and the analyses need to know.
#[derive(Clone, Copy, Debug, PartialEq, Eq, Structural)]
pub enum NodeKind {
    /// The root of a compilation unit.
    Program,
    /// A function declaration, function expression or arrow function.
    /// `name` is the symbol that a named function expression binds for its
    /// own body.
    Function { is_async: bool, is_generator: bool, name: Option<SymbolId> },
    /// `for (init; test; update) body`.
    ForStatement { init: Option<NodeId> },
    /// `for (left in right) body`.
    ForInStatement { right: NodeId },
    /// `for (left of right) body`.
    ForOfStatement { right: NodeId },
    WhileStatement,
    DoWhileStatement,
    /// `callee(arguments)`.
    CallExpression { callee: NodeId },
    /// An occurrence of an identifier that refers to a binding.
    IdentifierReference { reference: ReferenceId },
    /// `var`, `let` or `const` with its declarators.
    VariableDeclaration,
    /// One declarator of a declaration: what is bound and, if there is an
    /// initializer, the value it is given.
    VariableDeclarator { has_init: bool },
    /// A pattern that binds several names at once, or one part of it.
    Pattern,
    /// Any other construct.
    Other,
}

#[derive(Clone, Copy, Debug, PartialEq, Eq, Structural)]
pub struct Node {
    pub kind: NodeKind,
    pub span: Span,
    pub parent: Option<NodeId>,
    pub scope: ScopeId,
}

/// Every parent precedes its children, so parent links cannot form a cycle.
pub open spec fn parents_precede(nodes: Seq<Node>) -> bool {
    forall|i: int|
        0 <= i < nodes.len() ==> match (#[trigger] nodes[i]).parent {
            Some(p) => p < i,
            None => true,
        }
}

/// No span ends before it starts.
pub open spec fn spans_ordered(nodes: Seq<Node>) -> bool {
    forall|i: int| 0 <= i < nodes.len() ==> (#[trigger] nodes[i]).span.start <= nodes[i].span.end
}

/// Only the first node is a program root.
pub open spec fn program_is_first(nodes: Seq<Node>) -> bool {
    forall|i: int| 0 <= i < nodes.len() && (#[trigger] nodes[i]).kind is Program ==> i == 0
}

/// A node may be added to `nodes`: its parent is there, its span does not
/// end before it starts, and it is a program root only if it is the first.
pub open spec fn fits(nodes: Seq<Node>, kind: NodeKind, span: Span, parent: Option<NodeId>) -> bool {
    &&& span.start <= span.end
    &&& kind is Program ==> nodes.len() == 0
    &&& match parent {
        Some(p) => p < nodes.len(),
        None => true,
    }
}

/// `a` is `n` or one of the nodes above it.
pub open spec fn is_ancestor_or_self(nodes: Seq<Node>, a: int, n: int) -> bool
    decreases n,
{
    if !(0 <= n < nodes.len()) {
        false
    } else if a == n {
        true
    } else {
        match nodes[n].parent {
            Some(p) => p < n && is_ancestor_or_self(nodes, a, p as int),
            None => false,
        }
    }
}

/// `a` is one of the nodes above `n`.
pub open spec fn is_ancestor(nodes: Seq<Node>, a: int, n: int) -> bool {
    a != n && is_ancestor_or_self(nodes, a, n)
}

/// The innermost node above `n` whose kind `accepts` holds of. The walk gives
/// up when it meets the program root, which is never a candidate.
pub open spec fn nearest_enclosing_spec(
    nodes: Seq<Node>,
    n: int,
    accepts: spec_fn(NodeKind) -> bool,
) -> Option<NodeId>
    decreases n,
{
    if !(0 <= n < nodes.len()) {
        None
    } else {
        match nodes[n].parent {
            Some(p) => if p >= n || nodes[p as int].kind is Program {
                None
            } else if accepts(nodes[p as int].kind) {
                Some(p)
            } else {
                nearest_enclosing_spec(nodes, p as int, accepts)
            },
            None => None,
        }
    }
}

pub open spec fn is_function_kind(kind: NodeKind) -> bool {
    kind is Function
}

pub open spec fn is_loop_kind(kind: NodeKind) -> bool {
    kind is ForStatement || kind is ForInStatement || kind is ForOfStatement
        || kind is WhileStatement || kind is DoWhileStatement
}

/// `parent` repeats `child`: `parent` is a loop and `child` is not the one
/// clause of it that runs once, before the loop starts (the initializer of a
/// `for`, the iterated expression of a `for`-`in` or `for`-`of`).
pub open spec fn loop_repeats(parent: NodeKind, child: NodeId) -> bool {
    match parent {
        NodeKind::WhileStatement | NodeKind::DoWhileStatement => true,
        NodeKind::ForStatement { init } => init != Some(child),
        NodeKind::ForInStatement { right } => right != child,
        NodeKind::ForOfStatement { right } => right != child,
        _ => false,
    }
}

/// The declarator that the binding at `n` is a part of: the one that is
/// reached from `n` through patterns alone.
pub open spec fn declarator_of(nodes: Seq<Node>, n: int) -> Option<NodeId>
    decreases n,
{
    if !(0 <= n < nodes.len()) {
        None
    } else {
        match nodes[n].parent {
            Some(p) => if p >= n {
                None
            } else if nodes[p as int].kind is VariableDeclarator {
                Some(p)
            } else if nodes[p as int].kind is Pattern {
                declarator_of(nodes, p as int)
            } else {
                None
            },
            None => None,
        }
    }
}

/// The declarator at `d` stands in the head of a `for`-`in` or `for`-`of`,
/// which gives what it binds a value on every pass: its declaration is the
/// part of such a loop that comes before the iterated expression.
pub open spec fn is_in_loop_head(nodes: Seq<Node>, d: int) -> bool {
    &&& 0 <= d < nodes.len()
    &&& nodes[d].parent matches Some(declaration)
    &&& declaration < d
    &&& nodes[declaration as int].kind is VariableDeclaration
    &&& nodes[declaration as int].parent matches Some(lp)
    &&& lp < declaration
    &&& match nodes[lp as int].kind {
        NodeKind::ForInStatement { right } => declaration < right,
        NodeKind::ForOfStatement { right } => declaration < right,
        _ => false,
    }
}

/// The binding at `n` is given a value where it is declared: by the
/// initializer of its declarator, or by the loop in whose head it stands.
/// Such a declaration counts as a write to the binding.
pub open spec fn is_given_value(nodes: Seq<Node>, n: int) -> bool {
    match declarator_of(nodes, n) {
        Some(d) => nodes[d as int].kind == (NodeKind::VariableDeclarator { has_init: true })
            || is_in_loop_head(nodes, d as int),
        None => false,
    }
}

/// The node that stands for the declaration made at `n`: for a declarator
/// the whole declaration that it is a part of, else `n` itself.
pub open spec fn declaration_of(nodes: Seq<Node>, n: int) -> int {
    if 0 <= n < nodes.len() && nodes[n].kind is VariableDeclarator {
        match nodes[n].parent {
            Some(p) => if p < n && nodes[p as int].kind is VariableDeclaration {
                p as int
            } else {
                n
            },
            None => n,
        }
    } else {
        n
    }
}

pub fn function_kind(kind: &NodeKind) -> (yes: bool)
    ensures
        yes == is_function_kind(*kind),
{
    match kind {
        NodeKind::Function { .. } => true,
        _ => false,
    }
}

pub fn loop_kind(kind: &NodeKind) -> (yes: bool)
    ensures
        yes == is_loop_kind(*kind),
{
    match kind {
        NodeKind::ForStatement { .. } => true,
        NodeKind::ForInStatement { .. } => true,
        NodeKind::ForOfStatement { .. } => true,
        NodeKind::WhileStatement => true,
        NodeKind::DoWhileStatement => true,
        _ => false,
    }
}

pub fn repeats(parent: &NodeKind, child: NodeId) -> (yes: bool)
    ensures
        yes == loop_repeats(*parent, child),
{
    match parent {
        NodeKind::WhileStatement => true,
        NodeKind::DoWhileStatement => true,
        NodeKind::ForStatement { init } => match init {
            Some(i) => *i != child,
            None => true,
        },
        NodeKind::ForInStatement { right } => *right != child,
        NodeKind::ForOfStatement { right } => *right != child,
        _ => false,
    }
}

/// The arena. Nodes are added parent first and never change afterwards.
pub struct Nodes {
    nodes: Vec<Node>,
}

impl View for Nodes {
    type V = Seq<Node>;

    closed spec fn view(&self) -> Seq<Node> {
        self.nodes@
    }
}

impl Nodes {
    pub open spec fn wf(&self) -> bool {
        parents_precede(self@) && spans_ordered(self@) && program_is_first(self@)
    }

    pub fn new() -> (nodes: Nodes)
        ensures
            nodes@ == Seq::<Node>::empty(),
            nodes.wf(),
    {
        Nodes { nodes: Vec::new() }
    }

    pub fn len(&self) -> (n: usize)
        ensures
            n == self@.len(),
    {
        self.nodes.len()
    }

    /// Adds a node below `parent`, which must be in the arena already, and
    /// returns its id. A node whose parent is not there, or whose span ends
    /// before it starts, is turned down, and so is a program root that is
    /// not the first node.
    pub fn add(&mut self, kind: NodeKind, span: Span, parent: Option<NodeId>, scope: ScopeId) -> (id:
        Option<NodeId>)
        requires
            old(self).wf(),
        ensures
            final(self).wf(),
            fits(old(self)@, kind, span, parent) ==> id == Some(old(self)@.len() as usize) && final(self)@ == old(self)@.push(Node { kind, span, parent, scope }),
            !fits(old(self)@, kind, span, parent) ==> id.is_none() && final(self)@ == old(self)@,
    {
        let first = match kind {
            NodeKind::Program => self.nodes.len() == 0,
            _ => true,
        };
        let known = first && span.start <= span.end && match parent {
            Some(p) => p < self.nodes.len(),
            None => true,
        };
        if known {
            let id = self.nodes.len();
            self.nodes.push(Node { kind, span, parent, scope });
            Some(id)
        } else {
            None
        }
    }

    /// The node with this id, if there is one.
    pub fn get(&self, id: NodeId) -> (node: Option<Node>)
        ensures
            node == (if id < self@.len() {
                Some(self@[id as int])
            } else {
                None
            }),
    {
        if id < self.nodes.len() {
            Some(self.nodes[id])
        } else {
            None
        }
    }

    /// The root: the first node, which has no parent.
    pub fn root(&self) -> (root: Option<NodeId>)
        ensures
            root == (if self@.len() > 0 {
                Some(0usize)
            } else {
                None
            }),
    {
        if self.nodes.len() > 0 {
            Some(0)
        } else {
            None
        }
    }

    /// The node directly above `id`; none for a root and for an unknown id.
    pub fn parent(&self, id: NodeId) -> (parent: Option<NodeId>)
        ensures
            parent == (if id < self@.len() {
                self@[id as int].parent
            } else {
                None
            }),
    {
        if id < self.nodes.len() {
            self.nodes[id].parent
        } else {
            None
        }
    }

    /// The scope that owns the node.
    pub fn scope_of(&self, id: NodeId) -> (scope: Option<ScopeId>)
        ensures
            scope == (if id < self@.len() {
                Some(self@[id as int].scope)
            } else {
                None
            }),
    {
        if id < self.nodes.len() {
            Some(self.nodes[id].scope)
        } else {
            None
        }
    }

    /// Whether the binding at `n` is given a value where it is declared.
    pub fn gives_value(&self, n: NodeId) -> (yes: bool)
        requires
            self.wf(),
        ensures
            yes == is_given_value(self@, n as int),
    {
        if n >= self.nodes.len() {
            return false;
        }
        let mut cur = n;
        loop
            invariant
                self.wf(),
                cur < self@.len(),
                declarator_of(self@, n as int) == declarator_of(self@, cur as int),
            decreases cur,
        {
            let p = match self.nodes[cur].parent {
                Some(p) => p,
                None => {
                    return false;
                },
            };
            match self.nodes[p].kind {
                NodeKind::VariableDeclarator { has_init } => {
                    return has_init || self.stands_in_loop_head(p);
                },
                NodeKind::Pattern => {
                    cur = p;
                },
                _ => {
                    return false;
                },
            }
        }
    }

    /// Whether the declarator at `d` stands in the head of a `for`-`in` or
    /// `for`-`of`.
    pub fn stands_in_loop_head(&self, d: NodeId) -> (yes: bool)
        requires
            self.wf(),
        ensures
            yes == is_in_loop_head(self@, d as int),
    {
        if d >= self.nodes.len() {
            return false;
        }
        let declaration = match self.nodes[d].parent {
            Some(declaration) => declaration,
            None => {
                return false;
            },
        };
        match self.nodes[declaration].kind {
            NodeKind::VariableDeclaration => {},
            _ => {
                return false;
            },
        }
        let lp = match self.nodes[declaration].parent {
            Some(lp) => lp,
            None => {
                return false;
            },
        };
        match self.nodes[lp].kind {
            NodeKind::ForInStatement { right } => declaration < right,
            NodeKind::ForOfStatement { right } => declaration < right,
            _ => false,
        }
    }

    /// The node that stands for the declaration made at `n`.
    pub fn declaring_node(&self, n: NodeId) -> (node: NodeId)
        requires
            self.wf(),
        ensures
            node == declaration_of(self@, n as int),
    {
        if n >= self.nodes.len() {
            return n;
        }
        match (self.nodes[n].kind, self.nodes[n].parent) {
            (NodeKind::VariableDeclarator { .. }, Some(p)) => {
                match self.nodes[p].kind {
                    NodeKind::VariableDeclaration => p,
                    _ => n,
                }
            },
            _ => n,
        }
    }

    /// Whether `a` is `n` or lies above it.
    pub fn encloses(&self, a: NodeId, n: NodeId) -> (yes: bool)
        requires
            self.wf(),
        ensures
            yes == is_ancestor_or_self(self@, a as int, n as int),
    {
        if n >= self.nodes.len() {
            return false;
        }
        let mut cur = n;
        loop
            invariant
                self.wf(),
                cur < self@.len(),
                is_ancestor_or_self(self@, a as int, n as int) == is_ancestor_or_self(
                    self@,
                    a as int,
                    cur as int,
                ),
            decreases cur,
        {
            if cur == a {
                return true;
            }
            match self.nodes[cur].parent {
                Some(p) => {
                    cur = p;
                },
                None => {
                    return false;
                },
            }
        }
    }

    /// The innermost node above `node` that `accepts` says yes to, or none
    /// if the walk meets the program root first.
    pub fn nearest_enclosing<F: Fn(&NodeKind) -> bool>(&self, node: NodeId, accepts: F) -> (found:
        Option<NodeId>)
        requires
            self.wf(),
            forall|k: NodeKind| call_requires(accepts, (&k,)),
        ensures
            forall|p: spec_fn(NodeKind) -> bool|
                (forall|k: NodeKind, b: bool| call_ensures(accepts, (&k,), b) ==> b == p(k))
                    ==> found == nearest_enclosing_spec(self@, node as int, p),
    {
        if node >= self.nodes.len() {
            return None;
        }
        let mut cur = node;
        loop
            invariant
                self.wf(),
                cur < self@.len(),
                forall|k: NodeKind| call_requires(accepts, (&k,)),
                forall|p: spec_fn(NodeKind) -> bool|
                    (forall|k: NodeKind, b: bool| call_ensures(accepts, (&k,), b) ==> b == p(k))
                        ==> nearest_enclosing_spec(self@, node as int, p)
                        == nearest_enclosing_spec(self@, cur as int, p),
            decreases cur,
        {
            match self.nodes[cur].parent {
                Some(p) => {
                    let kind = self.nodes[p].kind;
                    if let NodeKind::Program = kind {
                        return None;
                    }
                    if accepts(&kind) {
                        return Some(p);
                    }
                    cur = p;
                },
                None => {
                    return None;
                },
            }
        }
    }
}


/// A node that encloses another was made no later than it.
pub proof fn lemma_ancestor_is_not_later(nodes: Seq<Node>, a: int, n: int)
    requires
        is_ancestor_or_self(nodes, a, n),
    ensures
        0 <= a <= n < nodes.len(),
    decreases n,
{
    if a != n {
        match nodes[n].parent {
            Some(p) => {
                lemma_ancestor_is_not_later(nodes, a, p as int);
            },
            None => {},
        }
    }
}

/// What the walk finds is above the node and accepted, and nothing
/// between the two is accepted or the program root. Where the walk finds
/// nothing, whatever is accepted above the node lies at or beyond the
/// program root.
pub proof fn law_nearest_enclosing_is_innermost(
    nodes: Seq<Node>,
    n: int,
    accepts: spec_fn(NodeKind) -> bool,
)
    ensures
        match nearest_enclosing_spec(nodes, n, accepts) {
            Some(a) => is_ancestor(nodes, a as int, n) && accepts(nodes[a as int].kind)
                && !(nodes[a as int].kind is Program) && forall|j: int|
                j != a && is_ancestor_or_self(nodes, a as int, j) && #[trigger] is_ancestor(
                    nodes,
                    j,
                    n,
                ) ==> !accepts(nodes[j].kind) && !(nodes[j].kind is Program),
            None => forall|a: int|
                #[trigger] is_ancestor(nodes, a, n) && accepts(nodes[a].kind) ==> exists|j: int|
                    is_ancestor(nodes, j, n) && #[trigger] is_ancestor_or_self(nodes, a, j)
                        && nodes[j].kind is Program,
        },
    decreases n,
{
    if 0 <= n < nodes.len() {
        match nodes[n].parent {
            Some(p) => {
                if p < n {
                    let up = nodes[p as int].kind;
                    assert(is_ancestor_or_self(nodes, p as int, p as int));
                    if up is Program {
                        assert forall|a: int|
                            #[trigger] is_ancestor(nodes, a, n) && accepts(
                                nodes[a].kind,
                            ) implies exists|j: int|
                            is_ancestor(nodes, j, n) && #[trigger] is_ancestor_or_self(nodes, a, j)
                                && nodes[j].kind is Program by {
                            assert(is_ancestor(nodes, p as int, n) && is_ancestor_or_self(
                                nodes,
                                a,
                                p as int,
                            ));
                        }
                    } else if accepts(up) {
                        assert forall|j: int|
                            j != p && is_ancestor_or_self(nodes, p as int, j)
                                && #[trigger] is_ancestor(nodes, j, n) implies !accepts(
                            nodes[j].kind,
                        ) && !(nodes[j].kind is Program) by {
                            lemma_ancestor_is_not_later(nodes, p as int, j);
                            lemma_ancestor_is_not_later(nodes, j, p as int);
                        }
                    } else {
                        law_nearest_enclosing_is_innermost(nodes, p as int, accepts);
                        match nearest_enclosing_spec(nodes, p as int, accepts) {
                            Some(a) => {
                                lemma_ancestor_is_not_later(nodes, a as int, p as int);
                                assert forall|j: int|
                                    j != a && is_ancestor_or_self(nodes, a as int, j)
                                        && #[trigger] is_ancestor(nodes, j, n) implies !accepts(
                                    nodes[j].kind,
                                ) && !(nodes[j].kind is Program) by {
                                    if j != p {
                                        assert(is_ancestor(nodes, j, p as int));
                                    }
                                }
                            },
                            None => {
                                assert forall|a: int|
                                    #[trigger] is_ancestor(nodes, a, n) && accepts(
                                        nodes[a].kind,
                                    ) implies exists|j: int|
                                    is_ancestor(nodes, j, n) && #[trigger] is_ancestor_or_self(
                                        nodes,
                                        a,
                                        j,
                                    ) && nodes[j].kind is Program by {
                                    assert(a != p);
                                    assert(is_ancestor(nodes, a, p as int));
                                    let j = choose|j: int|
                                        is_ancestor(nodes, j, p as int)
                                            && #[trigger] is_ancestor_or_self(nodes, a, j)
                                            && nodes[j].kind is Program;
                                    lemma_ancestor_is_not_later(nodes, j, p as int);
                                    assert(is_ancestor(nodes, j, n) && is_ancestor_or_self(
                                        nodes,
                                        a,
                                        j,
                                    ));
                                }
                            },
                        }
                    }
                }
            },
            None => {},
        }
    }
}

} // verus!
