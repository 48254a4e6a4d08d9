//! Scope-resolved syntax trees: an arena of nodes, a scope tree and a symbol
//! and reference table, with two consumers built on them. One is a read-only
//! analysis that flags functions created in loops which capture bindings
//! shared between iterations; the other is a rewrite that moves a class's
//! static initializers out of the class body without changing what `this`
//! and the class's own name denote.

pub mod span;
pub mod node;
pub mod scope;
pub mod symbol;
pub mod fresh;
pub mod semantic;
pub mod no_loop_func;
pub mod static_prop;
