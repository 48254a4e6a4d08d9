//! Static property initializers that leave the class body.
//!
//! Once an initializer stands outside its class, `this` no longer means the
//! class, the class's name may have been assigned something else by the
//! time the code runs, and private fields cannot be written as they were.
//! The rewrite replaces `this` by a read of a temp binding that holds the
//! class, made on first use, moves references to the class's name over to
//! that binding, and lists the expressions that reach for private fields,
//! which a separate transform has to take over.

pub mod expr;
pub mod rewrite;
pub mod survey;
pub mod class;
pub mod visitor;
pub mod laws;

pub use class::{BoundIdentifier, ClassBindings, ClassProperties, PrivateProps};
pub use expr::{BoundaryKind, Delegation, Expr, PrivateForm};
pub use survey::{survey, survey_list};
pub use visitor::StaticInitializerVisitor;
