//! Initializers as trees: an expression with all that is nested in it, as
//! far as the rewrite tells constructs apart.

use vstd::prelude::*;
use crate::node::{ReferenceId, ScopeId};
use crate::span::Span;

verus! {

/// The ways in which an expression can reach for a private field.
#[derive(Clone, Copy, Debug, PartialEq, Eq, Structural)]
pub enum PrivateForm {
    /// `object.#prop`
    Field,
    /// `object.#prop()`
    Call,
    /// `object.#prop = value`, `object.#prop += value` and the like
    Assignment,
    /// `object.#prop++`, `--object.#prop`
    Update,
    /// `object?.#prop`
    Chain,
    /// ``object.#prop`xyz` ``
    TaggedTemplate,
    /// `[object.#prop] = []`
    AssignmentTarget,
    /// `delete object?.#prop.xyz`
    DeleteChain,
}

/// The constructs inside which `this` is another `this`.
#[derive(Clone, Copy, Debug, PartialEq, Eq, Structural)]
pub enum BoundaryKind {
    /// A function that is not an arrow function.
    Function,
    StaticBlock,
    ModuleBlock,
}

/// An expression handed over to the transform of private fields.
#[derive(Clone, Copy, Debug, PartialEq, Eq, Structural)]
pub struct Delegation {
    pub form: PrivateForm,
    pub span: Span,
}

/// An initializer: an expression with all that is nested in it.
#[derive(Debug, PartialEq, Eq)]
pub enum Expr {
    /// `this`, with the scope that it stands in.
    This { span: Span, scope: ScopeId },
    /// An identifier that refers to a binding.
    Identifier { span: Span, reference: ReferenceId, name: String },
    /// `true` or `false`.
    Boolean { span: Span, literal: bool },
    /// `delete argument`.
    Delete { span: Span, argument: Box<Expr> },
    /// An expression of one of the forms that can reach for a private
    /// field, with its operands.
    Private { span: Span, form: PrivateForm, operands: Vec<Expr> },
    /// A construct with a `this` of its own, with what stands in it.
    Boundary { span: Span, kind: BoundaryKind, body: Vec<Expr> },
    /// A property or accessor of a class nested in the initializer. The key
    /// is evaluated where the class stands, and only if it is computed; the
    /// value is evaluated with the nested class as `this`.
    Property {
        span: Span,
        accessor: bool,
        computed: bool,
        decorators: Vec<Expr>,
        key: Box<Expr>,
        value: Option<Box<Expr>>,
    },
    /// Any other construct, arrow functions among them, with its parts.
    Other { span: Span, children: Vec<Expr> },
}

pub enum ExprView {
    This { span: Span, scope: ScopeId },
    Identifier { span: Span, reference: ReferenceId, name: Seq<char> },
    Boolean { span: Span, literal: bool },
    Delete { span: Span, argument: Box<ExprView> },
    Private { span: Span, form: PrivateForm, operands: Seq<ExprView> },
    Boundary { span: Span, kind: BoundaryKind, body: Seq<ExprView> },
    Property {
        span: Span,
        accessor: bool,
        computed: bool,
        decorators: Seq<ExprView>,
        key: Box<ExprView>,
        value: Option<Box<ExprView>>,
    },
    Other { span: Span, children: Seq<ExprView> },
}

pub open spec fn expr_view(e: Expr) -> ExprView
    decreases e, 0nat,
{
    match e {
        Expr::This { span, scope } => ExprView::This { span, scope },
        Expr::Identifier { span, reference, name } => ExprView::Identifier {
            span,
            reference,
            name: name@,
        },
        Expr::Boolean { span, literal } => ExprView::Boolean { span, literal },
        Expr::Delete { span, argument } => ExprView::Delete {
            span,
            argument: Box::new(expr_view(*argument)),
        },
        Expr::Private { span, form, operands } => ExprView::Private {
            span,
            form,
            operands: exprs_view(operands@),
        },
        Expr::Boundary { span, kind, body } => ExprView::Boundary {
            span,
            kind,
            body: exprs_view(body@),
        },
        Expr::Property { span, accessor, computed, decorators, key, value } => ExprView::Property {
            span,
            accessor,
            computed,
            decorators: exprs_view(decorators@),
            key: Box::new(expr_view(*key)),
            value: match value {
                Some(v) => Some(Box::new(expr_view(*v))),
                None => None,
            },
        },
        Expr::Other { span, children } => ExprView::Other { span, children: exprs_view(children@) },
    }
}

pub open spec fn exprs_view(list: Seq<Expr>) -> Seq<ExprView>
    decreases list, 1nat,
{
    Seq::new(
        list.len(),
        |i: int|
            if 0 <= i < list.len() {
                expr_view(list[i])
            } else {
                ExprView::Boolean { span: Span { start: 0, end: 0 }, literal: false }
            },
    )
}

impl View for Expr {
    type V = ExprView;

    open spec fn view(&self) -> ExprView {
        expr_view(*self)
    }
}

} // verus!
