//! What the rewrite makes of an initializer, of the tables and of the list
//! of delegations, stated construct by construct.

use vstd::prelude::*;
use crate::fresh::candidate_name;
use crate::node::{NodeId, ReferenceId, ScopeId, SymbolId};
use crate::scope::{
    ScopeView,
    lemma_encloses_by_parents,
    lemma_encloses_trans,
    name_in_use,
    scope_encloses,
};
use crate::semantic::{
    SemanticView,
    is_first_free,
    redirect_fault,
    reference_fault,
    semantic_wf,
    with_fresh_symbol,
    with_redirect,
    with_reference,
};
use crate::span::Span;
use crate::static_prop::class::BoundIdentifierView;
use crate::static_prop::expr::{Delegation, ExprView, PrivateForm};
use crate::symbol::Reference;

verus! {

/// What stays the same throughout one rewrite.
pub struct Rewrite {
    /// The class has a name or private properties.
    pub has_name_or_private: bool,
    /// The symbol of the class's own name.
    pub class_name: Option<SymbolId>,
    /// The node of the class, to which new references are attributed and
    /// for which a temp binding is made.
    pub node: NodeId,
    /// The name that a temp binding is made from.
    pub hint: Seq<char>,
    /// The scope in which a temp binding is declared.
    pub hoist_scope: ScopeId,
}

/// What a rewrite changes besides the initializer.
pub struct Walk {
    pub semantic: SemanticView,
    pub delegated: Seq<Delegation>,
    /// The temp binding that holds the class, once there is one.
    pub temp: Option<BoundIdentifierView>,
}

pub struct Visited {
    pub expr: ExprView,
    pub walk: Walk,
}

pub struct VisitedList {
    pub exprs: Seq<ExprView>,
    pub walk: Walk,
}

pub open spec fn delegate(w: Walk, form: PrivateForm, span: Span) -> Walk {
    Walk { delegated: w.delegated.push(Delegation { form, span }), ..w }
}

/// Some name made from `hint` is free.
pub open spec fn has_free_name(scopes: Seq<ScopeView>, hint: Seq<char>) -> bool {
    exists|k: nat| k <= u32::MAX && is_first_free(scopes, hint, k)
}

/// The count of the first free name made from `hint`.
pub open spec fn first_free(scopes: Seq<ScopeView>, hint: Seq<char>) -> nat {
    choose|k: nat| k <= u32::MAX && is_first_free(scopes, hint, k)
}

/// Only one candidate is the first free one.
pub proof fn lemma_first_free_is_one(scopes: Seq<ScopeView>, hint: Seq<char>, k: nat)
    requires
        k <= u32::MAX,
        is_first_free(scopes, hint, k),
    ensures
        has_free_name(scopes, hint),
        first_free(scopes, hint) == k,
{
    let c = first_free(scopes, hint);
    if c < k {
        assert(name_in_use(scopes, candidate_name(hint, c)));
    }
    if k < c {
        assert(name_in_use(scopes, candidate_name(hint, k)));
    }
}

/// A temp binding can be made: the scope for it and the node of the class
/// are known, and a name is free.
pub open spec fn can_make_temp(p: Rewrite, v: SemanticView) -> bool {
    p.hoist_scope < v.scopes.len() && p.node < v.nodes.len() && has_free_name(v.scopes, p.hint)
}

/// The temp binding that is made in the tree `v`.
pub open spec fn fresh_temp(p: Rewrite, v: SemanticView) -> BoundIdentifierView {
    BoundIdentifierView {
        name: candidate_name(p.hint, first_free(v.scopes, p.hint)),
        symbol_id: v.table.symbols.len() as usize,
    }
}

/// The rewrite with a temp binding at hand: the one it holds or, on first
/// use, one made under the first free name in the scope for it. Where none
/// can be made, nothing changes.
pub open spec fn at_hand(p: Rewrite, w: Walk) -> Walk {
    if w.temp.is_some() || !can_make_temp(p, w.semantic) {
        w
    } else {
        Walk {
            semantic: with_fresh_symbol(
                w.semantic,
                fresh_temp(p, w.semantic).name,
                p.hoist_scope,
                p.node,
            ),
            temp: Some(fresh_temp(p, w.semantic)),
            ..w
        }
    }
}

/// The reference that a read of the temp binding `temp` in `scope` makes.
pub open spec fn temp_read(p: Rewrite, temp: BoundIdentifierView, scope: ScopeId) -> Reference {
    Reference { node: p.node, symbol: Some(temp.symbol_id), read: true, write: false, scope }
}

/// The scope that the temp binding is declared in: that of the one at
/// hand, or the scope for one that is yet to be made.
pub open spec fn temp_home(p: Rewrite, w: Walk) -> ScopeId {
    match w.temp {
        Some(t) => w.semantic.table.symbols[t.symbol_id as int].scope,
        None => p.hoist_scope,
    }
}

/// The temp binding can be used in `scope`: there is one or one can be
/// made, the node of the class and the scope are known, and the scope of
/// the temp binding encloses `scope`.
pub open spec fn temp_reaches(p: Rewrite, w: Walk, scope: ScopeId) -> bool {
    &&& at_hand(p, w).temp.is_some()
    &&& w.temp.is_some() ==> w.temp.unwrap().symbol_id < w.semantic.table.symbols.len()
    &&& p.node < w.semantic.nodes.len()
    &&& scope < w.semantic.scopes.len()
    &&& scope_encloses(w.semantic.scopes, temp_home(p, w) as int, scope as int)
}

/// `this` is replaced: it means the class, and the temp binding can be
/// used where it stands.
pub open spec fn replaces_this(p: Rewrite, w: Walk, scope: ScopeId, depth: nat) -> bool {
    depth == 0 && temp_reaches(p, w, scope)
}

/// `this` where it means the class becomes a read of the temp binding,
/// which is made if there is none yet. Nothing changes where `this` means
/// something else, or where there is no temp binding and none can be made.
pub open spec fn replace_this(p: Rewrite, span: Span, scope: ScopeId, depth: nat, w: Walk) -> Visited {
    if depth != 0 {
        Visited { expr: ExprView::This { span, scope }, walk: w }
    } else if replaces_this(p, w, scope, depth) {
        let w1 = at_hand(p, w);
        Visited {
            expr: ExprView::Identifier {
                span,
                reference: w1.semantic.table.references.len() as usize,
                name: w1.temp.unwrap().name,
            },
            walk: Walk {
                semantic: with_reference(w1.semantic, temp_read(p, w1.temp.unwrap(), scope)),
                ..w1
            },
        }
    } else {
        Visited { expr: ExprView::This { span, scope }, walk: at_hand(p, w) }
    }
}

/// The identifier refers to the class by its name.
pub open spec fn names_class(p: Rewrite, v: SemanticView, reference: ReferenceId) -> bool {
    &&& p.class_name.is_some()
    &&& reference < v.table.references.len()
    &&& v.table.references[reference as int].symbol == p.class_name
}

/// The identifier is taken over by the temp binding: it refers to the
/// class by its name, and the temp binding can be used wherever the name
/// can.
pub open spec fn renames(p: Rewrite, w: Walk, reference: ReferenceId) -> bool {
    &&& names_class(p, w.semantic, reference)
    &&& p.class_name.unwrap() < w.semantic.table.symbols.len()
    &&& temp_reaches(p, w, w.semantic.table.symbols[p.class_name.unwrap() as int].scope)
}

/// What the visit of an identifier leaves: for one that refers to the
/// class by its name, the temp binding at hand and, if the identifier is
/// taken over, the reference moved there; else what was.
pub open spec fn renamed(p: Rewrite, w: Walk, reference: ReferenceId) -> Walk {
    if !names_class(p, w.semantic, reference) {
        w
    } else if renames(p, w, reference) {
        Walk {
            semantic: with_redirect(
                at_hand(p, w).semantic,
                reference,
                at_hand(p, w).temp.unwrap().symbol_id,
            ),
            ..at_hand(p, w)
        }
    } else {
        at_hand(p, w)
    }
}

/// An identifier that refers to the class by its name is renamed, and its
/// reference moved, to the temp binding, which is made if there is none
/// yet.
pub open spec fn replace_class_name(
    p: Rewrite,
    span: Span,
    reference: ReferenceId,
    name: Seq<char>,
    w: Walk,
) -> Visited {
    Visited {
        expr: ExprView::Identifier {
            span,
            reference,
            name: if renames(p, w, reference) {
                at_hand(p, w).temp.unwrap().name
            } else {
                name
            },
        },
        walk: renamed(p, w, reference),
    }
}

/// Where the temp binding can be used in `scope`, nothing stands against a
/// reference to it there once it is at hand.
pub proof fn lemma_temp_can_be_read(p: Rewrite, w: Walk, scope: ScopeId)
    requires
        semantic_wf(w.semantic),
        temp_reaches(p, w, scope),
    ensures
        reference_fault(
            at_hand(p, w).semantic,
            temp_read(p, at_hand(p, w).temp.unwrap(), scope),
        ).is_none(),
        at_hand(p, w).semantic.table.references == w.semantic.table.references,
{
    if w.temp.is_none() {
        lemma_encloses_by_parents(
            w.semantic.scopes,
            at_hand(p, w).semantic.scopes,
            p.hoist_scope as int,
            scope as int,
        );
        let made = at_hand(p, w).temp.unwrap().symbol_id;
        assert(made == w.semantic.table.symbols.len());
        assert(at_hand(p, w).semantic.table.symbols[made as int].scope == p.hoist_scope);
    }
}

/// Where the temp binding can be used wherever the class's name can,
/// nothing stands against moving a reference to the name over to it once
/// it is at hand.
pub proof fn lemma_reference_can_move(p: Rewrite, w: Walk, reference: ReferenceId)
    requires
        semantic_wf(w.semantic),
        renames(p, w, reference),
    ensures
        redirect_fault(
            at_hand(p, w).semantic,
            reference,
            at_hand(p, w).temp.unwrap().symbol_id,
        ).is_none(),
{
    let v = w.semantic;
    let c = p.class_name.unwrap();
    let home = v.table.symbols[c as int].scope;
    let at = v.table.references[reference as int].scope;
    let u = at_hand(p, w).semantic;
    let t = at_hand(p, w).temp.unwrap().symbol_id;
    assert(scope_encloses(v.scopes, home as int, at as int));
    lemma_encloses_trans(v.scopes, temp_home(p, w) as int, home as int, at as int);
    if w.temp.is_none() {
        lemma_encloses_by_parents(v.scopes, u.scopes, p.hoist_scope as int, at as int);
        assert(t == v.table.symbols.len());
        assert(u.table.symbols[t as int].scope == p.hoist_scope);
    }
}

/// Whether what stands in a construct with its own `this` is looked at:
/// only for a class with a name or private properties, since nothing else
/// could need rewriting in there.
pub open spec fn descends(p: Rewrite, depth: nat) -> bool {
    p.has_name_or_private && depth < u32::MAX
}

/// The initializer after the rewrite, with the table and the list of
/// delegations as the rewrite leaves them. `depth` counts the constructs
/// with a `this` of their own between the initializer and `e`.
pub open spec fn visit(p: Rewrite, e: ExprView, depth: nat, w: Walk) -> Visited
    decreases e, 0nat,
{
    match e {
        ExprView::This { span, scope } => replace_this(p, span, scope, depth, w),
        ExprView::Identifier { span, reference, name } => replace_class_name(
            p,
            span,
            reference,
            name,
            w,
        ),
        ExprView::Boolean { .. } => Visited { expr: e, walk: w },
        ExprView::Delete { span, argument } => {
            if *argument is This {
                if depth == 0 {
                    Visited { expr: ExprView::Boolean { span, literal: true }, walk: w }
                } else {
                    Visited { expr: e, walk: w }
                }
            } else {
                let w1 = if *argument matches ExprView::Private { form: PrivateForm::Chain, .. } {
                    delegate(w, PrivateForm::DeleteChain, span)
                } else {
                    w
                };
                let a = visit(p, *argument, depth, w1);
                Visited { expr: ExprView::Delete { span, argument: Box::new(a.expr) }, walk: a.walk }
            }
        },
        ExprView::Private { span, form, operands } => {
            let o = visit_list(p, operands, depth, delegate(w, form, span), operands.len());
            Visited { expr: ExprView::Private { span, form, operands: o.exprs }, walk: o.walk }
        },
        ExprView::Boundary { span, kind, body } => {
            if descends(p, depth) {
                let b = visit_list(p, body, depth + 1, w, body.len());
                Visited { expr: ExprView::Boundary { span, kind, body: b.exprs }, walk: b.walk }
            } else {
                Visited { expr: e, walk: w }
            }
        },
        ExprView::Property { span, accessor, computed, decorators, key, value } => {
            let d = visit_list(p, decorators, depth, w, decorators.len());
            let k = if computed {
                visit(p, *key, depth, d.walk)
            } else {
                Visited { expr: *key, walk: d.walk }
            };
            match value {
                Some(inner) => {
                    if descends(p, depth) {
                        let v = visit(p, *inner, depth + 1, k.walk);
                        Visited {
                            expr: ExprView::Property {
                                span,
                                accessor,
                                computed,
                                decorators: d.exprs,
                                key: Box::new(k.expr),
                                value: Some(Box::new(v.expr)),
                            },
                            walk: v.walk,
                        }
                    } else {
                        Visited {
                            expr: ExprView::Property {
                                span,
                                accessor,
                                computed,
                                decorators: d.exprs,
                                key: Box::new(k.expr),
                                value,
                            },
                            walk: k.walk,
                        }
                    }
                },
                None => Visited {
                    expr: ExprView::Property {
                        span,
                        accessor,
                        computed,
                        decorators: d.exprs,
                        key: Box::new(k.expr),
                        value,
                    },
                    walk: k.walk,
                },
            }
        },
        ExprView::Other { span, children } => {
            let c = visit_list(p, children, depth, w, children.len());
            Visited { expr: ExprView::Other { span, children: c.exprs }, walk: c.walk }
        },
    }
}

/// The first `upto` of `list` after the rewrite, one after the other.
pub open spec fn visit_list(p: Rewrite, list: Seq<ExprView>, depth: nat, w: Walk, upto: nat) -> VisitedList
    decreases list, upto,
{
    if upto == 0 || upto > list.len() {
        VisitedList { exprs: Seq::empty(), walk: w }
    } else {
        let before = visit_list(p, list, depth, w, (upto - 1) as nat);
        let last = visit(p, list[upto - 1], depth, before.walk);
        VisitedList { exprs: before.exprs.push(last.expr), walk: last.walk }
    }
}

/// The list comes out as long as the part of it that was visited.
pub proof fn lemma_visit_list_len(p: Rewrite, list: Seq<ExprView>, depth: nat, w: Walk, upto: nat)
    requires
        upto <= list.len(),
    ensures
        visit_list(p, list, depth, w, upto).exprs.len() == upto,
    decreases upto,
{
    if upto > 0 {
        lemma_visit_list_len(p, list, depth, w, (upto - 1) as nat);
    }
}

/// `out_e`, `out_v` and `delegated` are what the rewrite by `p`, with the
/// temp binding `temp` to start with, makes of the initializer `e` and the
/// tree `v`, and `out_temp` is the temp binding that it ends with.
pub open spec fn rewritten_as(
    p: Rewrite,
    temp: Option<BoundIdentifierView>,
    e: ExprView,
    v: SemanticView,
    out_e: ExprView,
    out_v: SemanticView,
    delegated: Seq<Delegation>,
    out_temp: Option<BoundIdentifierView>,
) -> bool {
    let out = visit(p, e, 0, Walk { semantic: v, delegated: Seq::empty(), temp });
    out_e == out.expr && out_v == out.walk.semantic && delegated == out.walk.delegated && out_temp
        == out.walk.temp
}

} // verus!
