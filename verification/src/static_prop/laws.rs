//! What holds of every rewrite of a static initializer.

use vstd::prelude::*;
use crate::node::{ReferenceId, ScopeId, SymbolId};
use crate::scope::{ScopeView, lemma_encloses_by_parents, lemma_encloses_trans, scope_encloses};
use crate::semantic::{
    SemanticView,
    lemma_redirect_keeps_semantic_wf,
    lemma_reference_keeps_wf,
    redirect_fault,
    reference_fault,
    semantic_wf,
    with_redirect,
    with_reference,
};
use crate::fresh::candidate_name;
use crate::scope::name_in_use;
use crate::semantic::{is_first_free, lemma_fresh_symbol_is_wf, with_fresh_symbol};
use crate::span::Span;
use crate::static_prop::class::{BoundIdentifierView, made_temp, no_free_name};
use crate::static_prop::expr::{ExprView, PrivateForm};
use crate::static_prop::rewrite::{
    Rewrite,
    Visited,
    Walk,
    at_hand,
    can_make_temp,
    delegate,
    first_free,
    has_free_name,
    lemma_reference_can_move,
    lemma_temp_can_be_read,
    temp_home,
    temp_reaches,
    descends,
    lemma_visit_list_len,
    names_class,
    renames,
    replaces_this,
    temp_read,
    visit,
    visit_list,
};
use crate::static_prop::survey::{expr_fault, list_fault, list_needs_temp, needs_temp};
use crate::symbol::{Reference, law_registered_with_its_symbol_only};

verus! {

/// What a rewrite leaves of the tree `a` in the tree `b`: the nodes, the
/// scopes and what each symbol declares stay; references are only added,
/// and the new ones refer to the temp binding; an old reference is as it
/// was or has gone from the class's name to the temp binding.
pub open spec fn carried_over(
    p: Rewrite,
    temp: Option<BoundIdentifierView>,
    a: SemanticView,
    b: SemanticView,
) -> bool {
    &&& b.nodes == a.nodes
    &&& b.scopes == a.scopes
    &&& b.table.symbols.len() == a.table.symbols.len()
    &&& forall|s: int|
        0 <= s < a.table.symbols.len() ==> (#[trigger] b.table.symbols[s]).scope
            == a.table.symbols[s].scope && b.table.symbols[s].name == a.table.symbols[s].name
            && b.table.symbols[s].kind == a.table.symbols[s].kind && b.table.symbols[s].declaration
            == a.table.symbols[s].declaration
    &&& b.table.references.len() >= a.table.references.len()
    &&& forall|r: int|
        0 <= r < a.table.references.len() ==> #[trigger] b.table.references[r]
            == a.table.references[r] || (p.class_name.is_some() && temp.is_some()
            && a.table.references[r].symbol == p.class_name && b.table.references[r] == (Reference {
            symbol: Some(temp.unwrap().symbol_id),
            ..a.table.references[r]
        }))
    &&& forall|r: int|
        a.table.references.len() <= r < b.table.references.len() ==> temp.is_some() && (
        #[trigger] b.table.references[r]).symbol == Some(temp.unwrap().symbol_id)
}

pub proof fn lemma_carried_over_trans(
    p: Rewrite,
    temp: Option<BoundIdentifierView>,
    a: SemanticView,
    b: SemanticView,
    c: SemanticView,
)
    requires
        carried_over(p, temp, a, b),
        carried_over(p, temp, b, c),
    ensures
        carried_over(p, temp, a, c),
{
    assert forall|s: int| 0 <= s < a.table.symbols.len() implies (
    #[trigger] c.table.symbols[s]).scope == a.table.symbols[s].scope && c.table.symbols[s].name
        == a.table.symbols[s].name && c.table.symbols[s].kind == a.table.symbols[s].kind
        && c.table.symbols[s].declaration == a.table.symbols[s].declaration by {
        assert(b.table.symbols[s].scope == a.table.symbols[s].scope);
    }
    assert forall|r: int| 0 <= r < a.table.references.len() implies #[trigger] c.table.references[r]
        == a.table.references[r] || (p.class_name.is_some() && temp.is_some()
        && a.table.references[r].symbol == p.class_name && c.table.references[r] == (Reference {
        symbol: Some(temp.unwrap().symbol_id),
        ..a.table.references[r]
    })) by {
        let x = b.table.references[r];
        let y = c.table.references[r];
    }
    assert forall|r: int| a.table.references.len() <= r < c.table.references.len() implies
        temp.is_some() && (#[trigger] c.table.references[r]).symbol == Some(
        temp.unwrap().symbol_id,
    ) by {
        if r < b.table.references.len() {
            let x = b.table.references[r];
            let y = c.table.references[r];
        }
    }
}

/// A rewrite carries the tree over.
pub proof fn lemma_visit_carries_over(p: Rewrite, e: ExprView, depth: nat, w: Walk)
    requires
        w.temp.is_some(),
    ensures
        carried_over(p, w.temp, w.semantic, visit(p, e, depth, w).walk.semantic),
        visit(p, e, depth, w).walk.temp == w.temp,
    decreases e, 0nat,
{
    let v = w.semantic;
    match e {
        ExprView::This { span, scope } => {
            if replaces_this(p, w, scope, depth) {
                let u = with_reference(v, temp_read(p, w.temp.unwrap(), scope));
                assert(carried_over(p, w.temp, v, u));
            }
        },
        ExprView::Identifier { span, reference, name } => {
            if renames(p, w, reference) {
                let u = with_redirect(v, reference, w.temp.unwrap().symbol_id);
                assert(carried_over(p, w.temp, v, u));
            }
        },
        ExprView::Boolean { .. } => {},
        ExprView::Delete { span, argument } => {
            if !(*argument is This) {
                let w1 = if *argument matches ExprView::Private { form: PrivateForm::Chain, .. } {
                    delegate(w, PrivateForm::DeleteChain, span)
                } else {
                    w
                };
                lemma_visit_carries_over(p, *argument, depth, w1);
            }
        },
        ExprView::Private { span, form, operands } => {
            lemma_list_carries_over(p, operands, depth, delegate(w, form, span), operands.len());
        },
        ExprView::Boundary { span, kind, body } => {
            if descends(p, depth) {
                lemma_list_carries_over(p, body, depth + 1, w, body.len());
            }
        },
        ExprView::Property { span, accessor, computed, decorators, key, value } => {
            lemma_list_carries_over(p, decorators, depth, w, decorators.len());
            let d = visit_list(p, decorators, depth, w, decorators.len());
            let k = if computed {
                visit(p, *key, depth, d.walk)
            } else {
                Visited { expr: *key, walk: d.walk }
            };
            if computed {
                lemma_visit_carries_over(p, *key, depth, d.walk);
                lemma_carried_over_trans(p, w.temp, v, d.walk.semantic, k.walk.semantic);
            }
            match value {
                Some(inner) => {
                    if descends(p, depth) {
                        lemma_visit_carries_over(p, *inner, depth + 1, k.walk);
                        lemma_carried_over_trans(
                            p,
                            w.temp,
                            v,
                            k.walk.semantic,
                            visit(p, *inner, depth + 1, k.walk).walk.semantic,
                        );
                    }
                },
                None => {},
            }
        },
        ExprView::Other { span, children } => {
            lemma_list_carries_over(p, children, depth, w, children.len());
        },
    }
}

pub proof fn lemma_list_carries_over(p: Rewrite, list: Seq<ExprView>, depth: nat, w: Walk, upto: nat)
    requires
        w.temp.is_some(),
    ensures
        carried_over(p, w.temp, w.semantic, visit_list(p, list, depth, w, upto).walk.semantic),
        visit_list(p, list, depth, w, upto).walk.temp == w.temp,
    decreases list, upto,
{
    if upto == 0 || upto > list.len() {
    } else {
        let before = visit_list(p, list, depth, w, (upto - 1) as nat);
        lemma_list_carries_over(p, list, depth, w, (upto - 1) as nat);
        lemma_visit_carries_over(p, list[upto - 1], depth, before.walk);
        lemma_carried_over_trans(
            p,
            w.temp,
            w.semantic,
            before.walk.semantic,
            visit(p, list[upto - 1], depth, before.walk).walk.semantic,
        );
    }
}

/// A rewrite keeps the tree well formed, as long as the table still fits
/// the machine when the rewrite is over.
pub proof fn lemma_visit_keeps_wf(p: Rewrite, e: ExprView, depth: nat, w: Walk)
    requires
        w.temp.is_some(),
        semantic_wf(w.semantic),
        visit(p, e, depth, w).walk.semantic.table.references.len() <= usize::MAX,
    ensures
        semantic_wf(visit(p, e, depth, w).walk.semantic),
    decreases e, 0nat,
{
    let v = w.semantic;
    match e {
        ExprView::This { span, scope } => {
            if replaces_this(p, w, scope, depth) {
                lemma_temp_can_be_read(p, w, scope);
                lemma_reference_keeps_wf(v, temp_read(p, w.temp.unwrap(), scope));
            }
        },
        ExprView::Identifier { span, reference, name } => {
            if renames(p, w, reference) {
                lemma_reference_can_move(p, w, reference);
                lemma_redirect_keeps_semantic_wf(v, reference, w.temp.unwrap().symbol_id);
            }
        },
        ExprView::Boolean { .. } => {},
        ExprView::Delete { span, argument } => {
            if !(*argument is This) {
                let w1 = if *argument matches ExprView::Private { form: PrivateForm::Chain, .. } {
                    delegate(w, PrivateForm::DeleteChain, span)
                } else {
                    w
                };
                lemma_visit_keeps_wf(p, *argument, depth, w1);
            }
        },
        ExprView::Private { span, form, operands } => {
            lemma_list_keeps_wf(p, operands, depth, delegate(w, form, span), operands.len());
        },
        ExprView::Boundary { span, kind, body } => {
            if descends(p, depth) {
                lemma_list_keeps_wf(p, body, depth + 1, w, body.len());
            }
        },
        ExprView::Property { span, accessor, computed, decorators, key, value } => {
            let d = visit_list(p, decorators, depth, w, decorators.len());
            let k = if computed {
                visit(p, *key, depth, d.walk)
            } else {
                Visited { expr: *key, walk: d.walk }
            };
            lemma_list_carries_over(p, decorators, depth, w, decorators.len());
            if computed {
                lemma_visit_carries_over(p, *key, depth, d.walk);
            }
            match value {
                Some(inner) => {
                    if descends(p, depth) {
                        lemma_visit_carries_over(p, *inner, depth + 1, k.walk);
                    }
                },
                None => {},
            }
            lemma_list_keeps_wf(p, decorators, depth, w, decorators.len());
            if computed {
                lemma_visit_keeps_wf(p, *key, depth, d.walk);
            }
            match value {
                Some(inner) => {
                    if descends(p, depth) {
                        lemma_visit_keeps_wf(p, *inner, depth + 1, k.walk);
                    }
                },
                None => {},
            }
        },
        ExprView::Other { span, children } => {
            lemma_list_keeps_wf(p, children, depth, w, children.len());
        },
    }
}

pub proof fn lemma_list_keeps_wf(p: Rewrite, list: Seq<ExprView>, depth: nat, w: Walk, upto: nat)
    requires
        w.temp.is_some(),
        semantic_wf(w.semantic),
        visit_list(p, list, depth, w, upto).walk.semantic.table.references.len() <= usize::MAX,
    ensures
        semantic_wf(visit_list(p, list, depth, w, upto).walk.semantic),
    decreases list, upto,
{
    if upto == 0 || upto > list.len() {
    } else {
        let before = visit_list(p, list, depth, w, (upto - 1) as nat);
        lemma_list_carries_over(p, list, depth, w, (upto - 1) as nat);
        lemma_visit_carries_over(p, list[upto - 1], depth, before.walk);
        lemma_list_keeps_wf(p, list, depth, w, (upto - 1) as nat);
        lemma_visit_keeps_wf(p, list[upto - 1], depth, before.walk);
    }
}

/// There is a `this` in `e` that means what `this` means where `e` stands:
/// one that is not inside a construct with a `this` of its own.
pub open spec fn has_own_this(e: ExprView) -> bool
    decreases e,
{
    match e {
        ExprView::This { .. } => true,
        ExprView::Identifier { .. } => false,
        ExprView::Boolean { .. } => false,
        ExprView::Delete { argument, .. } => has_own_this(*argument),
        ExprView::Private { operands, .. } => exists|i: int|
            0 <= i < operands.len() && has_own_this(#[trigger] operands[i]),
        ExprView::Boundary { .. } => false,
        ExprView::Property { computed, decorators, key, .. } => (exists|i: int|
            0 <= i < decorators.len() && has_own_this(#[trigger] decorators[i])) || (computed
            && has_own_this(*key)),
        ExprView::Other { children, .. } => exists|i: int|
            0 <= i < children.len() && has_own_this(#[trigger] children[i]),
    }
}

/// The temp binding, if there is one, can be read from the scope `home`.
pub open spec fn temp_in_reach(
    p: Rewrite,
    temp: Option<BoundIdentifierView>,
    v: SemanticView,
    home: ScopeId,
) -> bool {
    &&& p.node < v.nodes.len()
    &&& temp.is_some() ==> temp.unwrap().symbol_id < v.table.symbols.len()
        && v.table.symbols[temp.unwrap().symbol_id as int].scope == home
}

/// No part of a list without a fault has a fault.
pub proof fn lemma_no_fault_in_list(
    np: bool,
    home: ScopeId,
    scopes: Seq<ScopeView>,
    references: nat,
    list: Seq<ExprView>,
    depth: nat,
    upto: nat,
    i: int,
)
    requires
        upto <= list.len(),
        0 <= i < upto,
        list_fault(np, home, scopes, references, list, depth, upto).is_none(),
    ensures
        expr_fault(np, home, scopes, references, list[i], depth).is_none(),
        list_fault(np, home, scopes, references, list, depth, i as nat).is_none(),
    decreases upto,
{
    if i < upto - 1 {
        lemma_no_fault_in_list(np, home, scopes, references, list, depth, (upto - 1) as nat, i);
    } else {
        if upto - 1 > 0 {
            lemma_no_fault_in_list(
                np,
                home,
                scopes,
                references,
                list,
                depth,
                (upto - 1) as nat,
                upto - 2,
            );
        }
    }
}

/// After the rewrite of an initializer by a pass that holds a temp binding
/// no `this` is left in it that means the class, provided that nothing
/// stands against the rewrite.
pub proof fn law_no_own_this_is_left(
    p: Rewrite,
    e: ExprView,
    w: Walk,
    home: ScopeId,
    references: nat,
)
    requires
        temp_in_reach(p, w.temp, w.semantic, home),
        expr_fault(p.has_name_or_private, home, w.semantic.scopes, references, e, 0).is_none(),
        w.temp.is_some(),
    ensures
        !has_own_this(visit(p, e, 0, w).expr),
    decreases e, 0nat,
{
    let v = w.semantic;
    match e {
        ExprView::This { span, scope } => {
            assert(replaces_this(p, w, scope, 0));
        },
        ExprView::Identifier { .. } => {},
        ExprView::Boolean { .. } => {},
        ExprView::Delete { span, argument } => {
            if !(*argument is This) {
                let w1 = if *argument matches ExprView::Private { form: PrivateForm::Chain, .. } {
                    delegate(w, PrivateForm::DeleteChain, span)
                } else {
                    w
                };
                law_no_own_this_is_left(p, *argument, w1, home, references);
            }
        },
        ExprView::Private { span, form, operands } => {
            lemma_this_replaced_in_list(
                p,
                operands,
                delegate(w, form, span),
                home,
                references,
                operands.len(),
            );
        },
        ExprView::Boundary { .. } => {},
        ExprView::Property { span, accessor, computed, decorators, key, value } => {
            lemma_this_replaced_in_list(p, decorators, w, home, references, decorators.len());
            let d = visit_list(p, decorators, 0, w, decorators.len());
            lemma_list_carries_over(p, decorators, 0, w, decorators.len());
            if computed {
                law_no_own_this_is_left(p, *key, d.walk, home, references);
            }
        },
        ExprView::Other { span, children } => {
            lemma_this_replaced_in_list(p, children, w, home, references, children.len());
        },
    }
}

pub proof fn lemma_this_replaced_in_list(
    p: Rewrite,
    list: Seq<ExprView>,
    w: Walk,
    home: ScopeId,
    references: nat,
    upto: nat,
)
    requires
        upto <= list.len(),
        temp_in_reach(p, w.temp, w.semantic, home),
        list_fault(
            p.has_name_or_private,
            home,
            w.semantic.scopes,
            references,
            list,
            0,
            upto,
        ).is_none(),
        w.temp.is_some(),
    ensures
        visit_list(p, list, 0, w, upto).exprs.len() == upto,
        forall|i: int|
            0 <= i < upto ==> !has_own_this(#[trigger] visit_list(p, list, 0, w, upto).exprs[i]),
    decreases list, upto,
{
    lemma_visit_list_len(p, list, 0, w, upto);
    if upto > 0 {
        let before = visit_list(p, list, 0, w, (upto - 1) as nat);
        lemma_visit_list_len(p, list, 0, w, (upto - 1) as nat);
        lemma_no_fault_in_list(
            p.has_name_or_private,
            home,
            w.semantic.scopes,
            references,
            list,
            0,
            upto,
            upto - 1,
        );
        lemma_this_replaced_in_list(p, list, w, home, references, (upto - 1) as nat);
        lemma_list_carries_over(p, list, 0, w, (upto - 1) as nat);
        law_no_own_this_is_left(p, list[upto - 1], before.walk, home, references);
        let now = visit_list(p, list, 0, w, upto);
        assert forall|i: int| 0 <= i < upto implies !has_own_this(#[trigger] now.exprs[i]) by {
            if i < upto - 1 {
                assert(now.exprs[i] == before.exprs[i]);
            }
        }
    }
}

/// What stands against a rewrite depends on the parent links of the scopes
/// alone, not on what the scopes bind.
pub proof fn lemma_fault_by_parents(
    np: bool,
    home: ScopeId,
    a: Seq<ScopeView>,
    b: Seq<ScopeView>,
    references: nat,
    e: ExprView,
    depth: nat,
)
    requires
        a.len() == b.len(),
        forall|k: int| 0 <= k < a.len() ==> (#[trigger] a[k]).parent == b[k].parent,
    ensures
        expr_fault(np, home, a, references, e, depth) == expr_fault(
            np,
            home,
            b,
            references,
            e,
            depth,
        ),
    decreases e, 0nat,
{
    match e {
        ExprView::This { scope, .. } => {
            lemma_encloses_by_parents(a, b, home as int, scope as int);
        },
        ExprView::Identifier { .. } => {},
        ExprView::Boolean { .. } => {},
        ExprView::Delete { argument, .. } => {
            if !(*argument is This) {
                lemma_fault_by_parents(np, home, a, b, references, *argument, depth);
            }
        },
        ExprView::Private { operands, .. } => {
            lemma_list_fault_by_parents(np, home, a, b, references, operands, depth, operands.len());
        },
        ExprView::Boundary { body, .. } => {
            lemma_list_fault_by_parents(np, home, a, b, references, body, depth + 1, body.len());
        },
        ExprView::Property { computed, decorators, key, value, .. } => {
            lemma_list_fault_by_parents(
                np,
                home,
                a,
                b,
                references,
                decorators,
                depth,
                decorators.len(),
            );
            lemma_fault_by_parents(np, home, a, b, references, *key, depth);
            match value {
                Some(v) => {
                    lemma_fault_by_parents(np, home, a, b, references, *v, depth + 1);
                },
                None => {},
            }
        },
        ExprView::Other { children, .. } => {
            lemma_list_fault_by_parents(np, home, a, b, references, children, depth, children.len());
        },
    }
}

pub proof fn lemma_list_fault_by_parents(
    np: bool,
    home: ScopeId,
    a: Seq<ScopeView>,
    b: Seq<ScopeView>,
    references: nat,
    list: Seq<ExprView>,
    depth: nat,
    upto: nat,
)
    requires
        a.len() == b.len(),
        forall|k: int| 0 <= k < a.len() ==> (#[trigger] a[k]).parent == b[k].parent,
    ensures
        list_fault(np, home, a, references, list, depth, upto) == list_fault(
            np,
            home,
            b,
            references,
            list,
            depth,
            upto,
        ),
    decreases list, upto,
{
    if upto == 0 || upto > list.len() {
    } else {
        lemma_list_fault_by_parents(np, home, a, b, references, list, depth, (upto - 1) as nat);
        lemma_fault_by_parents(np, home, a, b, references, list[upto - 1], depth);
    }
}

/// The rewrite comes by an identifier whose reference is `r`.
pub open spec fn mentions(np: bool, e: ExprView, depth: nat, r: ReferenceId) -> bool
    decreases e,
{
    match e {
        ExprView::This { .. } => false,
        ExprView::Identifier { reference, .. } => reference == r,
        ExprView::Boolean { .. } => false,
        ExprView::Delete { argument, .. } => !(*argument is This) && mentions(
            np,
            *argument,
            depth,
            r,
        ),
        ExprView::Private { operands, .. } => exists|i: int|
            0 <= i < operands.len() && mentions(np, #[trigger] operands[i], depth, r),
        ExprView::Boundary { body, .. } => np && depth < u32::MAX && exists|i: int|
            0 <= i < body.len() && mentions(np, #[trigger] body[i], depth + 1, r),
        ExprView::Property { computed, decorators, key, value, .. } => {
            ||| exists|i: int|
                0 <= i < decorators.len() && mentions(np, #[trigger] decorators[i], depth, r)
            ||| computed && mentions(np, *key, depth, r)
            ||| np && depth < u32::MAX && value.is_some() && mentions(
                np,
                *value.unwrap(),
                depth + 1,
                r,
            )
        },
        ExprView::Other { children, .. } => exists|i: int|
            0 <= i < children.len() && mentions(np, #[trigger] children[i], depth, r),
    }
}

/// The class has a name and a temp binding, two different symbols, and the
/// temp binding can be read wherever the name can.
pub open spec fn temp_takes_over(p: Rewrite, temp: Option<BoundIdentifierView>, v: SemanticView) -> bool {
    &&& p.class_name.is_some()
    &&& temp.is_some()
    &&& p.node < v.nodes.len()
    &&& p.class_name.unwrap() < v.table.symbols.len()
    &&& temp.unwrap().symbol_id < v.table.symbols.len()
    &&& temp.unwrap().symbol_id != p.class_name.unwrap()
    &&& scope_encloses(
        v.scopes,
        v.table.symbols[temp.unwrap().symbol_id as int].scope as int,
        v.table.symbols[p.class_name.unwrap() as int].scope as int,
    )
}

/// Reference `r` refers to the class by its name or to the temp binding.
pub open spec fn names_class_or_temp(
    p: Rewrite,
    temp: Option<BoundIdentifierView>,
    v: SemanticView,
    r: ReferenceId,
) -> bool {
    &&& r < v.table.references.len()
    &&& (v.table.references[r as int].symbol == p.class_name || v.table.references[r as int].symbol
        == Some(temp.unwrap().symbol_id))
}

pub open spec fn names_temp(
    p: Rewrite,
    temp: Option<BoundIdentifierView>,
    v: SemanticView,
    r: ReferenceId,
) -> bool {
    r < v.table.references.len() && v.table.references[r as int].symbol == Some(
        temp.unwrap().symbol_id,
    )
}

/// What is carried over keeps a reference with the class or the temp
/// binding, and with the temp binding once it is there.
pub proof fn lemma_status_kept(
    p: Rewrite,
    temp: Option<BoundIdentifierView>,
    a: SemanticView,
    b: SemanticView,
    r: ReferenceId,
)
    requires
        carried_over(p, temp, a, b),
        temp_takes_over(p, temp, a),
        names_class_or_temp(p, temp, a, r),
    ensures
        temp_takes_over(p, temp, b),
        names_class_or_temp(p, temp, b, r),
        names_temp(p, temp, a, r) ==> names_temp(p, temp, b, r),
{
    let x = b.table.references[r as int];
    let t = temp.unwrap().symbol_id;
    let c = p.class_name.unwrap();
    assert(b.table.symbols[t as int].scope == a.table.symbols[t as int].scope);
    assert(b.table.symbols[c as int].scope == a.table.symbols[c as int].scope);
}

/// A reference to the class by its name that the rewrite comes by refers
/// to the temp binding afterwards.
pub proof fn lemma_reference_moves(p: Rewrite, e: ExprView, depth: nat, w: Walk, r: ReferenceId)
    requires
        semantic_wf(w.semantic),
        visit(p, e, depth, w).walk.semantic.table.references.len() <= usize::MAX,
        temp_takes_over(p, w.temp, w.semantic),
        names_class_or_temp(p, w.temp, w.semantic, r),
        mentions(p.has_name_or_private, e, depth, r),
    ensures
        names_temp(p, w.temp, visit(p, e, depth, w).walk.semantic, r),
    decreases e, 0nat,
{
    let v = w.semantic;
    let t = w.temp.unwrap().symbol_id;
    let c = p.class_name.unwrap();
    match e {
        ExprView::Identifier { span, reference, name } => {
            if v.table.references[r as int].symbol == p.class_name {
                let x = v.table.references[r as int];
                assert(scope_encloses(
                    v.scopes,
                    v.table.symbols[c as int].scope as int,
                    x.scope as int,
                ));
                lemma_encloses_trans(
                    v.scopes,
                    v.table.symbols[t as int].scope as int,
                    v.table.symbols[c as int].scope as int,
                    x.scope as int,
                );
                assert(redirect_fault(v, r, t).is_none());
                assert(renames(p, w, r));
            }
        },
        ExprView::Delete { span, argument } => {
            let w1 = if *argument matches ExprView::Private { form: PrivateForm::Chain, .. } {
                delegate(w, PrivateForm::DeleteChain, span)
            } else {
                w
            };
            lemma_reference_moves(p, *argument, depth, w1, r);
        },
        ExprView::Private { span, form, operands } => {
            lemma_reference_moves_in_list(
                p,
                operands,
                depth,
                delegate(w, form, span),
                r,
                operands.len(),
            );
        },
        ExprView::Boundary { span, kind, body } => {
            lemma_reference_moves_in_list(p, body, depth + 1, w, r, body.len());
        },
        ExprView::Property { span, accessor, computed, decorators, key, value } => {
            let d = visit_list(p, decorators, depth, w, decorators.len());
            let k = if computed {
                visit(p, *key, depth, d.walk)
            } else {
                Visited { expr: *key, walk: d.walk }
            };
            let deep = descends(p, depth) && value.is_some();
            let last = if deep {
                visit(p, *value.unwrap(), depth + 1, k.walk).walk
            } else {
                k.walk
            };
            lemma_list_carries_over(p, decorators, depth, w, decorators.len());
            if computed {
                lemma_visit_carries_over(p, *key, depth, d.walk);
            }
            if deep {
                lemma_visit_carries_over(p, *value.unwrap(), depth + 1, k.walk);
            }
            lemma_list_keeps_wf(p, decorators, depth, w, decorators.len());
            lemma_status_kept(p, w.temp, v, d.walk.semantic, r);
            if computed {
                lemma_visit_keeps_wf(p, *key, depth, d.walk);
            }
            lemma_status_kept(p, w.temp, d.walk.semantic, k.walk.semantic, r);
            lemma_status_kept(p, w.temp, k.walk.semantic, last.semantic, r);
            if exists|i: int|
                0 <= i < decorators.len() && mentions(
                    p.has_name_or_private,
                    #[trigger] decorators[i],
                    depth,
                    r,
                ) {
                lemma_reference_moves_in_list(p, decorators, depth, w, r, decorators.len());
            } else if computed && mentions(p.has_name_or_private, *key, depth, r) {
                lemma_reference_moves(p, *key, depth, d.walk, r);
            } else {
                lemma_reference_moves(p, *value.unwrap(), depth + 1, k.walk, r);
            }
        },
        ExprView::Other { span, children } => {
            lemma_reference_moves_in_list(p, children, depth, w, r, children.len());
        },
        _ => {},
    }
}

pub proof fn lemma_reference_moves_in_list(
    p: Rewrite,
    list: Seq<ExprView>,
    depth: nat,
    w: Walk,
    r: ReferenceId,
    upto: nat,
)
    requires
        upto <= list.len(),
        semantic_wf(w.semantic),
        visit_list(p, list, depth, w, upto).walk.semantic.table.references.len() <= usize::MAX,
        temp_takes_over(p, w.temp, w.semantic),
        names_class_or_temp(p, w.temp, w.semantic, r),
        exists|i: int| 0 <= i < upto && mentions(p.has_name_or_private, #[trigger] list[i], depth, r),
    ensures
        names_temp(p, w.temp, visit_list(p, list, depth, w, upto).walk.semantic, r),
    decreases list, upto,
{
    let before = visit_list(p, list, depth, w, (upto - 1) as nat);
    let last = visit(p, list[upto - 1], depth, before.walk);
    lemma_list_carries_over(p, list, depth, w, (upto - 1) as nat);
    lemma_visit_carries_over(p, list[upto - 1], depth, before.walk);
    lemma_list_keeps_wf(p, list, depth, w, (upto - 1) as nat);
    lemma_status_kept(p, w.temp, w.semantic, before.walk.semantic, r);
    lemma_status_kept(p, w.temp, before.walk.semantic, last.walk.semantic, r);
    if mentions(p.has_name_or_private, list[upto - 1], depth, r) {
        lemma_reference_moves(p, list[upto - 1], depth, before.walk, r);
    } else {
        let i = choose|i: int|
            0 <= i < upto && mentions(p.has_name_or_private, #[trigger] list[i], depth, r);
        assert(0 <= i < upto - 1 && mentions(p.has_name_or_private, list[i], depth, r));
        lemma_reference_moves_in_list(p, list, depth, w, r, (upto - 1) as nat);
    }
}

/// Every reference to the class by its name that the rewrite comes by
/// refers to the temp binding afterwards: it is registered with the temp
/// binding and no longer with the class's name, and the table is well
/// formed, so that no reference is registered twice or nowhere.
pub proof fn law_class_name_references_move(
    p: Rewrite,
    e: ExprView,
    depth: nat,
    w: Walk,
    r: ReferenceId,
)
    requires
        semantic_wf(w.semantic),
        visit(p, e, depth, w).walk.semantic.table.references.len() <= usize::MAX,
        temp_takes_over(p, w.temp, w.semantic),
        names_class(p, w.semantic, r),
        mentions(p.has_name_or_private, e, depth, r),
    ensures
        semantic_wf(visit(p, e, depth, w).walk.semantic),
        visit(p, e, depth, w).walk.semantic.table.references[r as int].symbol == Some(
            w.temp.unwrap().symbol_id,
        ),
        visit(p, e, depth, w).walk.semantic.table.symbols[w.temp.unwrap().symbol_id as int].references.contains(
            r,
        ),
        !visit(p, e, depth, w).walk.semantic.table.symbols[p.class_name.unwrap() as int].references.contains(
            r,
        ),
{
    let out = visit(p, e, depth, w).walk.semantic;
    lemma_visit_keeps_wf(p, e, depth, w);
    lemma_visit_carries_over(p, e, depth, w);
    lemma_reference_moves(p, e, depth, w, r);
    law_registered_with_its_symbol_only(out.table, r, w.temp.unwrap().symbol_id);
    law_registered_with_its_symbol_only(out.table, r, p.class_name.unwrap());
}

/// A reference that does not refer to the class by its name is left as it
/// was.
pub proof fn law_other_references_stay(p: Rewrite, e: ExprView, depth: nat, w: Walk, r: ReferenceId)
    requires
        w.temp.is_some(),
        r < w.semantic.table.references.len(),
        w.semantic.table.references[r as int].symbol != p.class_name,
    ensures
        visit(p, e, depth, w).walk.semantic.table.references[r as int]
            == w.semantic.table.references[r as int],
{
    lemma_visit_carries_over(p, e, depth, w);
    let x = visit(p, e, depth, w).walk.semantic.table.references[r as int];
}

/// A reference that the rewrite does not come by is left as it was,
/// whatever it refers to.
pub proof fn law_unvisited_references_stay(
    p: Rewrite,
    e: ExprView,
    depth: nat,
    w: Walk,
    r: ReferenceId,
)
    requires
        r < w.semantic.table.references.len(),
        !mentions(p.has_name_or_private, e, depth, r),
    ensures
        r < visit(p, e, depth, w).walk.semantic.table.references.len(),
        visit(p, e, depth, w).walk.semantic.table.references[r as int]
            == w.semantic.table.references[r as int],
    decreases e, 0nat,
{
    let v = w.semantic;
    match e {
        ExprView::Delete { span, argument } => {
            if !(*argument is This) {
                let w1 = if *argument matches ExprView::Private { form: PrivateForm::Chain, .. } {
                    delegate(w, PrivateForm::DeleteChain, span)
                } else {
                    w
                };
                law_unvisited_references_stay(p, *argument, depth, w1, r);
            }
        },
        ExprView::Private { span, form, operands } => {
            lemma_unvisited_stay_in_list(
                p,
                operands,
                depth,
                delegate(w, form, span),
                r,
                operands.len(),
            );
        },
        ExprView::Boundary { span, kind, body } => {
            if descends(p, depth) {
                lemma_unvisited_stay_in_list(p, body, depth + 1, w, r, body.len());
            }
        },
        ExprView::Property { span, accessor, computed, decorators, key, value } => {
            let d = visit_list(p, decorators, depth, w, decorators.len());
            let k = if computed {
                visit(p, *key, depth, d.walk)
            } else {
                Visited { expr: *key, walk: d.walk }
            };
            lemma_unvisited_stay_in_list(p, decorators, depth, w, r, decorators.len());
            if computed {
                law_unvisited_references_stay(p, *key, depth, d.walk, r);
            }
            if descends(p, depth) && value.is_some() {
                law_unvisited_references_stay(p, *value.unwrap(), depth + 1, k.walk, r);
            }
        },
        ExprView::Other { span, children } => {
            lemma_unvisited_stay_in_list(p, children, depth, w, r, children.len());
        },
        _ => {},
    }
}

pub proof fn lemma_unvisited_stay_in_list(
    p: Rewrite,
    list: Seq<ExprView>,
    depth: nat,
    w: Walk,
    r: ReferenceId,
    upto: nat,
)
    requires
        upto <= list.len(),
        r < w.semantic.table.references.len(),
        forall|i: int|
            0 <= i < upto ==> !mentions(p.has_name_or_private, #[trigger] list[i], depth, r),
    ensures
        r < visit_list(p, list, depth, w, upto).walk.semantic.table.references.len(),
        visit_list(p, list, depth, w, upto).walk.semantic.table.references[r as int]
            == w.semantic.table.references[r as int],
    decreases list, upto,
{
    if upto > 0 {
        let before = visit_list(p, list, depth, w, (upto - 1) as nat);
        lemma_unvisited_stay_in_list(p, list, depth, w, r, (upto - 1) as nat);
        law_unvisited_references_stay(p, list[upto - 1], depth, before.walk, r);
    }
}

/// A pass that holds a temp binding declares nothing: the symbols are
/// those that were there and the temp binding is the one it held, so a
/// class has the one temp binding however often it is read.
pub proof fn law_rewrite_declares_nothing(p: Rewrite, e: ExprView, depth: nat, w: Walk)
    requires
        w.temp.is_some(),
    ensures
        visit(p, e, depth, w).walk.temp == w.temp,
        visit(p, e, depth, w).walk.semantic.table.symbols.len() == w.semantic.table.symbols.len(),
        visit(p, e, depth, w).walk.semantic.scopes == w.semantic.scopes,
        visit(p, e, depth, w).walk.semantic.nodes == w.semantic.nodes,
{
    lemma_visit_carries_over(p, e, depth, w);
}

/// A rewrite that comes by no `this` that means the class and by no
/// reference to the class by its name leaves the tables as they are and
/// makes no temp binding; at the top of an initializer it leaves no `this`
/// that means the class.
pub proof fn lemma_unneeded(p: Rewrite, e: ExprView, depth: nat, w: Walk)
    requires
        !needs_temp(p.has_name_or_private, p.class_name, w.semantic, e, depth),
    ensures
        visit(p, e, depth, w).walk.semantic == w.semantic,
        visit(p, e, depth, w).walk.temp == w.temp,
        depth == 0 ==> !has_own_this(visit(p, e, depth, w).expr),
    decreases e, 0nat,
{
    match e {
        ExprView::Delete { span, argument } => {
            if !(*argument is This) {
                let w1 = if *argument matches ExprView::Private { form: PrivateForm::Chain, .. } {
                    delegate(w, PrivateForm::DeleteChain, span)
                } else {
                    w
                };
                lemma_unneeded(p, *argument, depth, w1);
            }
        },
        ExprView::Private { span, form, operands } => {
            lemma_unneeded_in_list(p, operands, depth, delegate(w, form, span), operands.len());
        },
        ExprView::Boundary { span, kind, body } => {
            if descends(p, depth) {
                lemma_unneeded_in_list(p, body, depth + 1, w, body.len());
            }
        },
        ExprView::Property { span, accessor, computed, decorators, key, value } => {
            lemma_unneeded_in_list(p, decorators, depth, w, decorators.len());
            let d = visit_list(p, decorators, depth, w, decorators.len());
            if computed {
                lemma_unneeded(p, *key, depth, d.walk);
            }
            let k = if computed {
                visit(p, *key, depth, d.walk)
            } else {
                Visited { expr: *key, walk: d.walk }
            };
            if descends(p, depth) && value.is_some() {
                lemma_unneeded(p, *value.unwrap(), depth + 1, k.walk);
            }
        },
        ExprView::Other { span, children } => {
            lemma_unneeded_in_list(p, children, depth, w, children.len());
        },
        _ => {},
    }
}

pub proof fn lemma_unneeded_in_list(
    p: Rewrite,
    list: Seq<ExprView>,
    depth: nat,
    w: Walk,
    upto: nat,
)
    requires
        upto <= list.len(),
        !list_needs_temp(p.has_name_or_private, p.class_name, w.semantic, list, depth, upto),
    ensures
        visit_list(p, list, depth, w, upto).walk.semantic == w.semantic,
        visit_list(p, list, depth, w, upto).walk.temp == w.temp,
        visit_list(p, list, depth, w, upto).exprs.len() == upto,
        depth == 0 ==> forall|i: int|
            0 <= i < upto ==> !has_own_this(#[trigger] visit_list(p, list, depth, w, upto).exprs[i]),
    decreases list, upto,
{
    lemma_visit_list_len(p, list, depth, w, upto);
    if upto > 0 {
        let before = visit_list(p, list, depth, w, (upto - 1) as nat);
        lemma_visit_list_len(p, list, depth, w, (upto - 1) as nat);
        lemma_unneeded_in_list(p, list, depth, w, (upto - 1) as nat);
        lemma_unneeded(p, list[upto - 1], depth, before.walk);
        let now = visit_list(p, list, depth, w, upto);
        if depth == 0 {
            assert forall|i: int| 0 <= i < upto implies !has_own_this(#[trigger] now.exprs[i]) by {
                if i < upto - 1 {
                    assert(now.exprs[i] == before.exprs[i]);
                }
            }
        }
    }
}

/// Where no name is free, every candidate is taken.
pub proof fn lemma_all_taken(scopes: Seq<ScopeView>, hint: Seq<char>, k: nat)
    requires
        !has_free_name(scopes, hint),
        k <= u32::MAX,
    ensures
        forall|j: nat| 1 <= j <= k ==> name_in_use(scopes, #[trigger] candidate_name(hint, j)),
    decreases k,
{
    if k >= 1 {
        lemma_all_taken(scopes, hint, (k - 1) as nat);
        if !name_in_use(scopes, candidate_name(hint, k)) {
            assert(is_first_free(scopes, hint, k));
        }
    }
}

/// A pass that holds no temp binding makes one on first use, under the
/// first free name, in the scope for it and for the node of the class. It
/// makes none, and changes nothing, only where the scope or the node is
/// unknown or every name is taken.
pub proof fn law_temp_is_made_on_first_use(p: Rewrite, w: Walk)
    requires
        w.temp.is_none(),
    ensures
        can_make_temp(p, w.semantic) ==> at_hand(p, w).temp.is_some() && made_temp(
            p.hint,
            p.hoist_scope,
            p.node,
            w.semantic,
            at_hand(p, w).semantic,
            at_hand(p, w).temp.unwrap(),
        ) && at_hand(p, w).delegated == w.delegated,
        !can_make_temp(p, w.semantic) ==> at_hand(p, w) == w,
        !can_make_temp(p, w.semantic) && p.hoist_scope < w.semantic.scopes.len() && p.node
            < w.semantic.nodes.len() ==> no_free_name(p.hint, w.semantic),
{
    let v = w.semantic;
    if can_make_temp(p, v) {
        let k = first_free(v.scopes, p.hint);
        assert(k <= u32::MAX && is_first_free(v.scopes, p.hint, k));
        assert(at_hand(p, w).semantic == with_fresh_symbol(
            v,
            candidate_name(p.hint, k),
            p.hoist_scope,
            p.node,
        ));
    } else if p.hoist_scope < v.scopes.len() && p.node < v.nodes.len() {
        lemma_all_taken(v.scopes, p.hint, u32::MAX as nat);
    }
}

/// `this` that means the class becomes a read of the temp binding,
/// whether the pass holds one or makes it on this first use.
pub proof fn law_this_that_means_the_class_is_replaced(
    p: Rewrite,
    span: Span,
    scope: ScopeId,
    w: Walk,
)
    requires
        semantic_wf(w.semantic),
        temp_reaches(p, w, scope),
    ensures
        replaces_this(p, w, scope, 0),
        visit(p, ExprView::This { span, scope }, 0, w).expr == (ExprView::Identifier {
            span,
            reference: w.semantic.table.references.len() as usize,
            name: at_hand(p, w).temp.unwrap().name,
        }),
        visit(p, ExprView::This { span, scope }, 0, w).walk.temp == at_hand(p, w).temp,
        visit(p, ExprView::This { span, scope }, 0, w).walk.semantic == with_reference(
            at_hand(p, w).semantic,
            temp_read(p, at_hand(p, w).temp.unwrap(), scope),
        ),
        reference_fault(
            at_hand(p, w).semantic,
            temp_read(p, at_hand(p, w).temp.unwrap(), scope),
        ).is_none(),
{
    lemma_temp_can_be_read(p, w, scope);
}

/// An identifier that refers to the class by its name is renamed and its
/// reference moved to the temp binding, at any depth, whether the pass
/// holds a temp binding or makes it on this first use.
pub proof fn law_class_name_is_taken_over(
    p: Rewrite,
    span: Span,
    reference: ReferenceId,
    name: Seq<char>,
    depth: nat,
    w: Walk,
)
    requires
        semantic_wf(w.semantic),
        names_class(p, w.semantic, reference),
        temp_reaches(p, w, w.semantic.table.symbols[p.class_name.unwrap() as int].scope),
    ensures
        renames(p, w, reference),
        visit(p, ExprView::Identifier { span, reference, name }, depth, w).expr
            == (ExprView::Identifier { span, reference, name: at_hand(p, w).temp.unwrap().name }),
        visit(p, ExprView::Identifier { span, reference, name }, depth, w).walk.temp == at_hand(
            p,
            w,
        ).temp,
        visit(p, ExprView::Identifier { span, reference, name }, depth, w).walk.semantic
            == with_redirect(
            at_hand(p, w).semantic,
            reference,
            at_hand(p, w).temp.unwrap().symbol_id,
        ),
        redirect_fault(
            at_hand(p, w).semantic,
            reference,
            at_hand(p, w).temp.unwrap().symbol_id,
        ).is_none(),
{
    let x = w.semantic.table.references[reference as int];
    lemma_reference_can_move(p, w, reference);
}

/// A rewrite that comes by a reference to the class by its name takes a
/// temp binding.
pub proof fn lemma_mention_needs_temp(
    np: bool,
    class_name: Option<SymbolId>,
    v: SemanticView,
    e: ExprView,
    depth: nat,
    r: ReferenceId,
)
    requires
        mentions(np, e, depth, r),
        class_name.is_some(),
        r < v.table.references.len(),
        v.table.references[r as int].symbol == class_name,
    ensures
        needs_temp(np, class_name, v, e, depth),
    decreases e, 0nat,
{
    match e {
        ExprView::Delete { argument, .. } => {
            lemma_mention_needs_temp(np, class_name, v, *argument, depth, r);
        },
        ExprView::Private { operands, .. } => {
            let i = choose|i: int|
                0 <= i < operands.len() && mentions(np, #[trigger] operands[i], depth, r);
            lemma_mention_in_list(np, class_name, v, operands, depth, r, operands.len(), i);
        },
        ExprView::Boundary { body, .. } => {
            let i = choose|i: int|
                0 <= i < body.len() && mentions(np, #[trigger] body[i], depth + 1, r);
            lemma_mention_in_list(np, class_name, v, body, depth + 1, r, body.len(), i);
        },
        ExprView::Property { computed, decorators, key, value, .. } => {
            if exists|i: int|
                0 <= i < decorators.len() && mentions(np, #[trigger] decorators[i], depth, r) {
                let i = choose|i: int|
                    0 <= i < decorators.len() && mentions(np, #[trigger] decorators[i], depth, r);
                lemma_mention_in_list(
                    np,
                    class_name,
                    v,
                    decorators,
                    depth,
                    r,
                    decorators.len(),
                    i,
                );
            } else if computed && mentions(np, *key, depth, r) {
                lemma_mention_needs_temp(np, class_name, v, *key, depth, r);
            } else {
                lemma_mention_needs_temp(np, class_name, v, *value.unwrap(), depth + 1, r);
            }
        },
        ExprView::Other { children, .. } => {
            let i = choose|i: int|
                0 <= i < children.len() && mentions(np, #[trigger] children[i], depth, r);
            lemma_mention_in_list(np, class_name, v, children, depth, r, children.len(), i);
        },
        _ => {},
    }
}

pub proof fn lemma_mention_in_list(
    np: bool,
    class_name: Option<SymbolId>,
    v: SemanticView,
    list: Seq<ExprView>,
    depth: nat,
    r: ReferenceId,
    upto: nat,
    i: int,
)
    requires
        upto <= list.len(),
        0 <= i < upto,
        mentions(np, list[i], depth, r),
        class_name.is_some(),
        r < v.table.references.len(),
        v.table.references[r as int].symbol == class_name,
    ensures
        list_needs_temp(np, class_name, v, list, depth, upto),
    decreases list, upto,
{
    if i == upto - 1 {
        lemma_mention_needs_temp(np, class_name, v, list[i], depth, r);
    } else {
        lemma_mention_in_list(np, class_name, v, list, depth, r, (upto - 1) as nat, i);
    }
}

/// Reference `r` has gone from the class's name to the temp binding: it
/// resolves to the temp binding, is registered with it and is no longer
/// registered with the name.
pub open spec fn moved_to_temp(v: SemanticView, class_name: SymbolId, temp: SymbolId, r: ReferenceId) -> bool {
    &&& v.table.references[r as int].symbol == Some(temp)
    &&& v.table.symbols[temp as int].references.contains(r)
    &&& !v.table.symbols[class_name as int].references.contains(r)
}

/// A rewrite that takes no temp binding does the same to an initializer
/// whatever the tables hold besides the references, and leaves them be.
pub proof fn lemma_unneeded_anywhere(p: Rewrite, e: ExprView, depth: nat, w: Walk, other: Walk)
    requires
        !needs_temp(p.has_name_or_private, p.class_name, w.semantic, e, depth),
        other.semantic.table.references == w.semantic.table.references,
        other.delegated == w.delegated,
    ensures
        visit(p, e, depth, other).expr == visit(p, e, depth, w).expr,
        visit(p, e, depth, other).walk == (Walk {
            delegated: visit(p, e, depth, w).walk.delegated,
            ..other
        }),
    decreases e, 0nat,
{
    match e {
        ExprView::Delete { span, argument } => {
            if !(*argument is This) {
                if *argument matches ExprView::Private { form: PrivateForm::Chain, .. } {
                    lemma_unneeded_anywhere(
                        p,
                        *argument,
                        depth,
                        delegate(w, PrivateForm::DeleteChain, span),
                        delegate(other, PrivateForm::DeleteChain, span),
                    );
                } else {
                    lemma_unneeded_anywhere(p, *argument, depth, w, other);
                }
            }
        },
        ExprView::Private { span, form, operands } => {
            lemma_unneeded_anywhere_in_list(
                p,
                operands,
                depth,
                delegate(w, form, span),
                delegate(other, form, span),
                operands.len(),
            );
        },
        ExprView::Boundary { span, kind, body } => {
            if descends(p, depth) {
                lemma_unneeded_anywhere_in_list(p, body, depth + 1, w, other, body.len());
            }
        },
        ExprView::Property { span, accessor, computed, decorators, key, value } => {
            lemma_unneeded_anywhere_in_list(p, decorators, depth, w, other, decorators.len());
            lemma_unneeded_in_list(p, decorators, depth, w, decorators.len());
            let d = visit_list(p, decorators, depth, w, decorators.len());
            let d2 = visit_list(p, decorators, depth, other, decorators.len());
            if computed {
                lemma_unneeded_anywhere(p, *key, depth, d.walk, d2.walk);
                lemma_unneeded(p, *key, depth, d.walk);
            }
            let k = if computed {
                visit(p, *key, depth, d.walk)
            } else {
                Visited { expr: *key, walk: d.walk }
            };
            let k2 = if computed {
                visit(p, *key, depth, d2.walk)
            } else {
                Visited { expr: *key, walk: d2.walk }
            };
            if descends(p, depth) && value.is_some() {
                lemma_unneeded_anywhere(p, *value.unwrap(), depth + 1, k.walk, k2.walk);
            }
        },
        ExprView::Other { span, children } => {
            lemma_unneeded_anywhere_in_list(p, children, depth, w, other, children.len());
        },
        _ => {},
    }
}

pub proof fn lemma_unneeded_anywhere_in_list(
    p: Rewrite,
    list: Seq<ExprView>,
    depth: nat,
    w: Walk,
    other: Walk,
    upto: nat,
)
    requires
        upto <= list.len(),
        !list_needs_temp(p.has_name_or_private, p.class_name, w.semantic, list, depth, upto),
        other.semantic.table.references == w.semantic.table.references,
        other.delegated == w.delegated,
    ensures
        visit_list(p, list, depth, other, upto).exprs == visit_list(p, list, depth, w, upto).exprs,
        visit_list(p, list, depth, other, upto).walk == (Walk {
            delegated: visit_list(p, list, depth, w, upto).walk.delegated,
            ..other
        }),
    decreases list, upto,
{
    if upto > 0 {
        let before = visit_list(p, list, depth, w, (upto - 1) as nat);
        let before2 = visit_list(p, list, depth, other, (upto - 1) as nat);
        lemma_unneeded_anywhere_in_list(p, list, depth, w, other, (upto - 1) as nat);
        lemma_unneeded_in_list(p, list, depth, w, (upto - 1) as nat);
        lemma_unneeded_anywhere(p, list[upto - 1], depth, before.walk, before2.walk);
    }
}

/// Making the temp binding on first use is the same as making it before
/// the rewrite starts, for a rewrite that takes one.
pub proof fn lemma_first_use_is_as_beforehand(p: Rewrite, e: ExprView, depth: nat, w: Walk)
    requires
        w.temp.is_none(),
        semantic_wf(w.semantic),
        needs_temp(p.has_name_or_private, p.class_name, w.semantic, e, depth),
    ensures
        visit(p, e, depth, w) == visit(p, e, depth, at_hand(p, w)),
    decreases e, 0nat,
{
    let ready = at_hand(p, w);
    assert(at_hand(p, ready) == ready);
    assert(ready.semantic.table.references == w.semantic.table.references);
    match e {
        ExprView::This { span, scope } => {
            if ready.temp.is_some() {
                lemma_encloses_by_parents(
                    w.semantic.scopes,
                    ready.semantic.scopes,
                    p.hoist_scope as int,
                    scope as int,
                );
                let made = ready.temp.unwrap().symbol_id;
                assert(ready.semantic.table.symbols[made as int].scope == p.hoist_scope);
                assert(temp_reaches(p, w, scope) == temp_reaches(p, ready, scope));
            }
        },
        ExprView::Identifier { span, reference, name } => {
            let x = w.semantic.table.references[reference as int];
            if ready.temp.is_some() {
                let c = p.class_name.unwrap();
                let home = w.semantic.table.symbols[c as int].scope;
                assert(ready.semantic.table.symbols[c as int] == w.semantic.table.symbols[c as int]);
                lemma_encloses_by_parents(
                    w.semantic.scopes,
                    ready.semantic.scopes,
                    p.hoist_scope as int,
                    home as int,
                );
                let made = ready.temp.unwrap().symbol_id;
                assert(ready.semantic.table.symbols[made as int].scope == p.hoist_scope);
                assert(temp_reaches(p, w, home) == temp_reaches(p, ready, home));
            }
        },
        ExprView::Delete { span, argument } => {
            if *argument matches ExprView::Private { form: PrivateForm::Chain, .. } {
                let w1 = delegate(w, PrivateForm::DeleteChain, span);
                assert(at_hand(p, w1) == delegate(ready, PrivateForm::DeleteChain, span));
                lemma_first_use_is_as_beforehand(p, *argument, depth, w1);
            } else {
                lemma_first_use_is_as_beforehand(p, *argument, depth, w);
            }
        },
        ExprView::Private { span, form, operands } => {
            let w1 = delegate(w, form, span);
            assert(at_hand(p, w1) == delegate(ready, form, span));
            lemma_first_use_in_list(p, operands, depth, w1, operands.len());
        },
        ExprView::Boundary { span, kind, body } => {
            lemma_first_use_in_list(p, body, depth + 1, w, body.len());
        },
        ExprView::Property { span, accessor, computed, decorators, key, value } => {
            let np = p.has_name_or_private;
            let d = visit_list(p, decorators, depth, w, decorators.len());
            let d2 = visit_list(p, decorators, depth, ready, decorators.len());
            if list_needs_temp(np, p.class_name, w.semantic, decorators, depth, decorators.len()) {
                lemma_first_use_in_list(p, decorators, depth, w, decorators.len());
            } else {
                lemma_unneeded_anywhere_in_list(p, decorators, depth, w, ready, decorators.len());
                lemma_unneeded_in_list(p, decorators, depth, w, decorators.len());
                assert(d2.walk == at_hand(p, d.walk));
                let k = if computed {
                    visit(p, *key, depth, d.walk)
                } else {
                    Visited { expr: *key, walk: d.walk }
                };
                let k2 = if computed {
                    visit(p, *key, depth, d2.walk)
                } else {
                    Visited { expr: *key, walk: d2.walk }
                };
                if computed && needs_temp(np, p.class_name, w.semantic, *key, depth) {
                    lemma_first_use_is_as_beforehand(p, *key, depth, d.walk);
                } else {
                    if computed {
                        lemma_unneeded_anywhere(p, *key, depth, d.walk, d2.walk);
                        lemma_unneeded(p, *key, depth, d.walk);
                    }
                    assert(k2.walk == at_hand(p, k.walk));
                    assert(k2.expr == k.expr);
                    lemma_first_use_is_as_beforehand(p, *value.unwrap(), depth + 1, k.walk);
                }
            }
        },
        ExprView::Other { span, children } => {
            lemma_first_use_in_list(p, children, depth, w, children.len());
        },
        _ => {},
    }
}

pub proof fn lemma_first_use_in_list(
    p: Rewrite,
    list: Seq<ExprView>,
    depth: nat,
    w: Walk,
    upto: nat,
)
    requires
        upto <= list.len(),
        w.temp.is_none(),
        semantic_wf(w.semantic),
        list_needs_temp(p.has_name_or_private, p.class_name, w.semantic, list, depth, upto),
    ensures
        visit_list(p, list, depth, w, upto) == visit_list(p, list, depth, at_hand(p, w), upto),
    decreases list, upto,
{
    let np = p.has_name_or_private;
    let ready = at_hand(p, w);
    let before = visit_list(p, list, depth, w, (upto - 1) as nat);
    let before2 = visit_list(p, list, depth, ready, (upto - 1) as nat);
    if list_needs_temp(np, p.class_name, w.semantic, list, depth, (upto - 1) as nat) {
        lemma_first_use_in_list(p, list, depth, w, (upto - 1) as nat);
    } else {
        lemma_unneeded_anywhere_in_list(p, list, depth, w, ready, (upto - 1) as nat);
        lemma_unneeded_in_list(p, list, depth, w, (upto - 1) as nat);
        assert(before2.walk == at_hand(p, before.walk));
        assert(before2.exprs == before.exprs);
        lemma_first_use_is_as_beforehand(p, list[upto - 1], depth, before.walk);
    }
}

/// A temp binding, the one that the pass holds or one that it can make,
/// can stand for the class's name wherever the name is seen: the two are
/// different symbols, and the temp binding's scope encloses the name's.
pub open spec fn temp_can_take_over(p: Rewrite, w: Walk) -> bool {
    &&& p.class_name.is_some()
    &&& p.class_name.unwrap() < w.semantic.table.symbols.len()
    &&& match w.temp {
        Some(t) => temp_takes_over(p, w.temp, w.semantic),
        None => can_make_temp(p, w.semantic) && scope_encloses(
            w.semantic.scopes,
            p.hoist_scope as int,
            w.semantic.table.symbols[p.class_name.unwrap() as int].scope as int,
        ),
    }
}

/// After the rewrite of an initializer no `this` is left in it that means
/// the class, whether the pass holds a temp binding to start with or makes
/// it on first use, provided that nothing stands against the rewrite and
/// that a temp binding can be made if the rewrite takes one.
pub proof fn law_pass_leaves_no_own_this(p: Rewrite, e: ExprView, w: Walk, references: nat)
    requires
        semantic_wf(w.semantic),
        p.node < w.semantic.nodes.len(),
        w.temp.is_some() ==> w.temp.unwrap().symbol_id < w.semantic.table.symbols.len(),
        w.temp.is_none() && needs_temp(p.has_name_or_private, p.class_name, w.semantic, e, 0)
            ==> can_make_temp(p, w.semantic),
        expr_fault(
            p.has_name_or_private,
            temp_home(p, w),
            w.semantic.scopes,
            references,
            e,
            0,
        ).is_none(),
    ensures
        !has_own_this(visit(p, e, 0, w).expr),
{
    if w.temp.is_some() {
        law_no_own_this_is_left(p, e, w, temp_home(p, w), references);
    } else if !needs_temp(p.has_name_or_private, p.class_name, w.semantic, e, 0) {
        lemma_unneeded(p, e, 0, w);
    } else {
        let ready = at_hand(p, w);
        lemma_first_use_is_as_beforehand(p, e, 0, w);
        lemma_fault_by_parents(
            p.has_name_or_private,
            p.hoist_scope,
            w.semantic.scopes,
            ready.semantic.scopes,
            references,
            e,
            0,
        );
        let made = ready.temp.unwrap().symbol_id;
        assert(made == w.semantic.table.symbols.len());
        assert(ready.semantic.table.symbols[made as int].scope == p.hoist_scope);
        law_no_own_this_is_left(p, e, ready, p.hoist_scope, references);
    }
}

/// Every reference to the class by its name that the rewrite comes by
/// refers to the temp binding afterwards, whether the pass holds a temp
/// binding to start with or makes it on first use: the pass holds a temp
/// binding, the reference resolves to it and is registered with it and no
/// longer with the class's name, and the tree is well formed.
pub proof fn law_pass_moves_class_name_references(
    p: Rewrite,
    e: ExprView,
    depth: nat,
    w: Walk,
    r: ReferenceId,
)
    requires
        semantic_wf(w.semantic),
        visit(p, e, depth, w).walk.semantic.table.references.len() <= usize::MAX,
        visit(p, e, depth, w).walk.semantic.table.symbols.len() <= usize::MAX,
        temp_can_take_over(p, w),
        names_class(p, w.semantic, r),
        mentions(p.has_name_or_private, e, depth, r),
    ensures
        semantic_wf(visit(p, e, depth, w).walk.semantic),
        visit(p, e, depth, w).walk.temp.is_some(),
        w.temp.is_some() ==> visit(p, e, depth, w).walk.temp == w.temp,
        moved_to_temp(
            visit(p, e, depth, w).walk.semantic,
            p.class_name.unwrap(),
            visit(p, e, depth, w).walk.temp.unwrap().symbol_id,
            r,
        ),
{
    if w.temp.is_some() {
        lemma_visit_carries_over(p, e, depth, w);
        law_class_name_references_move(p, e, depth, w, r);
    } else {
        let v = w.semantic;
        let ready = at_hand(p, w);
        let c = p.class_name.unwrap();
        lemma_mention_needs_temp(p.has_name_or_private, p.class_name, v, e, depth, r);
        lemma_first_use_is_as_beforehand(p, e, depth, w);
        lemma_visit_carries_over(p, e, depth, ready);
        let k = first_free(v.scopes, p.hint);
        assert(is_first_free(v.scopes, p.hint, k));
        lemma_fresh_symbol_is_wf(v, candidate_name(p.hint, k), p.hoist_scope, p.node);
        lemma_encloses_by_parents(
            v.scopes,
            ready.semantic.scopes,
            p.hoist_scope as int,
            v.table.symbols[c as int].scope as int,
        );
        let made = ready.temp.unwrap().symbol_id;
        assert(made == v.table.symbols.len());
        assert(ready.semantic.table.symbols[made as int].scope == p.hoist_scope);
        assert(ready.semantic.table.symbols[c as int] == v.table.symbols[c as int]);
        law_class_name_references_move(p, e, depth, ready, r);
    }
}

} // verus!
