//! A look over an initializer before it is rewritten: what stands against
//! the rewrite, and whether it takes a temp binding.

use vstd::prelude::*;
use crate::node::{ScopeId, SymbolId};
use crate::scope::{ScopeView, scope_encloses};
use crate::semantic::{Semantic, SemanticView};
use crate::static_prop::expr::{Expr, ExprView, expr_view, exprs_view};
use crate::symbol::TableError;

verus! {

/// What stands against rewriting `e`, if anything: the first of an unknown
/// scope at a `this` that means the class, such a `this` outside the scope
/// `home` of the temp binding, an identifier whose reference is unknown,
/// and nesting too deep to count.
pub open spec fn expr_fault(
    np: bool,
    home: ScopeId,
    scopes: Seq<ScopeView>,
    references: nat,
    e: ExprView,
    depth: nat,
) -> Option<TableError>
    decreases e, 0nat,
{
    match e {
        ExprView::This { scope, .. } => {
            if depth != 0 {
                None
            } else if scope >= scopes.len() {
                Some(TableError::UnknownScope)
            } else if !scope_encloses(scopes, home as int, scope as int) {
                Some(TableError::ScopeViolation)
            } else {
                None
            }
        },
        ExprView::Identifier { reference, .. } => {
            if reference >= references {
                Some(TableError::UnknownReference)
            } else {
                None
            }
        },
        ExprView::Boolean { .. } => None,
        ExprView::Delete { argument, .. } => {
            if *argument is This {
                None
            } else {
                expr_fault(np, home, scopes, references, *argument, depth)
            }
        },
        ExprView::Private { operands, .. } => list_fault(
            np,
            home,
            scopes,
            references,
            operands,
            depth,
            operands.len(),
        ),
        ExprView::Boundary { body, .. } => {
            if !np {
                None
            } else if depth >= u32::MAX {
                Some(TableError::TooDeep)
            } else {
                list_fault(np, home, scopes, references, body, depth + 1, body.len())
            }
        },
        ExprView::Property { computed, decorators, key, value, .. } => {
            let d = list_fault(np, home, scopes, references, decorators, depth, decorators.len());
            let k = if computed {
                expr_fault(np, home, scopes, references, *key, depth)
            } else {
                None
            };
            if d.is_some() {
                d
            } else if k.is_some() {
                k
            } else {
                match value {
                    Some(v) => {
                        if !np {
                            None
                        } else if depth >= u32::MAX {
                            Some(TableError::TooDeep)
                        } else {
                            expr_fault(np, home, scopes, references, *v, depth + 1)
                        }
                    },
                    None => None,
                }
            }
        },
        ExprView::Other { children, .. } => list_fault(
            np,
            home,
            scopes,
            references,
            children,
            depth,
            children.len(),
        ),
    }
}

/// The first fault among the first `upto` of `list`.
pub open spec fn list_fault(
    np: bool,
    home: ScopeId,
    scopes: Seq<ScopeView>,
    references: nat,
    list: Seq<ExprView>,
    depth: nat,
    upto: nat,
) -> Option<TableError>
    decreases list, upto,
{
    if upto == 0 || upto > list.len() {
        None
    } else {
        let before = list_fault(np, home, scopes, references, list, depth, (upto - 1) as nat);
        if before.is_some() {
            before
        } else {
            expr_fault(np, home, scopes, references, list[upto - 1], depth)
        }
    }
}

/// Rewriting `e` takes a temp binding: there is a `this` in it that means
/// the class, or an identifier that refers to the class by its name.
pub open spec fn needs_temp(
    np: bool,
    class_name: Option<SymbolId>,
    v: SemanticView,
    e: ExprView,
    depth: nat,
) -> bool
    decreases e, 0nat,
{
    match e {
        ExprView::This { .. } => depth == 0,
        ExprView::Identifier { reference, .. } => class_name.is_some() && reference
            < v.table.references.len() && v.table.references[reference as int].symbol
            == class_name,
        ExprView::Boolean { .. } => false,
        ExprView::Delete { argument, .. } => !(*argument is This) && needs_temp(
            np,
            class_name,
            v,
            *argument,
            depth,
        ),
        ExprView::Private { operands, .. } => list_needs_temp(
            np,
            class_name,
            v,
            operands,
            depth,
            operands.len(),
        ),
        ExprView::Boundary { body, .. } => np && depth < u32::MAX && list_needs_temp(
            np,
            class_name,
            v,
            body,
            depth + 1,
            body.len(),
        ),
        ExprView::Property { computed, decorators, key, value, .. } => {
            ||| list_needs_temp(np, class_name, v, decorators, depth, decorators.len())
            ||| computed && needs_temp(np, class_name, v, *key, depth)
            ||| np && depth < u32::MAX && value.is_some() && needs_temp(
                np,
                class_name,
                v,
                *value.unwrap(),
                depth + 1,
            )
        },
        ExprView::Other { children, .. } => list_needs_temp(
            np,
            class_name,
            v,
            children,
            depth,
            children.len(),
        ),
    }
}

/// One of the first `upto` of `list` takes a temp binding.
pub open spec fn list_needs_temp(
    np: bool,
    class_name: Option<SymbolId>,
    v: SemanticView,
    list: Seq<ExprView>,
    depth: nat,
    upto: nat,
) -> bool
    decreases list, upto,
{
    if upto == 0 || upto > list.len() {
        false
    } else {
        list_needs_temp(np, class_name, v, list, depth, (upto - 1) as nat) || needs_temp(
            np,
            class_name,
            v,
            list[upto - 1],
            depth,
        )
    }
}

/// Looks over an initializer without changing anything: what stands
/// against rewriting it or, if nothing does, whether the rewrite takes a
/// temp binding.
pub fn survey(
    np: bool,
    class_name: Option<SymbolId>,
    home: ScopeId,
    ctx: &Semantic,
    expr: &Expr,
    depth: u32,
) -> (found: Result<bool, TableError>)
    requires
        ctx.wf(),
    ensures
        match expr_fault(
            np,
            home,
            ctx@.scopes,
            ctx@.table.references.len(),
            expr@,
            depth as nat,
        ) {
            Some(fault) => found == Err::<bool, TableError>(fault),
            None => found == Ok::<bool, TableError>(
                needs_temp(np, class_name, ctx@, expr@, depth as nat),
            ),
        },
    decreases *expr, 1nat,
{
    match expr {
        Expr::This { scope, .. } => {
            if depth != 0 {
                Ok(false)
            } else if *scope >= ctx.scopes().len() {
                Err(TableError::UnknownScope)
            } else if !ctx.scopes().encloses(home, *scope) {
                Err(TableError::ScopeViolation)
            } else {
                Ok(true)
            }
        },
        Expr::Identifier { reference, .. } => {
            match ctx.symbols().reference(*reference) {
                Some(found) => Ok(
                    match (class_name, found.symbol) {
                        (Some(c), Some(s)) => c == s,
                        _ => false,
                    },
                ),
                None => Err(TableError::UnknownReference),
            }
        },
        Expr::Boolean { .. } => Ok(false),
        Expr::Delete { argument, .. } => {
            match &**argument {
                Expr::This { .. } => {
                    assert(expr_view(**argument) is This);
                    Ok(false)
                },
                _ => {
                    assert(!(expr_view(**argument) is This));
                    survey(np, class_name, home, ctx, argument, depth)
                },
            }
        },
        Expr::Private { operands, .. } => survey_list(np, class_name, home, ctx, operands, depth),
        Expr::Boundary { body, .. } => {
            if !np {
                Ok(false)
            } else if depth == u32::MAX {
                Err(TableError::TooDeep)
            } else {
                survey_list(np, class_name, home, ctx, body, depth + 1)
            }
        },
        Expr::Property { computed, decorators, key, value, .. } => {
            let in_decorators = match survey_list(np, class_name, home, ctx, decorators, depth) {
                Ok(needs) => needs,
                Err(fault) => {
                    return Err(fault);
                },
            };
            let in_key = if *computed {
                match survey(np, class_name, home, ctx, key, depth) {
                    Ok(needs) => needs,
                    Err(fault) => {
                        return Err(fault);
                    },
                }
            } else {
                false
            };
            let in_value = match value {
                Some(value) => {
                    if !np {
                        false
                    } else if depth == u32::MAX {
                        return Err(TableError::TooDeep);
                    } else {
                        match survey(np, class_name, home, ctx, value, depth + 1) {
                            Ok(needs) => needs,
                            Err(fault) => {
                                return Err(fault);
                            },
                        }
                    }
                },
                None => false,
            };
            Ok(in_decorators || in_key || in_value)
        },
        Expr::Other { children, .. } => survey_list(np, class_name, home, ctx, children, depth),
    }
}

/// Looks over the expressions of a list, one after the other.
pub fn survey_list(
    np: bool,
    class_name: Option<SymbolId>,
    home: ScopeId,
    ctx: &Semantic,
    list: &Vec<Expr>,
    depth: u32,
) -> (found: Result<bool, TableError>)
    requires
        ctx.wf(),
    ensures
        match list_fault(
            np,
            home,
            ctx@.scopes,
            ctx@.table.references.len(),
            exprs_view(list@),
            depth as nat,
            list@.len(),
        ) {
            Some(fault) => found == Err::<bool, TableError>(fault),
            None => found == Ok::<bool, TableError>(
                list_needs_temp(np, class_name, ctx@, exprs_view(list@), depth as nat, list@.len()),
            ),
        },
    decreases *list, 0nat,
{
    let ghost views = exprs_view(list@);
    let mut needs = false;
    let mut i: usize = 0;
    while i < list.len()
        invariant
            i <= list@.len(),
            ctx.wf(),
            views == exprs_view(list@),
            list_fault(
                np,
                home,
                ctx@.scopes,
                ctx@.table.references.len(),
                views,
                depth as nat,
                i as nat,
            ).is_none(),
            needs == list_needs_temp(np, class_name, ctx@, views, depth as nat, i as nat),
        decreases list@.len() - i,
    {
        assert(views[i as int] == expr_view(list@[i as int]));
        match survey(np, class_name, home, ctx, &list[i], depth) {
            Ok(here) => {
                needs = needs || here;
            },
            Err(fault) => {
                proof {
                    lemma_fault_stays(
                        np,
                        home,
                        ctx@.scopes,
                        ctx@.table.references.len(),
                        views,
                        depth as nat,
                        (i + 1) as nat,
                        list@.len(),
                    );
                }
                return Err(fault);
            },
        }
        i += 1;
    }
    Ok(needs)
}

/// The first fault of a list is the first fault of any longer part of it.
pub proof fn lemma_fault_stays(
    np: bool,
    home: ScopeId,
    scopes: Seq<ScopeView>,
    references: nat,
    list: Seq<ExprView>,
    depth: nat,
    upto: nat,
    later: nat,
)
    requires
        upto <= later <= list.len(),
        list_fault(np, home, scopes, references, list, depth, upto).is_some(),
    ensures
        list_fault(np, home, scopes, references, list, depth, later) == list_fault(
            np,
            home,
            scopes,
            references,
            list,
            depth,
            upto,
        ),
    decreases later - upto,
{
    if upto < later {
        lemma_fault_stays(np, home, scopes, references, list, depth, upto, (later - 1) as nat);
    }
}

} // verus!
