//! The state of the transform for one class: the bindings of the class,
//! the temp binding that is made on demand, and the rewrite of an
//! initializer as a whole.

use vstd::prelude::*;
use crate::fresh::candidate_name;
use crate::node::{NodeId, ScopeId, SymbolId};
use crate::node::ReferenceId;
use crate::scope::{lemma_encloses_by_parents, name_in_use, scope_encloses};
use crate::semantic::{Semantic, SemanticView, is_first_free, semantic_wf, with_fresh_symbol};
use crate::static_prop::expr::{Delegation, Expr, ExprView};
use crate::static_prop::laws::{
    has_own_this,
    law_class_name_references_move,
    law_no_own_this_is_left,
    law_rewrite_declares_nothing,
    law_unvisited_references_stay,
    lemma_fault_by_parents,
    lemma_first_use_is_as_beforehand,
    lemma_mention_needs_temp,
    lemma_unneeded,
    mentions,
    moved_to_temp,
};
use crate::static_prop::rewrite::{
    Rewrite,
    Walk,
    at_hand,
    lemma_first_free_is_one,
    names_class,
    rewritten_as,
};
use crate::static_prop::survey::{expr_fault, needs_temp, survey};
use crate::static_prop::visitor::StaticInitializerVisitor;
use crate::symbol::TableError;

verus! {

pub struct BoundIdentifierView {
    pub name: Seq<char>,
    pub symbol_id: SymbolId,
}

/// A binding by its name and its symbol.
#[derive(Debug, PartialEq, Eq)]
pub struct BoundIdentifier {
    pub name: String,
    pub symbol_id: SymbolId,
}

impl BoundIdentifier {
    /// Another value for the same binding.
    pub fn duplicate(&self) -> (copy: BoundIdentifier)
        ensures
            copy@ == self@,
    {
        BoundIdentifier { name: self.name.clone(), symbol_id: self.symbol_id }
    }
}

impl View for BoundIdentifier {
    type V = BoundIdentifierView;

    open spec fn view(&self) -> BoundIdentifierView {
        BoundIdentifierView { name: self.name@, symbol_id: self.symbol_id }
    }
}

pub open spec fn bound_view(b: Option<BoundIdentifier>) -> Option<BoundIdentifierView> {
    match b {
        Some(b) => Some(b@),
        None => None,
    }
}

/// The name that a temp binding is made from: the class's, or `Class`.
pub open spec fn temp_hint(name: Option<BoundIdentifier>) -> Seq<char> {
    match name {
        Some(name) => name.name@,
        None => "Class"@,
    }
}

/// `after` is `before` with a temp binding `made` declared in `scope` for
/// `node`, under the first free name made from `hint`.
pub open spec fn made_temp(
    hint: Seq<char>,
    scope: ScopeId,
    node: NodeId,
    before: SemanticView,
    after: SemanticView,
    made: BoundIdentifierView,
) -> bool {
    exists|k: nat|
        k <= u32::MAX && is_first_free(before.scopes, hint, k) && after == with_fresh_symbol(
            before,
            #[trigger] candidate_name(hint, k),
            scope,
            node,
        ) && made == (BoundIdentifierView {
            name: candidate_name(hint, k),
            symbol_id: before.table.symbols.len() as usize,
        })
}

/// Every name that could be made from `hint` is taken.
pub open spec fn no_free_name(hint: Seq<char>, v: SemanticView) -> bool {
    forall|k: nat| 1 <= k <= u32::MAX ==> name_in_use(v.scopes, #[trigger] candidate_name(hint, k))
}

/// The bindings of a class: its own name, if it has one, and the temp
/// binding that holds the class, once one has been made.
pub struct ClassBindings {
    pub name: Option<BoundIdentifier>,
    pub temp: Option<BoundIdentifier>,
    /// Set while the static initializers of the class are being rewritten.
    pub currently_transforming_static_property_initializers: bool,
}

impl ClassBindings {
    /// The symbol of the class's own name.
    pub fn name_symbol_id(&self) -> (id: Option<SymbolId>)
        ensures
            id == match self.name {
                Some(name) => Some(name.symbol_id),
                None => None,
            },
    {
        match &self.name {
            Some(name) => Some(name.symbol_id),
            None => None,
        }
    }

    /// The temp binding; made on the first call, in `scope` and for
    /// `node`, and the same one ever after.
    pub fn get_or_init_temp_binding(&mut self, scope: ScopeId, node: NodeId, ctx: &mut Semantic) -> (got:
        Result<BoundIdentifier, TableError>)
        requires
            old(ctx).wf(),
        ensures
            final(ctx).wf(),
            final(self).name == old(self).name,
            final(self).currently_transforming_static_property_initializers == old(self).currently_transforming_static_property_initializers,
            old(self).temp.is_some() ==> final(self).temp == old(self).temp && final(ctx)@ == old(ctx)@ && got.is_ok() && got.unwrap()@ == old(self).temp.unwrap()@,
            old(self).temp.is_none() && scope >= old(ctx)@.scopes.len() ==> got == Err::<
                BoundIdentifier,
                TableError,
            >(TableError::UnknownScope),
            old(self).temp.is_none() && scope < old(ctx)@.scopes.len() && node >= old(ctx)@.nodes.len() ==> got == Err::<BoundIdentifier, TableError>(TableError::UnknownNode),
            old(self).temp.is_none() && scope < old(ctx)@.scopes.len() && node < old(ctx)@.nodes.len() ==> (match got {
                Ok(made) => bound_view(final(self).temp) == Some(made@) && made_temp(
                    temp_hint(old(self).name),
                    scope,
                    node,
                    old(ctx)@,
                    final(ctx)@,
                    made@,
                ),
                Err(e) => e == TableError::NoFreeName && no_free_name(
                    temp_hint(old(self).name),
                    old(ctx)@,
                ),
            }),
            got.is_err() ==> final(self).temp == old(self).temp && final(ctx)@ == old(ctx)@,
    {
        match &self.temp {
            Some(temp) => {
                return Ok(temp.duplicate());
            },
            None => {},
        }
        let made = match &self.name {
            Some(name) => ctx.create_fresh_symbol(name.name.as_str(), scope, node),
            None => ctx.create_fresh_symbol("Class", scope, node),
        };
        match made {
            Ok(symbol_id) => {
                let name = ctx.symbols().name(symbol_id).unwrap();
                self.temp = Some(BoundIdentifier { name: name.clone(), symbol_id });
                Ok(BoundIdentifier { name, symbol_id })
            },
            Err(e) => Err(e),
        }
    }
}

/// What is known of the private properties of a class: here, the bindings
/// of the class, which take precedence over those kept beside them.
pub struct PrivateProps {
    pub class_bindings: ClassBindings,
}

/// The state of the transform for the class whose initializers are being
/// moved.
pub struct ClassProperties {
    pub class_bindings: ClassBindings,
    /// One entry for each class with private properties that the transform
    /// is inside of, the innermost last.
    pub private_props_stack: Vec<PrivateProps>,
    /// The scope in which a temp binding is declared: the one that holds
    /// the `var` declarations where the class stands.
    pub hoist_scope: ScopeId,
    /// The node of the class.
    pub class_node: NodeId,
}

impl ClassProperties {
    /// The bindings that hold the temp binding: those of the innermost
    /// class with private properties if there is one, else the class's.
    pub open spec fn active(&self) -> ClassBindings {
        if self.private_props_stack@.len() > 0 {
            self.private_props_stack@.last().class_bindings
        } else {
            self.class_bindings
        }
    }

    /// What a rewrite of an initializer of this class goes by.
    pub open spec fn rewrite(&self) -> Rewrite {
        Rewrite {
            has_name_or_private: self.class_bindings.name.is_some()
                || self.private_props_stack@.len() > 0,
            class_name: match self.class_bindings.name {
                Some(name) => Some(name.symbol_id),
                None => None,
            },
            node: self.class_node,
            hint: temp_hint(self.active().name),
            hoist_scope: self.hoist_scope,
        }
    }

    /// The scope of the temp binding: where it is declared if there is one
    /// already, else where it would be.
    pub open spec fn home(&self, v: SemanticView) -> ScopeId {
        match self.active().temp {
            Some(temp) => v.table.symbols[temp.symbol_id as int].scope,
            None => self.hoist_scope,
        }
    }

    /// What is wrong with the state of the class, if anything.
    pub open spec fn class_fault(&self, v: SemanticView) -> Option<TableError> {
        if self.hoist_scope >= v.scopes.len() {
            Some(TableError::UnknownScope)
        } else if self.class_node >= v.nodes.len() {
            Some(TableError::UnknownNode)
        } else if self.class_bindings.name.is_some() && self.class_bindings.name.unwrap().symbol_id
            >= v.table.symbols.len() {
            Some(TableError::UnknownSymbol)
        } else if self.active().temp.is_some() && self.active().temp.unwrap().symbol_id
            >= v.table.symbols.len() {
            Some(TableError::UnknownSymbol)
        } else if self.class_bindings.name.is_some() && !scope_encloses(
            v.scopes,
            self.home(v) as int,
            v.table.symbols[self.class_bindings.name.unwrap().symbol_id as int].scope as int,
        ) {
            Some(TableError::ScopeViolation)
        } else {
            None
        }
    }

    /// What stands against rewriting initializer `e`, if anything.
    pub open spec fn fault(&self, v: SemanticView, e: ExprView) -> Option<TableError> {
        if self.class_fault(v).is_some() {
            self.class_fault(v)
        } else {
            expr_fault(
                self.rewrite().has_name_or_private,
                self.home(v),
                v.scopes,
                v.table.references.len(),
                e,
                0,
            )
        }
    }

    /// `after` differs from `self` in the temp binding and the flags at
    /// most.
    pub open spec fn same_class(&self, after: &ClassProperties) -> bool {
        &&& after.hoist_scope == self.hoist_scope
        &&& after.class_node == self.class_node
        &&& after.class_bindings.name == self.class_bindings.name
        &&& after.private_props_stack@.len() == self.private_props_stack@.len()
        &&& forall|i: int|
            0 <= i < self.private_props_stack@.len() ==> (
            #[trigger] after.private_props_stack@[i]).class_bindings.name
                == self.private_props_stack@[i].class_bindings.name
        &&& forall|i: int|
            0 <= i < self.private_props_stack@.len() - 1 ==> (
            #[trigger] after.private_props_stack@[i]).class_bindings.temp
                == self.private_props_stack@[i].class_bindings.temp
        &&& self.private_props_stack@.len() > 0 ==> after.class_bindings.temp
            == self.class_bindings.temp
    }

    /// The flag is `is_it` wherever it is kept.
    pub open spec fn flagged(&self, is_it: bool) -> bool {
        &&& self.class_bindings.currently_transforming_static_property_initializers == is_it
        &&& self.private_props_stack@.len() > 0
            ==> self.private_props_stack@.last().class_bindings.currently_transforming_static_property_initializers
            == is_it
    }

    /// Notes on the bindings of the class that its static initializers are,
    /// or are no longer, being rewritten.
    pub fn set_is_transforming_static_property_initializers(&mut self, is_it: bool)
        ensures
            final(self).flagged(is_it),
            old(self).same_class(final(self)),
            final(self).active().temp == old(self).active().temp,
    {
        self.class_bindings.currently_transforming_static_property_initializers = is_it;
        let n = self.private_props_stack.len();
        if n > 0 {
            self.private_props_stack[n
                - 1].class_bindings.currently_transforming_static_property_initializers = is_it;
        }
    }

    /// The temp binding of the class; made on the first call and the same
    /// one ever after.
    pub fn get_temp_binding(&mut self, ctx: &mut Semantic) -> (got: Result<
        BoundIdentifier,
        TableError,
    >)
        requires
            old(ctx).wf(),
        ensures
            final(ctx).wf(),
            old(self).same_class(final(self)),
            final(self).flagged(true) == old(self).flagged(true),
            final(self).flagged(false) == old(self).flagged(false),
            old(self).active().temp.is_some() ==> final(self).active().temp == old(self).active().temp && final(ctx)@ == old(ctx)@ && got.is_ok() && got.unwrap()@ == old(self).active().temp.unwrap()@,
            old(self).active().temp.is_none() && old(self).hoist_scope >= old(ctx)@.scopes.len()
                ==> got == Err::<BoundIdentifier, TableError>(TableError::UnknownScope),
            old(self).active().temp.is_none() && old(self).hoist_scope < old(ctx)@.scopes.len()
                && old(self).class_node >= old(ctx)@.nodes.len() ==> got == Err::<
                BoundIdentifier,
                TableError,
            >(TableError::UnknownNode),
            old(self).active().temp.is_none() && old(self).hoist_scope < old(ctx)@.scopes.len()
                && old(self).class_node < old(ctx)@.nodes.len() ==> (match got {
                Ok(made) => bound_view(final(self).active().temp) == Some(made@) && made_temp(
                    temp_hint(old(self).active().name),
                    old(self).hoist_scope,
                    old(self).class_node,
                    old(ctx)@,
                    final(ctx)@,
                    made@,
                ),
                Err(e) => e == TableError::NoFreeName && no_free_name(
                    temp_hint(old(self).active().name),
                    old(ctx)@,
                ),
            }),
            got.is_err() ==> final(self).active().temp == old(self).active().temp && final(ctx)@
                == old(ctx)@,
    {
        let n = self.private_props_stack.len();
        if n > 0 {
            self.private_props_stack[n - 1].class_bindings.get_or_init_temp_binding(
                self.hoist_scope,
                self.class_node,
                ctx,
            )
        } else {
            self.class_bindings.get_or_init_temp_binding(self.hoist_scope, self.class_node, ctx)
        }
    }
}

impl ClassProperties {
    /// Rewriting initializer `e` takes a temp binding.
    pub open spec fn needs_temp_for(&self, v: SemanticView, e: ExprView) -> bool {
        needs_temp(self.rewrite().has_name_or_private, self.rewrite().class_name, v, e, 0)
    }

    /// Looks over an initializer of the class without changing anything:
    /// what stands against rewriting it or, if nothing does, whether the
    /// rewrite takes a temp binding.
    pub fn survey(&self, value: &Expr, ctx: &Semantic) -> (found: Result<bool, TableError>)
        requires
            ctx.wf(),
        ensures
            match self.fault(ctx@, value@) {
                Some(fault) => found == Err::<bool, TableError>(fault),
                None => found == Ok::<bool, TableError>(self.needs_temp_for(ctx@, value@)),
            },
    {
        if self.hoist_scope >= ctx.scopes().len() {
            return Err(TableError::UnknownScope);
        }
        if self.class_node >= ctx.nodes().len() {
            return Err(TableError::UnknownNode);
        }
        let class_name = self.class_bindings.name_symbol_id();
        match class_name {
            Some(c) => {
                if c >= ctx.symbols().symbols_len() {
                    return Err(TableError::UnknownSymbol);
                }
            },
            None => {},
        }
        let n = self.private_props_stack.len();
        let temp = if n > 0 {
            &self.private_props_stack[n - 1].class_bindings.temp
        } else {
            &self.class_bindings.temp
        };
        let home = match temp {
            Some(temp) => {
                match ctx.symbols().scope(temp.symbol_id) {
                    Some(home) => home,
                    None => {
                        return Err(TableError::UnknownSymbol);
                    },
                }
            },
            None => self.hoist_scope,
        };
        match class_name {
            Some(c) => {
                if !ctx.scopes().encloses(home, ctx.symbols().scope(c).unwrap()) {
                    return Err(TableError::ScopeViolation);
                }
            },
            None => {},
        }
        survey(self.class_bindings.name.is_some() || n > 0, class_name, home, ctx, value, 0)
    }

    /// Rewrites a static initializer of the class for its place outside the
    /// class body: `this` becomes a read of the temp binding, `delete this`
    /// becomes `true`, references to the class by its name are moved to the
    /// temp binding, and the expressions that can reach for private fields
    /// are listed, in the order they are met. The temp binding is made
    /// first if the initializer takes one and there is none yet. If
    /// anything stands against the rewrite, nothing is changed.
    pub fn transform_static_initializer(&mut self, value: &mut Expr, ctx: &mut Semantic) -> (done:
        Result<Vec<Delegation>, TableError>)
        requires
            old(ctx).wf(),
        ensures
            final(ctx).wf(),
            old(self).same_class(final(self)),
            final(self).flagged(false),
            old(self).fault(old(ctx)@, old(value)@).is_some() ==> done == Err::<
                Vec<Delegation>,
                TableError,
            >(old(self).fault(old(ctx)@, old(value)@).unwrap()),
            done.is_err() ==> final(value)@ == old(value)@ && final(ctx)@ == old(ctx)@ && final(self).active().temp == old(self).active().temp,
            old(self).fault(old(ctx)@, old(value)@).is_none() && (old(self).active().temp.is_some()
                || !old(self).needs_temp_for(old(ctx)@, old(value)@)) ==> done.is_ok() && final(self).active().temp == old(self).active().temp && rewritten_as(
                old(self).rewrite(),
                bound_view(old(self).active().temp),
                old(value)@,
                old(ctx)@,
                final(value)@,
                final(ctx)@,
                done.unwrap()@,
                bound_view(old(self).active().temp),
            ),
            old(self).fault(old(ctx)@, old(value)@).is_none() && old(self).active().temp.is_none()
                && old(self).needs_temp_for(old(ctx)@, old(value)@) ==> (match done {
                Ok(delegated) => exists|made: BoundIdentifierView, mid: SemanticView|
                    bound_view(final(self).active().temp) == Some(made) && #[trigger] made_temp(
                        temp_hint(old(self).active().name),
                        old(self).hoist_scope,
                        old(self).class_node,
                        old(ctx)@,
                        mid,
                        made,
                    ) && rewritten_as(
                        old(self).rewrite(),
                        Some(made),
                        old(value)@,
                        mid,
                        final(value)@,
                        final(ctx)@,
                        delegated@,
                        Some(made),
                    ),
                Err(e) => e == TableError::NoFreeName && no_free_name(
                    temp_hint(old(self).active().name),
                    old(ctx)@,
                ),
            }),
            done.is_ok() ==> rewritten_as(
                old(self).rewrite(),
                bound_view(old(self).active().temp),
                old(value)@,
                old(ctx)@,
                final(value)@,
                final(ctx)@,
                done.unwrap()@,
                bound_view(final(self).active().temp),
            ),
            done.is_ok() ==> !has_own_this(final(value)@),
            done.is_ok() ==> forall|r: ReferenceId| #[trigger]
                mentions(old(self).rewrite().has_name_or_private, old(value)@, 0, r) && names_class(
                    old(self).rewrite(),
                    old(ctx)@,
                    r,
                ) ==> final(self).active().temp.is_some() && (final(self).active().temp.unwrap().symbol_id != old(self).rewrite().class_name.unwrap()
                    ==> moved_to_temp(
                    final(ctx)@,
                    old(self).rewrite().class_name.unwrap(),
                    final(self).active().temp.unwrap().symbol_id,
                    r,
                )),
            done.is_ok() ==> forall|r: ReferenceId|
                r < old(ctx)@.table.references.len() && !mentions(
                    old(self).rewrite().has_name_or_private,
                    old(value)@,
                    0,
                    r,
                ) ==> #[trigger] final(ctx)@.table.references[r as int] == old(ctx)@.table.references[r as int],
            final(ctx)@.table.symbols.len() == old(ctx)@.table.symbols.len() + (if done.is_ok()
                && old(self).active().temp.is_none() && old(self).needs_temp_for(
                old(ctx)@,
                old(value)@,
            ) {
                1nat
            } else {
                0nat
            }),
    {
        self.set_is_transforming_static_property_initializers(true);
        let ghost e0 = value@;
        let ghost v0 = ctx@;
        let ghost home = self.home(v0);
        assert(self.fault(v0, e0) == old(self).fault(v0, e0));
        assert(self.needs_temp_for(v0, e0) == old(self).needs_temp_for(v0, e0));
        let needs = match self.survey(value, ctx) {
            Ok(needs) => needs,
            Err(fault) => {
                self.set_is_transforming_static_property_initializers(false);
                return Err(fault);
            },
        };
        let ghost had = self.active().temp;
        let ghost flagged = *self;
        if needs {
            match self.get_temp_binding(ctx) {
                Ok(_) => {},
                Err(fault) => {
                    self.set_is_transforming_static_property_initializers(false);
                    return Err(fault);
                },
            }
        }
        let ghost mid = ctx@;
        let ghost p = self.rewrite();
        let ghost temp = bound_view(self.active().temp);
        let ghost start = Walk { semantic: mid, delegated: Seq::empty(), temp };
        proof {
            assert(p == old(self).rewrite());
            if needs && had.is_none() {
                let hint = temp_hint(flagged.active().name);
                let made = temp.unwrap();
                let k = choose|k: nat|
                    k <= u32::MAX && is_first_free(v0.scopes, hint, k) && mid == with_fresh_symbol(
                        v0,
                        #[trigger] candidate_name(hint, k),
                        flagged.hoist_scope,
                        flagged.class_node,
                    ) && made == (BoundIdentifierView {
                        name: candidate_name(hint, k),
                        symbol_id: v0.table.symbols.len() as usize,
                    });
                lemma_fault_by_parents(
                    p.has_name_or_private,
                    home,
                    v0.scopes,
                    mid.scopes,
                    v0.table.references.len(),
                    e0,
                    0,
                );
            }
            if temp.is_some() {
                law_no_own_this_is_left(p, e0, start, home, v0.table.references.len());
                law_rewrite_declares_nothing(p, e0, 0, start);
            } else {
                lemma_unneeded(p, e0, 0, start);
            }
        }
        assert(semantic_wf(mid));
        let mut replacer = StaticInitializerVisitor::new(self);
        replacer.visit_expression(value, ctx);
        self.set_is_transforming_static_property_initializers(false);
        proof {
            assert forall|r: ReferenceId| #[trigger]
                mentions(p.has_name_or_private, e0, 0, r) && names_class(p, v0, r) implies temp.is_some()
                && (temp.unwrap().symbol_id != p.class_name.unwrap() ==> moved_to_temp(
                ctx@,
                p.class_name.unwrap(),
                temp.unwrap().symbol_id,
                r,
            )) by {
                lemma_mention_needs_temp(p.has_name_or_private, p.class_name, v0, e0, 0, r);
                let c = p.class_name.unwrap();
                let t = temp.unwrap().symbol_id;
                if t != c {
                    if had.is_none() {
                        lemma_encloses_by_parents(
                            v0.scopes,
                            mid.scopes,
                            home as int,
                            v0.table.symbols[c as int].scope as int,
                        );
                        assert(mid.table.symbols[c as int] == v0.table.symbols[c as int]);
                    }
                    law_class_name_references_move(p, e0, 0, start, r);
                }
            }
            assert forall|r: ReferenceId|
                r < v0.table.references.len() && !mentions(
                    p.has_name_or_private,
                    e0,
                    0,
                    r,
                ) implies #[trigger] ctx@.table.references[r as int]
                == v0.table.references[r as int] by {
                law_unvisited_references_stay(p, e0, 0, start, r);
            }
            if needs && had.is_none() {
                assert(made_temp(
                    temp_hint(old(self).active().name),
                    old(self).hoist_scope,
                    old(self).class_node,
                    v0,
                    mid,
                    temp.unwrap(),
                ));
                let from = Walk { semantic: v0, delegated: Seq::empty(), temp: None };
                let k = choose|k: nat|
                    k <= u32::MAX && is_first_free(v0.scopes, p.hint, k) && mid == with_fresh_symbol(
                        v0,
                        #[trigger] candidate_name(p.hint, k),
                        p.hoist_scope,
                        p.node,
                    ) && temp.unwrap() == (BoundIdentifierView {
                        name: candidate_name(p.hint, k),
                        symbol_id: v0.table.symbols.len() as usize,
                    });
                lemma_first_free_is_one(v0.scopes, p.hint, k);
                assert(at_hand(p, from) == start);
                lemma_first_use_is_as_beforehand(p, e0, 0, from);
            }
        }
        Ok(replacer.delegated)
    }
}

} // verus!
