//! One pass over an initializer: the depth it is at, the temp binding that
//! it holds or makes on first use, and the visit of each construct.

use vstd::prelude::*;
use vstd::string::StringExecFns;
use crate::fresh::candidate_name;
use crate::node::{NodeId, ReferenceId, ScopeId, SymbolId};
use crate::scope::name_in_use;
use crate::semantic::{Semantic, is_first_free, with_fresh_symbol};
use crate::span::Span;
use crate::static_prop::class::{BoundIdentifier, ClassProperties, bound_view, made_temp};
use crate::static_prop::expr::{
    BoundaryKind,
    Delegation,
    Expr,
    ExprView,
    PrivateForm,
    expr_view,
    exprs_view,
};
use crate::static_prop::rewrite::{
    Rewrite,
    Walk,
    at_hand,
    can_make_temp,
    descends,
    first_free,
    lemma_first_free_is_one,
    lemma_reference_can_move,
    lemma_temp_can_be_read,
    lemma_visit_list_len,
    temp_reaches,
    renamed,
    renames,
    replace_this,
    replaces_this,
    visit,
    visit_list,
};
use crate::symbol::Reference;

verus! {

/// The state of one pass over an initializer.
pub struct StaticInitializerVisitor {
    /// The class has a name or private properties.
    pub class_has_name_or_private_props: bool,
    /// How many constructs with a `this` of their own the pass is inside
    /// of. `this` means the class where this is zero.
    pub this_depth: u32,
    /// The symbol of the class's own name.
    pub class_name: Option<SymbolId>,
    /// The temp binding that holds the class; made on first use.
    pub temp: Option<BoundIdentifier>,
    /// The node of the class.
    pub node: NodeId,
    /// The name that the temp binding is made from.
    pub hint: String,
    /// The scope in which the temp binding is declared.
    pub hoist_scope: ScopeId,
    /// The expressions handed over so far, in the order they were met.
    pub delegated: Vec<Delegation>,
}

impl StaticInitializerVisitor {
    pub open spec fn rewrite(&self) -> Rewrite {
        Rewrite {
            has_name_or_private: self.class_has_name_or_private_props,
            class_name: self.class_name,
            node: self.node,
            hint: self.hint@,
            hoist_scope: self.hoist_scope,
        }
    }

    pub open spec fn walk(&self, ctx: &Semantic) -> Walk {
        Walk { semantic: ctx@, delegated: self.delegated@, temp: bound_view(self.temp) }
    }

    /// The pass went from one state to another without touching what is
    /// fixed, and is as deep as it was.
    pub open spec fn same_pass(&self, before: &StaticInitializerVisitor) -> bool {
        self.rewrite() == before.rewrite() && self.this_depth == before.this_depth
    }

    /// The state at the start of a pass over an initializer of the class.
    pub fn new(class_properties: &ClassProperties) -> (visitor: StaticInitializerVisitor)
        ensures
            visitor.this_depth == 0,
            visitor.delegated@ == Seq::<Delegation>::empty(),
            visitor.rewrite() == class_properties.rewrite(),
            bound_view(visitor.temp) == bound_view(class_properties.active().temp),
    {
        let n = class_properties.private_props_stack.len();
        let active = if n > 0 {
            &class_properties.private_props_stack[n - 1].class_bindings
        } else {
            &class_properties.class_bindings
        };
        let temp = &active.temp;
        let hint = match &active.name {
            Some(name) => name.name.clone(),
            None => String::from_str("Class"),
        };
        StaticInitializerVisitor {
            class_has_name_or_private_props: class_properties.class_bindings.name.is_some() || n
                > 0,
            this_depth: 0,
            class_name: class_properties.class_bindings.name_symbol_id(),
            temp: match temp {
                Some(temp) => Some(temp.duplicate()),
                None => None,
            },
            node: class_properties.class_node,
            hint,
            hoist_scope: class_properties.hoist_scope,
            delegated: Vec::new(),
        }
    }

    /// Whether the temp binding, the one that the pass holds or one that is
    /// yet to be made, can be used in `scope`, provided there is one.
    pub fn can_reach(&self, scope: ScopeId, ctx: &Semantic) -> (yes: bool)
        requires
            ctx.wf(),
        ensures
            yes && at_hand(self.rewrite(), self.walk(ctx)).temp.is_some() <==> temp_reaches(
                self.rewrite(),
                self.walk(ctx),
                scope,
            ),
            !yes ==> !temp_reaches(self.rewrite(), self.walk(ctx), scope),
    {
        let home = match &self.temp {
            Some(temp) => match ctx.symbols().scope(temp.symbol_id) {
                Some(home) => home,
                None => {
                    return false;
                },
            },
            None => self.hoist_scope,
        };
        self.node < ctx.nodes().len() && scope < ctx.scopes().len() && ctx.scopes().encloses(
            home,
            scope,
        )
    }

    /// The temp binding at hand: the one that the pass holds or, on first
    /// use, one made under the first free name. Says whether there is one
    /// afterwards; there is none only where none can be made.
    pub fn get_temp_binding(&mut self, ctx: &mut Semantic) -> (held: bool)
        requires
            old(ctx).wf(),
        ensures
            final(ctx).wf(),
            final(self).same_pass(old(self)),
            final(self).walk(final(ctx)) == at_hand(old(self).rewrite(), old(self).walk(old(ctx))),
            held == final(self).temp.is_some(),
            old(self).temp.is_some() ==> final(self).temp == old(self).temp,
            old(self).temp.is_none() && held ==> made_temp(
                old(self).hint@,
                old(self).hoist_scope,
                old(self).node,
                old(ctx)@,
                final(ctx)@,
                final(self).temp.unwrap()@,
            ),
            old(self).temp.is_none() && !held ==> !can_make_temp(old(self).rewrite(), old(ctx)@),
    {
        if self.temp.is_some() {
            return true;
        }
        let ghost v0 = ctx@;
        match ctx.create_fresh_symbol(self.hint.as_str(), self.hoist_scope, self.node) {
            Ok(symbol_id) => {
                let name = ctx.symbols().name(symbol_id).unwrap();
                proof {
                    let k = choose|k: nat|
                        k <= u32::MAX && is_first_free(v0.scopes, self.hint@, k) && ctx@
                            == with_fresh_symbol(
                            v0,
                            #[trigger] candidate_name(self.hint@, k),
                            self.hoist_scope,
                            self.node,
                        );
                    lemma_first_free_is_one(v0.scopes, self.hint@, k);
                    assert(name@ == candidate_name(self.hint@, k));
                }
                self.temp = Some(BoundIdentifier { name, symbol_id });
                true
            },
            Err(_) => {
                proof {
                    if can_make_temp(self.rewrite(), v0) {
                        let k = first_free(v0.scopes, self.hint@);
                        assert(name_in_use(v0.scopes, candidate_name(self.hint@, k)));
                    }
                }
                false
            },
        }
    }

    /// Whether `this` means the class at this point of the pass.
    pub fn this_is_class(&self) -> (yes: bool)
        ensures
            yes == (self.this_depth == 0),
    {
        self.this_depth == 0
    }

    /// Whether a reference that resolves to `symbol` refers to the class by
    /// its name.
    pub fn refers_to_class(&self, symbol: Option<SymbolId>) -> (yes: bool)
        ensures
            yes == (self.class_name.is_some() && symbol == self.class_name),
    {
        match (self.class_name, symbol) {
            (Some(class_name), Some(symbol)) => class_name == symbol,
            _ => false,
        }
    }

    /// Whether the pass goes into a construct with a `this` of its own.
    pub fn goes_into_boundaries(&self) -> (yes: bool)
        ensures
            yes == descends(self.rewrite(), self.this_depth as nat),
    {
        self.class_has_name_or_private_props && self.this_depth < u32::MAX
    }

    /// Steps into a construct with a `this` of its own.
    pub fn enter_boundary(&mut self)
        requires
            old(self).this_depth < u32::MAX,
        ensures
            final(self).this_depth == old(self).this_depth + 1,
            final(self).rewrite() == old(self).rewrite(),
            final(self).delegated == old(self).delegated,
            final(self).temp == old(self).temp,
    {
        self.this_depth += 1;
    }

    /// Steps out of a construct with a `this` of its own.
    pub fn leave_boundary(&mut self)
        requires
            old(self).this_depth > 0,
        ensures
            final(self).this_depth == old(self).this_depth - 1,
            final(self).rewrite() == old(self).rewrite(),
            final(self).delegated == old(self).delegated,
            final(self).temp == old(self).temp,
    {
        self.this_depth -= 1;
    }

    fn hand_over(&mut self, form: PrivateForm, span: Span)
        ensures
            final(self).same_pass(old(self)),
            final(self).temp == old(self).temp,
            final(self).delegated@ == old(self).delegated@.push(Delegation { form, span }),
    {
        self.delegated.push(Delegation { form, span });
    }

    /// Rewrites one expression with all that is nested in it.
    pub fn visit_expression(&mut self, expr: &mut Expr, ctx: &mut Semantic)
        requires
            old(ctx).wf(),
        ensures
            final(ctx).wf(),
            final(self).same_pass(old(self)),
            final(expr)@ == visit(
                old(self).rewrite(),
                old(expr)@,
                old(self).this_depth as nat,
                old(self).walk(old(ctx)),
            ).expr,
            final(self).walk(final(ctx)) == visit(
                old(self).rewrite(),
                old(expr)@,
                old(self).this_depth as nat,
                old(self).walk(old(ctx)),
            ).walk,
        decreases *old(expr), 2nat,
    {
        match expr {
            Expr::This { span, scope } => {
                let span = *span;
                let scope = *scope;
                self.replace_this_with_temp_var(expr, span, scope, ctx);
            },
            Expr::Identifier { reference, name, .. } => {
                self.visit_identifier_reference(*reference, name, ctx);
            },
            Expr::Boolean { .. } => {
            },
            Expr::Delete { span, argument } => {
                let span = *span;
                match &**argument {
                    Expr::This { .. } => {
                        assert(expr_view(**argument) is This);
                        self.replace_delete_this_with_true(expr, span);
                    },
                    Expr::Private { form: PrivateForm::Chain, .. } => {
                        assert(expr_view(**argument) matches ExprView::Private {
                            form: PrivateForm::Chain,
                            ..
                        });
                        self.hand_over(PrivateForm::DeleteChain, span);
                        self.visit_expression(argument, ctx);
                            },
                    _ => {
                        assert(!(expr_view(**argument) is This) && !(expr_view(
                            **argument,
                        ) matches ExprView::Private { form: PrivateForm::Chain, .. }));
                        self.visit_expression(argument, ctx);
                            },
                }
            },
            Expr::Private { span, form, operands } => {
                match *form {
                    PrivateForm::AssignmentTarget => self.visit_assignment_target(expr, ctx),
                    _ => {
                        self.hand_over(*form, *span);
                        self.walk_list(operands, ctx);
                    },
                }
            },
            Expr::Boundary { kind, .. } => {
                match *kind {
                    BoundaryKind::Function => self.visit_function(expr, ctx),
                    BoundaryKind::StaticBlock => self.visit_static_block(expr, ctx),
                    BoundaryKind::ModuleBlock => self.visit_ts_module_block(expr, ctx),
                }
            },
            Expr::Property { accessor, .. } => {
                if *accessor {
                    self.visit_accessor_property(expr, ctx);
                } else {
                    self.visit_property_definition(expr, ctx);
                }
            },
            Expr::Other { children, .. } => {
                self.walk_list(children, ctx);
            },
        }
    }

    /// Rewrites the expressions of a list, one after the other.
    pub fn walk_list(&mut self, list: &mut Vec<Expr>, ctx: &mut Semantic)
        requires
            old(ctx).wf(),
        ensures
            final(ctx).wf(),
            final(self).same_pass(old(self)),
            exprs_view(final(list)@) == visit_list(
                old(self).rewrite(),
                exprs_view(old(list)@),
                old(self).this_depth as nat,
                old(self).walk(old(ctx)),
                old(list)@.len(),
            ).exprs,
            final(self).walk(final(ctx)) == visit_list(
                old(self).rewrite(),
                exprs_view(old(list)@),
                old(self).this_depth as nat,
                old(self).walk(old(ctx)),
                old(list)@.len(),
            ).walk,
        decreases *old(list), 0nat,
    {
        let n = list.len();
        let ghost before = list@;
        let ghost views = exprs_view(before);
        let ghost p = self.rewrite();
        let ghost depth = self.this_depth as nat;
        let ghost w0 = self.walk(ctx);
        let mut i: usize = 0;
        while i < n
            invariant
                i <= n,
                list@.len() == n,
                before == old(list)@,
                before.len() == n,
                views == exprs_view(before),
                ctx.wf(),
                self.rewrite() == p,
                self.this_depth as nat == depth,
                forall|j: int| i <= j < n ==> list@[j] == before[j],
                forall|j: int|
                    0 <= j < i ==> expr_view(#[trigger] list@[j]) == visit_list(
                        p,
                        views,
                        depth,
                        w0,
                        i as nat,
                    ).exprs[j],
                self.walk(ctx) == visit_list(p, views, depth, w0, i as nat).walk,
            decreases n - i,
        {
            let ghost done = visit_list(p, views, depth, w0, i as nat);
            proof {
                lemma_visit_list_len(p, views, depth, w0, i as nat);
                assert(list@[i as int] == before[i as int]);
                assert(views[i as int] == expr_view(before[i as int]));
            }
            self.visit_expression(&mut list[i], ctx);
            proof {
                let next = visit_list(p, views, depth, w0, (i + 1) as nat);
                assert(next.exprs == done.exprs.push(visit(p, views[i as int], depth, done.walk).expr));
                assert forall|j: int| 0 <= j < i + 1 implies expr_view(#[trigger] list@[j])
                    == next.exprs[j] by {
                    if j < i {
                        assert(next.exprs[j] == done.exprs[j]);
                    }
                }
            }
            i += 1;
        }
        proof {
            let out = visit_list(p, views, depth, w0, n as nat);
            lemma_visit_list_len(p, views, depth, w0, n as nat);
            assert(exprs_view(list@) =~= out.exprs);
        }
    }

    /// A target of an assignment: handed over, then rewritten part by part.
    pub fn visit_assignment_target(&mut self, target: &mut Expr, ctx: &mut Semantic)
        requires
            old(ctx).wf(),
        ensures
            final(ctx).wf(),
            final(self).same_pass(old(self)),
            old(target)@ is Private ==> final(target)@ == visit(
                old(self).rewrite(),
                old(target)@,
                old(self).this_depth as nat,
                old(self).walk(old(ctx)),
            ).expr && final(self).walk(final(ctx)) == visit(
                old(self).rewrite(),
                old(target)@,
                old(self).this_depth as nat,
                old(self).walk(old(ctx)),
            ).walk,
            !(old(target)@ is Private) ==> final(target)@ == old(target)@ && final(self).walk(
                final(ctx),
            ) == old(self).walk(old(ctx)),
        decreases *old(target), 1nat,
    {
        match target {
            Expr::Private { span, form, operands } => {
                self.hand_over(*form, *span);
                self.walk_list(operands, ctx);
            },
            _ => {},
        }
    }

    /// An identifier: renamed if it refers to the class by its name.
    pub fn visit_identifier_reference(
        &mut self,
        reference: ReferenceId,
        name: &mut String,
        ctx: &mut Semantic,
    )
        requires
            old(ctx).wf(),
        ensures
            final(ctx).wf(),
            final(self).same_pass(old(self)),
            final(name)@ == (if renames(old(self).rewrite(), old(self).walk(old(ctx)), reference) {
                at_hand(old(self).rewrite(), old(self).walk(old(ctx))).temp.unwrap().name
            } else {
                old(name)@
            }),
            final(self).walk(final(ctx)) == renamed(
                old(self).rewrite(),
                old(self).walk(old(ctx)),
                reference,
            ),
            old(self).temp.is_some() ==> final(self).temp == old(self).temp,
            old(self).temp.is_none() && final(self).temp.is_some() ==> made_temp(
                old(self).hint@,
                old(self).hoist_scope,
                old(self).node,
                old(ctx)@,
                at_hand(old(self).rewrite(), old(self).walk(old(ctx))).semantic,
                final(self).temp.unwrap()@,
            ),
    {
        self.replace_class_name_with_temp_var(reference, name, ctx);
    }

    /// A function that is not an arrow function: what stands in it is
    /// looked at one level deeper, if at all.
    pub fn visit_function(&mut self, func: &mut Expr, ctx: &mut Semantic)
        requires
            old(ctx).wf(),
        ensures
            final(ctx).wf(),
            final(self).same_pass(old(self)),
            old(func)@ is Boundary ==> final(func)@ == visit(
                old(self).rewrite(),
                old(func)@,
                old(self).this_depth as nat,
                old(self).walk(old(ctx)),
            ).expr && final(self).walk(final(ctx)) == visit(
                old(self).rewrite(),
                old(func)@,
                old(self).this_depth as nat,
                old(self).walk(old(ctx)),
            ).walk,
            !(old(func)@ is Boundary) ==> final(func)@ == old(func)@ && final(self).walk(final(ctx))
                == old(self).walk(old(ctx)),
        decreases *old(func), 1nat,
    {
        match func {
            Expr::Boundary { body, .. } => {
                if self.class_has_name_or_private_props && self.this_depth < u32::MAX {
                    self.this_depth += 1;
                    self.walk_list(body, ctx);
                    self.this_depth -= 1;
                }
            },
            _ => {},
        }
    }

    /// A static block of a nested class.
    pub fn visit_static_block(&mut self, block: &mut Expr, ctx: &mut Semantic)
        requires
            old(ctx).wf(),
        ensures
            final(ctx).wf(),
            final(self).same_pass(old(self)),
            old(block)@ is Boundary ==> final(block)@ == visit(
                old(self).rewrite(),
                old(block)@,
                old(self).this_depth as nat,
                old(self).walk(old(ctx)),
            ).expr && final(self).walk(final(ctx)) == visit(
                old(self).rewrite(),
                old(block)@,
                old(self).this_depth as nat,
                old(self).walk(old(ctx)),
            ).walk,
            !(old(block)@ is Boundary) ==> final(block)@ == old(block)@ && final(self).walk(
                final(ctx),
            ) == old(self).walk(old(ctx)),
        decreases *old(block), 1nat,
    {
        match block {
            Expr::Boundary { body, .. } => {
                if self.class_has_name_or_private_props && self.this_depth < u32::MAX {
                    self.this_depth += 1;
                    self.walk_list(body, ctx);
                    self.this_depth -= 1;
                }
            },
            _ => {},
        }
    }

    /// The block of a namespace.
    pub fn visit_ts_module_block(&mut self, block: &mut Expr, ctx: &mut Semantic)
        requires
            old(ctx).wf(),
        ensures
            final(ctx).wf(),
            final(self).same_pass(old(self)),
            old(block)@ is Boundary ==> final(block)@ == visit(
                old(self).rewrite(),
                old(block)@,
                old(self).this_depth as nat,
                old(self).walk(old(ctx)),
            ).expr && final(self).walk(final(ctx)) == visit(
                old(self).rewrite(),
                old(block)@,
                old(self).this_depth as nat,
                old(self).walk(old(ctx)),
            ).walk,
            !(old(block)@ is Boundary) ==> final(block)@ == old(block)@ && final(self).walk(
                final(ctx),
            ) == old(self).walk(old(ctx)),
        decreases *old(block), 1nat,
    {
        match block {
            Expr::Boundary { body, .. } => {
                if self.class_has_name_or_private_props && self.this_depth < u32::MAX {
                    self.this_depth += 1;
                    self.walk_list(body, ctx);
                    self.this_depth -= 1;
                }
            },
            _ => {},
        }
    }

    /// A property of a nested class: its decorators and, if it is computed,
    /// its key mean by `this` what the surroundings do; its value is
    /// looked at one level deeper, if at all.
    pub fn visit_property_definition(&mut self, prop: &mut Expr, ctx: &mut Semantic)
        requires
            old(ctx).wf(),
        ensures
            final(ctx).wf(),
            final(self).same_pass(old(self)),
            old(prop)@ is Property ==> final(prop)@ == visit(
                old(self).rewrite(),
                old(prop)@,
                old(self).this_depth as nat,
                old(self).walk(old(ctx)),
            ).expr && final(self).walk(final(ctx)) == visit(
                old(self).rewrite(),
                old(prop)@,
                old(self).this_depth as nat,
                old(self).walk(old(ctx)),
            ).walk,
            !(old(prop)@ is Property) ==> final(prop)@ == old(prop)@ && final(self).walk(final(ctx))
                == old(self).walk(old(ctx)),
        decreases *old(prop), 1nat,
    {
        match prop {
            Expr::Property { computed, decorators, key, value, .. } => {
                self.walk_list(decorators, ctx);
                if *computed {
                    self.visit_expression(key, ctx);
                }
                if self.class_has_name_or_private_props && self.this_depth < u32::MAX {
                    match value {
                        Some(value) => {
                            self.this_depth += 1;
                            self.visit_expression(value, ctx);
                            self.this_depth -= 1;
                        },
                        None => {},
                    }
                }
            },
            _ => {},
        }
    }

    /// An accessor property of a nested class: as a property.
    pub fn visit_accessor_property(&mut self, prop: &mut Expr, ctx: &mut Semantic)
        requires
            old(ctx).wf(),
        ensures
            final(ctx).wf(),
            final(self).same_pass(old(self)),
            old(prop)@ is Property ==> final(prop)@ == visit(
                old(self).rewrite(),
                old(prop)@,
                old(self).this_depth as nat,
                old(self).walk(old(ctx)),
            ).expr && final(self).walk(final(ctx)) == visit(
                old(self).rewrite(),
                old(prop)@,
                old(self).this_depth as nat,
                old(self).walk(old(ctx)),
            ).walk,
            !(old(prop)@ is Property) ==> final(prop)@ == old(prop)@ && final(self).walk(final(ctx))
                == old(self).walk(old(ctx)),
        decreases *old(prop), 1nat,
    {
        match prop {
            Expr::Property { computed, decorators, key, value, .. } => {
                self.walk_list(decorators, ctx);
                if *computed {
                    self.visit_expression(key, ctx);
                }
                if self.class_has_name_or_private_props && self.this_depth < u32::MAX {
                    match value {
                        Some(value) => {
                            self.this_depth += 1;
                            self.visit_expression(value, ctx);
                            self.this_depth -= 1;
                        },
                        None => {},
                    }
                }
            },
            _ => {},
        }
    }

    /// Replaces `this` by a read of the temp binding, where `this` means
    /// the class. The temp binding is made if the pass holds none yet.
    pub fn replace_this_with_temp_var(
        &mut self,
        expr: &mut Expr,
        span: Span,
        scope: ScopeId,
        ctx: &mut Semantic,
    )
        requires
            old(ctx).wf(),
        ensures
            final(ctx).wf(),
            final(self).same_pass(old(self)),
            final(self).walk(final(ctx)) == replace_this(
                old(self).rewrite(),
                span,
                scope,
                old(self).this_depth as nat,
                old(self).walk(old(ctx)),
            ).walk,
            replaces_this(
                old(self).rewrite(),
                old(self).walk(old(ctx)),
                scope,
                old(self).this_depth as nat,
            ) ==> final(expr)@ == replace_this(
                old(self).rewrite(),
                span,
                scope,
                old(self).this_depth as nat,
                old(self).walk(old(ctx)),
            ).expr,
            !replaces_this(
                old(self).rewrite(),
                old(self).walk(old(ctx)),
                scope,
                old(self).this_depth as nat,
            ) ==> final(expr)@ == old(expr)@,
            old(self).temp.is_some() ==> final(self).temp == old(self).temp,
            old(self).temp.is_none() && final(self).temp.is_some() ==> made_temp(
                old(self).hint@,
                old(self).hoist_scope,
                old(self).node,
                old(ctx)@,
                at_hand(old(self).rewrite(), old(self).walk(old(ctx))).semantic,
                final(self).temp.unwrap()@,
            ),
    {
        if self.this_depth == 0 {
            let ghost p = self.rewrite();
            let ghost w = self.walk(ctx);
            let reaches = self.can_reach(scope, ctx);
            if self.get_temp_binding(ctx) && reaches {
                proof {
                    lemma_temp_can_be_read(p, w, scope);
                }
                match &self.temp {
                    Some(temp) => {
                        let made = ctx.create_reference(
                            Reference {
                                node: self.node,
                                symbol: Some(temp.symbol_id),
                                read: true,
                                write: false,
                                scope,
                            },
                        );
                        match made {
                            Ok(reference) => {
                                *expr = Expr::Identifier { span, reference, name: temp.name.clone() };
                            },
                            Err(_) => {},
                        }
                    },
                    None => {},
                }
            }
        }
    }

    /// Renames an identifier that refers to the class by its name, and
    /// moves its reference to the temp binding. The temp binding is made if
    /// the pass holds none yet.
    pub fn replace_class_name_with_temp_var(
        &mut self,
        reference: ReferenceId,
        name: &mut String,
        ctx: &mut Semantic,
    )
        requires
            old(ctx).wf(),
        ensures
            final(ctx).wf(),
            final(self).same_pass(old(self)),
            final(name)@ == (if renames(old(self).rewrite(), old(self).walk(old(ctx)), reference) {
                at_hand(old(self).rewrite(), old(self).walk(old(ctx))).temp.unwrap().name
            } else {
                old(name)@
            }),
            final(self).walk(final(ctx)) == renamed(
                old(self).rewrite(),
                old(self).walk(old(ctx)),
                reference,
            ),
            old(self).temp.is_some() ==> final(self).temp == old(self).temp,
            old(self).temp.is_none() && final(self).temp.is_some() ==> made_temp(
                old(self).hint@,
                old(self).hoist_scope,
                old(self).node,
                old(ctx)@,
                at_hand(old(self).rewrite(), old(self).walk(old(ctx))).semantic,
                final(self).temp.unwrap()@,
            ),
    {
        let symbol = match ctx.symbols().reference(reference) {
            Some(found) => found.symbol,
            None => {
                return ;
            },
        };
        if !self.refers_to_class(symbol) {
            return ;
        }
        let reaches = match ctx.symbols().scope(symbol.unwrap()) {
            Some(home) => self.can_reach(home, ctx),
            None => false,
        };
        let ghost p = self.rewrite();
        let ghost w = self.walk(ctx);
        if self.get_temp_binding(ctx) && reaches {
            proof {
                lemma_reference_can_move(p, w, reference);
            }
            match &self.temp {
                Some(temp) => {
                    if ctx.redirect_reference(reference, temp.symbol_id).is_ok() {
                        *name = temp.name.clone();
                    }
                },
                None => {},
            }
        }
    }

    /// Replaces `delete this` by `true`, where `this` means the class.
    pub fn replace_delete_this_with_true(&self, expr: &mut Expr, span: Span)
        ensures
            self.this_depth == 0 ==> final(expr)@ == (ExprView::Boolean { span, literal: true }),
            self.this_depth != 0 ==> final(expr)@ == old(expr)@,
    {
        if self.this_depth == 0 {
            *expr = Expr::Boolean { span, literal: true };
        }
    }
}

} // verus!
