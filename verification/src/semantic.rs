//! One compilation unit's resolved tree: the node store, the scope tree and
//! the symbol table, checked against each other, and the two operations by
//! which a rewrite changes them.

use vstd::prelude::*;
use crate::node::{
    Node,
    NodeId,
    NodeKind,
    Nodes,
    ReferenceId,
    ScopeId,
    SymbolId,
    parents_precede,
    program_is_first,
    spans_ordered,
};
use crate::fresh::{candidate, candidate_name};
use crate::scope::{
    BindingView,
    ScopeTree,
    ScopeView,
    binds_below,
    law_unused_name_is_invisible,
    lemma_encloses_by_parents,
    lookup_binding_spec,
    lemma_find_from_none,
    name_in_use,
    scope_encloses,
    scopes_wf,
};
use crate::symbol::{
    DeclarationKind,
    Reference,
    SymbolTable,
    SymbolView,
    TableError,
    TableView,
    lemma_redirect_keeps_wf,
    lemma_registered_keeps_wf,
    redirected,
    registered,
    table_wf,
};

verus! {

pub struct SemanticView {
    pub nodes: Seq<Node>,
    pub scopes: Seq<ScopeView>,
    pub table: TableView,
}

/// The ids that one part holds of another all name something.
pub open spec fn ids_in_range(v: SemanticView) -> bool {
    &&& forall|n: int|
        0 <= n < v.nodes.len() ==> (#[trigger] v.nodes[n]).scope < v.scopes.len() && (
        match v.nodes[n].kind {
            NodeKind::Function { name: Some(s), .. } => s < v.table.symbols.len(),
            NodeKind::IdentifierReference { reference } => reference < v.table.references.len(),
            _ => true,
        })
    &&& forall|s: int|
        0 <= s < v.table.symbols.len() ==> (#[trigger] v.table.symbols[s]).declaration
            < v.nodes.len() && v.table.symbols[s].scope < v.scopes.len()
    &&& forall|r: int|
        0 <= r < v.table.references.len() ==> (#[trigger] v.table.references[r]).node
            < v.nodes.len() && v.table.references[r].scope < v.scopes.len()
    &&& binds_below(v.scopes, v.table.symbols.len() as int)
}

/// A resolved reference stands in the scope that binds its symbol, or in
/// one below it.
pub open spec fn resolved_in_scope(v: SemanticView) -> bool {
    forall|r: int|
        0 <= r < v.table.references.len() ==> match (#[trigger] v.table.references[r]).symbol {
            Some(s) => scope_encloses(
                v.scopes,
                v.table.symbols[s as int].scope as int,
                v.table.references[r].scope as int,
            ),
            None => true,
        }
}

pub open spec fn semantic_wf(v: SemanticView) -> bool {
    &&& v.nodes.len() <= usize::MAX
    &&& v.scopes.len() <= usize::MAX
    &&& parents_precede(v.nodes)
    &&& spans_ordered(v.nodes)
    &&& program_is_first(v.nodes)
    &&& scopes_wf(v.scopes)
    &&& table_wf(v.table)
    &&& ids_in_range(v)
    &&& resolved_in_scope(v)
}

pub struct Semantic {
    nodes: Nodes,
    scopes: ScopeTree,
    symbols: SymbolTable,
}

impl View for Semantic {
    type V = SemanticView;

    closed spec fn view(&self) -> SemanticView {
        SemanticView { nodes: self.nodes@, scopes: self.scopes@, table: self.symbols@ }
    }
}

impl Semantic {
    pub open spec fn wf(&self) -> bool {
        semantic_wf(self@)
    }

    pub fn nodes(&self) -> (nodes: &Nodes)
        ensures
            nodes@ == self@.nodes,
    {
        &self.nodes
    }

    pub fn scopes(&self) -> (scopes: &ScopeTree)
        ensures
            scopes@ == self@.scopes,
    {
        &self.scopes
    }

    pub fn symbols(&self) -> (symbols: &SymbolTable)
        ensures
            symbols@ == self@.table,
    {
        &self.symbols
    }

    fn nodes_in_range(nodes: &Nodes, scopes: usize, symbols: usize, references: usize) -> (yes:
        bool)
        ensures
            yes == forall|n: int|
                0 <= n < nodes@.len() ==> (#[trigger] nodes@[n]).scope < scopes && (
                match nodes@[n].kind {
                    NodeKind::Function { name: Some(s), .. } => s < symbols,
                    NodeKind::IdentifierReference { reference } => reference < references,
                    _ => true,
                }),
    {
        let mut n: usize = 0;
        while n < nodes.len()
            invariant
                n <= nodes@.len(),
                forall|m: int|
                    0 <= m < n ==> (#[trigger] nodes@[m]).scope < scopes && (match nodes@[m].kind {
                        NodeKind::Function { name: Some(s), .. } => s < symbols,
                        NodeKind::IdentifierReference { reference } => reference < references,
                        _ => true,
                    }),
            decreases nodes@.len() - n,
        {
            let node = nodes.get(n).unwrap();
            let fine = node.scope < scopes && match node.kind {
                NodeKind::Function { name: Some(s), .. } => s < symbols,
                NodeKind::IdentifierReference { reference } => reference < references,
                _ => true,
            };
            if !fine {
                return false;
            }
            n += 1;
        }
        true
    }

    fn symbols_in_range(symbols: &SymbolTable, nodes: usize, scopes: usize) -> (yes: bool)
        ensures
            yes == forall|s: int|
                0 <= s < symbols@.symbols.len() ==> (#[trigger] symbols@.symbols[s]).declaration
                    < nodes && symbols@.symbols[s].scope < scopes,
    {
        let mut s: usize = 0;
        while s < symbols.symbols_len()
            invariant
                s <= symbols@.symbols.len(),
                forall|t: int|
                    0 <= t < s ==> (#[trigger] symbols@.symbols[t]).declaration < nodes
                        && symbols@.symbols[t].scope < scopes,
            decreases symbols@.symbols.len() - s,
        {
            if symbols.declaration(s).unwrap() >= nodes || symbols.scope(s).unwrap() >= scopes {
                return false;
            }
            s += 1;
        }
        true
    }

    fn references_in_range(symbols: &SymbolTable, nodes: usize, scopes: usize) -> (yes: bool)
        ensures
            yes == forall|r: int|
                0 <= r < symbols@.references.len() ==> (#[trigger] symbols@.references[r]).node
                    < nodes && symbols@.references[r].scope < scopes,
    {
        let mut r: usize = 0;
        while r < symbols.references_len()
            invariant
                r <= symbols@.references.len(),
                forall|q: int|
                    0 <= q < r ==> (#[trigger] symbols@.references[q]).node < nodes
                        && symbols@.references[q].scope < scopes,
            decreases symbols@.references.len() - r,
        {
            let reference = symbols.reference(r).unwrap();
            if reference.node >= nodes || reference.scope >= scopes {
                return false;
            }
            r += 1;
        }
        true
    }

    fn references_in_scope(scopes: &ScopeTree, symbols: &SymbolTable) -> (yes: bool)
        requires
            scopes.wf(),
            symbols.wf(),
        ensures
            yes == forall|r: int|
                0 <= r < symbols@.references.len() ==> match (
                #[trigger] symbols@.references[r]).symbol {
                    Some(s) => scope_encloses(
                        scopes@,
                        symbols@.symbols[s as int].scope as int,
                        symbols@.references[r].scope as int,
                    ),
                    None => true,
                },
    {
        let mut r: usize = 0;
        while r < symbols.references_len()
            invariant
                scopes.wf(),
                symbols.wf(),
                r <= symbols@.references.len(),
                forall|q: int|
                    0 <= q < r ==> match (#[trigger] symbols@.references[q]).symbol {
                        Some(s) => scope_encloses(
                            scopes@,
                            symbols@.symbols[s as int].scope as int,
                            symbols@.references[q].scope as int,
                        ),
                        None => true,
                    },
            decreases symbols@.references.len() - r,
        {
            let reference = symbols.reference(r).unwrap();
            match reference.symbol {
                Some(s) => {
                    let home = symbols.scope(s).unwrap();
                    if !scopes.encloses(home, reference.scope) {
                        return false;
                    }
                },
                None => {},
            }
            r += 1;
        }
        true
    }

    /// Puts the three parts together, if they fit: every id that one part
    /// holds of another names something there, and every resolved reference
    /// stands within the scope of its symbol.
    pub fn new(nodes: Nodes, scopes: ScopeTree, symbols: SymbolTable) -> (semantic: Option<
        Semantic,
    >)
        requires
            nodes.wf(),
            scopes.wf(),
            symbols.wf(),
        ensures
            semantic.is_some() == semantic_wf(
                SemanticView { nodes: nodes@, scopes: scopes@, table: symbols@ },
            ),
            semantic.is_some() ==> semantic.unwrap()@ == (SemanticView {
                nodes: nodes@,
                scopes: scopes@,
                table: symbols@,
            }),
    {
        let n = nodes.len();
        let k = scopes.len();
        let fits = Self::nodes_in_range(&nodes, k, symbols.symbols_len(), symbols.references_len())
            && Self::symbols_in_range(&symbols, n, k) && Self::references_in_range(&symbols, n, k)
            && scopes.binds_only_below(symbols.symbols_len()) && Self::references_in_scope(
            &scopes,
            &symbols,
        );
        if fits {
            Some(Semantic { nodes, scopes, symbols })
        } else {
            None
        }
    }
}

/// The tree after a symbol that nothing refers to yet has been declared in
/// scope `target`, under `name`, as a `var`.
pub open spec fn with_fresh_symbol(
    v: SemanticView,
    name: Seq<char>,
    target: ScopeId,
    declaration: NodeId,
) -> SemanticView {
    SemanticView {
        nodes: v.nodes,
        scopes: v.scopes.update(
            target as int,
            ScopeView {
                bindings: v.scopes[target as int].bindings.push(
                    BindingView { name, symbol: v.table.symbols.len() as usize },
                ),
                ..v.scopes[target as int]
            },
        ),
        table: TableView {
            symbols: v.table.symbols.push(
                SymbolView {
                    name,
                    kind: DeclarationKind::Var,
                    declaration,
                    scope: target,
                    references: Seq::empty(),
                },
            ),
            references: v.table.references,
        },
    }
}

/// The `k`-th candidate is the first that no scope binds.
pub open spec fn is_first_free(scopes: Seq<ScopeView>, hint: Seq<char>, k: nat) -> bool {
    &&& 1 <= k
    &&& !name_in_use(scopes, candidate_name(hint, k))
    &&& forall|j: nat| 1 <= j < k ==> name_in_use(scopes, #[trigger] candidate_name(hint, j))
}

/// The tree after `reference` has been added at the end of the table and,
/// if it is resolved, registered with its symbol.
pub open spec fn with_reference(v: SemanticView, reference: Reference) -> SemanticView {
    SemanticView { table: registered(v.table, reference), ..v }
}

/// The tree after reference `r` has been moved to symbol `to`.
pub open spec fn with_redirect(v: SemanticView, r: ReferenceId, to: SymbolId) -> SemanticView {
    SemanticView { table: redirected(v.table, r, to), ..v }
}

/// Why `reference` cannot be entered, if anything stands against it.
pub open spec fn reference_fault(v: SemanticView, reference: Reference) -> Option<TableError> {
    if reference.node >= v.nodes.len() {
        Some(TableError::UnknownNode)
    } else if reference.scope >= v.scopes.len() {
        Some(TableError::UnknownScope)
    } else {
        match reference.symbol {
            Some(s) => if s >= v.table.symbols.len() {
                Some(TableError::UnknownSymbol)
            } else if !scope_encloses(
                v.scopes,
                v.table.symbols[s as int].scope as int,
                reference.scope as int,
            ) {
                Some(TableError::ScopeViolation)
            } else {
                None
            },
            None => None,
        }
    }
}

/// Why reference `r` cannot be moved to symbol `to`, if anything stands
/// against it.
pub open spec fn redirect_fault(v: SemanticView, r: ReferenceId, to: SymbolId) -> Option<
    TableError,
> {
    if r >= v.table.references.len() {
        Some(TableError::UnknownReference)
    } else if to >= v.table.symbols.len() {
        Some(TableError::UnknownSymbol)
    } else if !scope_encloses(
        v.scopes,
        v.table.symbols[to as int].scope as int,
        v.table.references[r as int].scope as int,
    ) {
        Some(TableError::ScopeViolation)
    } else {
        None
    }
}

impl Semantic {
    /// Declares a new `var` binding in `target_scope` under a name made from
    /// `name_hint` that no scope binds yet: the first free one of `_hint`,
    /// `_hint2`, `_hint3` and so on. `declaration` is the node that the
    /// binding is made for. Nothing changes unless the symbol is made.
    pub fn create_fresh_symbol(
        &mut self,
        name_hint: &str,
        target_scope: ScopeId,
        declaration: NodeId,
    ) -> (made: Result<SymbolId, TableError>)
        requires
            old(self).wf(),
        ensures
            final(self).wf(),
            target_scope >= old(self)@.scopes.len() ==> made == Err::<SymbolId, TableError>(
                TableError::UnknownScope,
            ),
            target_scope < old(self)@.scopes.len() && declaration >= old(self)@.nodes.len() ==> made
                == Err::<SymbolId, TableError>(TableError::UnknownNode),
            target_scope < old(self)@.scopes.len() && declaration < old(self)@.nodes.len() ==> (
            match made {
                Ok(id) => id == old(self)@.table.symbols.len() && exists|k: nat|
                    k <= u32::MAX && is_first_free(old(self)@.scopes, name_hint@, k) && final(self)@
                        == with_fresh_symbol(
                        old(self)@,
                        #[trigger] candidate_name(name_hint@, k),
                        target_scope,
                        declaration,
                    ),
                Err(e) => e == TableError::NoFreeName && forall|k: nat|
                    1 <= k <= u32::MAX ==> name_in_use(
                        old(self)@.scopes,
                        #[trigger] candidate_name(name_hint@, k),
                    ),
            }),
            made.is_err() ==> final(self)@ == old(self)@,
    {
        if target_scope >= self.scopes.len() {
            return Err(TableError::UnknownScope);
        }
        if declaration >= self.nodes.len() {
            return Err(TableError::UnknownNode);
        }
        let mut k: u32 = 1;
        loop
            invariant
                self == old(self),
                self.wf(),
                target_scope < self@.scopes.len(),
                declaration < self@.nodes.len(),
                1 <= k,
                forall|j: nat|
                    1 <= j < k ==> name_in_use(self@.scopes, #[trigger] candidate_name(name_hint@, j)),
            decreases u32::MAX - k,
        {
            let name = candidate(name_hint, k);
            if !self.scopes.is_name_in_use(name.as_str()) {
                let ghost v0 = self@;
                let ghost n = name@;
                let id = self.symbols.create_symbol(
                    name.clone(),
                    DeclarationKind::Var,
                    declaration,
                    target_scope,
                );
                proof {
                    assert forall|i: int| 0 <= i < v0.scopes[target_scope as int].bindings.len() implies (
                    #[trigger] v0.scopes[target_scope as int].bindings[i]).name != n by {
                        if v0.scopes[target_scope as int].bindings[i].name == n {
                            assert(name_in_use(v0.scopes, n));
                        }
                    }
                    lemma_find_from_none(v0.scopes[target_scope as int].bindings, n, 0);
                }
                let added = self.scopes.add_binding(target_scope, name, id);
                proof {
                    let v1 = self@;
                    assert(added);
                    assert(is_first_free(v0.scopes, name_hint@, k as nat));
                    assert(v1 == with_fresh_symbol(v0, n, target_scope, declaration));
                    lemma_fresh_symbol_keeps_wf(v0, n, target_scope, declaration);
                }
                return Ok(id);
            }
            if k == u32::MAX {
                return Err(TableError::NoFreeName);
            }
            k += 1;
        }
    }

    /// Adds a reference and, if it is resolved, registers it with its
    /// symbol. Turned down, with nothing changed, if its node, its scope or
    /// its symbol is unknown, or if the symbol's scope does not enclose it.
    pub fn create_reference(&mut self, reference: Reference) -> (made: Result<
        ReferenceId,
        TableError,
    >)
        requires
            old(self).wf(),
        ensures
            final(self).wf(),
            match reference_fault(old(self)@, reference) {
                Some(e) => made == Err::<ReferenceId, TableError>(e) && final(self)@ == old(self)@,
                None => made == Ok::<ReferenceId, TableError>(
                    old(self)@.table.references.len() as usize,
                ) && final(self)@ == with_reference(old(self)@, reference),
            },
    {
        if reference.node >= self.nodes.len() {
            return Err(TableError::UnknownNode);
        }
        if reference.scope >= self.scopes.len() {
            return Err(TableError::UnknownScope);
        }
        match reference.symbol {
            Some(s) => {
                if s >= self.symbols.symbols_len() {
                    return Err(TableError::UnknownSymbol);
                }
                let home = self.symbols.scope(s).unwrap();
                if !self.scopes.encloses(home, reference.scope) {
                    return Err(TableError::ScopeViolation);
                }
            },
            None => {},
        }
        let ghost v0 = self@;
        let made = self.symbols.create_reference(reference);
        proof {
            assert(self@ == with_reference(v0, reference));
            assert(table_wf(self@.table));
            lemma_reference_keeps_wf(v0, reference);
        }
        Ok(made.unwrap())
    }

    /// Moves reference `r` to symbol `to` in one step. Turned down, with
    /// nothing changed, if either id is unknown or if the scope of `to` does
    /// not enclose the reference.
    pub fn redirect_reference(&mut self, r: ReferenceId, to: SymbolId) -> (done: Result<
        (),
        TableError,
    >)
        requires
            old(self).wf(),
        ensures
            final(self).wf(),
            match redirect_fault(old(self)@, r, to) {
                Some(e) => done == Err::<(), TableError>(e) && final(self)@ == old(self)@,
                None => done.is_ok() && final(self)@ == with_redirect(old(self)@, r, to),
            },
    {
        let reference = match self.symbols.reference(r) {
            Some(reference) => reference,
            None => {
                return Err(TableError::UnknownReference);
            },
        };
        let home = match self.symbols.scope(to) {
            Some(home) => home,
            None => {
                return Err(TableError::UnknownSymbol);
            },
        };
        if !self.scopes.encloses(home, reference.scope) {
            return Err(TableError::ScopeViolation);
        }
        let ghost v0 = self@;
        let done = self.symbols.redirect_reference(r, to);
        proof {
            assert(self@ == with_redirect(v0, r, to));
            lemma_redirect_keeps_semantic_wf(v0, r, to);
        }
        Ok(())
    }
}

/// Declaring a fresh symbol keeps the tree well formed.
pub proof fn lemma_fresh_symbol_keeps_wf(
    v: SemanticView,
    name: Seq<char>,
    target: ScopeId,
    declaration: NodeId,
)
    requires
        semantic_wf(v),
        target < v.scopes.len(),
        declaration < v.nodes.len(),
        scopes_wf(with_fresh_symbol(v, name, target, declaration).scopes),
        table_wf(with_fresh_symbol(v, name, target, declaration).table),
    ensures
        semantic_wf(with_fresh_symbol(v, name, target, declaration)),
{
    let w = with_fresh_symbol(v, name, target, declaration);
    assert forall|n: int| 0 <= n < w.nodes.len() implies (#[trigger] w.nodes[n]).scope
        < w.scopes.len() && (match w.nodes[n].kind {
        NodeKind::Function { name: Some(s), .. } => s < w.table.symbols.len(),
        NodeKind::IdentifierReference { reference } => reference < w.table.references.len(),
        _ => true,
    }) by {
        assert(w.nodes[n] == v.nodes[n]);
    }
    assert forall|s: int| 0 <= s < w.table.symbols.len() implies (
    #[trigger] w.table.symbols[s]).declaration < w.nodes.len() && w.table.symbols[s].scope
        < w.scopes.len() by {
        if s < v.table.symbols.len() {
            assert(w.table.symbols[s] == v.table.symbols[s]);
        }
    }
    assert forall|r: int| 0 <= r < w.table.references.len() implies (
    #[trigger] w.table.references[r]).node < w.nodes.len() && w.table.references[r].scope
        < w.scopes.len() by {
        assert(w.table.references[r] == v.table.references[r]);
    }
    assert forall|k: int, i: int|
        0 <= k < w.scopes.len() && 0 <= i < w.scopes[k].bindings.len() implies (
    #[trigger] w.scopes[k].bindings[i]).symbol < w.table.symbols.len() by {
        if k == target && i == v.scopes[k].bindings.len() {
        } else {
            assert(w.scopes[k].bindings[i] == v.scopes[k].bindings[i]);
        }
    }
    assert forall|r: int| 0 <= r < w.table.references.len() implies match (
    #[trigger] w.table.references[r]).symbol {
        Some(s) => scope_encloses(
            w.scopes,
            w.table.symbols[s as int].scope as int,
            w.table.references[r].scope as int,
        ),
        None => true,
    } by {
        assert(w.table.references[r] == v.table.references[r]);
        match v.table.references[r].symbol {
            Some(s) => {
                assert(w.table.symbols[s as int] == v.table.symbols[s as int]);
                lemma_encloses_by_parents(
                    v.scopes,
                    w.scopes,
                    v.table.symbols[s as int].scope as int,
                    v.table.references[r].scope as int,
                );
            },
            None => {},
        }
    }
}

/// Entering a reference that nothing stands against keeps the tree well
/// formed.
pub proof fn lemma_reference_keeps_wf(v: SemanticView, reference: Reference)
    requires
        semantic_wf(v),
        reference_fault(v, reference).is_none(),
        v.table.references.len() < usize::MAX,
    ensures
        semantic_wf(with_reference(v, reference)),
{
    let w = with_reference(v, reference);
    lemma_registered_keeps_wf(v.table, reference);
    assert forall|r: int| 0 <= r < w.table.references.len() implies match (
    #[trigger] w.table.references[r]).symbol {
        Some(s) => scope_encloses(
            w.scopes,
            w.table.symbols[s as int].scope as int,
            w.table.references[r].scope as int,
        ),
        None => true,
    } by {
        if r < v.table.references.len() {
            assert(w.table.references[r] == v.table.references[r]);
        }
    }
    assert forall|s: int| 0 <= s < w.table.symbols.len() implies (
    #[trigger] w.table.symbols[s]).declaration < w.nodes.len() && w.table.symbols[s].scope
        < w.scopes.len() by {
        assert(w.table.symbols[s].declaration == v.table.symbols[s].declaration);
    }
    assert forall|r: int| 0 <= r < w.table.references.len() implies (
    #[trigger] w.table.references[r]).node < w.nodes.len() && w.table.references[r].scope
        < w.scopes.len() by {
        if r < v.table.references.len() {
            assert(w.table.references[r] == v.table.references[r]);
        }
    }
    assert forall|n: int| 0 <= n < w.nodes.len() implies (#[trigger] w.nodes[n]).scope
        < w.scopes.len() && (match w.nodes[n].kind {
        NodeKind::Function { name: Some(s), .. } => s < w.table.symbols.len(),
        NodeKind::IdentifierReference { reference } => reference < w.table.references.len(),
        _ => true,
    }) by {
        assert(w.nodes[n] == v.nodes[n]);
    }
}

/// Moving a reference that nothing stands against keeps the tree well
/// formed.
pub proof fn lemma_redirect_keeps_semantic_wf(v: SemanticView, r: ReferenceId, to: SymbolId)
    requires
        semantic_wf(v),
        redirect_fault(v, r, to).is_none(),
    ensures
        semantic_wf(with_redirect(v, r, to)),
{
    let w = with_redirect(v, r, to);
    lemma_redirect_keeps_wf(v.table, r, to);
    assert forall|q: int| 0 <= q < w.table.references.len() implies match (
    #[trigger] w.table.references[q]).symbol {
        Some(s) => scope_encloses(
            w.scopes,
            w.table.symbols[s as int].scope as int,
            w.table.references[q].scope as int,
        ),
        None => true,
    } by {
        if q != r {
            assert(w.table.references[q] == v.table.references[q]);
            match v.table.references[q].symbol {
                Some(s) => {
                    assert(w.table.symbols[s as int].scope == v.table.symbols[s as int].scope);
                },
                None => {},
            }
        }
    }
    assert forall|s: int| 0 <= s < w.table.symbols.len() implies (
    #[trigger] w.table.symbols[s]).declaration < w.nodes.len() && w.table.symbols[s].scope
        < w.scopes.len() by {
        assert(w.table.symbols[s].declaration == v.table.symbols[s].declaration);
        assert(w.table.symbols[s].scope == v.table.symbols[s].scope);
    }
    assert forall|q: int| 0 <= q < w.table.references.len() implies (
    #[trigger] w.table.references[q]).node < w.nodes.len() && w.table.references[q].scope
        < w.scopes.len() by {
        assert(w.table.references[q].node == v.table.references[q].node);
    }
    assert forall|n: int| 0 <= n < w.nodes.len() implies (#[trigger] w.nodes[n]).scope
        < w.scopes.len() && (match w.nodes[n].kind {
        NodeKind::Function { name: Some(s), .. } => s < w.table.symbols.len(),
        NodeKind::IdentifierReference { reference } => reference < w.table.references.len(),
        _ => true,
    }) by {
        assert(w.nodes[n] == v.nodes[n]);
    }
}

/// The name of a fresh symbol collides with nothing: before the symbol is
/// declared, a lookup of the name finds nothing, from whatever scope.
pub proof fn law_fresh_name_is_not_visible(v: SemanticView, hint: Seq<char>, k: nat, scope: int)
    requires
        is_first_free(v.scopes, hint, k),
    ensures
        lookup_binding_spec(v.scopes, scope, candidate_name(hint, k)).is_none(),
{
    law_unused_name_is_invisible(v.scopes, scope, candidate_name(hint, k));
}

/// Declaring a fresh symbol under a name that no scope binds, in a table
/// that has room for it, keeps the tree well formed.
pub proof fn lemma_fresh_symbol_is_wf(
    v: SemanticView,
    name: Seq<char>,
    target: ScopeId,
    declaration: NodeId,
)
    requires
        semantic_wf(v),
        target < v.scopes.len(),
        declaration < v.nodes.len(),
        !name_in_use(v.scopes, name),
        v.table.symbols.len() < usize::MAX,
    ensures
        semantic_wf(with_fresh_symbol(v, name, target, declaration)),
{
    let w = with_fresh_symbol(v, name, target, declaration);
    assert forall|k: int, i: int, j: int|
        0 <= k < w.scopes.len() && 0 <= i < j < w.scopes[k].bindings.len() implies (
    #[trigger] w.scopes[k].bindings[i]).name != (#[trigger] w.scopes[k].bindings[j]).name by {
        if k == target {
            if j == v.scopes[k].bindings.len() {
                assert(w.scopes[k].bindings[i] == v.scopes[k].bindings[i]);
                if v.scopes[k].bindings[i].name == name {
                    assert(name_in_use(v.scopes, name));
                }
            } else {
                assert(w.scopes[k].bindings[i] == v.scopes[k].bindings[i]);
                assert(w.scopes[k].bindings[j] == v.scopes[k].bindings[j]);
            }
        } else {
            assert(w.scopes[k] == v.scopes[k]);
        }
    }
    assert forall|k: int| 0 <= k < w.scopes.len() implies match (#[trigger] w.scopes[k]).parent {
        Some(p) => p < k,
        None => true,
    } by {
        assert(w.scopes[k].parent == v.scopes[k].parent);
    }
    assert forall|r: int| 0 <= r < w.table.references.len() implies match (
    #[trigger] w.table.references[r]).symbol {
        Some(s) => s < w.table.symbols.len() && w.table.symbols[s as int].references.contains(
            r as usize,
        ),
        None => true,
    } by {
        match v.table.references[r].symbol {
            Some(s) => {
                assert(w.table.symbols[s as int] == v.table.symbols[s as int]);
            },
            None => {},
        }
    }
    assert forall|s: int, i: int|
        0 <= s < w.table.symbols.len() && 0 <= i < w.table.symbols[s].references.len() implies {
        let r = #[trigger] w.table.symbols[s].references[i];
        r < w.table.references.len() && w.table.references[r as int].symbol == Some(s as usize)
    } by {
        assert(s < v.table.symbols.len());
        assert(w.table.symbols[s] == v.table.symbols[s]);
        let r = v.table.symbols[s].references[i];
    }
    assert forall|s: int| 0 <= s < w.table.symbols.len() implies (
    #[trigger] w.table.symbols[s]).references.no_duplicates() by {
        if s < v.table.symbols.len() {
            assert(w.table.symbols[s] == v.table.symbols[s]);
        }
    }
    lemma_fresh_symbol_keeps_wf(v, name, target, declaration);
}

} // verus!
