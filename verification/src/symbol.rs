//! The symbol and reference table: what each symbol declares, which
//! references resolve to it, and the one operation that moves a reference
//! from one symbol to another.

use vstd::prelude::*;
use crate::node::{NodeId, ReferenceId, ScopeId, SymbolId};

verus! {

/// How a binding was declared.
#[derive(Clone, Copy, Debug, PartialEq, Eq, Structural)]
pub enum DeclarationKind {
    /// `var`: one binding for the whole enclosing function.
    Var,
    /// `let`: one binding per block, assignable.
    Let,
    /// `const`: one binding per block, never assigned again.
    Const,
    Function,
    Class,
    Parameter,
}

/// An occurrence of an identifier. A declaration that also gives its
/// binding a value counts as a writing occurrence of the declared name.
#[derive(Clone, Copy, Debug, PartialEq, Eq, Structural)]
pub struct Reference {
    /// The node of the occurrence.
    pub node: NodeId,
    /// The symbol it resolves to; none for a global or unknown name.
    pub symbol: Option<SymbolId>,
    pub read: bool,
    pub write: bool,
    /// The scope that the occurrence stands in.
    pub scope: ScopeId,
}

pub struct SymbolView {
    pub name: Seq<char>,
    pub kind: DeclarationKind,
    /// The node that declares the symbol.
    pub declaration: NodeId,
    /// The scope that binds it.
    pub scope: ScopeId,
    /// The references that resolve to it, in the order they were registered.
    pub references: Seq<ReferenceId>,
}

pub struct TableView {
    pub symbols: Seq<SymbolView>,
    pub references: Seq<Reference>,
}

struct Symbol {
    name: String,
    kind: DeclarationKind,
    declaration: NodeId,
    scope: ScopeId,
    references: Vec<ReferenceId>,
}

impl View for Symbol {
    type V = SymbolView;

    closed spec fn view(&self) -> SymbolView {
        SymbolView {
            name: self.name@,
            kind: self.kind,
            declaration: self.declaration,
            scope: self.scope,
            references: self.references@,
        }
    }
}

/// Why the table turned an operation down.
#[derive(Clone, Copy, Debug, PartialEq, Eq, Structural)]
pub enum TableError {
    /// The reference id names no reference.
    UnknownReference,
    /// The symbol id names no symbol.
    UnknownSymbol,
    /// The scope id names no scope.
    UnknownScope,
    /// The node id names no node.
    UnknownNode,
    /// The symbol's scope does not enclose the reference's.
    ScopeViolation,
    /// Every candidate name is taken.
    NoFreeName,
    /// Constructs with a `this` of their own are nested deeper than can be
    /// counted.
    TooDeep,
}

/// Each resolved reference is registered with its symbol and with no other,
/// exactly once; an unresolved one is registered nowhere.
pub open spec fn table_wf(t: TableView) -> bool {
    &&& t.symbols.len() <= usize::MAX
    &&& t.references.len() <= usize::MAX
    &&& forall|r: int|
        0 <= r < t.references.len() ==> match (#[trigger] t.references[r]).symbol {
            Some(s) => s < t.symbols.len() && t.symbols[s as int].references.contains(r as usize),
            None => true,
        }
    &&& forall|s: int, i: int|
        0 <= s < t.symbols.len() && 0 <= i < t.symbols[s].references.len() ==> {
            let r = #[trigger] t.symbols[s].references[i];
            r < t.references.len() && t.references[r as int].symbol == Some(s as usize)
        }
    &&& forall|s: int|
        0 <= s < t.symbols.len() ==> (#[trigger] t.symbols[s]).references.no_duplicates()
}

/// The table after `reference` has been added at the end and, if it is
/// resolved, registered with its symbol.
pub open spec fn registered(t: TableView, reference: Reference) -> TableView {
    TableView {
        symbols: Seq::new(
            t.symbols.len(),
            |s: int|
                if reference.symbol == Some(s as usize) {
                    SymbolView {
                        references: t.symbols[s].references.push(t.references.len() as usize),
                        ..t.symbols[s]
                    }
                } else {
                    t.symbols[s]
                },
        ),
        references: t.references.push(reference),
    }
}

/// `refs` with its entry `r` taken out.
pub open spec fn without(refs: Seq<ReferenceId>, r: ReferenceId) -> Seq<ReferenceId> {
    if refs.contains(r) {
        refs.remove(refs.index_of(r))
    } else {
        refs
    }
}

/// The table after reference `r` has been moved to symbol `to`: the
/// reference names `to`, the set it was in has lost it, the set of `to` has
/// gained it at the end, and nothing else differs.
pub open spec fn redirected(t: TableView, r: ReferenceId, to: SymbolId) -> TableView {
    let from = t.references[r as int].symbol;
    if from == Some(to) {
        t
    } else {
        TableView {
            symbols: Seq::new(
                t.symbols.len(),
                |s: int|
                    if s == to {
                        SymbolView { references: t.symbols[s].references.push(r), ..t.symbols[s] }
                    } else if from == Some(s as usize) {
                        SymbolView {
                            references: without(t.symbols[s].references, r),
                            ..t.symbols[s]
                        }
                    } else {
                        t.symbols[s]
                    },
            ),
            references: t.references.update(
                r as int,
                Reference { symbol: Some(to), ..t.references[r as int] },
            ),
        }
    }
}

pub struct SymbolTable {
    symbols: Vec<Symbol>,
    references: Vec<Reference>,
}

impl View for SymbolTable {
    type V = TableView;

    closed spec fn view(&self) -> TableView {
        TableView { symbols: self.symbols@.map_values(|s: Symbol| s@), references: self.references@ }
    }
}

impl SymbolTable {
    pub open spec fn wf(&self) -> bool {
        table_wf(self@)
    }

    proof fn lemma_lengths_fit(&self)
        ensures
            self@.symbols.len() <= usize::MAX,
            self@.references.len() <= usize::MAX,
    {
        assert(self.symbols@.len() == self.symbols.len());
        assert(self.references@.len() == self.references.len());
    }

    pub fn new() -> (table: SymbolTable)
        ensures
            table@.symbols == Seq::<SymbolView>::empty(),
            table@.references == Seq::<Reference>::empty(),
            table.wf(),
    {
        let table = SymbolTable { symbols: Vec::new(), references: Vec::new() };
        assert(table@.symbols =~= Seq::<SymbolView>::empty());
        table
    }

    pub fn symbols_len(&self) -> (n: usize)
        ensures
            n == self@.symbols.len(),
    {
        self.symbols.len()
    }

    pub fn references_len(&self) -> (n: usize)
        ensures
            n == self@.references.len(),
    {
        self.references.len()
    }

    /// Adds a symbol that nothing refers to yet, and returns its id.
    pub fn create_symbol(
        &mut self,
        name: String,
        kind: DeclarationKind,
        declaration: NodeId,
        scope: ScopeId,
    ) -> (id: SymbolId)
        requires
            old(self).wf(),
        ensures
            final(self).wf(),
            id == old(self)@.symbols.len(),
            final(self)@.references == old(self)@.references,
            final(self)@.symbols == old(self)@.symbols.push(
                SymbolView { name: name@, kind, declaration, scope, references: Seq::empty() },
            ),
    {
        let id = self.symbols.len();
        let ghost view = SymbolView {
            name: name@,
            kind,
            declaration,
            scope,
            references: Seq::empty(),
        };
        let symbol = Symbol { name, kind, declaration, scope, references: Vec::new() };
        assert(symbol@ == view);
        self.symbols.push(symbol);
        assert(self@.symbols =~= old(self)@.symbols.push(view));
        proof {
            let t0 = old(self)@;
            let t1 = self@;
            self.lemma_lengths_fit();
            assert forall|r: int| 0 <= r < t1.references.len() implies match (
            #[trigger] t1.references[r]).symbol {
                Some(s) => s < t1.symbols.len() && t1.symbols[s as int].references.contains(
                    r as usize,
                ),
                None => true,
            } by {
                match t0.references[r].symbol {
                    Some(s) => {
                        assert(t1.symbols[s as int] == t0.symbols[s as int]);
                    },
                    None => {},
                }
            }
            assert forall|s: int, i: int|
                0 <= s < t1.symbols.len() && 0 <= i < t1.symbols[s].references.len() implies {
                let r = #[trigger] t1.symbols[s].references[i];
                r < t1.references.len() && t1.references[r as int].symbol == Some(s as usize)
            } by {
                assert(s < t0.symbols.len());
                assert(t1.symbols[s] == t0.symbols[s]);
                let r = t0.symbols[s].references[i];
            }
            assert forall|s: int| 0 <= s < t1.symbols.len() implies (
            #[trigger] t1.symbols[s]).references.no_duplicates() by {
                if s < t0.symbols.len() {
                    assert(t1.symbols[s] == t0.symbols[s]);
                }
            }
        }
        id
    }

    /// Adds a reference and, if it is resolved, registers it with its
    /// symbol. Turned down, with nothing changed, if the symbol is unknown.
    pub fn create_reference(&mut self, reference: Reference) -> (id: Option<ReferenceId>)
        requires
            old(self).wf(),
        ensures
            final(self).wf(),
            id.is_some() == match reference.symbol {
                Some(s) => s < old(self)@.symbols.len(),
                None => true,
            },
            id.is_none() ==> final(self)@ == old(self)@,
            id.is_some() ==> id == Some(old(self)@.references.len() as usize) && final(self)@
                == registered(old(self)@, reference),
    {
        let id = self.references.len();
        let ghost t0 = self@;
        match reference.symbol {
            Some(s) => {
                if s >= self.symbols.len() {
                    return None;
                }
                self.symbols[s].references.push(id);
            },
            None => {},
        }
        self.references.push(reference);
        proof {
            let t1 = self@;
            self.lemma_lengths_fit();
            assert forall|k: int| 0 <= k < t0.symbols.len() implies #[trigger] t1.symbols[k]
                == registered(t0, reference).symbols[k] by {
                if reference.symbol == Some(k as usize) {
                    assert(t1.symbols[k].references =~= t0.symbols[k].references.push(id));
                } else {
                    assert(t1.symbols[k] == t0.symbols[k]);
                }
            }
            assert(t1.symbols =~= registered(t0, reference).symbols);
            assert(t1 == registered(t0, reference));
            lemma_registered_keeps_wf(t0, reference);
        }
        Some(id)
    }

    /// The reference with this id, if there is one.
    pub fn reference(&self, id: ReferenceId) -> (reference: Option<Reference>)
        ensures
            reference == (if id < self@.references.len() {
                Some(self@.references[id as int])
            } else {
                None
            }),
    {
        if id < self.references.len() {
            Some(self.references[id])
        } else {
            None
        }
    }

    pub fn name(&self, symbol: SymbolId) -> (name: Option<String>)
        ensures
            symbol < self@.symbols.len() ==> name.is_some() && name.unwrap()@
                == self@.symbols[symbol as int].name,
            symbol >= self@.symbols.len() ==> name.is_none(),
    {
        if symbol < self.symbols.len() {
            Some(self.symbols[symbol].name.clone())
        } else {
            None
        }
    }

    pub fn kind(&self, symbol: SymbolId) -> (kind: Option<DeclarationKind>)
        ensures
            kind == (if symbol < self@.symbols.len() {
                Some(self@.symbols[symbol as int].kind)
            } else {
                None
            }),
    {
        if symbol < self.symbols.len() {
            Some(self.symbols[symbol].kind)
        } else {
            None
        }
    }

    /// The node that declares the symbol.
    pub fn declaration(&self, symbol: SymbolId) -> (node: Option<NodeId>)
        ensures
            node == (if symbol < self@.symbols.len() {
                Some(self@.symbols[symbol as int].declaration)
            } else {
                None
            }),
    {
        if symbol < self.symbols.len() {
            Some(self.symbols[symbol].declaration)
        } else {
            None
        }
    }

    /// The scope that binds the symbol.
    pub fn scope(&self, symbol: SymbolId) -> (scope: Option<ScopeId>)
        ensures
            scope == (if symbol < self@.symbols.len() {
                Some(self@.symbols[symbol as int].scope)
            } else {
                None
            }),
    {
        if symbol < self.symbols.len() {
            Some(self.symbols[symbol].scope)
        } else {
            None
        }
    }

    /// How many references resolve to the symbol.
    pub fn resolved_count(&self, symbol: SymbolId) -> (n: usize)
        ensures
            n == (if symbol < self@.symbols.len() {
                self@.symbols[symbol as int].references.len()
            } else {
                0
            }),
    {
        if symbol < self.symbols.len() {
            self.symbols[symbol].references.len()
        } else {
            0
        }
    }

    /// The `i`-th of the references that resolve to the symbol.
    pub fn resolved(&self, symbol: SymbolId, i: usize) -> (reference: Option<ReferenceId>)
        ensures
            reference == (if symbol < self@.symbols.len() && i
                < self@.symbols[symbol as int].references.len() {
                Some(self@.symbols[symbol as int].references[i as int])
            } else {
                None
            }),
    {
        if symbol < self.symbols.len() && i < self.symbols[symbol].references.len() {
            Some(self.symbols[symbol].references[i])
        } else {
            None
        }
    }
}

impl SymbolTable {
    /// Where in the set of `symbol` the reference `r` stands.
    fn position(&self, symbol: SymbolId, r: ReferenceId) -> (at: usize)
        requires
            symbol < self@.symbols.len(),
            self@.symbols[symbol as int].references.contains(r),
        ensures
            at < self@.symbols[symbol as int].references.len(),
            self@.symbols[symbol as int].references[at as int] == r,
    {
        let refs = &self.symbols[symbol].references;
        let mut i: usize = 0;
        while i < refs.len()
            invariant
                i <= refs@.len(),
                symbol < self@.symbols.len(),
                refs@ == self@.symbols[symbol as int].references,
                refs@.contains(r),
                forall|j: int| 0 <= j < i ==> refs@[j] != r,
            decreases refs@.len() - i,
        {
            if refs[i] == r {
                return i;
            }
            i += 1;
        }
        proof {
            let at = refs@.index_of(r);
            assert(refs@[at] == r);
        }
        0
    }

    /// Moves reference `r` to symbol `to` in one step: the reference names
    /// `to`, the set it was registered in loses it, and the set of `to`
    /// gains it. Turned down, with nothing changed, if either id is unknown.
    pub fn redirect_reference(&mut self, r: ReferenceId, to: SymbolId) -> (done: Result<
        (),
        TableError,
    >)
        requires
            old(self).wf(),
        ensures
            final(self).wf(),
            r >= old(self)@.references.len() ==> done == Err::<(), TableError>(
                TableError::UnknownReference,
            ),
            r < old(self)@.references.len() && to >= old(self)@.symbols.len() ==> done == Err::<
                (),
                TableError,
            >(TableError::UnknownSymbol),
            r < old(self)@.references.len() && to < old(self)@.symbols.len() ==> done.is_ok(),
            done.is_ok() ==> final(self)@ == redirected(old(self)@, r, to),
            done.is_err() ==> final(self)@ == old(self)@,
    {
        if r >= self.references.len() {
            return Err(TableError::UnknownReference);
        }
        if to >= self.symbols.len() {
            return Err(TableError::UnknownSymbol);
        }
        let ghost t0 = self@;
        let reference = self.references[r];
        match reference.symbol {
            Some(from) => {
                if from == to {
                    return Ok(());
                }
                let at = self.position(from, r);
                proof {
                    let refs = t0.symbols[from as int].references;
                    assert(refs.no_duplicates());
                    assert(refs[refs.index_of(r)] == r);
                    assert(refs.index_of(r) == at);
                }
                self.symbols[from].references.remove(at);
            },
            None => {},
        }
        self.symbols[to].references.push(r);
        self.references[r] = Reference { symbol: Some(to), ..reference };
        proof {
            let t1 = self@;
            let want = redirected(t0, r, to);
            assert(t1.references =~= want.references);
            assert forall|k: int| 0 <= k < t0.symbols.len() implies t1.symbols[k]
                == want.symbols[k] by {
                if k == to {
                    assert(t1.symbols[k].references =~= t0.symbols[k].references.push(r));
                } else if reference.symbol == Some(k as usize) {
                    assert(t1.symbols[k].references =~= without(t0.symbols[k].references, r));
                } else {
                    assert(t1.symbols[k] == t0.symbols[k]);
                }
            }
            assert(t1.symbols =~= want.symbols);
            lemma_redirect_keeps_wf(t0, r, to);
        }
        Ok(())
    }
}

/// Taking `r` out of a set without duplicates leaves every other entry in,
/// in its old order, and `r` nowhere.
pub proof fn lemma_without(refs: Seq<ReferenceId>, r: ReferenceId)
    requires
        refs.no_duplicates(),
    ensures
        without(refs, r).no_duplicates(),
        !without(refs, r).contains(r),
        forall|x: ReferenceId| x != r ==> (without(refs, r).contains(x) <==> refs.contains(x)),
        forall|i: int|
            0 <= i < without(refs, r).len() ==> refs.contains(#[trigger] without(refs, r)[i]),
{
    if refs.contains(r) {
        let at = refs.index_of(r);
        assert(refs[at] == r);
        let out = refs.remove(at);
        assert(out.len() == refs.len() - 1);
        assert forall|i: int| 0 <= i < out.len() implies #[trigger] out[i] == (if i < at {
            refs[i]
        } else {
            refs[i + 1]
        }) by {}
        assert(out.no_duplicates());
        assert forall|i: int| 0 <= i < out.len() implies out[i] != r by {}
        assert forall|x: ReferenceId| x != r implies (out.contains(x) <==> refs.contains(x)) by {
            if refs.contains(x) {
                let j = refs.index_of(x);
                assert(refs[j] == x);
                if j < at {
                    assert(out[j] == x);
                } else {
                    assert(out[j - 1] == x);
                }
            }
            if out.contains(x) {
                let j = out.index_of(x);
                assert(out[j] == x);
                if j < at {
                    assert(refs[j] == x);
                } else {
                    assert(refs[j + 1] == x);
                }
            }
        }
        assert forall|i: int| 0 <= i < out.len() implies refs.contains(#[trigger] out[i]) by {
            if i < at {
                assert(refs[i] == out[i]);
            } else {
                assert(refs[i + 1] == out[i]);
            }
        }
    }
}

/// Moving a reference keeps the table well formed.
pub proof fn lemma_redirect_keeps_wf(t: TableView, r: ReferenceId, to: SymbolId)
    requires
        table_wf(t),
        r < t.references.len(),
        to < t.symbols.len(),
    ensures
        table_wf(redirected(t, r, to)),
{
    let from = t.references[r as int].symbol;
    let u = redirected(t, r, to);
    if from != Some(to) {
        assert(!t.symbols[to as int].references.contains(r)) by {
            if t.symbols[to as int].references.contains(r) {
                let i = t.symbols[to as int].references.index_of(r);
                assert(t.symbols[to as int].references[i] == r);
            }
        }
        assert forall|s: int| 0 <= s < t.symbols.len() implies t.symbols[s].references.no_duplicates(

        ) by {}
        match from {
            Some(f) => {
                lemma_without(t.symbols[f as int].references, r);
            },
            None => {},
        }
        assert forall|q: int| 0 <= q < u.references.len() implies match (
        #[trigger] u.references[q]).symbol {
            Some(s) => s < u.symbols.len() && u.symbols[s as int].references.contains(q as usize),
            None => true,
        } by {
            if q == r {
                let n = t.symbols[to as int].references.len() as int;
                assert(u.symbols[to as int].references[n] == r);
            } else {
                match t.references[q].symbol {
                    Some(s) => {
                        let i = t.symbols[s as int].references.index_of(q as usize);
                        assert(t.symbols[s as int].references[i] == q as usize);
                        if s == to {
                            assert(u.symbols[s as int].references[i] == q as usize);
                        } else if from == Some(s) {
                        } else {
                        }
                    },
                    None => {},
                }
            }
        }
        assert forall|s: int, i: int|
            0 <= s < u.symbols.len() && 0 <= i < u.symbols[s].references.len() implies {
            let q = #[trigger] u.symbols[s].references[i];
            q < u.references.len() && u.references[q as int].symbol == Some(s as usize)
        } by {
            let q = u.symbols[s].references[i];
            if s == to {
                if i < t.symbols[s].references.len() {
                    assert(t.symbols[s].references[i] == q);
                }
            } else if from == Some(s as usize) {
                assert(t.symbols[s].references.contains(q));
                let j = t.symbols[s].references.index_of(q);
                assert(t.symbols[s].references[j] == q);
            } else {
                assert(t.symbols[s].references[i] == q);
            }
        }
        assert forall|s: int| 0 <= s < u.symbols.len() implies (
        #[trigger] u.symbols[s]).references.no_duplicates() by {
            assert(t.symbols[s].references.no_duplicates());
        }
    }
}

/// A resolved reference is registered with its symbol and with no other;
/// an unresolved one with none.
pub proof fn law_registered_with_its_symbol_only(t: TableView, r: ReferenceId, s: SymbolId)
    requires
        table_wf(t),
        r < t.references.len(),
        s < t.symbols.len(),
    ensures
        t.symbols[s as int].references.contains(r) <==> t.references[r as int].symbol == Some(s),
{
    if t.symbols[s as int].references.contains(r) {
        let i = t.symbols[s as int].references.index_of(r);
        assert(t.symbols[s as int].references[i] == r);
    }
}

/// After a reference has been moved it is registered with its new symbol
/// and with no other, and every other reference is where it was.
pub proof fn law_redirect_moves_one_reference(t: TableView, r: ReferenceId, to: SymbolId)
    requires
        table_wf(t),
        r < t.references.len(),
        to < t.symbols.len(),
    ensures
        table_wf(redirected(t, r, to)),
        redirected(t, r, to).references.len() == t.references.len(),
        redirected(t, r, to).symbols.len() == t.symbols.len(),
        redirected(t, r, to).references[r as int].symbol == Some(to),
        forall|s: int|
            0 <= s < t.symbols.len() ==> (
            #[trigger] redirected(t, r, to).symbols[s].references.contains(r) <==> s == to),
        forall|q: int|
            0 <= q < t.references.len() && q != r ==> #[trigger] redirected(t, r, to).references[q]
                == t.references[q],
        forall|s: int, q: ReferenceId|
            0 <= s < t.symbols.len() && q != r ==> (
            #[trigger] redirected(t, r, to).symbols[s].references.contains(q)
                <==> t.symbols[s].references.contains(q)),
{
    lemma_redirect_keeps_wf(t, r, to);
    let u = redirected(t, r, to);
    let from = t.references[r as int].symbol;
    assert forall|s: int| 0 <= s < t.symbols.len() implies (
    #[trigger] u.symbols[s].references.contains(r) <==> s == to) by {
        law_registered_with_its_symbol_only(u, r, s as usize);
    }
    assert forall|s: int, q: ReferenceId| 0 <= s < t.symbols.len() && q != r implies (
    #[trigger] u.symbols[s].references.contains(q) <==> t.symbols[s].references.contains(q)) by {
        if from != Some(to) {
            if s == to {
                let old_refs = t.symbols[s].references;
                if old_refs.contains(q) {
                    let i = old_refs.index_of(q);
                    assert(old_refs[i] == q);
                    assert(u.symbols[s].references[i] == q);
                }
                if u.symbols[s].references.contains(q) {
                    let i = u.symbols[s].references.index_of(q);
                    assert(u.symbols[s].references[i] == q);
                    assert(old_refs[i] == q);
                }
            } else if from == Some(s as usize) {
                assert(t.symbols[s].references.no_duplicates());
                lemma_without(t.symbols[s].references, r);
            }
        }
    }
}

/// Adding a reference keeps the table well formed.
pub proof fn lemma_registered_keeps_wf(t: TableView, reference: Reference)
    requires
        table_wf(t),
        t.references.len() < usize::MAX,
        match reference.symbol {
            Some(s) => s < t.symbols.len(),
            None => true,
        },
    ensures
        table_wf(registered(t, reference)),
{
    let u = registered(t, reference);
    let id = t.references.len() as usize;
    assert forall|r: int| 0 <= r < u.references.len() implies match (
    #[trigger] u.references[r]).symbol {
        Some(q) => q < u.symbols.len() && u.symbols[q as int].references.contains(r as usize),
        None => true,
    } by {
        if r < t.references.len() {
            match t.references[r].symbol {
                Some(q) => {
                    let at = t.symbols[q as int].references.index_of(r as usize);
                    assert(t.symbols[q as int].references[at] == r as usize);
                    assert(u.symbols[q as int].references[at] == r as usize);
                },
                None => {},
            }
        } else {
            match reference.symbol {
                Some(s) => {
                    assert(u.symbols[s as int].references[t.symbols[s as int].references.len() as int]
                        == id);
                },
                None => {},
            }
        }
    }
    assert forall|k: int, i: int|
        0 <= k < u.symbols.len() && 0 <= i < u.symbols[k].references.len() implies {
        let r = #[trigger] u.symbols[k].references[i];
        r < u.references.len() && u.references[r as int].symbol == Some(k as usize)
    } by {
        if i < t.symbols[k].references.len() {
            let r = t.symbols[k].references[i];
            assert(u.symbols[k].references[i] == r);
        }
    }
    assert forall|k: int| 0 <= k < u.symbols.len() implies (
    #[trigger] u.symbols[k]).references.no_duplicates() by {
        assert(t.symbols[k].references.no_duplicates());
        if reference.symbol == Some(k as usize) {
            assert forall|i: int| 0 <= i < t.symbols[k].references.len() implies
                t.symbols[k].references[i] != id by {
                let r = t.symbols[k].references[i];
            }
        }
    }
}

} // verus!
