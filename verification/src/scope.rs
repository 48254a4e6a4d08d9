//! The scope tree: nested lexical scopes, each with the names it binds, and
//! the lookups that walk from a scope towards the root.

use vstd::prelude::*;
use crate::node::{ScopeId, SymbolId};

verus! {

#[derive(Clone, Copy, Debug, PartialEq, Eq, Structural)]
pub enum ScopeKind {
    /// The outermost scope of a script.
    Top,
    Function,
    Block,
    Class,
    StaticBlock,
    Module,
}

/// Scopes of these kinds hold the `var` declarations made anywhere inside
/// them, short of the next such scope.
pub open spec fn holds_vars(kind: ScopeKind) -> bool {
    kind is Top || kind is Function || kind is StaticBlock || kind is Module
}

pub struct BindingView {
    pub name: Seq<char>,
    pub symbol: SymbolId,
}

pub struct ScopeView {
    pub parent: Option<ScopeId>,
    pub kind: ScopeKind,
    pub bindings: Seq<BindingView>,
}

struct Binding {
    name: String,
    symbol: SymbolId,
}

struct Scope {
    parent: Option<ScopeId>,
    kind: ScopeKind,
    bindings: Vec<Binding>,
}

impl View for Binding {
    type V = BindingView;

    closed spec fn view(&self) -> BindingView {
        BindingView { name: self.name@, symbol: self.symbol }
    }
}

impl View for Scope {
    type V = ScopeView;

    closed spec fn view(&self) -> ScopeView {
        ScopeView {
            parent: self.parent,
            kind: self.kind,
            bindings: self.bindings@.map_values(|b: Binding| b@),
        }
    }
}

/// The symbol that the first binding of `name` at or after `from` gives it.
pub open spec fn find_from(bindings: Seq<BindingView>, name: Seq<char>, from: int) -> Option<
    SymbolId,
>
    decreases bindings.len() - from,
{
    if from < 0 || from >= bindings.len() {
        None
    } else if bindings[from].name == name {
        Some(bindings[from].symbol)
    } else {
        find_from(bindings, name, from + 1)
    }
}

/// The symbol that `scope` itself binds `name` to.
pub open spec fn bound_in(scope: ScopeView, name: Seq<char>) -> Option<SymbolId> {
    find_from(scope.bindings, name, 0)
}

/// Some scope binds `name`.
pub open spec fn name_in_use(scopes: Seq<ScopeView>, name: Seq<char>) -> bool {
    exists|k: int, i: int|
        0 <= k < scopes.len() && 0 <= i < scopes[k].bindings.len()
            && (#[trigger] scopes[k].bindings[i]).name == name
}

/// Every binding names a symbol below `limit`.
pub open spec fn binds_below(scopes: Seq<ScopeView>, limit: int) -> bool {
    forall|k: int, i: int|
        0 <= k < scopes.len() && 0 <= i < scopes[k].bindings.len() ==> (
        #[trigger] scopes[k].bindings[i]).symbol < limit
}

/// Parents precede their children, and no scope binds a name twice.
pub open spec fn scopes_wf(scopes: Seq<ScopeView>) -> bool {
    &&& forall|k: int|
        0 <= k < scopes.len() ==> match (#[trigger] scopes[k]).parent {
            Some(p) => p < k,
            None => true,
        }
    &&& forall|k: int, i: int, j: int|
        0 <= k < scopes.len() && 0 <= i < j < scopes[k].bindings.len() ==> (
        #[trigger] scopes[k].bindings[i]).name != (#[trigger] scopes[k].bindings[j]).name
}

/// The nearest binding of `name` seen from `scope`: that of `scope` itself,
/// or else of the closest scope above it that has one.
pub open spec fn lookup_binding_spec(scopes: Seq<ScopeView>, scope: int, name: Seq<char>) -> Option<
    SymbolId,
>
    decreases scope,
{
    if !(0 <= scope < scopes.len()) {
        None
    } else {
        match bound_in(scopes[scope], name) {
            Some(s) => Some(s),
            None => match scopes[scope].parent {
                Some(p) => if p < scope {
                    lookup_binding_spec(scopes, p as int, name)
                } else {
                    None
                },
                None => None,
            },
        }
    }
}

/// `a` is `s` or one of the scopes above it.
pub open spec fn scope_encloses(scopes: Seq<ScopeView>, a: int, s: int) -> bool
    decreases s,
{
    if !(0 <= s < scopes.len()) {
        false
    } else if a == s {
        true
    } else {
        match scopes[s].parent {
            Some(p) => p < s && scope_encloses(scopes, a, p as int),
            None => false,
        }
    }
}

/// The scope that holds the `var` declarations made in `s`: `s` itself or the
/// closest scope above it of such a kind, or the outermost scope reached.
pub open spec fn variable_scope_spec(scopes: Seq<ScopeView>, s: int) -> int
    decreases s,
{
    if !(0 <= s < scopes.len()) {
        s
    } else if holds_vars(scopes[s].kind) {
        s
    } else {
        match scopes[s].parent {
            Some(p) => if p < s {
                variable_scope_spec(scopes, p as int)
            } else {
                s
            },
            None => s,
        }
    }
}

/// If nothing from `from` on binds `name`, the search finds nothing.
pub proof fn lemma_find_from_none(bindings: Seq<BindingView>, name: Seq<char>, from: int)
    requires
        0 <= from,
        forall|i: int| from <= i < bindings.len() ==> (#[trigger] bindings[i]).name != name,
    ensures
        find_from(bindings, name, from).is_none(),
    decreases bindings.len() - from,
{
    if from < bindings.len() {
        lemma_find_from_none(bindings, name, from + 1);
    }
}

/// What the search finds is the symbol of a binding of `name`.
pub proof fn lemma_find_from_some(bindings: Seq<BindingView>, name: Seq<char>, from: int)
    requires
        0 <= from,
        find_from(bindings, name, from).is_some(),
    ensures
        exists|i: int|
            from <= i < bindings.len() && (#[trigger] bindings[i]).name == name
                && find_from(bindings, name, from) == Some(bindings[i].symbol),
    decreases bindings.len() - from,
{
    if bindings[from].name == name {
        assert(bindings[from].name == name && find_from(bindings, name, from) == Some(
            bindings[from].symbol,
        ));
    } else {
        lemma_find_from_some(bindings, name, from + 1);
        let i = choose|i: int|
            from + 1 <= i < bindings.len() && (#[trigger] bindings[i]).name == name && find_from(
                bindings,
                name,
                from + 1,
            ) == Some(bindings[i].symbol);
        assert(bindings[i].name == name);
    }
}

/// A name that no scope binds is visible from nowhere.
pub proof fn law_unused_name_is_invisible(scopes: Seq<ScopeView>, scope: int, name: Seq<char>)
    requires
        !name_in_use(scopes, name),
    ensures
        lookup_binding_spec(scopes, scope, name).is_none(),
    decreases scope,
{
    if 0 <= scope < scopes.len() {
        assert forall|i: int| 0 <= i < scopes[scope].bindings.len() implies (
        #[trigger] scopes[scope].bindings[i]).name != name by {
            if scopes[scope].bindings[i].name == name {
                assert(name_in_use(scopes, name));
            }
        }
        lemma_find_from_none(scopes[scope].bindings, name, 0);
        match scopes[scope].parent {
            Some(p) => {
                if p < scope {
                    law_unused_name_is_invisible(scopes, p as int, name);
                }
            },
            None => {},
        }
    }
}

/// The scope arena. Scopes are added parent first; bindings are added to a
/// scope one name at a time.
pub struct ScopeTree {
    scopes: Vec<Scope>,
}

impl View for ScopeTree {
    type V = Seq<ScopeView>;

    closed spec fn view(&self) -> Seq<ScopeView> {
        self.scopes@.map_values(|s: Scope| s@)
    }
}

impl ScopeTree {
    pub open spec fn wf(&self) -> bool {
        scopes_wf(self@)
    }

    pub fn new() -> (tree: ScopeTree)
        ensures
            tree@ == Seq::<ScopeView>::empty(),
            tree.wf(),
    {
        let tree = ScopeTree { scopes: Vec::new() };
        assert(tree@ =~= Seq::<ScopeView>::empty());
        tree
    }

    pub fn len(&self) -> (n: usize)
        ensures
            n == self@.len(),
    {
        self.scopes.len()
    }

    /// Adds an empty scope below `parent`, which must be in the tree already,
    /// and returns its id. A scope whose parent is not there is turned down.
    pub fn add_scope(&mut self, parent: Option<ScopeId>, kind: ScopeKind) -> (id: Option<ScopeId>)
        requires
            old(self).wf(),
        ensures
            final(self).wf(),
            match parent {
                Some(p) => p < old(self)@.len(),
                None => true,
            } ==> id == Some(old(self)@.len() as usize) && final(self)@ == old(self)@.push(
                ScopeView { parent, kind, bindings: Seq::empty() },
            ),
            match parent {
                Some(p) => p >= old(self)@.len(),
                None => false,
            } ==> id.is_none() && final(self)@ == old(self)@,
    {
        let known = match parent {
            Some(p) => p < self.scopes.len(),
            None => true,
        };
        if known {
            let id = self.scopes.len();
            let scope = Scope { parent, kind, bindings: Vec::new() };
            assert(scope@.bindings =~= Seq::<BindingView>::empty());
            self.scopes.push(scope);
            assert(self@ =~= old(self)@.push(ScopeView { parent, kind, bindings: Seq::empty() }));
            Some(id)
        } else {
            None
        }
    }

    /// The scope directly above `scope`; none for a root or an unknown id.
    pub fn parent(&self, scope: ScopeId) -> (parent: Option<ScopeId>)
        ensures
            parent == (if scope < self@.len() {
                self@[scope as int].parent
            } else {
                None
            }),
    {
        if scope < self.scopes.len() {
            self.scopes[scope].parent
        } else {
            None
        }
    }

    pub fn kind(&self, scope: ScopeId) -> (kind: Option<ScopeKind>)
        ensures
            kind == (if scope < self@.len() {
                Some(self@[scope as int].kind)
            } else {
                None
            }),
    {
        if scope < self.scopes.len() {
            Some(self.scopes[scope].kind)
        } else {
            None
        }
    }

    /// The symbol that `scope` itself binds `name` to.
    pub fn find_in_scope(&self, scope: ScopeId, name: &str) -> (found: Option<SymbolId>)
        ensures
            found == (if scope < self@.len() {
                bound_in(self@[scope as int], name@)
            } else {
                None
            }),
    {
        if scope >= self.scopes.len() {
            return None;
        }
        let wanted = name.to_owned();
        let bindings = &self.scopes[scope].bindings;
        let ghost views = self@[scope as int].bindings;
        let mut i: usize = 0;
        while i < bindings.len()
            invariant
                i <= bindings@.len(),
                wanted@ == name@,
                scope < self@.len(),
                views == self@[scope as int].bindings,
                views == bindings@.map_values(|b: Binding| b@),
                find_from(views, name@, 0) == find_from(views, name@, i as int),
            decreases bindings@.len() - i,
        {
            assert(views[i as int] == bindings@[i as int]@);
            if bindings[i].name == wanted {
                return Some(bindings[i].symbol);
            }
            i += 1;
        }
        None
    }

    /// The nearest binding of `name` seen from `scope`, walking up through
    /// the scopes above it.
    pub fn lookup_binding(&self, scope: ScopeId, name: &str) -> (found: Option<SymbolId>)
        requires
            self.wf(),
        ensures
            found == lookup_binding_spec(self@, scope as int, name@),
    {
        if scope >= self.scopes.len() {
            return None;
        }
        let mut cur = scope;
        loop
            invariant
                self.wf(),
                cur < self@.len(),
                lookup_binding_spec(self@, scope as int, name@) == lookup_binding_spec(
                    self@,
                    cur as int,
                    name@,
                ),
            decreases cur,
        {
            let here = self.find_in_scope(cur, name);
            if here.is_some() {
                return here;
            }
            match self.scopes[cur].parent {
                Some(p) => {
                    cur = p;
                },
                None => {
                    return None;
                },
            }
        }
    }

    /// Whether `a` is `s` or lies above it.
    pub fn encloses(&self, a: ScopeId, s: ScopeId) -> (yes: bool)
        requires
            self.wf(),
        ensures
            yes == scope_encloses(self@, a as int, s as int),
    {
        if s >= self.scopes.len() {
            return false;
        }
        let mut cur = s;
        loop
            invariant
                self.wf(),
                cur < self@.len(),
                scope_encloses(self@, a as int, s as int) == scope_encloses(
                    self@,
                    a as int,
                    cur as int,
                ),
            decreases cur,
        {
            if cur == a {
                return true;
            }
            match self.scopes[cur].parent {
                Some(p) => {
                    cur = p;
                },
                None => {
                    return false;
                },
            }
        }
    }

    /// The scope that holds the `var` declarations made in `s`.
    pub fn variable_scope(&self, s: ScopeId) -> (v: ScopeId)
        requires
            self.wf(),
        ensures
            v == variable_scope_spec(self@, s as int),
    {
        if s >= self.scopes.len() {
            return s;
        }
        let mut cur = s;
        loop
            invariant
                self.wf(),
                cur < self@.len(),
                variable_scope_spec(self@, s as int) == variable_scope_spec(self@, cur as int),
            decreases cur,
        {
            match self.scopes[cur].kind {
                ScopeKind::Top | ScopeKind::Function | ScopeKind::StaticBlock | ScopeKind::Module => {
                    return cur;
                },
                _ => {},
            }
            match self.scopes[cur].parent {
                Some(p) => {
                    cur = p;
                },
                None => {
                    return cur;
                },
            }
        }
    }

    /// Whether any scope binds `name`.
    pub fn is_name_in_use(&self, name: &str) -> (used: bool)
        ensures
            used == name_in_use(self@, name@),
    {
        let wanted = name.to_owned();
        let mut k: usize = 0;
        while k < self.scopes.len()
            invariant
                k <= self@.len(),
                wanted@ == name@,
                forall|a: int, i: int|
                    0 <= a < k && 0 <= i < self@[a].bindings.len() ==> (
                    #[trigger] self@[a].bindings[i]).name != name@,
            decreases self@.len() - k,
        {
            let bindings = &self.scopes[k].bindings;
            let mut i: usize = 0;
            while i < bindings.len()
                invariant
                    k < self@.len(),
                    i <= bindings@.len(),
                    wanted@ == name@,
                    self@[k as int].bindings == bindings@.map_values(|b: Binding| b@),
                    forall|j: int|
                        0 <= j < i ==> (#[trigger] self@[k as int].bindings[j]).name != name@,
                decreases bindings@.len() - i,
            {
                if bindings[i].name == wanted {
                    assert(self@[k as int].bindings[i as int].name == name@);
                    return true;
                }
                i += 1;
            }
            k += 1;
        }
        false
    }

    /// Whether every binding names a symbol below `limit`.
    pub fn binds_only_below(&self, limit: usize) -> (yes: bool)
        ensures
            yes == binds_below(self@, limit as int),
    {
        let mut k: usize = 0;
        while k < self.scopes.len()
            invariant
                k <= self@.len(),
                forall|a: int, i: int|
                    0 <= a < k && 0 <= i < self@[a].bindings.len() ==> (
                    #[trigger] self@[a].bindings[i]).symbol < limit,
            decreases self@.len() - k,
        {
            let bindings = &self.scopes[k].bindings;
            let mut i: usize = 0;
            while i < bindings.len()
                invariant
                    k < self@.len(),
                    i <= bindings@.len(),
                    self@[k as int].bindings == bindings@.map_values(|b: Binding| b@),
                    forall|j: int|
                        0 <= j < i ==> (#[trigger] self@[k as int].bindings[j]).symbol < limit,
                decreases bindings@.len() - i,
            {
                if bindings[i].symbol >= limit {
                    assert(self@[k as int].bindings[i as int].symbol >= limit);
                    return false;
                }
                i += 1;
            }
            k += 1;
        }
        true
    }

    /// Binds `name` to `symbol` in `scope`. Turned down, with nothing
    /// changed, if the scope is unknown or binds `name` already.
    pub fn add_binding(&mut self, scope: ScopeId, name: String, symbol: SymbolId) -> (added: bool)
        requires
            old(self).wf(),
        ensures
            final(self).wf(),
            added == (scope < old(self)@.len() && bound_in(old(self)@[scope as int], name@).is_none()),
            added ==> final(self)@ == old(self)@.update(
                scope as int,
                ScopeView {
                    bindings: old(self)@[scope as int].bindings.push(
                        BindingView { name: name@, symbol },
                    ),
                    ..old(self)@[scope as int]
                },
            ),
            !added ==> final(self)@ == old(self)@,
    {
        if scope >= self.scopes.len() {
            return false;
        }
        if self.find_in_scope(scope, name.as_str()).is_some() {
            return false;
        }
        let ghost before = self@;
        let ghost entry = BindingView { name: name@, symbol };
        self.scopes[scope].bindings.push(Binding { name, symbol });
        proof {
            let after = before.update(
                scope as int,
                ScopeView {
                    bindings: before[scope as int].bindings.push(entry),
                    ..before[scope as int]
                },
            );
            assert(self@[scope as int].bindings =~= before[scope as int].bindings.push(entry));
            assert(self@ =~= after);
            assert forall|i: int| 0 <= i < before[scope as int].bindings.len() implies (
            #[trigger] before[scope as int].bindings[i]).name != name@ by {
                if before[scope as int].bindings[i].name == name@ {
                    lemma_find_from_hit(before[scope as int].bindings, name@, 0, i);
                }
            }
        }
        true
    }
}

/// A binding of `name` at `at` or later means that the search finds one.
pub proof fn lemma_find_from_hit(bindings: Seq<BindingView>, name: Seq<char>, from: int, at: int)
    requires
        0 <= from <= at < bindings.len(),
        bindings[at].name == name,
    ensures
        find_from(bindings, name, from).is_some(),
    decreases at - from,
{
    if bindings[from].name != name {
        lemma_find_from_hit(bindings, name, from + 1, at);
    }
}

/// Which scope encloses which depends on the parent links alone.
pub proof fn lemma_encloses_by_parents(
    before: Seq<ScopeView>,
    after: Seq<ScopeView>,
    a: int,
    s: int,
)
    requires
        before.len() == after.len(),
        forall|k: int| 0 <= k < before.len() ==> (#[trigger] before[k]).parent == after[k].parent,
    ensures
        scope_encloses(before, a, s) == scope_encloses(after, a, s),
    decreases s,
{
    if 0 <= s < before.len() && a != s {
        match before[s].parent {
            Some(p) => {
                if p < s {
                    lemma_encloses_by_parents(before, after, a, p as int);
                }
            },
            None => {},
        }
    }
}


/// What encloses a scope encloses all that the scope encloses.
pub proof fn lemma_encloses_trans(scopes: Seq<ScopeView>, a: int, b: int, c: int)
    requires
        scope_encloses(scopes, a, b),
        scope_encloses(scopes, b, c),
    ensures
        scope_encloses(scopes, a, c),
    decreases c,
{
    if b != c && a != c {
        match scopes[c].parent {
            Some(p) => {
                lemma_encloses_trans(scopes, a, b, p as int);
            },
            None => {},
        }
    }
}

/// A scope binds a name to a symbol exactly when it holds a binding of the
/// two.
pub proof fn law_bound_in_is_a_binding(scopes: Seq<ScopeView>, k: int, name: Seq<char>, s: SymbolId)
    requires
        scopes_wf(scopes),
        0 <= k < scopes.len(),
    ensures
        bound_in(scopes[k], name) == Some(s) <==> exists|i: int|
            0 <= i < scopes[k].bindings.len() && #[trigger] scopes[k].bindings[i] == (BindingView {
                name,
                symbol: s,
            }),
{
    let bindings = scopes[k].bindings;
    if bound_in(scopes[k], name) == Some(s) {
        lemma_find_from_some(bindings, name, 0);
        let i = choose|i: int|
            0 <= i < bindings.len() && (#[trigger] bindings[i]).name == name && find_from(
                bindings,
                name,
                0,
            ) == Some(bindings[i].symbol);
        assert(bindings[i] == BindingView { name, symbol: s });
    }
    if exists|i: int|
        0 <= i < bindings.len() && #[trigger] bindings[i] == (BindingView { name, symbol: s }) {
        let i = choose|i: int|
            0 <= i < bindings.len() && #[trigger] bindings[i] == (BindingView { name, symbol: s });
        lemma_find_from_hit(bindings, name, 0, i);
        lemma_find_from_some(bindings, name, 0);
        let j = choose|j: int|
            0 <= j < bindings.len() && (#[trigger] bindings[j]).name == name && find_from(
                bindings,
                name,
                0,
            ) == Some(bindings[j].symbol);
        assert(bindings[i].name == bindings[j].name);
        assert(i == j);
    }
}

/// A lookup gives the binding of the nearest scope that has one: that
/// scope encloses the one the lookup starts from, and no scope between the
/// two binds the name. It gives nothing only if no enclosing scope binds
/// the name.
pub proof fn law_lookup_is_nearest_binding(scopes: Seq<ScopeView>, scope: int, name: Seq<char>)
    requires
        scopes_wf(scopes),
    ensures
        match lookup_binding_spec(scopes, scope, name) {
            Some(s) => exists|k: int|
                scope_encloses(scopes, k, scope) && bound_in(#[trigger] scopes[k], name) == Some(s)
                    && forall|j: int|
                    j != k && scope_encloses(scopes, k, j) && #[trigger] scope_encloses(
                        scopes,
                        j,
                        scope,
                    ) ==> bound_in(scopes[j], name).is_none(),
            None => forall|k: int| #[trigger]
                scope_encloses(scopes, k, scope) ==> bound_in(scopes[k], name).is_none(),
        },
    decreases scope,
{
    if 0 <= scope < scopes.len() {
        match bound_in(scopes[scope], name) {
            Some(s) => {
                assert forall|j: int|
                    j != scope && scope_encloses(scopes, scope, j) && #[trigger] scope_encloses(
                        scopes,
                        j,
                        scope,
                    ) implies bound_in(scopes[j], name).is_none() by {
                    lemma_enclosing_is_not_later(scopes, scope, j);
                    lemma_enclosing_is_not_later(scopes, j, scope);
                }
                assert(scope_encloses(scopes, scope, scope) && bound_in(scopes[scope], name)
                    == Some(s));
            },
            None => {
                match scopes[scope].parent {
                    Some(p) => {
                        law_lookup_is_nearest_binding(scopes, p as int, name);
                        match lookup_binding_spec(scopes, p as int, name) {
                            Some(s) => {
                                let k = choose|k: int|
                                    scope_encloses(scopes, k, p as int) && bound_in(
                                        #[trigger] scopes[k],
                                        name,
                                    ) == Some(s) && forall|j: int|
                                        j != k && scope_encloses(scopes, k, j)
                                            && #[trigger] scope_encloses(scopes, j, p as int)
                                            ==> bound_in(scopes[j], name).is_none();
                                lemma_enclosing_is_not_later(scopes, k, p as int);
                                assert(scope_encloses(scopes, k, scope));
                                assert forall|j: int|
                                    j != k && scope_encloses(scopes, k, j)
                                        && #[trigger] scope_encloses(
                                        scopes,
                                        j,
                                        scope,
                                    ) implies bound_in(scopes[j], name).is_none() by {
                                    if j != scope {
                                        assert(scope_encloses(scopes, j, p as int));
                                    }
                                }
                            },
                            None => {
                                assert forall|k: int| #[trigger]
                                    scope_encloses(scopes, k, scope) implies bound_in(
                                    scopes[k],
                                    name,
                                ).is_none() by {
                                    if k != scope {
                                        assert(scope_encloses(scopes, k, p as int));
                                    }
                                }
                            },
                        }
                    },
                    None => {},
                }
            },
        }
    }
}

/// A scope that encloses another was made no later than it.
pub proof fn lemma_enclosing_is_not_later(scopes: Seq<ScopeView>, a: int, s: int)
    requires
        scope_encloses(scopes, a, s),
    ensures
        0 <= a <= s < scopes.len(),
    decreases s,
{
    if a != s {
        match scopes[s].parent {
            Some(p) => {
                lemma_enclosing_is_not_later(scopes, a, p as int);
            },
            None => {},
        }
    }
}

} // verus!
