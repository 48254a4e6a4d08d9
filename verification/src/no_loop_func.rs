//! Functions created inside loops that capture a binding which the loop's
//! iterations share.
//!
//! A function is looked at when a loop repeats it: walking up from the
//! function, a loop is met before any function that is not simply run in
//! place. Such a function is reported when it refers to a binding declared
//! outside it that is written to where a later iteration, or code after the
//! loop, can change what the function sees.

pub mod laws;

use oxc_diagnostics::OxcDiagnostic;
use vstd::prelude::*;
use vstd::string::StringExecFns;
use crate::node::{
    Node,
    NodeId,
    NodeKind,
    SymbolId,
    function_kind,
    is_ancestor_or_self,
    is_function_kind,
    is_loop_kind,
    loop_repeats,
    nearest_enclosing_spec,
    repeats,
};
use crate::scope::variable_scope_spec;
use crate::semantic::{Semantic, SemanticView};
use crate::span::Span;
use crate::symbol::{DeclarationKind, Reference, SymbolView};

verus! {

/// The text of the report; the names of the variables go with it.
pub const NO_LOOP_FUNC_MESSAGE: &'static str =
    "Function declared in a loop contains unsafe references to variable(s) {{ varNames }}.";

/// The text of the report up to the names of the variables.
pub const NO_LOOP_FUNC_MESSAGE_HEAD: &'static str =
    "Function declared in a loop contains unsafe references to variable(s) ";

pub struct DiagnosticView {
    pub message: Seq<char>,
    pub function: NodeId,
    pub span: Span,
    pub variables: Seq<SymbolId>,
    pub names: Seq<Seq<char>>,
}

/// One report: the offending function, its span, and the variables that
/// it captures unsafely, each once, in the order of their first reference.
#[derive(Debug, PartialEq, Eq)]
pub struct Diagnostic {
    pub message: &'static str,
    pub function: NodeId,
    pub span: Span,
    pub variables: Vec<SymbolId>,
    pub names: Vec<String>,
}

impl View for Diagnostic {
    type V = DiagnosticView;

    open spec fn view(&self) -> DiagnosticView {
        DiagnosticView {
            message: self.message@,
            function: self.function,
            span: self.span,
            variables: self.variables@,
            names: self.names@.map_values(|s: String| s@),
        }
    }
}

/// The diagnostics of `oxc_diagnostics`, of which nothing is known here
/// but where they come from.
#[verifier::external_type_specification]
#[verifier::external_body]
pub struct ExOxcDiagnostic(OxcDiagnostic);

/// What a diagnostic of `oxc_diagnostics` holds; never looked into.
#[verifier::external_type_specification]
#[verifier::external_body]
pub struct ExOxcDiagnosticInner(oxc_diagnostics::OxcDiagnosticInner);

/// The warning that `OxcDiagnostic::warn` makes of `message`, labelled by
/// `OxcDiagnostic::with_label` with the span from `start` to `end`.
pub uninterp spec fn warning_with_label(message: Seq<char>, start: u32, end: u32) -> OxcDiagnostic;

/// The first `upto` of `names`, each in quotes, with commas between them.
pub open spec fn quoted(names: Seq<Seq<char>>, upto: nat) -> Seq<char>
    decreases upto,
{
    if upto == 0 || upto > names.len() {
        Seq::empty()
    } else if upto == 1 {
        "'"@ + names[0] + "'"@
    } else {
        quoted(names, (upto - 1) as nat) + ", "@ + "'"@ + names[upto - 1] + "'"@
    }
}

/// The message of a report with the names of its variables filled in.
pub open spec fn message_text(names: Seq<Seq<char>>) -> Seq<char> {
    NO_LOOP_FUNC_MESSAGE_HEAD@ + quoted(names, names.len()) + "."@
}

/// The diagnostics that go with `reports`, one for one.
pub open spec fn rendered(reports: Seq<DiagnosticView>) -> Seq<OxcDiagnostic> {
    reports.map_values(
        |d: DiagnosticView| warning_with_label(message_text(d.names), d.span.start, d.span.end),
    )
}

/// The call that `f` is the callee of stands directly above it.
pub open spec fn is_immediately_invoked(nodes: Seq<Node>, f: int) -> bool {
    0 <= f < nodes.len() && match nodes[f].parent {
        Some(p) => p < f && nodes[p as int].kind == (NodeKind::CallExpression { callee: f as usize }),
        None => false,
    }
}

/// The function has a name of its own that something refers to, so it can
/// be kept and called again later.
pub open spec fn refers_to_itself(v: SemanticView, f: int) -> bool {
    match v.nodes[f].kind {
        NodeKind::Function { name: Some(s), .. } => v.table.symbols[s as int].references.len() > 0,
        _ => false,
    }
}

/// The function runs once, where it stands, and is gone before the loop
/// goes round again: it is invoked on the spot, it is neither `async` nor a
/// generator, and nothing holds on to it.
pub open spec fn runs_in_place(v: SemanticView, f: int) -> bool {
    &&& 0 <= f < v.nodes.len()
    &&& v.nodes[f].kind matches NodeKind::Function { is_async, is_generator, .. }
    &&& !is_async
    &&& !is_generator
    &&& is_immediately_invoked(v.nodes, f)
    &&& !refers_to_itself(v, f)
}

/// The loop that repeats `n`: the first loop met on the way up whose
/// repeated part `n` lies in. The walk passes through functions that run in
/// place and ends without a loop at any other function.
pub open spec fn containing_loop(v: SemanticView, n: int) -> Option<NodeId>
    decreases n,
{
    if !(0 <= n < v.nodes.len()) {
        None
    } else {
        match v.nodes[n].parent {
            Some(p) => if p >= n {
                None
            } else if loop_repeats(v.nodes[p as int].kind, n as usize) {
                Some(p)
            } else if is_function_kind(v.nodes[p as int].kind) && !runs_in_place(v, p as int) {
                None
            } else {
                containing_loop(v, p as int)
            },
            None => None,
        }
    }
}

/// The outermost of the loops around `lp`, itself included, that start at
/// or after `border`, going up for as long as they do.
pub open spec fn outermost_loop(v: SemanticView, lp: int, border: u32) -> int
    decreases lp,
{
    if !(0 <= lp < v.nodes.len()) || v.nodes[lp].span.start < border {
        lp
    } else {
        match containing_loop(v, lp) {
            Some(up) => if up < lp && v.nodes[up as int].span.start >= border {
                outermost_loop(v, up as int, border)
            } else {
                lp
            },
            None => lp,
        }
    }
}

/// Where the text starts that runs again and again: the start of the
/// outermost loop around `lp`. For a `let` binding only the loops that
/// start after its declaration count, since every pass through the
/// declaration makes a new binding.
pub open spec fn write_border(v: SemanticView, lp: int, s: SymbolView) -> u32 {
    let after = if s.kind is Let {
        v.nodes[s.declaration as int].span.end
    } else {
        0u32
    };
    v.nodes[outermost_loop(v, lp, after)].span.start
}

/// The occurrence `w` cannot change what a function made in the loop sees:
/// it does not write, or it writes before `border` from within the function
/// that declares the binding.
pub open spec fn is_harmless(v: SemanticView, s: SymbolView, border: u32, w: Reference) -> bool {
    !w.write || (variable_scope_spec(v.scopes, s.scope as int) == variable_scope_spec(
        v.scopes,
        w.scope as int,
    ) && v.nodes[w.node as int].span.start < border)
}

/// The binding is declared afresh on each pass of the loop `lp`.
pub open spec fn is_fresh_per_iteration(v: SemanticView, lp: int, s: SymbolView) -> bool {
    s.kind is Let && v.nodes[lp].span.spec_strictly_contains(v.nodes[s.declaration as int].span)
}

/// A function made in loop `lp` may capture `symbol`: the binding is
/// constant, or fresh on each pass, or written only harmlessly.
pub open spec fn is_safe(v: SemanticView, lp: int, symbol: SymbolId) -> bool {
    let s = v.table.symbols[symbol as int];
    s.kind is Const || is_fresh_per_iteration(v, lp, s) || forall|i: int|
        0 <= i < s.references.len() ==> is_harmless(
            v,
            s,
            write_border(v, lp, s),
            v.table.references[#[trigger] s.references[i] as int],
        )
}

/// Reference `r` stands in function `f` and resolves to a binding declared
/// outside it.
pub open spec fn captures(v: SemanticView, f: int, r: int) -> bool {
    &&& 0 <= r < v.table.references.len()
    &&& v.table.references[r].symbol matches Some(s)
    &&& is_ancestor_or_self(v.nodes, f, v.table.references[r].node as int)
    &&& !is_ancestor_or_self(v.nodes, f, v.table.symbols[s as int].declaration as int)
}

/// Reference `r` is a capture by `f` that is not safe in loop `lp`.
pub open spec fn captures_unsafely(v: SemanticView, f: int, lp: int, r: int) -> bool {
    captures(v, f, r) && !is_safe(v, lp, v.table.references[r].symbol.unwrap())
}

/// The bindings that the first `upto` references capture unsafely, each
/// once, in the order of their first such reference.
pub open spec fn unsafe_variables(v: SemanticView, f: int, lp: int, upto: int) -> Seq<SymbolId>
    decreases upto,
{
    if upto <= 0 {
        Seq::empty()
    } else {
        let before = unsafe_variables(v, f, lp, upto - 1);
        if captures_unsafely(v, f, lp, upto - 1) && !before.contains(
            v.table.references[upto - 1].symbol.unwrap(),
        ) {
            before.push(v.table.references[upto - 1].symbol.unwrap())
        } else {
            before
        }
    }
}

/// What is reported for node `n`: nothing unless `n` is a function that a
/// loop repeats, that does not just run in place, and that captures some
/// binding unsafely.
pub open spec fn diagnosis(v: SemanticView, n: int) -> Option<DiagnosticView> {
    if 0 <= n < v.nodes.len() && is_function_kind(v.nodes[n].kind) && !runs_in_place(v, n) {
        match containing_loop(v, n) {
            Some(lp) => {
                let variables = unsafe_variables(v, n, lp as int, v.table.references.len() as int);
                if variables.len() > 0 {
                    Some(
                        DiagnosticView {
                            message: NO_LOOP_FUNC_MESSAGE@,
                            function: n as usize,
                            span: v.nodes[n].span,
                            variables,
                            names: variables.map_values(|s: SymbolId| v.table.symbols[s as int].name),
                        },
                    )
                } else {
                    None
                }
            },
            None => None,
        }
    } else {
        None
    }
}

/// The reports for the nodes below `upto`, in the order of the nodes.
pub open spec fn diagnoses(v: SemanticView, upto: int) -> Seq<DiagnosticView>
    decreases upto,
{
    if upto <= 0 {
        Seq::empty()
    } else {
        match diagnosis(v, upto - 1) {
            Some(d) => diagnoses(v, upto - 1).push(d),
            None => diagnoses(v, upto - 1),
        }
    }
}

/// The innermost function at or above `n`.
pub open spec fn enclosing_function(nodes: Seq<Node>, n: int) -> Option<NodeId> {
    if 0 <= n < nodes.len() && is_function_kind(nodes[n].kind) {
        Some(n as usize)
    } else {
        nearest_enclosing_spec(nodes, n, |k: NodeKind| is_function_kind(k))
    }
}

/// Calls `OxcDiagnostic::warn` with `message` and `OxcDiagnostic::with_label`
/// with `span`, turned into a span of `oxc_span` by `Span::new`. The result
/// is a warning with that message and that one label; the contract gives it
/// a name and says no more of it. The label is made of the span's start
/// and size, so the span must not end before it starts.
#[verifier::external_body]
fn no_loop_func_diagnostic(message: String, span: Span) -> (diagnostic: OxcDiagnostic)
    requires
        span.start <= span.end,
    ensures
        diagnostic == warning_with_label(message@, span.start, span.end),
{
    OxcDiagnostic::warn(message).with_label(oxc_span::Span::new(span.start, span.end))
}

/// The message of a report on the variables `names`.
pub fn message_for(names: &Vec<String>) -> (text: String)
    ensures
        text@ == message_text(names@.map_values(|s: String| s@)),
{
    let ghost views = names@.map_values(|s: String| s@);
    let mut list = String::new();
    let mut i: usize = 0;
    while i < names.len()
        invariant
            i <= names@.len(),
            views == names@.map_values(|s: String| s@),
            list@ == quoted(views, i as nat),
        decreases names@.len() - i,
    {
        assert(views[i as int] == names@[i as int]@);
        if i > 0 {
            list.append(", ");
        }
        list.append("'");
        list.append(names[i].as_str());
        list.append("'");
        i += 1;
        assert(list@ =~= quoted(views, i as nat));
    }
    let mut text = String::from_str(NO_LOOP_FUNC_MESSAGE_HEAD);
    text.append(list.as_str());
    text.append(".");
    assert(text@ =~= message_text(views));
    text
}

impl Diagnostic {
    /// The diagnostic for this report: a warning with the names of the
    /// variables in its message and the function as its label. None for a
    /// report whose span ends before it starts.
    pub fn to_diagnostic(&self) -> (diagnostic: Option<OxcDiagnostic>)
        ensures
            diagnostic == (if self.span.start <= self.span.end {
                Some(warning_with_label(message_text(self@.names), self.span.start, self.span.end))
            } else {
                None
            }),
    {
        if self.span.start <= self.span.end {
            Some(no_loop_func_diagnostic(message_for(&self.names), self.span))
        } else {
            None
        }
    }
}

/// The innermost function at or above `node`, if there is one.
pub fn get_function(node: NodeId, ctx: &Semantic) -> (function: Option<NodeId>)
    requires
        ctx.wf(),
    ensures
        function == enclosing_function(ctx@.nodes, node as int),
{
    let nodes = ctx.nodes();
    match nodes.get(node) {
        Some(n) => {
            if function_kind(&n.kind) {
                return Some(node);
            }
        },
        None => {},
    }
    nodes.nearest_enclosing(node, function_kind)
}

/// The loop that repeats a node lies above it and is a loop.
pub proof fn lemma_containing_loop_is_above(v: SemanticView, n: int)
    ensures
        match containing_loop(v, n) {
            Some(lp) => 0 <= lp < n < v.nodes.len() && is_loop_kind(v.nodes[lp as int].kind),
            None => true,
        },
    decreases n,
{
    if 0 <= n < v.nodes.len() {
        match v.nodes[n].parent {
            Some(p) => {
                if p < n {
                    lemma_containing_loop_is_above(v, p as int);
                }
            },
            None => {},
        }
    }
}

fn contains_symbol(list: &Vec<SymbolId>, symbol: SymbolId) -> (yes: bool)
    ensures
        yes == list@.contains(symbol),
{
    let mut i: usize = 0;
    while i < list.len()
        invariant
            i <= list@.len(),
            forall|j: int| 0 <= j < i ==> list@[j] != symbol,
        decreases list@.len() - i,
    {
        if list[i] == symbol {
            return true;
        }
        i += 1;
    }
    false
}

/// Whether the function at `f` runs once, where it stands.
pub fn check_runs_in_place(ctx: &Semantic, f: NodeId) -> (yes: bool)
    requires
        ctx.wf(),
    ensures
        yes == runs_in_place(ctx@, f as int),
{
    let nodes = ctx.nodes();
    let node = match nodes.get(f) {
        Some(node) => node,
        None => {
            return false;
        },
    };
    match node.kind {
        NodeKind::Function { is_async, is_generator, name, .. } => {
            if is_async || is_generator {
                return false;
            }
            let invoked = match node.parent {
                Some(p) => match nodes.get(p) {
                    Some(above) => match above.kind {
                        NodeKind::CallExpression { callee } => callee == f,
                        _ => false,
                    },
                    None => false,
                },
                None => false,
            };
            if !invoked {
                return false;
            }
            match name {
                Some(s) => ctx.symbols().resolved_count(s) == 0,
                None => true,
            }
        },
        _ => false,
    }
}

/// The loop that repeats `n`, if there is one.
pub fn find_containing_loop(ctx: &Semantic, n: NodeId) -> (found: Option<NodeId>)
    requires
        ctx.wf(),
    ensures
        found == containing_loop(ctx@, n as int),
{
    let nodes = ctx.nodes();
    if n >= nodes.len() {
        return None;
    }
    let mut cur = n;
    loop
        invariant
            ctx.wf(),
            nodes@ == ctx@.nodes,
            cur < nodes@.len(),
            containing_loop(ctx@, n as int) == containing_loop(ctx@, cur as int),
        decreases cur,
    {
        let p = match nodes.parent(cur) {
            Some(p) => p,
            None => {
                return None;
            },
        };
        let above = nodes.get(p).unwrap();
        if repeats(&above.kind, cur) {
            return Some(p);
        }
        if function_kind(&above.kind) && !check_runs_in_place(ctx, p) {
            return None;
        }
        cur = p;
    }
}

/// The outermost of the loops around `lp` that start at or after `border`.
pub fn find_outermost_loop(ctx: &Semantic, lp: NodeId, border: u32) -> (top: NodeId)
    requires
        ctx.wf(),
    ensures
        top == outermost_loop(ctx@, lp as int, border),
{
    let nodes = ctx.nodes();
    let mut cur = lp;
    loop
        invariant
            ctx.wf(),
            nodes@ == ctx@.nodes,
            outermost_loop(ctx@, lp as int, border) == outermost_loop(ctx@, cur as int, border),
        decreases cur,
    {
        let here = match nodes.get(cur) {
            Some(node) => node,
            None => {
                return cur;
            },
        };
        if here.span.start < border {
            return cur;
        }
        let up = match find_containing_loop(ctx, cur) {
            Some(up) => up,
            None => {
                return cur;
            },
        };
        proof {
            lemma_containing_loop_is_above(ctx@, cur as int);
        }
        if nodes.get(up).unwrap().span.start < border {
            return cur;
        }
        cur = up;
    }
}

/// Whether a function made in loop `lp` may capture `symbol`. No binding
/// is vouched for where the loop or the symbol is unknown.
pub fn check_safe(ctx: &Semantic, lp: NodeId, symbol: SymbolId) -> (safe: bool)
    requires
        ctx.wf(),
    ensures
        safe == (lp < ctx@.nodes.len() && symbol < ctx@.table.symbols.len() && is_safe(
            ctx@,
            lp as int,
            symbol,
        )),
{
    let nodes = ctx.nodes();
    let table = ctx.symbols();
    let scopes = ctx.scopes();
    if lp >= nodes.len() || symbol >= table.symbols_len() {
        return false;
    }
    let ghost s = ctx@.table.symbols[symbol as int];
    let kind = table.kind(symbol).unwrap();
    let declaration = table.declaration(symbol).unwrap();
    let declared = nodes.get(declaration).unwrap().span;
    let after = match kind {
        DeclarationKind::Const => {
            return true;
        },
        DeclarationKind::Let => {
            if nodes.get(lp).unwrap().span.strictly_contains(declared) {
                return true;
            }
            declared.end
        },
        _ => 0,
    };
    let top = find_outermost_loop(ctx, lp, after);
    proof {
        lemma_outermost_loop_in_range(ctx@, lp as int, after);
    }
    let border = nodes.get(top).unwrap().span.start;
    let home = scopes.variable_scope(table.scope(symbol).unwrap());
    let count = table.resolved_count(symbol);
    let mut i: usize = 0;
    while i < count
        invariant
            ctx.wf(),
            nodes@ == ctx@.nodes,
            table@ == ctx@.table,
            scopes@ == ctx@.scopes,
            symbol < ctx@.table.symbols.len(),
            s == ctx@.table.symbols[symbol as int],
            count == s.references.len(),
            i <= count,
            border == write_border(ctx@, lp as int, s),
            home == variable_scope_spec(ctx@.scopes, s.scope as int),
            !(s.kind is Const),
            !is_fresh_per_iteration(ctx@, lp as int, s),
            forall|j: int|
                0 <= j < i ==> is_harmless(
                    ctx@,
                    s,
                    border,
                    ctx@.table.references[#[trigger] s.references[j] as int],
                ),
        decreases count - i,
    {
        let r = table.resolved(symbol, i).unwrap();
        assert(r == s.references[i as int]);
        let w = table.reference(r).unwrap();
        if w.write {
            let harmless = scopes.variable_scope(w.scope) == home && nodes.get(
                w.node,
            ).unwrap().span.start < border;
            if !harmless {
                assert(!is_harmless(
                    ctx@,
                    s,
                    border,
                    ctx@.table.references[s.references[i as int] as int],
                ));
                return false;
            }
        }
        i += 1;
    }
    true
}

/// Climbing from a loop in the store stays in the store.
pub proof fn lemma_outermost_loop_in_range(v: SemanticView, lp: int, border: u32)
    requires
        0 <= lp < v.nodes.len(),
    ensures
        0 <= outermost_loop(v, lp, border) <= lp,
    decreases lp,
{
    if v.nodes[lp].span.start >= border {
        match containing_loop(v, lp) {
            Some(up) => {
                if up < lp && v.nodes[up as int].span.start >= border {
                    lemma_outermost_loop_in_range(v, up as int, border);
                }
            },
            None => {},
        }
    }
}

/// The rule: no function made in a loop may capture a binding that the
/// loop's iterations share.
#[derive(Clone, Copy, Debug, Default)]
pub struct NoLoopFunc;

impl NoLoopFunc {
    /// Looks at one node and reports it if it is an offending function.
    /// The tree is only read.
    pub fn run(&self, node: NodeId, ctx: &Semantic) -> (report: Option<Diagnostic>)
        requires
            ctx.wf(),
        ensures
            report.is_some() == diagnosis(ctx@, node as int).is_some(),
            report.is_some() ==> report.unwrap()@ == diagnosis(ctx@, node as int).unwrap(),
    {
        let nodes = ctx.nodes();
        let table = ctx.symbols();
        let function = match nodes.get(node) {
            Some(function) => function,
            None => {
                return None;
            },
        };
        if !function_kind(&function.kind) || check_runs_in_place(ctx, node) {
            return None;
        }
        let lp = match find_containing_loop(ctx, node) {
            Some(lp) => lp,
            None => {
                return None;
            },
        };
        proof {
            lemma_containing_loop_is_above(ctx@, node as int);
        }
        let mut variables: Vec<SymbolId> = Vec::new();
        let mut names: Vec<String> = Vec::new();
        let count = table.references_len();
        let mut r: usize = 0;
        while r < count
            invariant
                ctx.wf(),
                nodes@ == ctx@.nodes,
                table@ == ctx@.table,
                lp < ctx@.nodes.len(),
                count == ctx@.table.references.len(),
                r <= count,
                variables@ == unsafe_variables(ctx@, node as int, lp as int, r as int),
                names@.len() == variables@.len(),
                forall|i: int|
                    0 <= i < variables@.len() ==> (#[trigger] variables@[i])
                        < ctx@.table.symbols.len(),
                forall|i: int|
                    0 <= i < names@.len() ==> (#[trigger] names@[i])@
                        == ctx@.table.symbols[variables@[i] as int].name,
            decreases count - r,
        {
            let reference = table.reference(r).unwrap();
            match reference.symbol {
                Some(s) => {
                    let declaration = table.declaration(s).unwrap();
                    if nodes.encloses(node, reference.node) && !nodes.encloses(node, declaration)
                        && !check_safe(ctx, lp, s) && !contains_symbol(&variables, s) {
                        let ghost held = names@;
                        let name = table.name(s).unwrap();
                        variables.push(s);
                        names.push(name);
                        assert forall|i: int| 0 <= i < names@.len() implies (
                        #[trigger] names@[i])@ == ctx@.table.symbols[variables@[i] as int].name by {
                            if i < held.len() {
                                assert(names@[i] == held[i]);
                            }
                        }
                    }
                },
                None => {},
            }
            r += 1;
        }
        if variables.len() == 0 {
            return None;
        }
        let report = Diagnostic {
            message: NO_LOOP_FUNC_MESSAGE,
            function: node,
            span: function.span,
            variables,
            names,
        };
        proof {
            let want = diagnosis(ctx@, node as int).unwrap();
            assert(report@.names =~= want.names);
        }
        Some(report)
    }

    /// Looks at every node of the tree, in order, and gives the diagnostics
    /// for the reports, one for one.
    pub fn diagnostics(&self, ctx: &Semantic) -> (out: Vec<OxcDiagnostic>)
        requires
            ctx.wf(),
        ensures
            out@ == rendered(diagnoses(ctx@, ctx@.nodes.len() as int)),
    {
        let reports = self.run_all(ctx);
        let ghost views = reports@.map_values(|d: Diagnostic| d@);
        let mut out: Vec<OxcDiagnostic> = Vec::new();
        let mut i: usize = 0;
        while i < reports.len()
            invariant
                ctx.wf(),
                i <= reports@.len(),
                views == reports@.map_values(|d: Diagnostic| d@),
                views == diagnoses(ctx@, ctx@.nodes.len() as int),
                out@ == rendered(views.subrange(0, i as int)),
            decreases reports@.len() - i,
        {
            proof {
                assert(views[i as int] == reports@[i as int]@);
                crate::no_loop_func::laws::law_one_report_per_function(
                    ctx@,
                    ctx@.nodes.len() as int,
                );
                let at = views[i as int].function as int;
                assert(diagnosis(ctx@, at) == Some(views[i as int]));
                assert(ctx@.nodes[at].span.start <= ctx@.nodes[at].span.end);
            }
            match reports[i].to_diagnostic() {
                Some(diagnostic) => {
                    out.push(diagnostic);
                },
                None => {},
            }
            i += 1;
            assert(out@ =~= rendered(views.subrange(0, i as int)));
        }
        assert(views.subrange(0, reports@.len() as int) =~= views);
        out
    }

    /// Looks at every node of the tree, in order, and gathers the reports.
    pub fn run_all(&self, ctx: &Semantic) -> (reports: Vec<Diagnostic>)
        requires
            ctx.wf(),
        ensures
            reports@.map_values(|d: Diagnostic| d@) == diagnoses(ctx@, ctx@.nodes.len() as int),
    {
        let mut reports: Vec<Diagnostic> = Vec::new();
        let count = ctx.nodes().len();
        let mut n: usize = 0;
        while n < count
            invariant
                ctx.wf(),
                count == ctx@.nodes.len(),
                n <= count,
                reports@.map_values(|d: Diagnostic| d@) == diagnoses(ctx@, n as int),
            decreases count - n,
        {
            let ghost before = reports@.map_values(|d: Diagnostic| d@);
            match self.run(n, ctx) {
                Some(report) => {
                    let ghost view = report@;
                    reports.push(report);
                    assert(reports@.map_values(|d: Diagnostic| d@) =~= before.push(view));
                },
                None => {},
            }
            n += 1;
        }
        reports
    }
}

} // verus!
