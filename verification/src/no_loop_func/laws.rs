//! What holds of every report of the rule.

use vstd::prelude::*;
use crate::no_loop_func::{
    DiagnosticView,
    captures,
    captures_unsafely,
    containing_loop,
    diagnoses,
    diagnosis,
    is_fresh_per_iteration,
    is_harmless,
    is_safe,
    runs_in_place,
    unsafe_variables,
    write_border,
};
use crate::no_loop_func::enclosing_function;
use crate::node::{
    NodeKind,
    SymbolId,
    is_ancestor,
    is_ancestor_or_self,
    is_function_kind,
    law_nearest_enclosing_is_innermost,
    lemma_ancestor_is_not_later,
    nearest_enclosing_spec,
};
use crate::semantic::{SemanticView, semantic_wf};

verus! {

/// Each listed binding is there because of a reference that captures it
/// unsafely; each binding so captured is listed; none is listed twice.
pub proof fn lemma_unsafe_variables(v: SemanticView, f: int, lp: int, upto: int)
    ensures
        unsafe_variables(v, f, lp, upto).no_duplicates(),
        forall|i: int|
            0 <= i < unsafe_variables(v, f, lp, upto).len() ==> exists|r: int|
                0 <= r < upto && captures_unsafely(v, f, lp, r) && v.table.references[r].symbol
                    == Some(#[trigger] unsafe_variables(v, f, lp, upto)[i]),
        forall|r: int|
            0 <= r < upto && #[trigger] captures_unsafely(v, f, lp, r) ==> unsafe_variables(
                v,
                f,
                lp,
                upto,
            ).contains(v.table.references[r].symbol.unwrap()),
    decreases upto,
{
    if upto > 0 {
        lemma_unsafe_variables(v, f, lp, upto - 1);
        let before = unsafe_variables(v, f, lp, upto - 1);
        let now = unsafe_variables(v, f, lp, upto);
        assert forall|i: int| 0 <= i < now.len() implies exists|r: int|
            0 <= r < upto && captures_unsafely(v, f, lp, r) && v.table.references[r].symbol == Some(
                #[trigger] now[i],
            ) by {
            if i < before.len() {
                assert(now[i] == before[i]);
                let r = choose|r: int|
                    0 <= r < upto - 1 && captures_unsafely(v, f, lp, r)
                        && v.table.references[r].symbol == Some(before[i]);
                assert(0 <= r < upto && captures_unsafely(v, f, lp, r)
                    && v.table.references[r].symbol == Some(now[i]));
            } else {
                assert(now == before.push(v.table.references[upto - 1].symbol.unwrap()));
                assert(captures_unsafely(v, f, lp, upto - 1) && v.table.references[upto
                    - 1].symbol == Some(now[i]));
            }
        }
        assert forall|r: int| 0 <= r < upto && #[trigger] captures_unsafely(
            v,
            f,
            lp,
            r,
        ) implies now.contains(v.table.references[r].symbol.unwrap()) by {
            let s = v.table.references[r].symbol.unwrap();
            if r < upto - 1 {
                let i = before.index_of(s);
                assert(before[i] == s);
                assert(now[i] == s);
            } else if before.contains(s) {
                let i = before.index_of(s);
                assert(before[i] == s);
                assert(now[i] == s);
            } else {
                assert(now[before.len() as int] == s);
            }
        }
    }
}

/// The `i`-th occurrence of `symbol` writes to it where a function made in
/// loop `lp` is affected: from another function, or at or after the start
/// of the repeated text.
pub open spec fn is_shared_write(v: SemanticView, lp: int, symbol: SymbolId, i: int) -> bool {
    let s = v.table.symbols[symbol as int];
    &&& 0 <= i < s.references.len()
    &&& v.table.references[s.references[i] as int].write
    &&& !is_harmless(v, s, write_border(v, lp, s), v.table.references[s.references[i] as int])
}

/// The binding is shared by the iterations of loop `lp`: it is neither
/// constant nor made afresh on each pass, and some write to it is shared.
pub open spec fn is_shared(v: SemanticView, lp: int, symbol: SymbolId) -> bool {
    let s = v.table.symbols[symbol as int];
    &&& !(s.kind is Const)
    &&& !is_fresh_per_iteration(v, lp, s)
    &&& exists|i: int| is_shared_write(v, lp, symbol, i)
}

/// A binding is unsafe to capture exactly when it is shared.
pub proof fn lemma_unsafe_is_shared(v: SemanticView, lp: int, symbol: SymbolId)
    ensures
        !is_safe(v, lp, symbol) <==> is_shared(v, lp, symbol),
{
    let s = v.table.symbols[symbol as int];
    if !is_safe(v, lp, symbol) {
        let i = choose|i: int|
            0 <= i < s.references.len() && !is_harmless(
                v,
                s,
                write_border(v, lp, s),
                v.table.references[#[trigger] s.references[i] as int],
            );
        assert(is_shared_write(v, lp, symbol, i));
    }
    if is_shared(v, lp, symbol) {
        let i = choose|i: int| is_shared_write(v, lp, symbol, i);
        assert(!is_harmless(
            v,
            s,
            write_border(v, lp, s),
            v.table.references[s.references[i] as int],
        ));
    }
}

/// A reported function stands in a loop and holds a reference to a binding
/// that is declared outside the function and shared by the loop's
/// iterations.
pub proof fn law_report_names_shared_capture(v: SemanticView, n: int)
    requires
        semantic_wf(v),
        diagnosis(v, n).is_some(),
    ensures
        is_function_kind(v.nodes[n].kind),
        containing_loop(v, n).is_some(),
        exists|r: int| #[trigger]
            captures(v, n, r) && is_shared(
                v,
                containing_loop(v, n).unwrap() as int,
                v.table.references[r].symbol.unwrap(),
            ),
{
    let lp = containing_loop(v, n).unwrap() as int;
    let upto = v.table.references.len() as int;
    let list = unsafe_variables(v, n, lp, upto);
    lemma_unsafe_variables(v, n, lp, upto);
    let r = choose|r: int|
        0 <= r < upto && captures_unsafely(v, n, lp, r) && v.table.references[r].symbol == Some(
            list[0],
        );
    lemma_unsafe_is_shared(v, lp, list[0]);
    assert(captures(v, n, r) && is_shared(v, lp, v.table.references[r].symbol.unwrap()));
}

/// No constant binding is ever reported, nor a `let` binding declared
/// inside the loop, nor a binding that nothing writes to.
pub proof fn law_reported_variables_are_shared(v: SemanticView, n: int, i: int)
    requires
        semantic_wf(v),
        diagnosis(v, n).is_some(),
        0 <= i < diagnosis(v, n).unwrap().variables.len(),
    ensures
        is_shared(
            v,
            containing_loop(v, n).unwrap() as int,
            diagnosis(v, n).unwrap().variables[i],
        ),
        !(v.table.symbols[diagnosis(v, n).unwrap().variables[i] as int].kind is Const),
        !(v.table.symbols[diagnosis(v, n).unwrap().variables[i] as int].kind is Let
            && v.nodes[containing_loop(v, n).unwrap() as int].span.spec_strictly_contains(
            v.nodes[v.table.symbols[diagnosis(
                v,
                n,
            ).unwrap().variables[i] as int].declaration as int].span,
        )),
        exists|k: int|
            0 <= k < v.table.symbols[diagnosis(v, n).unwrap().variables[i] as int].references.len()
                && v.table.references[(#[trigger] v.table.symbols[diagnosis(
                v,
                n,
            ).unwrap().variables[i] as int].references[k]) as int].write,
{
    let lp = containing_loop(v, n).unwrap() as int;
    let upto = v.table.references.len() as int;
    let list = unsafe_variables(v, n, lp, upto);
    lemma_unsafe_variables(v, n, lp, upto);
    let r = choose|r: int|
        0 <= r < upto && captures_unsafely(v, n, lp, r) && v.table.references[r].symbol == Some(
            list[i],
        );
    lemma_unsafe_is_shared(v, lp, list[i]);
    let s = v.table.symbols[list[i] as int];
    let k = choose|k: int| is_shared_write(v, lp, list[i], k);
    assert(0 <= k < s.references.len() && v.table.references[s.references[k] as int].write);
}

/// A report names every binding that its function captures unsafely, and
/// names none twice.
pub proof fn law_report_is_complete(v: SemanticView, n: int, r: int)
    requires
        semantic_wf(v),
        diagnosis(v, n).is_some(),
    ensures
        diagnosis(v, n).unwrap().variables.no_duplicates(),
        captures_unsafely(v, n, containing_loop(v, n).unwrap() as int, r) ==> diagnosis(
            v,
            n,
        ).unwrap().variables.contains(v.table.references[r].symbol.unwrap()),
{
    let lp = containing_loop(v, n).unwrap() as int;
    lemma_unsafe_variables(v, n, lp, v.table.references.len() as int);
}

/// A function that a loop repeats, that does not just run in place, and
/// that captures a shared binding is reported.
pub proof fn law_unsafe_capture_is_reported(v: SemanticView, n: int, r: int)
    requires
        semantic_wf(v),
        0 <= n < v.nodes.len(),
        is_function_kind(v.nodes[n].kind),
        !runs_in_place(v, n),
        containing_loop(v, n).is_some(),
        captures(v, n, r),
        is_shared(v, containing_loop(v, n).unwrap() as int, v.table.references[r].symbol.unwrap()),
    ensures
        diagnosis(v, n).is_some(),
        diagnosis(v, n).unwrap().variables.contains(v.table.references[r].symbol.unwrap()),
{
    let lp = containing_loop(v, n).unwrap() as int;
    lemma_unsafe_is_shared(v, lp, v.table.references[r].symbol.unwrap());
    lemma_unsafe_variables(v, n, lp, v.table.references.len() as int);
    assert(captures_unsafely(v, n, lp, r));
    let list = unsafe_variables(v, n, lp, v.table.references.len() as int);
    let i = list.index_of(v.table.references[r].symbol.unwrap());
    assert(list[i] == v.table.references[r].symbol.unwrap());
}

/// Where a function encloses a node, the walk from the node finds one.
pub proof fn law_enclosing_function_is_found(v: SemanticView, a: int, n: int)
    requires
        semantic_wf(v),
        is_ancestor_or_self(v.nodes, a, n),
        is_function_kind(v.nodes[a].kind),
    ensures
        enclosing_function(v.nodes, n).is_some(),
{
    if !is_function_kind(v.nodes[n].kind) {
        let accepts = |k: NodeKind| is_function_kind(k);
        law_nearest_enclosing_is_innermost(v.nodes, n, accepts);
        if nearest_enclosing_spec(v.nodes, n, accepts).is_none() {
            assert(is_ancestor(v.nodes, a, n) && accepts(v.nodes[a].kind));
            let j = choose|j: int|
                is_ancestor(v.nodes, j, n) && #[trigger] is_ancestor_or_self(v.nodes, a, j)
                    && v.nodes[j].kind is Program;
            lemma_ancestor_is_not_later(v.nodes, a, j);
            lemma_ancestor_is_not_later(v.nodes, j, n);
            assert(j == 0);
        }
    }
}

/// The reports of a tree come one to a function, in the order of the
/// functions, and each is the report of its function.
pub proof fn law_one_report_per_function(v: SemanticView, upto: int)
    requires
        semantic_wf(v),
    ensures
        forall|i: int|
            0 <= i < diagnoses(v, upto).len() ==> 0 <= (#[trigger] diagnoses(v, upto)[i]).function
                < upto && diagnosis(v, diagnoses(v, upto)[i].function as int) == Some(
                diagnoses(v, upto)[i],
            ),
        forall|i: int, j: int|
            0 <= i < j < diagnoses(v, upto).len() ==> (#[trigger] diagnoses(v, upto)[i]).function < (
            #[trigger] diagnoses(v, upto)[j]).function,
    decreases upto,
{
    if upto > 0 {
        law_one_report_per_function(v, upto - 1);
        let before = diagnoses(v, upto - 1);
        let now = diagnoses(v, upto);
        assert forall|i: int| 0 <= i < now.len() implies 0 <= (#[trigger] now[i]).function < upto
            && diagnosis(v, now[i].function as int) == Some(now[i]) by {
            if i < before.len() {
                assert(now[i] == before[i]);
            } else {
                assert(diagnosis(v, upto - 1) == Some(now[i]));
                assert(now[i].function == upto - 1);
            }
        }
        assert forall|i: int, j: int| 0 <= i < j < now.len() implies (#[trigger] now[i]).function
            < (#[trigger] now[j]).function by {
            assert(now[i] == before[i]);
            if j < before.len() {
                assert(now[j] == before[j]);
            } else {
                assert(now[j].function == upto - 1);
            }
        }
    }
}

/// Reports depend on the tree alone: looking at the same tree again gives
/// the same reports.
pub proof fn law_analysis_is_repeatable(v: SemanticView, first: Seq<DiagnosticView>, second: Seq<DiagnosticView>)
    requires
        first == diagnoses(v, v.nodes.len() as int),
        second == diagnoses(v, v.nodes.len() as int),
    ensures
        first == second,
{
}

} // verus!
