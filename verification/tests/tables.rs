use scope_hygiene::fresh::{candidate, decimal_string};
use scope_hygiene::node::{function_kind, loop_kind, repeats, Node, NodeKind, Nodes};
use scope_hygiene::scope::{ScopeKind, ScopeTree};
use scope_hygiene::semantic::Semantic;
use scope_hygiene::span::Span;
use scope_hygiene::symbol::{DeclarationKind, Reference, SymbolTable, TableError};

fn function() -> NodeKind {
    NodeKind::Function { is_async: false, is_generator: false, name: None }
}

/// program(0) > function(1) > other(2) > while(3) > function(4) > other(5)
fn chain() -> Nodes {
    let mut nodes = Nodes::new();
    let kinds = [
        NodeKind::Program,
        function(),
        NodeKind::Other,
        NodeKind::WhileStatement,
        function(),
        NodeKind::Other,
    ];
    for (i, kind) in kinds.into_iter().enumerate() {
        let parent = if i == 0 { None } else { Some(i - 1) };
        let span = Span::new(i as u32, 100 - i as u32);
        assert_eq!(nodes.add(kind, span, parent, 0), Some(i));
    }
    nodes
}

#[test]
fn span_containment() {
    let outer = Span::new(10, 20);
    assert!(outer.contains(Span::new(10, 20)));
    assert!(outer.contains(Span::new(12, 15)));
    assert!(!outer.contains(Span::new(9, 15)));
    assert!(!outer.contains(Span::new(12, 21)));
    assert!(outer.strictly_contains(Span::new(11, 19)));
    assert!(!outer.strictly_contains(Span::new(10, 19)));
    assert!(!outer.strictly_contains(Span::new(11, 20)));
    assert_eq!(Span::new(3, 4), Span { start: 3, end: 4 });
}

#[test]
fn nodes_are_added_parent_first() {
    let mut nodes = Nodes::new();
    assert_eq!(nodes.len(), 0);
    assert_eq!(nodes.root(), None);
    // A node whose parent is not there yet is turned down.
    assert_eq!(nodes.add(NodeKind::Other, Span::new(0, 1), Some(0), 0), None);
    assert_eq!(nodes.len(), 0);
    assert_eq!(nodes.add(NodeKind::Program, Span::new(0, 9), None, 0), Some(0));
    assert_eq!(nodes.add(NodeKind::Other, Span::new(1, 2), Some(0), 7), Some(1));
    assert_eq!(nodes.add(NodeKind::Other, Span::new(1, 2), Some(2), 0), None);
    // So is a node whose span ends before it starts.
    assert_eq!(nodes.add(NodeKind::Other, Span::new(2, 1), Some(0), 0), None);
    assert_eq!(nodes.add(NodeKind::Other, Span::new(2, 1), None, 0), None);
    // And so is a program root that is not the first node.
    assert_eq!(nodes.add(NodeKind::Program, Span::new(1, 2), Some(0), 0), None);
    assert_eq!(nodes.add(NodeKind::Program, Span::new(1, 2), None, 0), None);
    assert_eq!(nodes.len(), 2);
    assert_eq!(nodes.root(), Some(0));
    assert_eq!(
        nodes.get(1),
        Some(Node { kind: NodeKind::Other, span: Span::new(1, 2), parent: Some(0), scope: 7 })
    );
    assert_eq!(nodes.get(2), None);
    assert_eq!(nodes.parent(1), Some(0));
    assert_eq!(nodes.parent(0), None);
    assert_eq!(nodes.parent(5), None);
    assert_eq!(nodes.scope_of(1), Some(7));
    assert_eq!(nodes.scope_of(2), None);
}

#[test]
fn nearest_enclosing_walks_up_to_the_root() {
    let nodes = chain();
    assert_eq!(nodes.nearest_enclosing(5, function_kind), Some(4));
    assert_eq!(nodes.nearest_enclosing(4, function_kind), Some(1));
    assert_eq!(nodes.nearest_enclosing(3, function_kind), Some(1));
    assert_eq!(nodes.nearest_enclosing(1, function_kind), None);
    assert_eq!(nodes.nearest_enclosing(0, function_kind), None);
    assert_eq!(nodes.nearest_enclosing(9, function_kind), None);
    assert_eq!(nodes.nearest_enclosing(5, loop_kind), Some(3));
    assert_eq!(nodes.nearest_enclosing(3, loop_kind), None);
    // The root is never a candidate.
    assert_eq!(nodes.nearest_enclosing(5, |k: &NodeKind| *k == NodeKind::Program), None);
    assert_eq!(nodes.nearest_enclosing(5, |k: &NodeKind| *k == NodeKind::Other), Some(2));
}

#[test]
fn enclosure_of_nodes() {
    let nodes = chain();
    assert!(nodes.encloses(0, 5));
    assert!(nodes.encloses(3, 5));
    assert!(nodes.encloses(5, 5));
    assert!(!nodes.encloses(5, 3));
    assert!(!nodes.encloses(0, 6));
    assert!(!nodes.encloses(6, 6));
}

#[test]
fn declarations_and_the_values_they_give() {
    // for (var [a, b] of xs) { var c = 1, d; } var e;
    let mut nodes = Nodes::new();
    let mut add = |kind, parent: Option<usize>| {
        let id = nodes.len() as u32;
        nodes.add(kind, Span::new(id, id + 1), parent, 0).unwrap()
    };
    let program = add(NodeKind::Program, None);
    let lp = add(NodeKind::ForOfStatement { right: 7 }, Some(program));
    let head = add(NodeKind::VariableDeclaration, Some(lp));
    let head_declarator = add(NodeKind::VariableDeclarator { has_init: false }, Some(head));
    let pattern = add(NodeKind::Pattern, Some(head_declarator));
    let a = add(NodeKind::Other, Some(pattern));
    let b = add(NodeKind::Other, Some(pattern));
    let xs = add(NodeKind::Other, Some(lp));
    assert_eq!(xs, 7);
    let body = add(NodeKind::Other, Some(lp));
    let inner = add(NodeKind::VariableDeclaration, Some(body));
    let with_init = add(NodeKind::VariableDeclarator { has_init: true }, Some(inner));
    let c = add(NodeKind::Other, Some(with_init));
    let without = add(NodeKind::VariableDeclarator { has_init: false }, Some(inner));
    let d = add(NodeKind::Other, Some(without));
    let last = add(NodeKind::VariableDeclaration, Some(program));
    let last_declarator = add(NodeKind::VariableDeclarator { has_init: false }, Some(last));
    let e = add(NodeKind::Other, Some(last_declarator));

    assert!(nodes.gives_value(a));
    assert!(nodes.gives_value(b));
    assert!(nodes.gives_value(c));
    assert!(!nodes.gives_value(d));
    assert!(!nodes.gives_value(e));
    assert!(!nodes.gives_value(xs));
    assert!(!nodes.gives_value(pattern + 100));
    assert!(nodes.stands_in_loop_head(head_declarator));
    assert!(!nodes.stands_in_loop_head(with_init));
    assert!(!nodes.stands_in_loop_head(last_declarator));

    assert_eq!(nodes.declaring_node(head_declarator), head);
    assert_eq!(nodes.declaring_node(with_init), inner);
    assert_eq!(nodes.declaring_node(a), a);
    assert_eq!(nodes.declaring_node(lp), lp);
    assert_eq!(nodes.declaring_node(99), 99);
}

#[test]
fn declaration_in_the_body_of_a_loop_is_not_in_its_head() {
    // for (x of xs) var z;
    let mut nodes = Nodes::new();
    nodes.add(NodeKind::Program, Span::new(0, 9), None, 0);
    nodes.add(NodeKind::ForOfStatement { right: 3 }, Span::new(0, 9), Some(0), 0);
    nodes.add(NodeKind::Other, Span::new(1, 2), Some(1), 0);
    nodes.add(NodeKind::Other, Span::new(3, 4), Some(1), 0);
    nodes.add(NodeKind::VariableDeclaration, Span::new(5, 9), Some(1), 0);
    nodes.add(NodeKind::VariableDeclarator { has_init: false }, Span::new(6, 8), Some(4), 0);
    nodes.add(NodeKind::Other, Span::new(6, 7), Some(5), 0);
    assert!(!nodes.stands_in_loop_head(5));
    assert!(!nodes.gives_value(6));
}

#[test]
fn loop_clauses_that_run_once_are_before_the_loop() {
    assert!(repeats(&NodeKind::WhileStatement, 4));
    assert!(repeats(&NodeKind::DoWhileStatement, 4));
    assert!(repeats(&NodeKind::ForStatement { init: None }, 4));
    assert!(repeats(&NodeKind::ForStatement { init: Some(3) }, 4));
    assert!(!repeats(&NodeKind::ForStatement { init: Some(4) }, 4));
    assert!(repeats(&NodeKind::ForInStatement { right: 3 }, 4));
    assert!(!repeats(&NodeKind::ForInStatement { right: 4 }, 4));
    assert!(repeats(&NodeKind::ForOfStatement { right: 3 }, 4));
    assert!(!repeats(&NodeKind::ForOfStatement { right: 4 }, 4));
    assert!(!repeats(&function(), 4));
    assert!(!repeats(&NodeKind::Other, 4));
    assert!(loop_kind(&NodeKind::ForInStatement { right: 4 }));
    assert!(!loop_kind(&NodeKind::CallExpression { callee: 4 }));
    assert!(function_kind(&function()));
    assert!(!function_kind(&NodeKind::Program));
}

/// top(0) > function(1) > block(2) > block(3); top(0) > class(4) > static block(5)
fn scopes() -> ScopeTree {
    let mut scopes = ScopeTree::new();
    assert_eq!(scopes.add_scope(None, ScopeKind::Top), Some(0));
    assert_eq!(scopes.add_scope(Some(0), ScopeKind::Function), Some(1));
    assert_eq!(scopes.add_scope(Some(1), ScopeKind::Block), Some(2));
    assert_eq!(scopes.add_scope(Some(2), ScopeKind::Block), Some(3));
    assert_eq!(scopes.add_scope(Some(0), ScopeKind::Class), Some(4));
    assert_eq!(scopes.add_scope(Some(4), ScopeKind::StaticBlock), Some(5));
    scopes
}

#[test]
fn scopes_are_added_parent_first() {
    let mut scopes = scopes();
    assert_eq!(scopes.len(), 6);
    assert_eq!(scopes.add_scope(Some(6), ScopeKind::Block), None);
    assert_eq!(scopes.add_scope(Some(9), ScopeKind::Block), None);
    assert_eq!(scopes.len(), 6);
    assert_eq!(scopes.parent(3), Some(2));
    assert_eq!(scopes.parent(0), None);
    assert_eq!(scopes.parent(6), None);
    assert_eq!(scopes.kind(4), Some(ScopeKind::Class));
    assert_eq!(scopes.kind(6), None);
}

#[test]
fn lookup_finds_the_nearest_binding() {
    let mut scopes = scopes();
    assert!(scopes.add_binding(0, "a".to_string(), 10));
    assert!(scopes.add_binding(0, "b".to_string(), 11));
    assert!(scopes.add_binding(2, "a".to_string(), 12));
    assert!(scopes.add_binding(3, "c".to_string(), 13));
    // A name is bound once in a scope; an unknown scope binds nothing.
    assert!(!scopes.add_binding(2, "a".to_string(), 14));
    assert!(!scopes.add_binding(6, "z".to_string(), 15));

    assert_eq!(scopes.find_in_scope(2, "a"), Some(12));
    assert_eq!(scopes.find_in_scope(2, "b"), None);
    assert_eq!(scopes.find_in_scope(6, "a"), None);

    assert_eq!(scopes.lookup_binding(3, "a"), Some(12));
    assert_eq!(scopes.lookup_binding(2, "a"), Some(12));
    assert_eq!(scopes.lookup_binding(1, "a"), Some(10));
    assert_eq!(scopes.lookup_binding(3, "b"), Some(11));
    assert_eq!(scopes.lookup_binding(3, "c"), Some(13));
    assert_eq!(scopes.lookup_binding(2, "c"), None);
    assert_eq!(scopes.lookup_binding(5, "a"), Some(10));
    assert_eq!(scopes.lookup_binding(5, "c"), None);
    assert_eq!(scopes.lookup_binding(6, "a"), None);
    assert_eq!(scopes.lookup_binding(3, ""), None);

    assert!(scopes.is_name_in_use("c"));
    assert!(!scopes.is_name_in_use("d"));
    assert!(scopes.binds_only_below(14));
    assert!(!scopes.binds_only_below(13));
}

#[test]
fn enclosure_and_variable_scope() {
    let scopes = scopes();
    assert!(scopes.encloses(0, 3));
    assert!(scopes.encloses(1, 3));
    assert!(scopes.encloses(3, 3));
    assert!(!scopes.encloses(3, 1));
    assert!(!scopes.encloses(4, 3));
    assert!(!scopes.encloses(0, 6));
    assert_eq!(scopes.variable_scope(3), 1);
    assert_eq!(scopes.variable_scope(2), 1);
    assert_eq!(scopes.variable_scope(1), 1);
    assert_eq!(scopes.variable_scope(0), 0);
    assert_eq!(scopes.variable_scope(4), 0);
    assert_eq!(scopes.variable_scope(5), 5);
    assert_eq!(scopes.variable_scope(9), 9);
}

fn reference(symbol: Option<usize>) -> Reference {
    Reference { node: 0, symbol, read: true, write: false, scope: 0 }
}

fn resolved(table: &SymbolTable, symbol: usize) -> Vec<usize> {
    (0..table.resolved_count(symbol)).map(|i| table.resolved(symbol, i).unwrap()).collect()
}

/// Symbols `a` (0) and `b` (1); references 0, 1, 2 to `a`, 3 to `b`, 4 to nothing.
fn table() -> SymbolTable {
    let mut table = SymbolTable::new();
    assert_eq!(table.create_symbol("a".to_string(), DeclarationKind::Let, 0, 0), 0);
    assert_eq!(table.create_symbol("b".to_string(), DeclarationKind::Var, 0, 0), 1);
    for (i, symbol) in [Some(0), Some(0), Some(0), Some(1), None].into_iter().enumerate() {
        assert_eq!(table.create_reference(reference(symbol)), Some(i));
    }
    table
}

#[test]
fn references_are_registered_with_their_symbol() {
    let mut table = table();
    assert_eq!(table.symbols_len(), 2);
    assert_eq!(table.references_len(), 5);
    assert_eq!(resolved(&table, 0), vec![0, 1, 2]);
    assert_eq!(resolved(&table, 1), vec![3]);
    assert_eq!(table.reference(4), Some(reference(None)));
    assert_eq!(table.reference(5), None);
    assert_eq!(table.name(1), Some("b".to_string()));
    assert_eq!(table.name(2), None);
    assert_eq!(table.kind(0), Some(DeclarationKind::Let));
    assert_eq!(table.kind(2), None);
    assert_eq!(table.declaration(2), None);
    assert_eq!(table.scope(2), None);
    assert_eq!(table.resolved_count(2), 0);
    assert_eq!(table.resolved(0, 3), None);
    // A reference to a symbol that is not there is turned down.
    assert_eq!(table.create_reference(reference(Some(2))), None);
    assert_eq!(table.references_len(), 5);
}

#[test]
fn redirect_moves_one_reference() {
    let mut table = table();
    assert_eq!(table.redirect_reference(1, 1), Ok(()));
    assert_eq!(table.reference(1), Some(reference(Some(1))));
    assert_eq!(resolved(&table, 0), vec![0, 2]);
    assert_eq!(resolved(&table, 1), vec![3, 1]);
    // The others are where they were.
    assert_eq!(table.reference(0), Some(reference(Some(0))));
    assert_eq!(table.reference(2), Some(reference(Some(0))));
    assert_eq!(table.reference(3), Some(reference(Some(1))));
    assert_eq!(table.reference(4), Some(reference(None)));
    assert_eq!(table.references_len(), 5);
}

#[test]
fn redirect_to_the_same_symbol_changes_nothing() {
    let mut table = table();
    assert_eq!(table.redirect_reference(1, 0), Ok(()));
    assert_eq!(resolved(&table, 0), vec![0, 1, 2]);
    assert_eq!(resolved(&table, 1), vec![3]);
}

#[test]
fn redirect_of_an_unresolved_reference_registers_it() {
    let mut table = table();
    assert_eq!(table.redirect_reference(4, 1), Ok(()));
    assert_eq!(table.reference(4), Some(reference(Some(1))));
    assert_eq!(resolved(&table, 0), vec![0, 1, 2]);
    assert_eq!(resolved(&table, 1), vec![3, 4]);
}

#[test]
fn redirect_with_unknown_ids_is_turned_down() {
    let mut table = table();
    assert_eq!(table.redirect_reference(5, 1), Err(TableError::UnknownReference));
    assert_eq!(table.redirect_reference(5, 9), Err(TableError::UnknownReference));
    assert_eq!(table.redirect_reference(1, 2), Err(TableError::UnknownSymbol));
    assert_eq!(resolved(&table, 0), vec![0, 1, 2]);
    assert_eq!(resolved(&table, 1), vec![3]);
    assert_eq!(table.reference(1), Some(reference(Some(0))));
}

#[test]
fn candidate_names_count_from_the_second() {
    assert_eq!(candidate("C", 0), "_C");
    assert_eq!(candidate("C", 1), "_C");
    assert_eq!(candidate("C", 2), "_C2");
    assert_eq!(candidate("Class", 10), "_Class10");
    assert_eq!(candidate("", 305), "_305");
    assert_eq!(candidate("x", u32::MAX), "_x4294967295");
    assert_eq!(decimal_string(0), "0");
    assert_eq!(decimal_string(7), "7");
    assert_eq!(decimal_string(1234567890), "1234567890");
}

/// program(0) > other(1); scopes top(0) > block(1), top(0) > function(2).
fn parts() -> (Nodes, ScopeTree, SymbolTable) {
    let mut nodes = Nodes::new();
    nodes.add(NodeKind::Program, Span::new(0, 9), None, 0);
    nodes.add(NodeKind::Other, Span::new(0, 9), Some(0), 1);
    let mut scopes = ScopeTree::new();
    scopes.add_scope(None, ScopeKind::Top);
    scopes.add_scope(Some(0), ScopeKind::Block);
    scopes.add_scope(Some(0), ScopeKind::Function);
    (nodes, scopes, SymbolTable::new())
}

#[test]
fn parts_that_fit_make_a_tree() {
    let (nodes, mut scopes, mut symbols) = parts();
    let x = symbols.create_symbol("x".to_string(), DeclarationKind::Let, 1, 1);
    scopes.add_binding(1, "x".to_string(), x);
    symbols.create_reference(Reference { node: 1, symbol: Some(x), read: true, write: true, scope: 1 });
    symbols.create_reference(Reference { node: 1, symbol: None, read: true, write: false, scope: 2 });
    let ctx = Semantic::new(nodes, scopes, symbols).expect("the parts fit");
    assert_eq!(ctx.nodes().len(), 2);
    assert_eq!(ctx.scopes().len(), 3);
    assert_eq!(ctx.symbols().references_len(), 2);
}

#[test]
fn parts_that_do_not_fit_are_turned_down() {
    // A node in an unknown scope.
    let (mut nodes, scopes, symbols) = parts();
    nodes.add(NodeKind::Other, Span::new(0, 1), Some(0), 3);
    assert!(Semantic::new(nodes, scopes, symbols).is_none());

    // A function named by an unknown symbol.
    let (mut nodes, scopes, symbols) = parts();
    let named = NodeKind::Function { is_async: false, is_generator: false, name: Some(0) };
    nodes.add(named, Span::new(0, 1), Some(0), 0);
    assert!(Semantic::new(nodes, scopes, symbols).is_none());

    // An identifier with an unknown reference.
    let (mut nodes, scopes, symbols) = parts();
    nodes.add(NodeKind::IdentifierReference { reference: 0 }, Span::new(0, 1), Some(0), 0);
    assert!(Semantic::new(nodes, scopes, symbols).is_none());

    // A symbol declared by an unknown node, or bound in an unknown scope.
    let (nodes, scopes, mut symbols) = parts();
    symbols.create_symbol("x".to_string(), DeclarationKind::Var, 2, 0);
    assert!(Semantic::new(nodes, scopes, symbols).is_none());
    let (nodes, scopes, mut symbols) = parts();
    symbols.create_symbol("x".to_string(), DeclarationKind::Var, 0, 3);
    assert!(Semantic::new(nodes, scopes, symbols).is_none());

    // A reference at an unknown node, or in an unknown scope.
    let (nodes, scopes, mut symbols) = parts();
    symbols.create_reference(Reference { node: 2, symbol: None, read: true, write: false, scope: 0 });
    assert!(Semantic::new(nodes, scopes, symbols).is_none());
    let (nodes, scopes, mut symbols) = parts();
    symbols.create_reference(Reference { node: 0, symbol: None, read: true, write: false, scope: 3 });
    assert!(Semantic::new(nodes, scopes, symbols).is_none());

    // A binding of an unknown symbol.
    let (nodes, mut scopes, symbols) = parts();
    scopes.add_binding(0, "x".to_string(), 0);
    assert!(Semantic::new(nodes, scopes, symbols).is_none());

    // A reference outside the scope of its symbol.
    let (nodes, scopes, mut symbols) = parts();
    let x = symbols.create_symbol("x".to_string(), DeclarationKind::Let, 1, 1);
    symbols.create_reference(Reference { node: 1, symbol: Some(x), read: true, write: false, scope: 2 });
    assert!(Semantic::new(nodes, scopes, symbols).is_none());
}

fn tree() -> Semantic {
    let (nodes, mut scopes, mut symbols) = parts();
    let outer = symbols.create_symbol("outer".to_string(), DeclarationKind::Var, 0, 0);
    let inner = symbols.create_symbol("inner".to_string(), DeclarationKind::Let, 1, 1);
    scopes.add_binding(0, "outer".to_string(), outer);
    scopes.add_binding(1, "inner".to_string(), inner);
    scopes.add_binding(2, "_t".to_string(), outer);
    symbols.create_reference(Reference { node: 1, symbol: Some(inner), read: true, write: false, scope: 1 });
    symbols.create_reference(Reference { node: 1, symbol: Some(outer), read: true, write: false, scope: 2 });
    Semantic::new(nodes, scopes, symbols).expect("the parts fit")
}

#[test]
fn fresh_symbol_gets_the_first_free_name() {
    let mut ctx = tree();
    // `_t` is bound in another scope, out of sight of the target; it is
    // avoided all the same.
    assert_eq!(ctx.create_fresh_symbol("t", 1, 1), Ok(2));
    assert_eq!(ctx.symbols().name(2), Some("_t2".to_string()));
    assert_eq!(ctx.symbols().kind(2), Some(DeclarationKind::Var));
    assert_eq!(ctx.symbols().scope(2), Some(1));
    assert_eq!(ctx.symbols().declaration(2), Some(1));
    assert_eq!(ctx.symbols().resolved_count(2), 0);
    assert_eq!(ctx.scopes().find_in_scope(1, "_t2"), Some(2));
    assert_eq!(ctx.scopes().lookup_binding(0, "_t2"), None);

    assert_eq!(ctx.create_fresh_symbol("t", 0, 0), Ok(3));
    assert_eq!(ctx.symbols().name(3), Some("_t3".to_string()));
    assert_eq!(ctx.create_fresh_symbol("u", 0, 0), Ok(4));
    assert_eq!(ctx.symbols().name(4), Some("_u".to_string()));
}

#[test]
fn fresh_symbol_in_unknown_place_is_turned_down() {
    let mut ctx = tree();
    assert_eq!(ctx.create_fresh_symbol("t", 3, 0), Err(TableError::UnknownScope));
    assert_eq!(ctx.create_fresh_symbol("t", 3, 9), Err(TableError::UnknownScope));
    assert_eq!(ctx.create_fresh_symbol("t", 0, 2), Err(TableError::UnknownNode));
    assert_eq!(ctx.symbols().symbols_len(), 2);
    assert!(!ctx.scopes().is_name_in_use("_t2"));
}

#[test]
fn reference_is_entered_only_where_its_symbol_is_in_scope() {
    let mut ctx = tree();
    let at = |symbol, scope| Reference { node: 1, symbol, read: true, write: false, scope };
    assert_eq!(ctx.create_reference(at(Some(1), 1)), Ok(2));
    assert_eq!(ctx.create_reference(at(None, 2)), Ok(3));
    assert_eq!(ctx.create_reference(at(Some(1), 2)), Err(TableError::ScopeViolation));
    assert_eq!(ctx.create_reference(at(Some(1), 0)), Err(TableError::ScopeViolation));
    assert_eq!(ctx.create_reference(at(Some(2), 1)), Err(TableError::UnknownSymbol));
    assert_eq!(ctx.create_reference(at(Some(1), 3)), Err(TableError::UnknownScope));
    assert_eq!(
        ctx.create_reference(Reference { node: 2, ..at(Some(1), 1) }),
        Err(TableError::UnknownNode)
    );
    assert_eq!(ctx.symbols().references_len(), 4);
    assert_eq!(ctx.symbols().resolved_count(1), 2);
}

#[test]
fn redirect_keeps_references_within_scope() {
    let mut ctx = tree();
    // Reference 0 stands in the block: both symbols are in scope there.
    assert_eq!(ctx.redirect_reference(0, 0), Ok(()));
    assert_eq!(ctx.symbols().reference(0).unwrap().symbol, Some(0));
    assert_eq!(ctx.symbols().resolved_count(1), 0);
    assert_eq!(ctx.symbols().resolved_count(0), 2);
    assert_eq!(ctx.redirect_reference(0, 1), Ok(()));
    // Reference 1 stands in the function, where `inner` is out of scope.
    assert_eq!(ctx.redirect_reference(1, 1), Err(TableError::ScopeViolation));
    assert_eq!(ctx.redirect_reference(2, 1), Err(TableError::UnknownReference));
    assert_eq!(ctx.redirect_reference(1, 2), Err(TableError::UnknownSymbol));
    assert_eq!(ctx.symbols().reference(1).unwrap().symbol, Some(0));
    assert_eq!(ctx.symbols().resolved_count(0), 1);
    assert_eq!(ctx.symbols().resolved_count(1), 1);
}
