use std::collections::HashMap;

use oxc_allocator::Allocator;
use oxc_ast::ast::{MemberExpression, UnaryOperator};
use oxc_ast::AstKind;
use oxc_parser::{ParseOptions, Parser};
use oxc_semantic::SemanticBuilder;
use oxc_span::{GetSpan, SourceType};
use oxc_syntax::symbol::SymbolFlags;
use scope_hygiene::no_loop_func::{
    check_runs_in_place, check_safe, find_containing_loop, find_outermost_loop, get_function,
    message_for, Diagnostic, NoLoopFunc, NO_LOOP_FUNC_MESSAGE,
};
use scope_hygiene::node::{NodeKind, Nodes};
use scope_hygiene::scope::{ScopeKind, ScopeTree};
use scope_hygiene::semantic::Semantic;
use scope_hygiene::span::Span;
use scope_hygiene::static_prop::{
    BoundIdentifier, BoundaryKind, ClassBindings, ClassProperties, Expr, PrivateForm,
};
use scope_hygiene::symbol::{DeclarationKind, Reference, SymbolTable, TableError};

/// Turns what the parser and the resolver produced into the library's own
/// tree. A declaration that gives its binding a value, by the library's
/// own rule, is entered as a writing occurrence of the declared name.
fn lower(semantic: &oxc_semantic::Semantic) -> Semantic {
    let source = semantic.source_text();
    // A function is asynchronous when its text opens with the keyword.
    let opens_async = |span: oxc_span::Span| source[span.start as usize..].starts_with("async");
    let nodes_in = semantic.nodes();
    let scopes_in = semantic.scopes();
    let symbols_in = semantic.symbols();

    let node_index: HashMap<_, usize> =
        nodes_in.iter().enumerate().map(|(i, n)| (n.id(), i)).collect();
    let scope_index: HashMap<_, usize> =
        scopes_in.descendants_from_root().enumerate().map(|(i, s)| (s, i)).collect();
    let symbol_index: HashMap<_, usize> =
        symbols_in.symbol_ids().enumerate().map(|(i, s)| (s, i)).collect();
    let reference_index: HashMap<_, usize> = symbols_in
        .references
        .iter_enumerated()
        .enumerate()
        .map(|(i, (id, _))| (id, i))
        .collect();

    let parents: Vec<Option<usize>> =
        nodes_in.iter().map(|n| nodes_in.parent_id(n.id()).map(|p| node_index[&p])).collect();
    let child_with_span = |parent: usize, span: oxc_span::Span| -> usize {
        nodes_in
            .iter()
            .enumerate()
            .find(|(i, n)| parents[*i] == Some(parent) && n.kind().span() == span)
            .map_or(usize::MAX, |(i, _)| i)
    };

    let mut nodes = Nodes::new();
    for (i, node) in nodes_in.iter().enumerate() {
        let kind = match node.kind() {
            AstKind::Program(_) => NodeKind::Program,
            AstKind::Function(f) => NodeKind::Function {
                is_async: opens_async(f.span),
                is_generator: f.generator,
                name: if f.is_expression() {
                    f.id.as_ref().and_then(|id| id.symbol_id.get()).map(|s| symbol_index[&s])
                } else {
                    None
                },
            },
            AstKind::ArrowFunctionExpression(f) => NodeKind::Function {
                is_async: opens_async(f.span),
                is_generator: false,
                name: None,
            },
            AstKind::ForStatement(s) => NodeKind::ForStatement {
                init: s.init.as_ref().map(|init| child_with_span(i, init.span())),
            },
            AstKind::ForInStatement(s) => {
                NodeKind::ForInStatement { right: child_with_span(i, s.right.span()) }
            }
            AstKind::ForOfStatement(s) => {
                NodeKind::ForOfStatement { right: child_with_span(i, s.right.span()) }
            }
            AstKind::WhileStatement(_) => NodeKind::WhileStatement,
            AstKind::DoWhileStatement(_) => NodeKind::DoWhileStatement,
            AstKind::CallExpression(c) => {
                NodeKind::CallExpression { callee: child_with_span(i, c.callee.span()) }
            }
            AstKind::IdentifierReference(ident) => match ident.reference_id.get() {
                Some(id) => NodeKind::IdentifierReference { reference: reference_index[&id] },
                None => NodeKind::Other,
            },
            AstKind::VariableDeclaration(_) => NodeKind::VariableDeclaration,
            AstKind::VariableDeclarator(d) => {
                NodeKind::VariableDeclarator { has_init: d.init.is_some() }
            }
            AstKind::ObjectPattern(_)
            | AstKind::ArrayPattern(_)
            | AstKind::AssignmentPattern(_)
            | AstKind::BindingRestElement(_) => NodeKind::Pattern,
            _ => NodeKind::Other,
        };
        let span = node.kind().span();
        let added =
            nodes.add(kind, Span::new(span.start, span.end), parents[i], scope_index[&node.scope_id()]);
        assert_eq!(added, Some(i));
    }

    let mut scopes = ScopeTree::new();
    for (i, scope) in scopes_in.descendants_from_root().enumerate() {
        let flags = scopes_in.get_flags(scope);
        let kind = if flags.is_top() {
            ScopeKind::Top
        } else if flags.is_function() {
            ScopeKind::Function
        } else if flags.is_class_static_block() {
            ScopeKind::StaticBlock
        } else if flags.is_ts_module_block() {
            ScopeKind::Module
        } else {
            ScopeKind::Block
        };
        let parent = scopes_in.get_parent_id(scope).map(|p| scope_index[&p]);
        assert_eq!(scopes.add_scope(parent, kind), Some(i));
        for (name, symbol) in scopes_in.get_bindings(scope) {
            assert!(scopes.add_binding(i, name.to_string(), symbol_index[symbol]));
        }
    }

    let mut symbols = SymbolTable::new();
    for (i, symbol) in symbols_in.symbol_ids().enumerate() {
        let flags = symbols_in.get_flags(symbol);
        let declared_at = node_index[&symbols_in.get_declaration(symbol)];
        let declarator = nodes_in.iter().nth(declared_at).unwrap().kind();
        let kind = if matches!(declarator, AstKind::FormalParameter(_)) {
            DeclarationKind::Parameter
        } else if flags.is_const_variable() {
            DeclarationKind::Const
        } else if flags.is_class() {
            DeclarationKind::Class
        } else if flags.is_function() {
            DeclarationKind::Function
        } else if flags.intersects(SymbolFlags::BlockScopedVariable) {
            DeclarationKind::Let
        } else {
            DeclarationKind::Var
        };
        let declaration = nodes.declaring_node(declared_at);
        let scope = scope_index[&symbols_in.get_scope_id(symbol)];
        let id = symbols.create_symbol(
            symbols_in.get_name(symbol).to_string(),
            kind,
            declaration,
            scope,
        );
        assert_eq!(id, i);
    }

    for (i, (_, reference)) in symbols_in.references.iter_enumerated().enumerate() {
        let node = node_index[&reference.node_id()];
        let at = nodes_in.iter().nth(node).unwrap();
        let id = symbols.create_reference(Reference {
            node,
            symbol: reference.symbol_id().map(|s| symbol_index[&s]),
            read: reference.is_read(),
            write: reference.is_write(),
            scope: scope_index[&at.scope_id()],
        });
        assert_eq!(id, Some(i));
    }

    for (i, node) in nodes_in.iter().enumerate() {
        let AstKind::BindingIdentifier(ident) = node.kind() else { continue };
        let Some(symbol) = ident.symbol_id.get() else { continue };
        if nodes.gives_value(i) {
            let id = symbols.create_reference(Reference {
                node: i,
                symbol: Some(symbol_index[&symbol]),
                read: false,
                write: true,
                scope: scope_index[&node.scope_id()],
            });
            assert!(id.is_some());
        }
    }

    Semantic::new(nodes, scopes, symbols).expect("the three parts fit together")
}

fn analyse(source: &str) -> (Semantic, Vec<Diagnostic>) {
    let allocator = Allocator::default();
    let options = ParseOptions { preserve_parens: false, ..ParseOptions::default() };
    let parsed =
        Parser::new(&allocator, source, SourceType::cjs()).with_options(options).parse();
    assert!(parsed.errors.is_empty(), "does not parse: {}", source);
    let built = SemanticBuilder::new().build(&parsed.program);
    let ctx = lower(&built.semantic);
    let reports = NoLoopFunc.run_all(&ctx);
    (ctx, reports)
}

/// The initializer at node `id` as the library's tree.
fn initializer(semantic: &oxc_semantic::Semantic, id: usize) -> Expr {
    let nodes = semantic.nodes();
    let all: Vec<_> = nodes.iter().collect();
    let node = all[id];
    let children: Vec<usize> = (0..all.len())
        .filter(|c| nodes.parent_id(all[*c].id()).is_some_and(|p| p == node.id()))
        .collect();
    let lowered = |ids: &[usize]| ids.iter().map(|c| initializer(semantic, *c)).collect::<Vec<_>>();
    let spanning = |span: oxc_span::Span| {
        children.iter().copied().find(|c| all[*c].kind().span() == span)
    };
    let at = node.kind().span();
    let span = Span::new(at.start, at.end);
    let scope_index: HashMap<_, usize> =
        semantic.scopes().descendants_from_root().enumerate().map(|(i, s)| (s, i)).collect();
    let reference_index: HashMap<_, usize> = semantic
        .symbols()
        .references
        .iter_enumerated()
        .enumerate()
        .map(|(i, (id, _))| (id, i))
        .collect();
    let private = |form| Expr::Private { span, form, operands: lowered(&children) };
    let boundary = |kind| Expr::Boundary { span, kind, body: lowered(&children) };
    match node.kind() {
        AstKind::ThisExpression(_) => Expr::This { span, scope: scope_index[&node.scope_id()] },
        AstKind::IdentifierReference(ident) => Expr::Identifier {
            span,
            reference: reference_index[&ident.reference_id.get().unwrap()],
            name: ident.name.to_string(),
        },
        AstKind::BooleanLiteral(literal) => Expr::Boolean { span, literal: literal.value },
        AstKind::UnaryExpression(unary) if unary.operator == UnaryOperator::Delete => {
            Expr::Delete { span, argument: Box::new(initializer(semantic, children[0])) }
        }
        AstKind::MemberExpression(MemberExpression::PrivateFieldExpression(_)) => {
            private(PrivateForm::Field)
        }
        AstKind::CallExpression(_) => private(PrivateForm::Call),
        AstKind::AssignmentExpression(_) => private(PrivateForm::Assignment),
        AstKind::UpdateExpression(_) => private(PrivateForm::Update),
        AstKind::ChainExpression(_) => private(PrivateForm::Chain),
        AstKind::TaggedTemplateExpression(_) => private(PrivateForm::TaggedTemplate),
        AstKind::AssignmentTarget(_) => private(PrivateForm::AssignmentTarget),
        AstKind::Function(_) => boundary(BoundaryKind::Function),
        AstKind::StaticBlock(_) => boundary(BoundaryKind::StaticBlock),
        AstKind::TSModuleBlock(_) => boundary(BoundaryKind::ModuleBlock),
        AstKind::PropertyDefinition(property) => {
            let key = spanning(property.key.span()).unwrap();
            let value = property.value.as_ref().and_then(|v| spanning(v.span()));
            let decorators: Vec<usize> = children
                .iter()
                .copied()
                .filter(|c| matches!(all[*c].kind(), AstKind::Decorator(_)))
                .collect();
            Expr::Property {
                span,
                accessor: false,
                computed: property.computed,
                decorators: lowered(&decorators),
                key: Box::new(initializer(semantic, key)),
                value: value.map(|v| Box::new(initializer(semantic, v))),
            }
        }
        _ => Expr::Other { span, children: lowered(&children) },
    }
}

/// The replacements that turn `before` into `after`: where an identifier
/// stands in `after` under another name than the text has, and where a
/// truth value stands for something else.
fn replacements(source: &str, before: &Expr, after: &Expr, out: &mut Vec<(Span, String)>) {
    let text = |span: &Span| &source[span.start as usize..span.end as usize];
    let pairs = |a: &[Expr], b: &[Expr], out: &mut Vec<(Span, String)>| {
        assert_eq!(a.len(), b.len());
        for (x, y) in a.iter().zip(b) {
            replacements(source, x, y, out);
        }
    };
    match (before, after) {
        (_, Expr::Identifier { span, name, .. }) => {
            if text(span) != name {
                out.push((*span, name.clone()));
            }
        }
        (Expr::Boolean { .. }, Expr::Boolean { .. }) => {}
        (_, Expr::Boolean { span, literal }) => out.push((*span, literal.to_string())),
        (Expr::This { .. }, Expr::This { .. }) => {}
        (Expr::Delete { argument: a, .. }, Expr::Delete { argument: b, .. }) => {
            replacements(source, a, b, out)
        }
        (Expr::Private { operands: a, .. }, Expr::Private { operands: b, .. }) => pairs(a, b, out),
        (Expr::Boundary { body: a, .. }, Expr::Boundary { body: b, .. }) => pairs(a, b, out),
        (Expr::Other { children: a, .. }, Expr::Other { children: b, .. }) => pairs(a, b, out),
        (
            Expr::Property { decorators: da, key: ka, value: va, .. },
            Expr::Property { decorators: db, key: kb, value: vb, .. },
        ) => {
            pairs(da, db, out);
            replacements(source, ka, kb, out);
            if let (Some(a), Some(b)) = (va, vb) {
                replacements(source, a, b, out);
            }
        }
        (a, b) => panic!("{:?} became {:?}", a, b),
    }
}

/// What the rewrite makes of the first static initializer of the first
/// class in `source`: the text of the initializer afterwards, the name of
/// the temp binding if one was made, and how many expressions were handed
/// over.
fn rewritten(source: &str) -> (String, Option<String>, usize) {
    let allocator = Allocator::default();
    let options = ParseOptions { preserve_parens: false, ..ParseOptions::default() };
    let parsed =
        Parser::new(&allocator, source, SourceType::cjs()).with_options(options).parse();
    assert!(parsed.errors.is_empty(), "does not parse: {}", source);
    let built = SemanticBuilder::new().build(&parsed.program);
    let semantic = &built.semantic;
    let mut ctx = lower(semantic);

    let all: Vec<_> = semantic.nodes().iter().collect();
    let symbol_index: HashMap<_, usize> =
        semantic.symbols().symbol_ids().enumerate().map(|(i, s)| (s, i)).collect();
    let scope_index: HashMap<_, usize> =
        semantic.scopes().descendants_from_root().enumerate().map(|(i, s)| (s, i)).collect();
    let (class_node, name) = all
        .iter()
        .enumerate()
        .find_map(|(i, n)| match n.kind() {
            AstKind::Class(class) => Some((
                i,
                class.id.as_ref().map(|id| BoundIdentifier {
                    name: id.name.to_string(),
                    symbol_id: symbol_index[&id.symbol_id.get().unwrap()],
                }),
            )),
            _ => None,
        })
        .unwrap();
    let value = all
        .iter()
        .enumerate()
        .find_map(|(i, n)| match n.kind() {
            AstKind::PropertyDefinition(property) => {
                let span = property.value.as_ref().unwrap().span();
                (i + 1..all.len()).find(|c| {
                    semantic.nodes().parent_id(all[*c].id()) == Some(n.id())
                        && all[*c].kind().span() == span
                })
            }
            _ => None,
        })
        .unwrap();
    let mut class = ClassProperties {
        class_bindings: ClassBindings {
            name,
            temp: None,
            currently_transforming_static_property_initializers: false,
        },
        private_props_stack: Vec::new(),
        hoist_scope: ctx.scopes().variable_scope(scope_index[&all[class_node].scope_id()]),
        class_node,
    };

    let before = initializer(semantic, value);
    let mut after = initializer(semantic, value);
    let delegated = class.transform_static_initializer(&mut after, &mut ctx).unwrap();
    let mut changes = Vec::new();
    replacements(source, &before, &after, &mut changes);
    changes.sort_by_key(|(span, _)| span.start);
    let at = all[value].kind().span();
    let mut text = String::new();
    let mut from = at.start as usize;
    for (span, with) in changes {
        text.push_str(&source[from..span.start as usize]);
        text.push_str(&with);
        from = span.end as usize;
    }
    text.push_str(&source[from..at.end as usize]);
    (text, class.class_bindings.temp.map(|temp| temp.name), delegated.len())
}

/// For each report, the source text of the function and the names listed.
fn reported(source: &str) -> Vec<(String, Vec<String>)> {
    let (_, reports) = analyse(source);
    reports
        .into_iter()
        .map(|d| (source[d.span.start as usize..d.span.end as usize].to_string(), d.names))
        .collect()
}

#[test]
fn test() {
    let pass = vec![
        "string = 'function a() {}';",
        "for (var i=0; i<l; i++) { } var a = function() { i; };",
        "for (var i=0, a=function() { i; }; i<l; i++) { }",
        "for (var x in xs.filter(function(x) { return x != upper; })) { }",
        "for (var x of xs.filter(function(x) { return x != upper; })) { }",
        "for (var i=0; i<l; i++) { (function() {}) }",
        "for (var i in {}) { (function() {}) }",
        "for (var i of {}) { (function() {}) }",
        "for (let i=0; i<l; i++) { (function() { i; }) }",
        "for (let i in {}) { i = 7; (function() { i; }) }",
        "for (const i of {}) { (function() { i; }) }",
        "for (let i = 0; i < 10; ++i) { for (let x in xs.filter(x => x != i)) {  } }",
        "let a = 0; for (let i=0; i<l; i++) { (function() { a; }); }",
        "let a = 0; for (let i in {}) { (function() { a; }); }",
        "let a = 0; for (let i of {}) { (function() { a; }); }",
        "let a = 0; for (let i=0; i<l; i++) { (function() { (function() { a; }); }); }",
        "let a = 0; for (let i in {}) { function foo() { (function() { a; }); } }",
        "let a = 0; for (let i of {}) { (() => { (function() { a; }); }); }",
        "var a = 0; for (let i=0; i<l; i++) { (function() { a; }); }",
        "var a = 0; for (let i in {}) { (function() { a; }); }",
        "var a = 0; for (let i of {}) { (function() { a; }); }",
        "let result = {};
			for (const score in scores) {
			  const letters = scores[score];
			  letters.split('').forEach(letter => {
			    result[letter] = score;
			  });
			}
			result.__default = 6;",
        "while (true) {
			    (function() { a; });
			}
			let a;",
        "while(i) { (function() { i; }) }",
        "do { (function() { i; }) } while (i)",
        "var i; while(i) { (function() { i; }) }",
        "var i; do { (function() { i; }) } while (i)",
        "for (var i=0; i<l; i++) { (function() { undeclared; }) }",
        "for (let i=0; i<l; i++) { (function() { undeclared; }) }",
        "for (var i in {}) { i = 7; (function() { undeclared; }) }",
        "for (let i in {}) { i = 7; (function() { undeclared; }) }",
        "for (const i of {}) { (function() { undeclared; }) }",
        "for (let i = 0; i < 10; ++i) { for (let x in xs.filter(x => x != undeclared)) {  } }",
        "
			            let current = getStart();
			            while (current) {
			            (() => {
			                current;
			                current.a;
			                current.b;
			                current.c;
			                current.d;
			            })();
			            
			            current = current.upper;
			            }
			            ",
        "for (var i=0; (function() { i; })(), i<l; i++) { }",
        "for (var i=0; i<l; (function() { i; })(), i++) { }",
        "for (var i = 0; i < 10; ++i) { (()=>{ i;})() }",
        "for (var i = 0; i < 10; ++i) { (function a(){i;})() }",
        "
			            var arr = [];
			
			            for (var i = 0; i < 5; i++) {
			                arr.push((f => f)((() => i)()));
			            }
			            ",
        "
			            var arr = [];
			
			            for (var i = 0; i < 5; i++) {
			                arr.push((() => {
			                    return (() => i)();
			                })());
			            }
			            ",
    ];

    let fail = vec![
        "for (var i=0; i<l; i++) { (function() { i; }) }",
        "for (var i=0; i<l; i++) { for (var j=0; j<m; j++) { (function() { i+j; }) } }",
        "for (var i in {}) { (function() { i; }) }",
        "for (var i of {}) { (function() { i; }) }",
        "for (var i=0; i < l; i++) { (() => { i; }) }",
        "for (var i=0; i < l; i++) { var a = function() { i; } }",
        "for (var i=0; i < l; i++) { function a() { i; }; a(); }",
        "let a; for (let i=0; i<l; i++) { a = 1; (function() { a; });}",
        "let a; for (let i in {}) { (function() { a; }); a = 1; }",
        "let a; for (let i of {}) { (function() { a; }); } a = 1; ",
        "let a; for (let i=0; i<l; i++) { (function() { (function() { a; }); }); a = 1; }",
        "let a; for (let i in {}) { a = 1; function foo() { (function() { a; }); } }",
        "let a; for (let i of {}) { (() => { (function() { a; }); }); } a = 1;",
        "for (var i = 0; i < 10; ++i) { for (let x in xs.filter(x => x != i)) {  } }",
        "for (let x of xs) { let a; for (let y of ys) { a = 1; (function() { a; }); } }",
        "for (var x of xs) { for (let y of ys) { (function() { x; }); } }",
        "for (var x of xs) { (function() { x; }); }",
        "var a; for (let x of xs) { a = 1; (function() { a; }); }",
        "var a; for (let x of xs) { (function() { a; }); a = 1; }",
        "let a; function foo() { a = 10; } for (let x of xs) { (function() { a; }); } foo();",
        "let a; function foo() { a = 10; for (let x of xs) { (function() { a; }); } } foo();",
        "let a; for (var i=0; i<l; i++) { (function* (){i;})() }",
        "let a; for (var i=0; i<l; i++) { (async function (){i;})() }",
        "
			            let current = getStart();
			            const arr = [];
			            while (current) {
			                (function f() {
			                    current;
			                    arr.push(f);
			                })();
			                
			                current = current.upper;
			            }
			            ",
        "
			            var arr = [];
			
			            for (var i = 0; i < 5; i++) {
			                (function fun () {
			                    if (arr.includes(fun)) return i;
			                    else arr.push(fun);
			                })();
			            }
			            ",
        "
			            let current = getStart();
			            const arr = [];
			            while (current) {
			                const p = (async () => {
			                    await someDelay();
			                    current;
			                })();
			
			                arr.push(p);
			                current = current.upper;
			            }
			            ",
        "
			            var arr = [];
			
			            for (var i = 0; i < 5; i++) {
			                arr.push((f => f)(
			                    () => i
			                ));
			            }
			            ",
        "
			            var arr = [];
			
			            for (var i = 0; i < 5; i++) {
			                arr.push((() => {
			                    return () => i;
			                })());
			            }
			            ",
        "
			            var arr = [];
			
			            for (var i = 0; i < 5; i++) {
			                arr.push((() => {
			                    return () => { return i };
			                })());
			            }
			            ",
        "
			            var arr = [];
			
			            for (var i = 0; i < 5; i++) {
			                arr.push((() => {
			                    return () => {
			                        return () => i
			                    };
			                })());
			            }
			            ",
        "
			            var arr = [];
			
			            for (var i = 0; i < 5; i++) {
			                arr.push((() => {
			                    return () => 
			                        (() => i)();
			                })());
			            }
			            ",
        "
			            var arr = [];
			
			            for (var i = 0; i < 5; i ++) {
			                (() => {
			                    arr.push((async () => {
			                        await 1;
			                        return i;
			                    })());
			                })();
			            }
			            ",
        "
			            var arr = [];
			
			            for (var i = 0; i < 5; i ++) {
			                (() => {
			                    (function f() {
			                        if (!arr.includes(f)) {
			                            arr.push(f);
			                        }
			                        return i;
			                    })();
			                })();
			            
			            }
			            ",
        r#"
			            var arr1 = [], arr2 = [];
			
			            for (var [i, j] of ["a", "b", "c"].entries()) {
			                (() => {
			                    arr1.push((() => i)());
			                    arr2.push(() => j);
			                })();
			            }
			            "#,
        "
			            var arr = [];
			
			            for (var i = 0; i < 5; i ++) {
			                ((f) => {
			                    arr.push(f);
			                })(() => {
			                    return (() => i)();
			                });
			
			            }
			            ",
        "
			            for (var i = 0; i < 5; i++) {
			                (async () => {
			                    () => i;
			                })();
			            }
			            ",
    ];

    for source in pass {
        let found = reported(source);
        assert!(found.is_empty(), "reported {:?} in: {}", found, source);
    }
    for source in fail {
        let found = reported(source);
        assert!(!found.is_empty(), "nothing reported in: {}", source);
    }
}

#[test]
fn var_counter_captured_in_for_body_is_reported() {
    let source = "for (var i=0;i<l;i++){ (function(){ i; }) }";
    let found = reported(source);
    assert_eq!(found, vec![("function(){ i; }".to_string(), vec!["i".to_string()])]);
}

#[test]
fn let_counter_is_fresh_on_each_pass() {
    assert!(reported("for (let i=0;i<l;i++){ (function(){ i; }) }").is_empty());
}

#[test]
fn const_binding_is_never_reported() {
    assert!(reported("for (const i of {}) { (function(){ i; }) }").is_empty());
    assert!(reported("const a = f(); for (var i of {}) { (function(){ a; }) }").is_empty());
}

#[test]
fn unsafe_variables_are_named_once_in_order_of_first_reference() {
    let source = "for (var i=0; i<l; i++) { for (var j=0; j<m; j++) { (function() { j+i+j; i; k; }) } }";
    assert_eq!(
        reported(source),
        vec![(
            "function() { j+i+j; i; k; }".to_string(),
            vec!["j".to_string(), "i".to_string()]
        )]
    );
}

#[test]
fn one_report_for_each_offending_function() {
    let source = "for (var i=0; i<l; i++) { (function() { i; }); (() => i); (function() { l; }) }";
    assert_eq!(
        reported(source),
        vec![
            ("function() { i; }".to_string(), vec!["i".to_string()]),
            ("() => i".to_string(), vec!["i".to_string()]),
        ]
    );
}

#[test]
fn report_goes_to_the_function_that_the_loop_repeats() {
    // The inner function is made anew by each call of the outer one, not
    // by the loop.
    let source = "let a; for (let i of xs) { (function outer() { (function inner() { a; }); }); a = 1; }";
    let found = reported(source);
    assert_eq!(found.len(), 1);
    assert!(found[0].0.starts_with("function outer"));
    assert_eq!(found[0].1, vec!["a".to_string()]);
}

#[test]
fn function_run_in_place_is_looked_through() {
    let source = "for (var i = 0; i < 5; i++) { (() => { return () => i; })(); }";
    assert_eq!(reported(source), vec![("() => i".to_string(), vec!["i".to_string()])]);
}

#[test]
fn analysis_is_repeatable_and_reads_only() {
    let source = "var a; for (let x of xs) { a = 1; (function() { a; }); (function() { x; }) }";
    let (ctx, first) = analyse(source);
    let second = NoLoopFunc.run_all(&ctx);
    let third = NoLoopFunc::default().run_all(&ctx);
    assert_eq!(first.len(), 1);
    assert_eq!(first, second);
    assert_eq!(second, third);
}

#[test]
fn report_carries_message_function_span_and_names() {
    let source = "for (var i in {}) { (function() { i; }) }";
    let (ctx, reports) = analyse(source);
    assert_eq!(reports.len(), 1);
    let report = &reports[0];
    assert_eq!(
        report.message,
        "Function declared in a loop contains unsafe references to variable(s) {{ varNames }}."
    );
    assert_eq!(report.message, NO_LOOP_FUNC_MESSAGE);
    assert_eq!(report.span, Span::new(21, 38));
    assert_eq!(ctx.nodes().get(report.function).unwrap().span, report.span);
    assert_eq!(report.names, vec!["i".to_string()]);
    assert_eq!(report.variables.len(), 1);
    assert_eq!(ctx.symbols().name(report.variables[0]), Some("i".to_string()));
    assert_eq!(ctx.symbols().kind(report.variables[0]), Some(DeclarationKind::Var));
    // The same report node by node: only the function gives one.
    for node in 0..ctx.nodes().len() {
        let one = NoLoopFunc.run(node, &ctx);
        assert_eq!(one.is_some(), node == report.function);
    }
    assert_eq!(NoLoopFunc.run(ctx.nodes().len(), &ctx), None);
}

#[test]
fn diagnostic_is_a_warning_with_the_names_and_the_function_as_label() {
    let source = "for (var i=0; i<l; i++) { for (var j=0; j<m; j++) { (function() { i+j; }) } }";
    let (ctx, reports) = analyse(source);
    let diagnostics = NoLoopFunc.diagnostics(&ctx);
    assert_eq!(diagnostics.len(), 1);
    let diagnostic = &diagnostics[0];
    assert_eq!(
        diagnostic.message,
        "Function declared in a loop contains unsafe references to variable(s) 'i', 'j'."
    );
    assert_eq!(diagnostic.severity, oxc_diagnostics::Severity::Warning);
    let labels = diagnostic.labels.as_ref().unwrap();
    assert_eq!(labels.len(), 1);
    assert_eq!(labels[0].offset(), source.find("function").unwrap());
    assert_eq!(labels[0].len(), "function() { i+j; }".len());
    assert_eq!(labels[0].label(), None);
    assert_eq!(diagnostic.help, None);
    assert_eq!(reports[0].to_diagnostic().as_ref(), Some(diagnostic));

    // No diagnostics where there are no reports.
    let (ctx, _) = analyse("for (let i=0; i<l; i++) { (function() { i; }) }");
    assert!(NoLoopFunc.diagnostics(&ctx).is_empty());
}

#[test]
fn diagnostic_of_a_report_made_by_hand() {
    let report = |span, names: &[&str]| Diagnostic {
        message: NO_LOOP_FUNC_MESSAGE,
        function: 3,
        span,
        variables: (0..names.len()).collect(),
        names: names.iter().map(|n| n.to_string()).collect(),
    };
    let one = report(Span::new(4, 9), &["a"]).to_diagnostic().unwrap();
    assert_eq!(
        one.message,
        "Function declared in a loop contains unsafe references to variable(s) 'a'."
    );
    assert_eq!(one.labels.as_ref().unwrap()[0].offset(), 4);
    assert_eq!(one.labels.as_ref().unwrap()[0].len(), 5);
    let empty = report(Span::new(7, 7), &[]).to_diagnostic().unwrap();
    assert_eq!(
        empty.message,
        "Function declared in a loop contains unsafe references to variable(s) ."
    );
    assert_eq!(empty.labels.as_ref().unwrap()[0].len(), 0);
    // A span that ends before it starts marks nothing.
    assert_eq!(report(Span::new(9, 4), &["a"]).to_diagnostic(), None);

    assert_eq!(
        message_for(&vec!["x".to_string(), "_y2".to_string(), "z".to_string()]),
        "Function declared in a loop contains unsafe references to variable(s) 'x', '_y2', 'z'."
    );
}

/// The node whose text is `text`, the innermost if there are several.
fn node_of(ctx: &Semantic, source: &str, text: &str) -> usize {
    let start = source.find(text).unwrap() as u32;
    let span = Span::new(start, start + text.len() as u32);
    (0..ctx.nodes().len()).rev().find(|n| ctx.nodes().get(*n).unwrap().span == span).unwrap()
}

#[test]
fn enclosing_function_of_a_node() {
    let source = "function f() { g(() => { x; }); } y;";
    let (ctx, _) = analyse(source);
    let f = node_of(&ctx, source, "function f() { g(() => { x; }); }");
    let arrow = node_of(&ctx, source, "() => { x; }");
    assert_eq!(get_function(node_of(&ctx, source, "x"), &ctx), Some(arrow));
    assert_eq!(get_function(arrow, &ctx), Some(arrow));
    assert_eq!(get_function(node_of(&ctx, source, "g(() => { x; })"), &ctx), Some(f));
    assert_eq!(get_function(node_of(&ctx, source, "y;"), &ctx), None);
    assert_eq!(get_function(0, &ctx), None);
    assert_eq!(get_function(ctx.nodes().len(), &ctx), None);
}

#[test]
fn loop_that_repeats_a_node() {
    let source = "for (var i = f(); g(); h()) { while (aa) { (function () { bb; })(); (function* () {})(); } }";
    let (ctx, _) = analyse(source);
    let outer = node_of(&ctx, source, source);
    let inner = node_of(&ctx, source, "while (aa) { (function () { bb; })(); (function* () {})(); }");
    assert_eq!(find_containing_loop(&ctx, node_of(&ctx, source, "f()")), None);
    assert_eq!(find_containing_loop(&ctx, node_of(&ctx, source, "g()")), Some(outer));
    assert_eq!(find_containing_loop(&ctx, node_of(&ctx, source, "h()")), Some(outer));
    assert_eq!(find_containing_loop(&ctx, inner), Some(outer));
    assert_eq!(find_containing_loop(&ctx, outer), None);
    assert_eq!(find_containing_loop(&ctx, node_of(&ctx, source, "aa")), Some(inner));
    // Through the function that runs in place, not through the generator.
    let in_place = node_of(&ctx, source, "function () { bb; }");
    let generator = node_of(&ctx, source, "function* () {}");
    assert!(check_runs_in_place(&ctx, in_place));
    assert!(!check_runs_in_place(&ctx, generator));
    assert!(!check_runs_in_place(&ctx, inner));
    assert_eq!(find_containing_loop(&ctx, node_of(&ctx, source, "bb")), Some(inner));
    assert_eq!(find_containing_loop(&ctx, node_of(&ctx, source, "{}")), None);
    assert_eq!(find_containing_loop(&ctx, ctx.nodes().len()), None);

    assert_eq!(find_outermost_loop(&ctx, inner, 0), outer);
    let after_head = ctx.nodes().get(inner).unwrap().span.start;
    assert_eq!(find_outermost_loop(&ctx, inner, after_head), inner);
    assert_eq!(find_outermost_loop(&ctx, inner, after_head + 1), inner);
    assert_eq!(find_outermost_loop(&ctx, outer, 0), outer);
}

#[test]
fn safety_of_a_binding_in_a_loop() {
    let source = "let a = 0; let b; var c = 1; const d = 2; function w() { c = 3; } for (let i of xs) { let e; e = 1; b = 2; (function () {}) }";
    let (ctx, _) = analyse(source);
    let lp = node_of(&ctx, source, "for (let i of xs) { let e; e = 1; b = 2; (function () {}) }");
    let symbol = |name: &str| {
        (0..ctx.symbols().symbols_len())
            .find(|s| ctx.symbols().name(*s).unwrap() == name)
            .unwrap()
    };
    // Written only where it is declared, before the loop.
    assert!(check_safe(&ctx, lp, symbol("a")));
    // Written in the loop.
    assert!(!check_safe(&ctx, lp, symbol("b")));
    // Written before the loop, but from another function.
    assert!(!check_safe(&ctx, lp, symbol("c")));
    assert!(check_safe(&ctx, lp, symbol("d")));
    // Declared in the loop: a new binding on each pass.
    assert!(check_safe(&ctx, lp, symbol("e")));
    assert!(check_safe(&ctx, lp, symbol("i")));
    assert!(check_safe(&ctx, lp, symbol("w")));
    // Nothing is vouched for where the loop or the symbol is unknown.
    assert!(!check_safe(&ctx, ctx.nodes().len(), symbol("d")));
    assert!(!check_safe(&ctx, lp, ctx.symbols().symbols_len()));
}

#[test]
fn static_initializers_from_source() {
    let temp = |name: &str| Some(name.to_string());
    assert_eq!(rewritten("class C { static x = this.y; }"), ("_C.y".to_string(), temp("_C"), 0));
    assert_eq!(
        rewritten("class C { static getSelf = () => this; }"),
        ("() => _C".to_string(), temp("_C"), 0)
    );
    assert_eq!(
        rewritten("class C { static getSelf2 = () => C; }"),
        ("() => _C".to_string(), temp("_C"), 0)
    );
    assert_eq!(
        rewritten("class C { static f = function () { return [this, C]; }; }"),
        ("function () { return [this, _C]; }".to_string(), temp("_C"), 0)
    );
    assert_eq!(
        rewritten("x = class { static f = [this, function () { return this; }]; }"),
        ("[_Class, function () { return this; }]".to_string(), temp("_Class"), 0)
    );
    assert_eq!(
        rewritten("class C { static d = [delete this, () => delete this]; }"),
        ("[true, () => true]".to_string(), None, 0)
    );
    assert_eq!(
        rewritten("var _C, _C2; class C { static x = [this, this.a(this), C]; }"),
        ("[_C3, _C3.a(_C3), _C3]".to_string(), temp("_C3"), 1)
    );
    assert_eq!(
        rewritten("class C { static p = class Inner { [this.k] = this; static [C] = C; }; }"),
        ("class Inner { [_C.k] = this; static [_C] = _C; }".to_string(), temp("_C"), 0)
    );
    assert_eq!(
        rewritten("class C { static n = 1; }"),
        ("1".to_string(), None, 0)
    );
    assert_eq!(
        rewritten("class C { static o = { m() { return this; }, a: () => this, c: C }; }"),
        ("{ m() { return this; }, a: () => _C, c: _C }".to_string(), temp("_C"), 0)
    );
}

#[test]
fn class_in_a_function_gets_its_temp_binding_there() {
    // The temp binding is declared in the function, so a `this` is within
    // its reach; the class's name is, too.
    assert_eq!(
        rewritten("function f() { { class C { static x = [this, C]; } } }"),
        ("[_C, _C]".to_string(), Some("_C".to_string()), 0)
    );
}

#[test]
fn fault_in_class_state_is_reported_from_source() {
    let (mut ctx, _) = analyse("class C { static x = this; }");
    let mut class = ClassProperties {
        class_bindings: ClassBindings {
            name: None,
            temp: None,
            currently_transforming_static_property_initializers: false,
        },
        private_props_stack: Vec::new(),
        hoist_scope: ctx.scopes().len(),
        class_node: 0,
    };
    let mut value = Expr::This { span: Span::new(21, 25), scope: 0 };
    assert_eq!(
        class.transform_static_initializer(&mut value, &mut ctx),
        Err(TableError::UnknownScope)
    );
}

#[test]
fn declarations_that_give_a_value_count_as_writes() {
    // `z` is declared in the body of the loop, not in its head, and is
    // given no value; `y` stands in the head.
    assert!(reported("var z; for (var y of ys) var z; (function () { z; });").is_empty());
    let source = "for (var y of ys) { var z; (function () { z; }); }";
    assert!(reported(source).is_empty());
    let source = "for (var y of ys) { var z = 1; (function () { z; y; }); }";
    assert_eq!(reported(source)[0].1, vec!["z".to_string(), "y".to_string()]);
    let source = "for (var { a, b: [c = 2, ...d] } of ys) { (function () { a; c; d; }); }";
    assert_eq!(reported(source)[0].1, vec!["a".to_string(), "c".to_string(), "d".to_string()]);
    let source = "for (var i = 0; i < 2;) { var { p = function (q) { q; } } = o; (() => p); }";
    assert_eq!(reported(source), vec![("() => p".to_string(), vec!["p".to_string()])]);
}
