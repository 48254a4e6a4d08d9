[package]
name = "scope_hygiene"
version = "0.1.0"
edition = "2021"
publish = false

[dependencies]
oxc_allocator = "=0.42.0"
oxc_ast = "=0.42.0"
oxc_diagnostics = "=0.42.0"
oxc_index = "=2.0.0"
oxc_semantic = "=0.42.0"
oxc_span = "=0.42.0"
oxc_syntax = "=0.42.0"
oxc_traverse = "=0.42.0"

[dev-dependencies]
oxc_parser = "=0.42.0"
