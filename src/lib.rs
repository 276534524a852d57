//! Type inference for parsing-expression grammars: a shared, rebindable type
//! graph, a bottom-up propagation engine, a placeholder resolution pass for
//! recursive rules and the synthesis of named types.
pub mod ast;
pub mod grammar;
pub mod inference;
pub mod resolution;
pub mod state;
pub mod types;
