//! An interpreter for a small expression language with first-class
//! functions: a lexer, a parser that climbs operator precedence, a syntax
//! tree that can be written back as text, and an evaluator that walks the
//! tree against an environment of nested scopes.
//!
//! Each executable part is verified against a mathematical description of
//! what it computes: `grammar` says what the parser reads, `semantics` what
//! evaluation means. `laws`, `reading` and `roundtrip` hold theorems about
//! these descriptions.

pub mod text;
pub mod token;
pub mod lexer;
pub mod ast;
pub mod grammar;
pub mod parser;
pub mod object;
pub mod semantics;
pub mod evaluator;
pub mod shape;
pub mod repl;
pub mod laws;
pub mod reading;
pub mod roundtrip;
