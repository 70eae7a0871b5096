//! Dhakal Lang: a small interpreted language with a lexer, a Pratt parser and
//! a tree-walking evaluator, each with its model and contracts.
pub mod text;
pub mod token;
pub mod lexer;
pub mod ast;
pub mod parser;
pub mod object;
pub mod eval;
pub mod stream;
pub mod laws;
pub mod meaning;
