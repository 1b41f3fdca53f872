//! A table-driven shift-reduce parsing engine.
//!
//! The engine takes a grammar and its automaton as plain tables, reads
//! classified tokens and builds a syntax tree, or names the token at which the
//! input stopped being a sentence of the grammar.

pub mod fusion;
pub mod grammar;
pub mod laws;
pub mod model;
pub mod parser;
pub mod shape;
pub mod tree;

pub use grammar::{Action, Grammar, Production, State, Symbol, Token, Transition};
pub use model::Fault;
pub use parser::{Frame, ParseError, Parser, Reduction, Settling, Step, SyntaxError};
pub use tree::Node;
