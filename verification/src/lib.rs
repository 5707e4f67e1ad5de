//! An LR(0) parser library for context-free grammars over single-character
//! symbols. A grammar, written one production per line as `LHS -> RHS`, is
//! turned into a canonical item-set automaton and an action/goto table; a
//! shift-reduce driver then consumes the table to parse input strings into
//! abstract syntax forests.

pub mod ast;
pub mod generator;
pub mod grammar;
pub mod items;
pub mod parser;
pub mod table;
pub mod text;

pub use ast::AstNode;
pub use ast::print_ast;
pub use generator::GeneratorEngine;
pub use grammar::Production;
pub use grammar::from_reducer_string;
pub use parser::Action;
pub use parser::Parser;

