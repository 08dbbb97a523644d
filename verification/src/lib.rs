//! An interactive arithmetic expression evaluator: a lexer that turns a line
//! of text into tokens, a recursive-descent parser that builds an abstract
//! syntax tree, and a tree-walking evaluator that threads a variable
//! environment and yields a numeric result or a descriptive error.

pub mod env;
pub mod evaluator;
pub mod lexer;
pub mod parser;
