//! A small command-language interpreter core: a lexer that turns a command
//! line into tokens, a shift/reduce parser that turns tokens into a command
//! tree, and an execution engine that drives that tree as a state machine.
pub mod ast;
pub mod executor;
pub mod lexer;
pub mod parser;
pub mod tokens;
