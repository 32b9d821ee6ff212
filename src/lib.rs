//! The front end of a command-line shell: a lexer that splits a line into
//! tokens and a recursive-descent parser that builds a command tree from them.
pub mod lexer;
pub mod parser;
pub mod spelling;
pub mod grammar;
pub mod classify;
pub mod nesting;
pub mod drawing;
