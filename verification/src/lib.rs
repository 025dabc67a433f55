//! Front end of a small imperative language: source text is scanned into
//! tokens, tokens are parsed into a syntax tree, and the tree is handed to
//! visitors in pre-order.
//!
//! Every stage is total: malformed input comes back as an error value whose
//! occurrence is pinned down by the stage's contract.

pub mod grammar;
pub mod lexical;
pub mod parser;
pub mod print_ast;
pub mod scanner;
pub mod spelling;
pub mod visitor;
