//! Front end for a small C-like scripting language: a lexer that turns source
//! text into tokens, and a recursive-descent / Pratt parser that builds a
//! syntax tree from them. Every public operation carries a contract that pins
//! its result down against a mathematical model of the token stream and of the
//! tree.

pub mod ast;
pub mod lexer;
pub mod parser;
pub mod token;
