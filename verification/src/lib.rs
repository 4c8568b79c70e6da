//! A front end for a small Lisp-family syntax: a streaming lexer and a
//! stack-based parser that builds quote-annotated nested lists.

pub mod chunks;
pub mod eval;
pub mod lexer;
pub mod parser;
pub mod roundtrip;
pub mod text;
