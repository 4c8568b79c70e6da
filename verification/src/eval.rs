//! The shape of trees as an evaluator takes them.

use vstd::prelude::*;

verus! {

/// A tree prepared for evaluation. It mirrors the parser's tree, but where
/// the parser records a quoting prefix, each list element here records
/// whether it is to be evaluated now. Nothing in this crate builds or
/// evaluates such trees yet; the type marks where an evaluator connects.
#[derive(Debug, PartialEq, Eq)]
pub enum Ast {
    /// A number, as the digit strings before and after the decimal point.
    Number { whole: String, fraction: String },
    /// A symbol.
    Symbol(String),
    /// A list; the flag of an element says whether to evaluate it now.
    List(Vec<(Ast, bool)>),
}

} // verus!
