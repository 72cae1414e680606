//! A small interpreter for a parenthesised expression language: a parser that
//! turns text into syntax trees annotated with byte offsets, and an evaluator
//! that runs those trees against a table of built-in operations.
use vstd::prelude::*;

pub mod eval;
pub mod parse;
pub mod text;

verus! {

} // verus!
