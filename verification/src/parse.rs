//! Formulas in infix notation, read into trees.

use vstd::prelude::*;
use crate::formula::tree::parse::{parsed, FormulaParseError};
use crate::formula::tree::Formula;

verus! {

/// Reads a formula in infix notation: runs of digits are variables,
/// `->` is the implication, which groups to the right, `-` before a
/// formula is its negation, and brackets group.
pub fn parse(s: &str) -> (read: Result<Formula, FormulaParseError>)
    ensures
        read == parsed(s@),
        read matches Ok(f) ==> f.size() <= s@.len() <= usize::MAX,
{
    crate::formula::tree::parse::parse(s)
}

} // verus!
