//! Formulas in infix notation, read into arenas.

use vstd::prelude::*;
use crate::formula::tree::parse::parsed;
use crate::formula::Formula;

verus! {

/// Why a text in infix notation is not a formula.
#[derive(Debug, Clone, Copy, PartialEq, Eq)]
pub enum FormulaParseError {
    /// The text ends where a formula or a closing bracket is expected.
    UnexpectedEOF,
    /// This character stands where it has no place; for a number too
    /// large to be a variable, its first digit.
    UnexpectedChar(char),
}

/// The reason why no tree was read, as the reason why no formula was
/// read.
pub open spec fn of_tree(e: crate::formula::tree::parse::FormulaParseError) -> FormulaParseError {
    match e {
        crate::formula::tree::parse::FormulaParseError::UnexpectedEOF => {
            FormulaParseError::UnexpectedEOF
        },
        crate::formula::tree::parse::FormulaParseError::UnexpectedChar(c) => {
            FormulaParseError::UnexpectedChar(c)
        },
    }
}

/// Reads a formula in infix notation into an arena of its own: runs of
/// digits are variables, `->` is the implication, which groups to the
/// right, `-` before a formula is its negation, and brackets group.
pub fn parse(s: &str) -> (read: Result<Formula, FormulaParseError>)
    ensures
        match read {
            Ok(f) => parsed(s@) == Ok::<
                crate::formula::tree::Formula,
                crate::formula::tree::parse::FormulaParseError,
            >(f.tree()),
            Err(e) => parsed(s@) matches Err(t) && of_tree(t) == e,
        },
{
    match crate::formula::tree::parse::parse(s) {
        Ok(t) => Ok(Formula::from_tree(&t)),
        Err(crate::formula::tree::parse::FormulaParseError::UnexpectedEOF) => Err(
            FormulaParseError::UnexpectedEOF,
        ),
        Err(crate::formula::tree::parse::FormulaParseError::UnexpectedChar(c)) => Err(
            FormulaParseError::UnexpectedChar(c),
        ),
    }
}

} // verus!
