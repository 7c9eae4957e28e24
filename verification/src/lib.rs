//! A forward-chaining explorer for Hilbert-style propositional calculi.
//!
//! From a set of axiom schemata the explorer derives theorems by modus
//! ponens with unification: the premise is unified with the antecedent
//! of an implication, and the consequent under the most general unifier
//! is a theorem. A [`context::Context`] holds the theorems found so far
//! and saturates them generation by generation; [`generation`] says
//! exactly what a generation is. [`derivation`] traces a theorem back to
//! the axioms, and [`report`] writes what was found.
//!
//! Formulas are kept in flat prefix form with canonical variable names
//! ([`formula::language::Normal`]), so that formulas that differ by the
//! names of their variables only are one. [`formula`] holds them, the
//! arenas in which they are unified, and the notations in which they are
//! read and written; [`parse`] reads the infix notation.

pub mod context;
pub mod derivation;
pub mod formula;
pub mod generation;
pub mod parse;
pub mod report;
