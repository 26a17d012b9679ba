//! Symbolic anomaly detection for discrete event sequences: the verified core.
//!
//! The library holds the combinatorial parts of grammar induction and
//! alignment: symbol interning, the grammar data model, coverage and cursor
//! bookkeeping of the beam search, span and n-gram extraction, and the
//! construction of higher-level pattern-id sequences.
#![allow(unused_imports)]

pub mod intern;

pub mod model;
pub mod induce;
pub mod ngrams;
pub mod beam;
pub mod levels;
pub mod symbols;
pub mod validate;
pub mod report;
pub mod training;
pub mod alignment;
pub mod tally;
pub mod spans;

pub use intern::Interner;
