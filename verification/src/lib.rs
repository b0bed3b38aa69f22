//! Search support for Brocard's problem: which `n` make `n! + 1` a perfect
//! square?  Candidates are filtered with quadratic-residue tests carried out
//! in Montgomery arithmetic.
pub mod math;
pub mod brocard;
pub mod montgomery;
