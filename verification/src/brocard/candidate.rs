//! The outcome of testing one candidate.
use vstd::prelude::*;

verus! {

/// What the residue tests say of one candidate `n` for `n! + 1` being a
/// square.
#[derive(Debug, PartialEq, Eq, Structural, Clone, Copy)]
pub enum BrocardCandidate {
    /// Some prime witnesses that the candidate is no solution; `passed`
    /// counts the primes tested before that witness, none of which was one.
    Nonsolution { candidate: u128, passed: usize },
    /// No prime witnesses against the candidate: it may be a solution.
    Solution(u128),
}

impl BrocardCandidate {
    /// The candidate that the outcome speaks of.
    pub open spec fn number(self) -> u128 {
        match self {
            BrocardCandidate::Nonsolution { candidate, .. } => candidate,
            BrocardCandidate::Solution(n) => n,
        }
    }

    /// Whether the candidate survived every prime.
    #[inline]
    pub fn is_solution(&self) -> (yes: bool)
        ensures
            yes == (*self is Solution),
    {
        match self {
            BrocardCandidate::Solution(_) => true,
            _ => false,
        }
    }

    /// Whether some prime witnessed against the candidate.
    #[inline(always)]
    pub fn is_nonsolution(&self) -> (yes: bool)
        ensures
            yes == (*self is Nonsolution),
    {
        !self.is_solution()
    }

    /// The number of primes a non-solution survived before its witness.
    pub fn passed(&self) -> (count: Option<usize>)
        ensures
            count == match *self {
                BrocardCandidate::Nonsolution { passed, .. } => Some(passed),
                BrocardCandidate::Solution(_) => None,
            },
    {
        match self {
            BrocardCandidate::Nonsolution { passed, .. } => Some(*passed),
            _ => None,
        }
    }
}

} // verus!
