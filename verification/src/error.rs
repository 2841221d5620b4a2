//! What can go wrong.
use vstd::prelude::*;

verus! {

/// Why a folding or a check failed.
#[derive(Debug, Clone, Copy, PartialEq, Eq, Structural)]
pub enum Error {
    /// The transcript could not be written, or did not hold what was to be read.
    Transcript,
    /// The folded error term does not agree with the folded trace.
    Opening,
    /// The error polynomial does not start with the error term.
    ErrorTerm,
    /// The error polynomial does not vanish at the challenge.
    ErrorEvaluation,
    /// The folding polynomial vanishes at the challenge.
    ZeroEvaluation,
    /// The folding polynomial is no multiple of the polynomial that vanishes on
    /// the domain.
    Quotient,
}

} // verus!
