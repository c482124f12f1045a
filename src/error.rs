use vstd::prelude::*;

verus! {

/// Why a run cannot go on.
#[derive(Debug, PartialEq, Eq, Structural)]
pub enum HuntError {
    /// The configured maximum is below the configured minimum.
    MaxBelowMin,
    /// The configured percentage is above 100.
    PercentOutOfRange,
    /// No process of the invoking user was found.
    NoCandidates,
    /// No inspected process had a (matching) `DISPLAY`.
    NoDisplay,
}

} // verus!
