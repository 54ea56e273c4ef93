use vstd::prelude::*;

verus! {

/// Why building a registry from raw operator records failed.
#[derive(Debug, Clone, Copy, PartialEq, Eq, Structural)]
pub enum BuildError {
    /// A record's coordinate fields were missing, were not decimal numbers of
    /// a field element's size, or did not decode to a point on the right
    /// curve and in the right subgroup.
    MalformedOperatorRecord,
}

/// Why a signature could not be checked at all. A signature that checks and
/// is merely invalid is a `false` result, not an error.
#[derive(Debug, Clone, Copy, PartialEq, Eq, Structural)]
pub enum VerifyError {
    /// A declared non-signer id is absent from the registry.
    UnknownOperator,
    /// The registry's total stake is zero, so no quorum share is defined.
    EmptyOperatorSet,
}

/// Why pulling finalized batches failed. Transport failures stay with the
/// caller that does the I/O; this error is a protocol violation.
#[derive(Debug, Clone, Copy, PartialEq, Eq, Structural)]
pub enum PullError {
    /// The server declared a finality pointer at or behind an index that was
    /// already consumed; it can never be reached and must not be skipped.
    FinalityPointerRegression,
}

} // verus!
