//! The failure taxonomy shared by derivation and composition.
use vstd::prelude::*;

verus! {

/// Why a derivation or composition step was refused. Every kind aborts the pipeline run.
#[derive(Clone, Copy, Debug, PartialEq, Eq, Structural)]
pub enum ErrorKind {
    /// A requested source-chain or rollup record cannot be fetched or replayed.
    DataUnavailable,
    /// Batch data or a header sequence breaks a structural rule.
    MalformedInput,
    /// A live derivation and its replay disagree.
    DeterminismViolation,
    /// A membership proof or a commitment does not match.
    ProofVerificationFailure,
    /// JOIN was asked to combine segments that do not meet.
    AdjacencyViolation,
    /// The proving backend failed.
    BackendFailure,
}

} // verus!
