//! Derivation of rollup chain state from a source chain, a Merkle Mountain Range over
//! source-chain block hashes, and the composition engine that reduces per-segment
//! derivation results into one aggregate bound to a committed source-chain range.
use vstd::prelude::*;

pub mod backend;
pub mod compose;
pub mod derivation;
pub mod digest;
pub mod error;
pub mod mmr;
pub mod pipeline;
pub mod reduce;

pub use backend::ProofType;

verus! {

} // verus!
