//! What the library knows of the proving backend: the kinds of proof and whether a
//! composition node carries an attestation.
use vstd::prelude::*;

verus! {

/// The proving systems a run may be escorted by.
#[derive(Clone, Copy, Debug, PartialEq, Eq, PartialOrd, Ord, Hash)]
pub enum ProofType {
    Succinct,
    PseZk,
    Powdr,
    Sgx,
}

/// Whether a composition node was only executed or also attested by the backend.
#[derive(Clone, Copy, Debug, PartialEq, Eq, Structural)]
pub enum NodeState {
    Executed,
    Attested,
}

/// The state a JOIN or FINISH node may reach: it can be attested only when both children were;
/// otherwise it is executed without an attestation, which is no error.
pub fn combined_state(left: NodeState, right: NodeState) -> (r: NodeState)
    ensures
        r == (if left == NodeState::Attested && right == NodeState::Attested {
            NodeState::Attested
        } else {
            NodeState::Executed
        }),
{
    match (left, right) {
        (NodeState::Attested, NodeState::Attested) => NodeState::Attested,
        _ => NodeState::Executed,
    }
}

} // verus!
