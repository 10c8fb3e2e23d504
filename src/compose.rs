//! The composition engine: PREP commits a source-chain range, LIFT wraps one derivation
//! result, JOIN merges adjacent aggregates and FINISH binds an aggregate to the committed range.
use crate::derivation::{DeriveOutput, Derived, L1Header};
use crate::digest::{digest_eq, BlockRef, Digest};
use crate::error::ErrorKind;
use crate::mmr::{
    add_leaf, proof_root, root_of, steps_view, MerkleMountainRange, MerkleProof, SiblingMap,
};
use vstd::prelude::*;

verus! {

/// The result of a PREP: the first and last source-chain blocks committed, and the range.
#[derive(Clone, Debug, PartialEq, Eq)]
pub struct PrepOutput {
    pub eth_head: u64,
    pub eth_tail: BlockRef,
    pub mmr: MerkleMountainRange,
}

/// An aggregate over contiguous rollup segments: the rollup boundary it spans and the range of
/// source-chain tails its segments reached.
#[derive(Clone, Copy, Debug, PartialEq, Eq)]
pub struct Aggregate {
    pub op_head: BlockRef,
    pub op_tail: BlockRef,
    pub eth_lo: u64,
    pub eth_hi: u64,
}

/// What a composition step produced.
#[derive(Clone, Debug, PartialEq, Eq)]
pub enum ComposeOutputOperation {
    Prep(PrepOutput),
    Aggregate(Aggregate),
    Finish { op_head: BlockRef, op_tail: BlockRef },
}

/// A composition result and the source-chain commitment it was checked against.
#[derive(Clone, Debug, PartialEq, Eq)]
pub struct ComposeOutput {
    pub operation: ComposeOutputOperation,
    pub eth_chain_merkle_root: Digest,
}

/// The four composition steps.
#[derive(Clone, Debug, PartialEq, Eq)]
pub enum ComposeInputOperation {
    Prep { eth_blocks: Vec<L1Header>, prior_prep: Option<PrepOutput> },
    Lift { derivation: DeriveOutput, eth_tail_proof: MerkleProof },
    Join { left: ComposeOutput, right: ComposeOutput },
    Finish { prep: ComposeOutput, aggregate: ComposeOutput },
}

/// A composition step and the commitment over the whole source-chain range of the run.
#[derive(Clone, Debug, PartialEq, Eq)]
pub struct ComposeInput {
    pub operation: ComposeInputOperation,
    pub eth_chain_merkle_root: Digest,
}

/// The peaks after appending the hashes of `blocks` in order to `p`.
pub open spec fn append_all(p: Seq<Option<Seq<u8>>>, blocks: Seq<L1Header>) -> Seq<
    Option<Seq<u8>>,
>
    decreases blocks.len(),
{
    if blocks.len() == 0 {
        p
    } else {
        add_leaf(append_all(p, blocks.drop_last()), blocks.last().hash@)
    }
}

/// Each header's number follows the one before it; the first follows `prev` when there is one.
pub open spec fn contiguous_after(prev: Option<u64>, blocks: Seq<L1Header>) -> bool {
    &&& forall|i: int|
        0 < i < blocks.len() ==> (#[trigger] blocks[i]).number == blocks[i - 1].number + 1
    &&& (prev is Some && blocks.len() > 0 ==> blocks[0].number == prev->Some_0 + 1)
}

/// The last rollup block a derivation result reaches: its last derived block, or its head
/// when it derived none.
pub open spec fn op_tail_of(d: Derived) -> BlockRef {
    if d.2.len() == 0 {
        d.1
    } else {
        d.2.last()
    }
}

/// The aggregate that LIFT makes of a derivation result.
pub open spec fn lifted(d: Derived) -> Aggregate {
    Aggregate { op_head: d.1, op_tail: op_tail_of(d), eth_lo: d.0.number, eth_hi: d.0.number }
}

pub open spec fn min_u64(a: u64, b: u64) -> u64 {
    if a <= b {
        a
    } else {
        b
    }
}

pub open spec fn max_u64(a: u64, b: u64) -> u64 {
    if a >= b {
        a
    } else {
        b
    }
}

/// The aggregate spanning `l` followed by `r`.
pub open spec fn joined(l: Aggregate, r: Aggregate) -> Aggregate {
    Aggregate {
        op_head: l.op_head,
        op_tail: r.op_tail,
        eth_lo: min_u64(l.eth_lo, r.eth_lo),
        eth_hi: max_u64(l.eth_hi, r.eth_hi),
    }
}

/// The result of JOIN.
pub open spec fn join_spec(left: ComposeOutput, right: ComposeOutput, root: Digest) -> Result<
    Aggregate,
    ErrorKind,
> {
    match (left.operation, right.operation) {
        (ComposeOutputOperation::Aggregate(l), ComposeOutputOperation::Aggregate(r)) => {
            if left.eth_chain_merkle_root@ != root@ || right.eth_chain_merkle_root@ != root@ {
                Err(ErrorKind::ProofVerificationFailure)
            } else if l.op_tail != r.op_head {
                Err(ErrorKind::AdjacencyViolation)
            } else {
                Ok(joined(l, r))
            }
        },
        _ => Err(ErrorKind::MalformedInput),
    }
}

/// The result of FINISH: the rollup boundary of the aggregate.
pub open spec fn finish_spec(prep: ComposeOutput, aggregate: ComposeOutput, root: Digest) -> Result<
    (BlockRef, BlockRef),
    ErrorKind,
> {
    match (prep.operation, aggregate.operation) {
        (ComposeOutputOperation::Prep(p), ComposeOutputOperation::Aggregate(a)) => {
            if prep.eth_chain_merkle_root@ != root@ || aggregate.eth_chain_merkle_root@ != root@
                || root_of(p.mmr.view()) != Some(root@) {
                Err(ErrorKind::ProofVerificationFailure)
            } else if !(p.eth_head <= a.eth_lo && a.eth_hi <= p.eth_tail.number) {
                Err(ErrorKind::ProofVerificationFailure)
            } else {
                Ok((a.op_head, a.op_tail))
            }
        },
        _ => Err(ErrorKind::MalformedInput),
    }
}

/// The number of the last block a prior PREP committed, if there is one.
pub open spec fn prior_tail_number(prior: Option<PrepOutput>) -> Option<u64> {
    match prior {
        Some(p) => Some(p.eth_tail.number),
        None => None,
    }
}

/// The peaks a PREP starts from.
pub open spec fn prior_peaks(prior: Option<PrepOutput>) -> Seq<Option<Seq<u8>>> {
    match prior {
        Some(p) => p.mmr.view(),
        None => Seq::<Option<Seq<u8>>>::empty(),
    }
}

pub fn aggregate_output(a: Aggregate, root: Digest) -> (r: ComposeOutput)
    ensures
        r.operation == ComposeOutputOperation::Aggregate(a),
        r.eth_chain_merkle_root == root,
{
    ComposeOutput { operation: ComposeOutputOperation::Aggregate(a), eth_chain_merkle_root: root }
}

/// PREP: appends the hashes of `eth_blocks` to the range of `prior_prep` (or to an empty one).
/// Fails with `MalformedInput` when the numbers are not contiguous, also across the prior
/// tail, or when nothing at all is committed.
pub fn prep(eth_blocks: &Vec<L1Header>, prior_prep: Option<PrepOutput>) -> (r: Result<
    PrepOutput,
    ErrorKind,
>)
    ensures
        r is Ok <==> contiguous_after(prior_tail_number(prior_prep), eth_blocks@) && (prior_prep is Some || eth_blocks@.len() > 0),
        r matches Err(e) ==> e == ErrorKind::MalformedInput,
        r matches Ok(out) ==> {
            &&& out.mmr.view() == append_all(prior_peaks(prior_prep), eth_blocks@)
            &&& out.eth_head == (match prior_prep {
                Some(p) => p.eth_head,
                None => eth_blocks@[0].number,
            })
            &&& out.eth_tail == (if eth_blocks@.len() > 0 {
                BlockRef { number: eth_blocks@.last().number, hash: eth_blocks@.last().hash }
            } else {
                prior_prep->Some_0.eth_tail
            })
        },
{
    if !check_contiguous(&prior_prep, eth_blocks) {
        return Err(ErrorKind::MalformedInput);
    }
    let (mut mmr, head, tail): (MerkleMountainRange, Option<u64>, Option<BlockRef>) =
        match prior_prep {
        Some(p) => (p.mmr, Some(p.eth_head), Some(p.eth_tail)),
        None => (MerkleMountainRange::new(), None, None),
    };
    let ghost start_peaks = mmr.view();
    let ghost blocks = eth_blocks@;
    let mut scratch = SiblingMap::new();
    let mut i: usize = 0;
    assert(blocks.take(0) =~= Seq::<L1Header>::empty());
    while i < eth_blocks.len()
        invariant
            0 <= i <= blocks.len(),
            blocks == eth_blocks@,
            mmr.view() == append_all(start_peaks, blocks.take(i as int)),
        decreases blocks.len() - i,
    {
        mmr.append_leaf(eth_blocks[i].hash, &mut scratch);
        assert(blocks.take(i + 1).drop_last() =~= blocks.take(i as int));
        i += 1;
    }
    assert(blocks.take(blocks.len() as int) =~= blocks);
    let n = eth_blocks.len();
    let eth_tail = if n > 0 {
        BlockRef { number: eth_blocks[n - 1].number, hash: eth_blocks[n - 1].hash }
    } else {
        match tail {
            Some(t) => t,
            None => {
                return Err(ErrorKind::MalformedInput);
            },
        }
    };
    let eth_head = match head {
        Some(h) => h,
        None => eth_blocks[0].number,
    };
    Ok(PrepOutput { eth_head, eth_tail, mmr })
}

/// Whether the numbers of `blocks` run on one by one from the prior tail.
fn check_contiguous(prior_prep: &Option<PrepOutput>, blocks: &Vec<L1Header>) -> (r: bool)
    ensures
        r == contiguous_after(prior_tail_number(*prior_prep), blocks@),
{
    let n = blocks.len();
    if n > 0 {
        match prior_prep {
            Some(p) => {
                if blocks[0].number == 0 || blocks[0].number - 1 != p.eth_tail.number {
                    return false;
                }
            },
            None => {},
        }
    }
    let mut i: usize = 1;
    while i < n
        invariant
            1 <= i,
            n == blocks@.len(),
            i <= n || n == 0,
            forall|j: int| 0 < j < i && j < n ==> (#[trigger] blocks@[j]).number == blocks@[j
                - 1].number + 1,
        decreases n - i,
    {
        if blocks[i].number == 0 || blocks[i].number - 1 != blocks[i - 1].number {
            return false;
        }
        i += 1;
    }
    true
}

/// LIFT: wraps a derivation result as an aggregate once `eth_tail_proof` shows that its
/// source-chain tail is a leaf of the range committed by `root`; fails with
/// `ProofVerificationFailure` otherwise.
pub fn lift(derivation: &DeriveOutput, eth_tail_proof: &MerkleProof, root: &Digest) -> (r: Result<
    Aggregate,
    ErrorKind,
>)
    ensures
        r is Ok <==> (eth_tail_proof.leaf@ == derivation.eth_tail.hash@ && proof_root(
            eth_tail_proof.leaf@,
            steps_view(eth_tail_proof.path@),
        ) == root@),
        r matches Ok(a) ==> a == lifted(derivation.view()),
        r matches Err(e) ==> e == ErrorKind::ProofVerificationFailure,
{
    if !digest_eq(&eth_tail_proof.leaf, &derivation.eth_tail.hash) || !eth_tail_proof.verify(
        root,
    ) {
        return Err(ErrorKind::ProofVerificationFailure);
    }
    let n = derivation.derived_op_blocks.len();
    let op_tail = if n == 0 {
        derivation.op_head
    } else {
        derivation.derived_op_blocks[n - 1]
    };
    Ok(
        Aggregate {
            op_head: derivation.op_head,
            op_tail,
            eth_lo: derivation.eth_tail.number,
            eth_hi: derivation.eth_tail.number,
        },
    )
}

/// JOIN: merges two aggregates checked against `root` when the left one ends where the right
/// one begins.
pub fn join(left: &ComposeOutput, right: &ComposeOutput, root: &Digest) -> (r: Result<
    Aggregate,
    ErrorKind,
>)
    ensures
        r == join_spec(*left, *right, *root),
{
    match (&left.operation, &right.operation) {
        (ComposeOutputOperation::Aggregate(l), ComposeOutputOperation::Aggregate(r)) => {
            if !digest_eq(&left.eth_chain_merkle_root, root) || !digest_eq(
                &right.eth_chain_merkle_root,
                root,
            ) {
                return Err(ErrorKind::ProofVerificationFailure);
            }
            if !l.op_tail.same(&r.op_head) {
                return Err(ErrorKind::AdjacencyViolation);
            }
            Ok(join_aggregates(l, r))
        },
        _ => Err(ErrorKind::MalformedInput),
    }
}

/// The aggregate spanning `l` followed by `r`.
pub fn join_aggregates(l: &Aggregate, r: &Aggregate) -> (out: Aggregate)
    ensures
        out == joined(*l, *r),
{
    Aggregate {
        op_head: l.op_head,
        op_tail: r.op_tail,
        eth_lo: if l.eth_lo <= r.eth_lo {
            l.eth_lo
        } else {
            r.eth_lo
        },
        eth_hi: if l.eth_hi >= r.eth_hi {
            l.eth_hi
        } else {
            r.eth_hi
        },
    }
}

/// FINISH: binds an aggregate to a PREP when both were checked against `root`, the PREP's
/// range commits to `root`, and the aggregate's source-chain tails lie inside that range.
pub fn finish(prep: &ComposeOutput, aggregate: &ComposeOutput, root: &Digest) -> (r: Result<
    (BlockRef, BlockRef),
    ErrorKind,
>)
    ensures
        r == finish_spec(*prep, *aggregate, *root),
{
    match (&prep.operation, &aggregate.operation) {
        (ComposeOutputOperation::Prep(p), ComposeOutputOperation::Aggregate(a)) => {
            if !digest_eq(&prep.eth_chain_merkle_root, root) || !digest_eq(
                &aggregate.eth_chain_merkle_root,
                root,
            ) {
                return Err(ErrorKind::ProofVerificationFailure);
            }
            let mut scratch = SiblingMap::new();
            match p.mmr.root(&mut scratch) {
                None => {
                    return Err(ErrorKind::ProofVerificationFailure);
                },
                Some(committed) => {
                    if !digest_eq(&committed, root) {
                        return Err(ErrorKind::ProofVerificationFailure);
                    }
                },
            }
            if !(p.eth_head <= a.eth_lo && a.eth_hi <= p.eth_tail.number) {
                return Err(ErrorKind::ProofVerificationFailure);
            }
            Ok((a.op_head, a.op_tail))
        },
        _ => Err(ErrorKind::MalformedInput),
    }
}

impl ComposeInput {
    /// Runs the composition step; every output carries the input's commitment.
    pub fn process(self) -> (r: Result<ComposeOutput, ErrorKind>)
        ensures
            r matches Ok(o) ==> o.eth_chain_merkle_root == self.eth_chain_merkle_root,
            match self.operation {
                ComposeInputOperation::Prep { eth_blocks, prior_prep } => {
                    &&& (r is Ok <==> contiguous_after(prior_tail_number(prior_prep), eth_blocks@)
                        && (prior_prep is Some || eth_blocks@.len() > 0))
                    &&& (r matches Err(e) ==> e == ErrorKind::MalformedInput)
                    &&& (r matches Ok(o) ==> o.operation matches ComposeOutputOperation::Prep(p)
                        && p.mmr.view() == append_all(prior_peaks(prior_prep), eth_blocks@)
                        && p.eth_head == (match prior_prep {
                        Some(q) => q.eth_head,
                        None => eth_blocks@[0].number,
                    }) && p.eth_tail == (if eth_blocks@.len() > 0 {
                        BlockRef {
                            number: eth_blocks@.last().number,
                            hash: eth_blocks@.last().hash,
                        }
                    } else {
                        prior_prep->Some_0.eth_tail
                    }))
                },
                ComposeInputOperation::Lift { derivation, eth_tail_proof } => {
                    &&& (r is Ok <==> (eth_tail_proof.leaf@ == derivation.eth_tail.hash@
                        && proof_root(eth_tail_proof.leaf@, steps_view(eth_tail_proof.path@))
                        == self.eth_chain_merkle_root@))
                    &&& (r matches Err(e) ==> e == ErrorKind::ProofVerificationFailure)
                    &&& (r matches Ok(o) ==> o.operation == ComposeOutputOperation::Aggregate(
                        lifted(derivation.view()),
                    ))
                },
                ComposeInputOperation::Join { left, right } => match join_spec(
                    left,
                    right,
                    self.eth_chain_merkle_root,
                ) {
                    Ok(a) => r matches Ok(o) && o.operation == ComposeOutputOperation::Aggregate(a),
                    Err(e) => r == Err::<ComposeOutput, ErrorKind>(e),
                },
                ComposeInputOperation::Finish { prep, aggregate } => match finish_spec(
                    prep,
                    aggregate,
                    self.eth_chain_merkle_root,
                ) {
                    Ok((h, t)) => r matches Ok(o) && o.operation == (
                    ComposeOutputOperation::Finish { op_head: h, op_tail: t }),
                    Err(e) => r == Err::<ComposeOutput, ErrorKind>(e),
                },
            },
    {
        let root = self.eth_chain_merkle_root;
        let operation = match self.operation {
            ComposeInputOperation::Prep { eth_blocks, prior_prep } => {
                match prep(&eth_blocks, prior_prep) {
                    Ok(p) => ComposeOutputOperation::Prep(p),
                    Err(e) => {
                        return Err(e);
                    },
                }
            },
            ComposeInputOperation::Lift { derivation, eth_tail_proof } => {
                match lift(&derivation, &eth_tail_proof, &root) {
                    Ok(a) => ComposeOutputOperation::Aggregate(a),
                    Err(e) => {
                        return Err(e);
                    },
                }
            },
            ComposeInputOperation::Join { left, right } => {
                match join(&left, &right, &root) {
                    Ok(a) => ComposeOutputOperation::Aggregate(a),
                    Err(e) => {
                        return Err(e);
                    },
                }
            },
            ComposeInputOperation::Finish { prep, aggregate } => {
                match finish(&prep, &aggregate, &root) {
                    Ok((op_head, op_tail)) => ComposeOutputOperation::Finish { op_head, op_tail },
                    Err(e) => {
                        return Err(e);
                    },
                }
            },
        };
        Ok(ComposeOutput { operation, eth_chain_merkle_root: root })
    }
}

} // verus!
