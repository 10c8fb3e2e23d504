use rollup_compose::backend::{combined_state, NodeState};
use rollup_compose::compose::{
    aggregate_output, finish, join, lift, prep, Aggregate, ComposeInput, ComposeInputOperation,
    ComposeOutput, ComposeOutputOperation,
};
use rollup_compose::derivation::{derive_and_replay, Batch, ChainDb, DeriveInput, DeriveOutput, L1Header, OpHead};
use rollup_compose::digest::{BlockRef, Digest};
use rollup_compose::error::ErrorKind;
use rollup_compose::mmr::{MerkleProof, SiblingMap};
use rollup_compose::pipeline::{commit_chain, compose_segments, compose_window, extend_chain};
use rollup_compose::reduce::{check_chained, reduce};
use rollup_compose::ProofType;

fn header(n: u64) -> L1Header {
    L1Header { number: n, hash: [(n - 90) as u8; 32], parent_hash: [(n - 91) as u8; 32] }
}

fn r(n: u64) -> BlockRef {
    BlockRef { number: n, hash: [n as u8; 32] }
}

fn seg(head: u64, tail: u64, eth: u64) -> Aggregate {
    Aggregate { op_head: r(head), op_tail: r(tail), eth_lo: eth, eth_hi: eth }
}

fn root_of(chain: &Vec<L1Header>) -> (SiblingMap, Digest) {
    let (_mmr, map, root) = commit_chain(chain);
    (map, root.unwrap())
}

#[test]
fn prep_commits_contiguous_headers() {
    let chain: Vec<L1Header> = (100..=104).map(header).collect();
    let out = prep(&chain, None).unwrap();
    assert_eq!(out.eth_head, 100);
    assert_eq!(out.eth_tail, BlockRef { number: 104, hash: [14; 32] });
    let (_map, root) = root_of(&chain);
    assert_eq!(out.mmr.root(&mut SiblingMap::new()), Some(root));
}

#[test]
fn prep_with_gap_is_malformed() {
    let chain = vec![header(100), header(101), header(103)];
    assert_eq!(prep(&chain, None).err(), Some(ErrorKind::MalformedInput));
    let input = ComposeInput {
        operation: ComposeInputOperation::Prep { eth_blocks: chain, prior_prep: None },
        eth_chain_merkle_root: [0; 32],
    };
    assert_eq!(input.process().err(), Some(ErrorKind::MalformedInput));
}

#[test]
fn prep_of_nothing_is_malformed() {
    assert_eq!(prep(&vec![], None).err(), Some(ErrorKind::MalformedInput));
}

#[test]
fn prep_chains_onto_prior_prep() {
    let first: Vec<L1Header> = (100..=102).map(header).collect();
    let rest: Vec<L1Header> = (103..=104).map(header).collect();
    let prior = prep(&first, None).unwrap();
    let whole = prep(&rest, Some(prior.clone())).unwrap();
    let all: Vec<L1Header> = (100..=104).map(header).collect();
    assert_eq!(whole, prep(&all, None).unwrap());
    let gap = vec![header(104)];
    assert_eq!(prep(&gap, Some(prior)).err(), Some(ErrorKind::MalformedInput));
}

fn derivation(tail: u64) -> DeriveOutput {
    DeriveOutput {
        eth_tail: BlockRef { number: tail, hash: header(tail).hash },
        op_head: r(10),
        derived_op_blocks: vec![r(11), r(12)],
    }
}

#[test]
fn lift_accepts_proof_of_its_tail() {
    let chain: Vec<L1Header> = (100..=104).map(header).collect();
    let (map, root) = root_of(&chain);
    let d = derivation(102);
    let proof = MerkleProof::new(&map, d.eth_tail.hash).unwrap();
    assert_eq!(lift(&d, &proof, &root), Ok(seg(10, 12, 102)));
}

#[test]
fn lift_with_proof_of_another_leaf_fails() {
    let chain: Vec<L1Header> = (100..=104).map(header).collect();
    let (map, root) = root_of(&chain);
    let d = derivation(102);
    let other = MerkleProof::new(&map, header(101).hash).unwrap();
    assert!(other.verify(&root));
    assert_eq!(lift(&d, &other, &root), Err(ErrorKind::ProofVerificationFailure));
    let input = ComposeInput {
        operation: ComposeInputOperation::Lift { derivation: d, eth_tail_proof: other },
        eth_chain_merkle_root: root,
    };
    assert_eq!(input.process().err(), Some(ErrorKind::ProofVerificationFailure));
}

#[test]
fn lift_against_wrong_root_fails() {
    let chain: Vec<L1Header> = (100..=104).map(header).collect();
    let (map, _root) = root_of(&chain);
    let d = derivation(103);
    let proof = MerkleProof::new(&map, d.eth_tail.hash).unwrap();
    assert_eq!(lift(&d, &proof, &[0; 32]), Err(ErrorKind::ProofVerificationFailure));
}

#[test]
fn join_requires_adjacency() {
    let root = [3u8; 32];
    let a = aggregate_output(seg(10, 14, 101), root);
    let b = aggregate_output(seg(14, 18, 103), root);
    let c = aggregate_output(seg(15, 18, 103), root);
    assert_eq!(join(&a, &b, &root), Ok(Aggregate { op_head: r(10), op_tail: r(18), eth_lo: 101, eth_hi: 103 }));
    assert_eq!(join(&a, &c, &root), Err(ErrorKind::AdjacencyViolation));
    assert_eq!(join(&b, &a, &root), Err(ErrorKind::AdjacencyViolation));
    assert_eq!(join(&a, &b, &[4; 32]), Err(ErrorKind::ProofVerificationFailure));
    let input = ComposeInput {
        operation: ComposeInputOperation::Join { left: a, right: b },
        eth_chain_merkle_root: root,
    };
    let out = input.process().unwrap();
    assert_eq!(out.operation, ComposeOutputOperation::Aggregate(Aggregate { op_head: r(10), op_tail: r(18), eth_lo: 101, eth_hi: 103 }));
}

#[test]
fn join_of_non_aggregate_is_malformed() {
    let root = [3u8; 32];
    let fin = ComposeOutput {
        operation: ComposeOutputOperation::Finish { op_head: r(1), op_tail: r(2) },
        eth_chain_merkle_root: root,
    };
    let a = aggregate_output(seg(2, 4, 101), root);
    assert_eq!(join(&fin, &a, &root), Err(ErrorKind::MalformedInput));
}

#[test]
fn finish_requires_containment_and_root() {
    let chain: Vec<L1Header> = (100..=104).map(header).collect();
    let (_map, root) = root_of(&chain);
    let p = ComposeOutput {
        operation: ComposeOutputOperation::Prep(prep(&chain, None).unwrap()),
        eth_chain_merkle_root: root,
    };
    let inside = aggregate_output(seg(10, 18, 102), root);
    assert_eq!(finish(&p, &inside, &root), Ok((r(10), r(18))));
    let beyond = aggregate_output(seg(10, 18, 105), root);
    assert_eq!(finish(&p, &beyond, &root), Err(ErrorKind::ProofVerificationFailure));
    let before = aggregate_output(seg(10, 18, 99), root);
    assert_eq!(finish(&p, &before, &root), Err(ErrorKind::ProofVerificationFailure));
    let other_root = aggregate_output(seg(10, 18, 102), [1; 32]);
    assert_eq!(finish(&p, &other_root, &root), Err(ErrorKind::ProofVerificationFailure));
    assert_eq!(finish(&inside, &p, &root), Err(ErrorKind::MalformedInput));
    let input = ComposeInput {
        operation: ComposeInputOperation::Finish { prep: p, aggregate: inside },
        eth_chain_merkle_root: root,
    };
    let out = input.process().unwrap();
    assert_eq!(out.operation, ComposeOutputOperation::Finish { op_head: r(10), op_tail: r(18) });
}

fn executed(n: usize) -> Vec<NodeState> {
    vec![NodeState::Executed; n]
}

#[test]
fn reduce_single_segment_needs_no_join() {
    assert_eq!(reduce(vec![seg(1, 2, 100)], executed(1)), Ok((seg(1, 2, 100), NodeState::Executed)));
    assert_eq!(
        reduce(vec![seg(1, 2, 100)], vec![NodeState::Attested]),
        Ok((seg(1, 2, 100), NodeState::Attested))
    );
}

#[test]
fn reduce_attests_only_when_every_segment_was() {
    let segs: Vec<Aggregate> = (0..5u64).map(|i| seg(i * 2, i * 2 + 2, 100 + i)).collect();
    let all = vec![NodeState::Attested; 5];
    assert_eq!(reduce(segs.clone(), all.clone()).unwrap().1, NodeState::Attested);
    let mut one_missing = all;
    one_missing[3] = NodeState::Executed;
    assert_eq!(reduce(segs.clone(), one_missing).unwrap().1, NodeState::Executed);
    assert_eq!(reduce(segs, executed(4)), Err(ErrorKind::MalformedInput));
}

#[test]
fn reduce_odd_and_even_counts_span_whole_chain() {
    for n in 1u64..=9 {
        let segs: Vec<Aggregate> = (0..n).map(|i| seg(i * 2, i * 2 + 2, 100 + i)).collect();
        let (out, state) = reduce(segs, executed(n as usize)).unwrap();
        assert_eq!(state, NodeState::Executed);
        assert_eq!(out.op_head, r(0));
        assert_eq!(out.op_tail, r(n * 2));
        assert_eq!(out.eth_lo, 100);
        assert_eq!(out.eth_hi, 100 + n - 1);
    }
}

#[test]
fn reduce_refuses_gaps_and_empty_queues() {
    assert_eq!(reduce(vec![], vec![]), Err(ErrorKind::MalformedInput));
    let gap = vec![seg(0, 2, 100), seg(3, 4, 100), seg(4, 6, 100)];
    assert!(!check_chained(&gap));
    assert_eq!(reduce(gap, executed(3)), Err(ErrorKind::AdjacencyViolation));
    let cycle = vec![seg(0, 2, 100), seg(2, 0, 100)];
    assert!(check_chained(&cycle));
    assert_eq!(reduce(cycle, executed(2)), Err(ErrorKind::AdjacencyViolation));
}

#[test]
fn extend_chain_keeps_shared_headers_once() {
    let mut chain = Vec::new();
    extend_chain(&mut chain, &(100..=102).map(header).collect());
    extend_chain(&mut chain, &(102..=104).map(header).collect());
    extend_chain(&mut chain, &vec![header(101)]);
    let numbers: Vec<u64> = chain.iter().map(|h| h.number).collect();
    assert_eq!(numbers, vec![100, 101, 102, 103, 104]);
}

fn op_db() -> ChainDb {
    ChainDb {
        eth_headers: (100..=106).map(header).collect(),
        op_heads: vec![
            OpHead { number: 10, hash: [50; 32], epoch: 100 },
            OpHead { number: 14, hash: [14; 32], epoch: 102 },
        ],
    }
}

fn window(head: u64, epochs: [u64; 4]) -> DeriveInput {
    let op_blocks = epochs
        .iter()
        .enumerate()
        .map(|(i, e)| Batch { epoch: *e, block_hash: [(head + 1 + i as u64) as u8; 32] })
        .collect();
    DeriveInput { op_head_block_no: head, op_derive_block_count: 4, op_blocks }
}

#[test]
fn two_segments_of_four_compose_to_whole_window() {
    let db = op_db();
    let mut outputs = Vec::new();
    let mut chain = Vec::new();
    for (head, epochs) in [(10u64, [100, 101, 101, 102]), (14, [102, 103, 103, 104])] {
        let (out, captured) = derive_and_replay(&window(head, epochs), &db).unwrap();
        extend_chain(&mut chain, &captured.eth_headers);
        outputs.push(out);
    }
    assert_eq!(chain.len(), 5);
    let (head, tail, state) = compose_segments(&outputs, &executed(2), &chain, NodeState::Executed).unwrap();
    assert_eq!(head, BlockRef { number: 10, hash: [50; 32] });
    assert_eq!(tail, BlockRef { number: 18, hash: [18; 32] });
    assert_eq!(state, NodeState::Executed);
    let attested = vec![NodeState::Attested; 2];
    assert_eq!(compose_segments(&outputs, &attested, &chain, NodeState::Attested).unwrap().2, NodeState::Attested);
    assert_eq!(compose_segments(&outputs, &attested, &chain, NodeState::Executed).unwrap().2, NodeState::Executed);
    assert_eq!(compose_segments(&outputs, &executed(1), &chain, NodeState::Executed), Err(ErrorKind::MalformedInput));
}

fn window_batches() -> Vec<Batch> {
    let epochs = [100u64, 101, 101, 102, 102, 103, 103, 104];
    epochs.iter().enumerate().map(|(i, e)| Batch { epoch: *e, block_hash: [(11 + i) as u8; 32] }).collect()
}

#[test]
fn window_of_eight_in_segments_of_four_composes() {
    let (head, tail) = compose_window(&op_db(), 10, 8, 4, &window_batches()).unwrap();
    assert_eq!(head, BlockRef { number: 10, hash: [50; 32] });
    assert_eq!(tail, BlockRef { number: 18, hash: [18; 32] });
}

#[test]
fn window_checks_its_parameters() {
    assert_eq!(compose_window(&op_db(), 10, 8, 0, &window_batches()), Err(ErrorKind::MalformedInput));
    let short: Vec<Batch> = window_batches().into_iter().take(6).collect();
    assert_eq!(compose_window(&op_db(), 10, 8, 4, &short), Err(ErrorKind::MalformedInput));
    assert_eq!(compose_window(&op_db(), 10, 8, 3, &window_batches()), Err(ErrorKind::DataUnavailable));
    assert_eq!(compose_window(&op_db(), 10, 0, 4, &window_batches()), Err(ErrorKind::MalformedInput));
}

#[test]
fn compose_reports_each_failure() {
    let db = op_db();
    let (out, _) = derive_and_replay(&window(10, [100, 101, 101, 102]), &db).unwrap();
    let outputs = vec![out];
    let gap = vec![header(100), header(102)];
    assert_eq!(compose_segments(&outputs, &executed(1), &gap, NodeState::Executed), Err(ErrorKind::MalformedInput));
    let missing_tail: Vec<L1Header> = (100..=101).map(header).collect();
    assert_eq!(
        compose_segments(&outputs, &executed(1), &missing_tail, NodeState::Executed),
        Err(ErrorKind::ProofVerificationFailure)
    );
    let covering: Vec<L1Header> = (100..=103).map(header).collect();
    assert!(compose_segments(&outputs, &executed(1), &covering, NodeState::Executed).is_ok());
    let later: Vec<L1Header> = (101..=103).map(header).collect();
    assert!(compose_segments(&outputs, &executed(1), &later, NodeState::Executed).is_ok());
}

#[test]
fn commit_chain_map_proves_every_header() {
    let chain: Vec<L1Header> = (100..=106).map(header).collect();
    let (mmr, map, root) = commit_chain(&chain);
    let root = root.unwrap();
    assert_eq!(mmr.root(&mut SiblingMap::new()), Some(root));
    for h in &chain {
        assert!(MerkleProof::new(&map, h.hash).unwrap().verify(&root));
    }
}

#[test]
fn compose_refuses_empty_inputs() {
    assert_eq!(compose_segments(&vec![], &vec![], &vec![], NodeState::Executed), Err(ErrorKind::MalformedInput));
    let chain: Vec<L1Header> = (100..=101).map(header).collect();
    assert_eq!(compose_segments(&vec![], &vec![], &chain, NodeState::Executed), Err(ErrorKind::MalformedInput));
}

#[test]
fn node_attested_only_when_both_children_are() {
    assert_eq!(combined_state(NodeState::Attested, NodeState::Attested), NodeState::Attested);
    assert_eq!(combined_state(NodeState::Attested, NodeState::Executed), NodeState::Executed);
    assert_eq!(combined_state(NodeState::Executed, NodeState::Attested), NodeState::Executed);
    assert_eq!(combined_state(NodeState::Executed, NodeState::Executed), NodeState::Executed);
}

#[test]
fn proof_types_are_ordered_by_declaration() {
    assert!(ProofType::Succinct < ProofType::PseZk);
    assert!(ProofType::Powdr < ProofType::Sgx);
    assert_eq!(ProofType::Sgx.clone(), ProofType::Sgx);
}
