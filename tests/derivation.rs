use rollup_compose::derivation::{
    capture, derive_and_replay, outputs_equal, Batch, ChainDb, DeriveInput, L1Header,
    OpHead,
};
use rollup_compose::digest::BlockRef;
use rollup_compose::error::ErrorKind;

fn header(n: u64) -> L1Header {
    L1Header { number: n, hash: [(n - 90) as u8; 32], parent_hash: [(n - 91) as u8; 32] }
}

fn db() -> ChainDb {
    ChainDb {
        eth_headers: (100..=104).map(header).collect(),
        op_heads: vec![OpHead { number: 10, hash: [50; 32], epoch: 100 }],
    }
}

fn batch(epoch: u64, h: u8) -> Batch {
    Batch { epoch, block_hash: [h; 32] }
}

fn input(batches: Vec<Batch>) -> DeriveInput {
    DeriveInput { op_head_block_no: 10, op_derive_block_count: batches.len() as u64, op_blocks: batches }
}

#[test]
fn derives_blocks_in_order_and_tracks_tail() {
    let inp = input(vec![batch(100, 11), batch(101, 12), batch(101, 13), batch(103, 14)]);
    let out = rollup_compose::derivation::derive(&inp, &db()).unwrap();
    assert_eq!(out.op_head, BlockRef { number: 10, hash: [50; 32] });
    assert_eq!(out.eth_tail, BlockRef { number: 103, hash: [13; 32] });
    let numbers: Vec<u64> = out.derived_op_blocks.iter().map(|b| b.number).collect();
    assert_eq!(numbers, vec![11, 12, 13, 14]);
    assert_eq!(out.derived_op_blocks[3].hash, [14; 32]);
}

#[test]
fn no_batches_keeps_head_origin_as_tail() {
    let out = rollup_compose::derivation::derive(&input(vec![]), &db()).unwrap();
    assert_eq!(out.eth_tail, BlockRef { number: 100, hash: [10; 32] });
    assert!(out.derived_op_blocks.is_empty());
}

#[test]
fn backward_epoch_is_malformed() {
    let inp = input(vec![batch(102, 11), batch(101, 12)]);
    assert_eq!(rollup_compose::derivation::derive(&inp, &db()), Err(ErrorKind::MalformedInput));
}

#[test]
fn count_mismatch_is_malformed() {
    let mut inp = input(vec![batch(100, 11)]);
    inp.op_derive_block_count = 2;
    assert_eq!(rollup_compose::derivation::derive(&inp, &db()), Err(ErrorKind::MalformedInput));
}

#[test]
fn unknown_head_is_unavailable() {
    let mut inp = input(vec![batch(100, 11)]);
    inp.op_head_block_no = 11;
    assert_eq!(rollup_compose::derivation::derive(&inp, &db()), Err(ErrorKind::DataUnavailable));
}

#[test]
fn missing_header_in_range_is_unavailable() {
    let mut source = db();
    source.eth_headers.remove(2);
    let inp = input(vec![batch(100, 11), batch(103, 12)]);
    assert_eq!(rollup_compose::derivation::derive(&inp, &source), Err(ErrorKind::DataUnavailable));
    assert!(rollup_compose::derivation::derive(&input(vec![batch(101, 11)]), &source).is_ok());
}

#[test]
fn derivation_is_deterministic_across_sources() {
    let inp = input(vec![batch(100, 11), batch(102, 12)]);
    let mut reordered = db();
    reordered.eth_headers.reverse();
    let a = rollup_compose::derivation::derive(&inp, &db()).unwrap();
    let b = rollup_compose::derivation::derive(&inp, &reordered).unwrap();
    assert!(outputs_equal(&a, &b));
    assert_eq!(a, b);
}

#[test]
fn replay_against_touched_records_matches() {
    let inp = input(vec![batch(100, 11), batch(101, 12), batch(102, 13)]);
    let (out, captured) = derive_and_replay(&inp, &db()).unwrap();
    let numbers: Vec<u64> = captured.eth_headers.iter().map(|h| h.number).collect();
    assert_eq!(numbers, vec![100, 101, 102]);
    assert_eq!(captured.op_heads.len(), 1);
    assert_eq!(rollup_compose::derivation::derive(&inp, &captured).unwrap(), out);
    assert_eq!(rollup_compose::derivation::derive(&inp, &db()).unwrap(), out);
}

#[test]
fn replay_reports_derivation_error() {
    let inp = input(vec![batch(101, 11), batch(100, 12)]);
    assert_eq!(derive_and_replay(&inp, &db()).err(), Some(ErrorKind::MalformedInput));
}

#[test]
fn capture_checks_its_range() {
    assert_eq!(capture(&db(), 10, 103, 102).err(), Some(ErrorKind::MalformedInput));
    assert_eq!(capture(&db(), 10, 103, 105).err(), Some(ErrorKind::DataUnavailable));
    assert_eq!(capture(&db(), 9, 100, 101).err(), Some(ErrorKind::DataUnavailable));
    let c = capture(&db(), 10, 101, 103).unwrap();
    assert_eq!(c.eth_headers, vec![header(101), header(102), header(103)]);
}

#[test]
fn outputs_equal_notices_differences() {
    let inp = input(vec![batch(100, 11), batch(101, 12)]);
    let a = rollup_compose::derivation::derive(&inp, &db()).unwrap();
    let mut b = a.clone();
    assert!(outputs_equal(&a, &b));
    b.derived_op_blocks[1].hash[0] = 0;
    assert!(!outputs_equal(&a, &b));
}
