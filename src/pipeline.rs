//! The host's composition run: merging per-segment source-chain headers into one chain,
//! committing it, and driving PREP, LIFT, the reduction and FINISH over derivation results.
use crate::backend::{combined_state, NodeState};
use crate::compose::{
    aggregate_output, append_all, contiguous_after, finish, lift, lifted, op_tail_of, prep,
    Aggregate, ComposeOutput, ComposeOutputOperation,
};
use crate::derivation::{
    derive_and_replay, derive_parts, find_header, find_op, Batch, ChainDb, DeriveInput,
    DeriveOutput, Derived, L1Header,
};
use crate::digest::{BlockRef, Digest};
use crate::error::ErrorKind;
use crate::mmr::{
    add_leaf, bag_log, carry_log, entries_view, lemma_nonempty_has_root, lookup, opt_view,
    proof_root, root_of, walk, MerkleMountainRange, MerkleProof, Record, SiblingMap,
};
use crate::reduce::{all_attested, max_hi, min_lo, reduce, reducible};
use vstd::prelude::*;

verus! {

/// The number of the last header of `chain`, or zero when it is empty.
pub open spec fn tail_number(chain: Seq<L1Header>) -> u64 {
    if chain.len() == 0 {
        0
    } else {
        chain.last().number
    }
}

/// `chain` extended by the headers of `seg` that lie beyond its tail, in order.
pub open spec fn extend_spec(chain: Seq<L1Header>, seg: Seq<L1Header>) -> Seq<L1Header>
    decreases seg.len(),
{
    if seg.len() == 0 {
        chain
    } else {
        let c = extend_spec(chain, seg.drop_last());
        if tail_number(c) < seg.last().number {
            c.push(seg.last())
        } else {
            c
        }
    }
}

/// The header numbers of `chain` strictly increase.
pub open spec fn increasing(chain: Seq<L1Header>) -> bool {
    forall|i: int| 0 < i < chain.len() ==> chain[i - 1].number < (#[trigger] chain[i]).number
}

/// Merging segment headers keeps a chain strictly increasing by number, so no header is kept
/// twice and none goes out of order.
pub proof fn lemma_extend_increasing(chain: Seq<L1Header>, seg: Seq<L1Header>)
    requires
        increasing(chain),
    ensures
        increasing(extend_spec(chain, seg)),
    decreases seg.len(),
{
    if seg.len() > 0 {
        lemma_extend_increasing(chain, seg.drop_last());
        let c = extend_spec(chain, seg.drop_last());
        if tail_number(c) < seg.last().number {
            let d = c.push(seg.last());
            assert forall|i: int| 0 < i < d.len() implies d[i - 1].number < (#[trigger] d[i]).number by {
                if i < c.len() {
                    assert(d[i - 1] == c[i - 1] && d[i] == c[i]);
                }
            }
        }
    }
}

/// Appends to `chain` each header of `seg` numbered beyond the current tail, so that headers
/// shared by neighbouring segments are kept once.
pub fn extend_chain(chain: &mut Vec<L1Header>, seg: &Vec<L1Header>)
    ensures
        final(chain)@ == extend_spec(old(chain)@, seg@),
{
    let ghost c0 = chain@;
    let mut i: usize = 0;
    assert(seg@.take(0) =~= Seq::<L1Header>::empty());
    while i < seg.len()
        invariant
            0 <= i <= seg@.len(),
            c0 == old(chain)@,
            chain@ == extend_spec(c0, seg@.take(i as int)),
        decreases seg@.len() - i,
    {
        let b = seg[i];
        let n = chain.len();
        let tail_num: u64 = if n == 0 {
            0
        } else {
            chain[n - 1].number
        };
        assert(seg@.take(i + 1).drop_last() =~= seg@.take(i as int));
        if tail_num < b.number {
            chain.push(b);
        }
        i += 1;
    }
    assert(seg@.take(seg@.len() as int) =~= seg@);
}

/// The sibling records written while appending the hashes of `blocks` to `p`, in order.
pub open spec fn append_log(p: Seq<Option<Seq<u8>>>, blocks: Seq<L1Header>) -> Seq<Record>
    decreases blocks.len(),
{
    if blocks.len() == 0 {
        seq![]
    } else {
        append_log(p, blocks.drop_last()) + carry_log(
            append_all(p, blocks.drop_last()),
            blocks.last().hash@,
            0,
        )
    }
}

/// The peaks of the range over the hashes of `chain`.
pub open spec fn chain_peaks(chain: Seq<L1Header>) -> Seq<Option<Seq<u8>>> {
    append_all(Seq::<Option<Seq<u8>>>::empty(), chain)
}

/// The sibling records of committing `chain`: every append, then the bagging of the peaks.
pub open spec fn chain_log(chain: Seq<L1Header>) -> Seq<Record> {
    append_log(Seq::<Option<Seq<u8>>>::empty(), chain) + bag_log(
        chain_peaks(chain),
        chain_peaks(chain).len(),
    )
}

/// The commitment over the hashes of `chain`.
pub open spec fn chain_root(chain: Seq<L1Header>) -> Option<Seq<u8>> {
    root_of(chain_peaks(chain))
}

/// The sibling records of `chain` hold the tail of `d`, and the path they give from it leads
/// to the commitment of `chain`.
pub open spec fn tail_provable(chain: Seq<L1Header>, d: Derived) -> bool {
    let log = chain_log(chain);
    &&& lookup(log, d.0.hash@, 0) is Some
    &&& Some(proof_root(d.0.hash@, walk(log, d.0.hash@, log.len()))) == chain_root(chain)
}

/// What composing the derivation results `ds` over `chain` yields, failures in the order the
/// steps run: PREP, the LIFT of each result, the reduction, FINISH.
pub open spec fn compose_spec(ds: Seq<Derived>, chain: Seq<L1Header>) -> Result<
    (BlockRef, BlockRef),
    ErrorKind,
> {
    let aggs = ds.map_values(|d: Derived| lifted(d));
    if chain.len() == 0 || !contiguous_after(None, chain) {
        Err(ErrorKind::MalformedInput)
    } else if exists|i: int| 0 <= i < ds.len() && !tail_provable(chain, #[trigger] ds[i]) {
        Err(ErrorKind::ProofVerificationFailure)
    } else if ds.len() == 0 {
        Err(ErrorKind::MalformedInput)
    } else if !reducible(aggs) {
        Err(ErrorKind::AdjacencyViolation)
    } else if !(chain[0].number <= min_lo(aggs) && max_hi(aggs) <= chain.last().number) {
        Err(ErrorKind::ProofVerificationFailure)
    } else {
        Ok((ds[0].1, op_tail_of(ds.last())))
    }
}

/// The state a FINISH node reaches: attested only when the PREP and every segment were.
pub open spec fn finish_state(prep_state: NodeState, derive_states: Seq<NodeState>) -> NodeState {
    if prep_state == NodeState::Attested && all_attested(derive_states) {
        NodeState::Attested
    } else {
        NodeState::Executed
    }
}

/// The views of a list of derivation results.
pub open spec fn views(outputs: Seq<DeriveOutput>) -> Seq<Derived> {
    outputs.map_values(|o: DeriveOutput| o.view())
}

/// Builds the range over the hashes of `chain`, with the sibling map that later proofs need,
/// and its commitment (none for an empty chain).
pub fn commit_chain(chain: &Vec<L1Header>) -> (r: (MerkleMountainRange, SiblingMap, Option<Digest>))
    ensures
        r.0.view() == chain_peaks(chain@),
        entries_view(r.1.entries@) == chain_log(chain@),
        opt_view(r.2) == chain_root(chain@),
{
    let mut mmr = MerkleMountainRange::new();
    let mut map = SiblingMap::new();
    let ghost blocks = chain@;
    let mut i: usize = 0;
    assert(blocks.take(0) =~= Seq::<L1Header>::empty());
    assert(entries_view(map.entries@) =~= Seq::<Record>::empty());
    while i < chain.len()
        invariant
            0 <= i <= blocks.len(),
            blocks == chain@,
            mmr.view() == append_all(Seq::<Option<Seq<u8>>>::empty(), blocks.take(i as int)),
            entries_view(map.entries@) == append_log(
                Seq::<Option<Seq<u8>>>::empty(),
                blocks.take(i as int),
            ),
        decreases blocks.len() - i,
    {
        mmr.append_leaf(chain[i].hash, &mut map);
        assert(blocks.take(i + 1).drop_last() =~= blocks.take(i as int));
        i += 1;
    }
    assert(blocks.take(blocks.len() as int) =~= blocks);
    let root = mmr.root(&mut map);
    (mmr, map, root)
}

/// Composes derivation results, given in chain order, over the source-chain headers they
/// consumed: commits the chain (PREP), lifts each result with a membership proof of its tail,
/// reduces the aggregates and binds the result to the commitment (FINISH). `derive_states[i]`
/// tells whether the derivation of `outputs[i]` was attested, and `prep_state` whether the
/// PREP was. Answers the rollup block before the first segment, the last block derived, and
/// whether the FINISH node can be attested.
pub fn compose_segments(
    outputs: &Vec<DeriveOutput>,
    derive_states: &Vec<NodeState>,
    eth_chain: &Vec<L1Header>,
    prep_state: NodeState,
) -> (r: Result<(BlockRef, BlockRef, NodeState), ErrorKind>)
    ensures
        derive_states@.len() != outputs@.len() ==> r == Err::<(BlockRef, BlockRef, NodeState), ErrorKind>(
            ErrorKind::MalformedInput,
        ),
        derive_states@.len() == outputs@.len() ==> r == match compose_spec(
            views(outputs@),
            eth_chain@,
        ) {
            Ok((head, tail)) => Ok((head, tail, finish_state(prep_state, derive_states@))),
            Err(e) => Err(e),
        },
{
    let ghost chain = eth_chain@;
    let ghost ds = views(outputs@);
    if derive_states.len() != outputs.len() {
        return Err(ErrorKind::MalformedInput);
    }
    if eth_chain.len() == 0 {
        return Err(ErrorKind::MalformedInput);
    }
    let (_committed, map, root) = commit_chain(eth_chain);
    proof {
        assert(chain_peaks(chain) == add_leaf(
            append_all(Seq::<Option<Seq<u8>>>::empty(), chain.drop_last()),
            chain.last().hash@,
        ));
        lemma_nonempty_has_root(
            append_all(Seq::<Option<Seq<u8>>>::empty(), chain.drop_last()),
            chain.last().hash@,
        );
    }
    let root = match root {
        None => {
            return Err(ErrorKind::MalformedInput);
        },
        Some(d) => d,
    };
    let prep_out = match prep(eth_chain, None) {
        Err(e) => {
            return Err(e);
        },
        Ok(p) => p,
    };
    let mut aggs: Vec<Aggregate> = Vec::new();
    let mut i: usize = 0;
    while i < outputs.len()
        invariant
            0 <= i <= outputs@.len(),
            chain == eth_chain@,
            ds == views(outputs@),
            derive_states@.len() == outputs@.len(),
            chain.len() > 0,
            contiguous_after(None, chain),
            entries_view(map.entries@) == chain_log(chain),
            chain_root(chain) == Some(root@),
            aggs@.len() == i,
            forall|j: int| 0 <= j < i ==> #[trigger] aggs@[j] == lifted(ds[j]),
            forall|j: int| 0 <= j < i ==> tail_provable(chain, #[trigger] ds[j]),
        decreases outputs@.len() - i,
    {
        assert(ds[i as int] == outputs@[i as int].view());
        let proof = match MerkleProof::new(&map, outputs[i].eth_tail.hash) {
            None => {
                assert(!tail_provable(chain, ds[i as int]));
                return Err(ErrorKind::ProofVerificationFailure);
            },
            Some(p) => p,
        };
        let a = match lift(&outputs[i], &proof, &root) {
            Err(e) => {
                assert(!tail_provable(chain, ds[i as int]));
                return Err(e);
            },
            Ok(a) => a,
        };
        aggs.push(a);
        i += 1;
    }
    assert(aggs@ =~= ds.map_values(|d: Derived| lifted(d)));
    let mut states: Vec<NodeState> = Vec::new();
    let mut k: usize = 0;
    while k < derive_states.len()
        invariant
            k <= derive_states@.len(),
            states@ == derive_states@.take(k as int),
        decreases derive_states@.len() - k,
    {
        states.push(derive_states[k]);
        k += 1;
        assert(states@ =~= derive_states@.take(k as int));
    }
    assert(states@ =~= derive_states@);
    let (agg, agg_state) = match reduce(aggs, states) {
        Err(e) => {
            return Err(e);
        },
        Ok(a) => a,
    };
    let prep_output = ComposeOutput {
        operation: ComposeOutputOperation::Prep(prep_out),
        eth_chain_merkle_root: root,
    };
    match finish(&prep_output, &aggregate_output(agg, root), &root) {
        Err(e) => Err(e),
        Ok((head, tail)) => Ok((head, tail, combined_state(prep_state, agg_state))),
    }
}

/// The headers numbered `lo` through `hi` that `db` serves, one per number.
pub open spec fn captured_headers(db: ChainDb, lo: int, hi: int) -> Seq<L1Header> {
    Seq::new((hi - lo + 1) as nat, |i: int| find_header(db.eth_headers@, lo + i, 0)->Some_0)
}

/// One segment of a window: the segment starting `start` blocks after `head` derives `size`
/// blocks, and the headers it touched extend the chain.
pub open spec fn segment_step(
    db: ChainDb,
    head: u64,
    size: u64,
    batches: Seq<Batch>,
    start: int,
    acc: (Seq<Derived>, Seq<L1Header>),
) -> Result<(Seq<Derived>, Seq<L1Header>), ErrorKind> {
    if head + start > u64::MAX || start + size > batches.len() {
        Err(ErrorKind::MalformedInput)
    } else {
        let head_no = (head + start) as u64;
        match derive_parts(head_no, size, batches.subrange(start, start + size), db) {
            Err(e) => Err(e),
            Ok(d) => Ok(
                (
                    acc.0.push(d),
                    extend_spec(
                        acc.1,
                        captured_headers(
                            db,
                            find_op(db.op_heads@, head_no as int, 0)->Some_0.epoch as int,
                            d.0.number as int,
                        ),
                    ),
                ),
            ),
        }
    }
}

/// The segments of a window of `count` blocks, from offset `start` on, stepping by `size`.
pub open spec fn segments_from(
    db: ChainDb,
    head: u64,
    count: u64,
    size: u64,
    batches: Seq<Batch>,
    start: int,
    acc: (Seq<Derived>, Seq<L1Header>),
) -> Result<(Seq<Derived>, Seq<L1Header>), ErrorKind>
    decreases count - start,
{
    if size == 0 || start >= count || start < 0 {
        Ok(acc)
    } else {
        match segment_step(db, head, size, batches, start, acc) {
            Err(e) => Err(e),
            Ok(next) => if start + size >= count {
                Ok(next)
            } else {
                segments_from(db, head, count, size, batches, start + size, next)
            },
        }
    }
}

/// What composing the window of `count` blocks after `head`, in segments of `size`, yields.
pub open spec fn window_spec(
    db: ChainDb,
    head: u64,
    count: u64,
    size: u64,
    batches: Seq<Batch>,
) -> Result<(BlockRef, BlockRef), ErrorKind> {
    if size == 0 {
        Err(ErrorKind::MalformedInput)
    } else {
        match segments_from(db, head, count, size, batches, 0, (seq![], seq![])) {
            Err(e) => Err(e),
            Ok((ds, chain)) => compose_spec(ds, chain),
        }
    }
}

/// Derives the window of `count` rollup blocks after `head` in segments of `size` blocks,
/// segment `k` starting at `head + k * size` with the batches from offset `k * size` on. Each
/// segment is derived, replayed against the records it touched, and its headers merged into
/// one chain; the results are then composed without attestations.
pub fn compose_window(
    db: &ChainDb,
    head: u64,
    count: u64,
    size: u64,
    batches: &Vec<Batch>,
) -> (r: Result<(BlockRef, BlockRef), ErrorKind>)
    ensures
        r == window_spec(*db, head, count, size, batches@),
{
    if size == 0 {
        return Err(ErrorKind::MalformedInput);
    }
    let ghost bs = batches@;
    let mut outputs: Vec<DeriveOutput> = Vec::new();
    let mut states: Vec<NodeState> = Vec::new();
    let mut chain: Vec<L1Header> = Vec::new();
    let mut start: u64 = 0;
    let mut done = count == 0;
    assert(views(outputs@) =~= Seq::<Derived>::empty());
    assert(chain@ =~= Seq::<L1Header>::empty());
    while !done
        invariant
            size > 0,
            bs == batches@,
            states@.len() == outputs@.len(),
            forall|i: int| 0 <= i < states@.len() ==> #[trigger] states@[i] == NodeState::Executed,
            done ==> segments_from(*db, head, count, size, bs, 0, (seq![], seq![])) == Ok::<
                (Seq<Derived>, Seq<L1Header>),
                ErrorKind,
            >((views(outputs@), chain@)),
            start <= count,
            !done ==> start < count && segments_from(*db, head, count, size, bs, 0, (seq![], seq![]))
                == segments_from(*db, head, count, size, bs, start as int, (views(outputs@), chain@)),
        decreases count - start + (if done {
            0int
        } else {
            1int
        }),
    {
        if start > u64::MAX - head || size as u128 + start as u128 > batches.len() as u128 {
            return Err(ErrorKind::MalformedInput);
        }
        let mut seg: Vec<Batch> = Vec::new();
        let mut j: usize = start as usize;
        let end: usize = (start + size) as usize;
        while j < end
            invariant
                start as int <= j <= end,
                end == start + size,
                end <= bs.len(),
                bs == batches@,
                seg@ == bs.subrange(start as int, j as int),
            decreases end - j,
        {
            seg.push(batches[j]);
            j += 1;
            assert(seg@ =~= bs.subrange(start as int, j as int));
        }
        let input = DeriveInput {
            op_head_block_no: head + start,
            op_derive_block_count: size,
            op_blocks: seg,
        };
        let (out, captured) = match derive_and_replay(&input, db) {
            Err(e) => {
                return Err(e);
            },
            Ok(pair) => pair,
        };
        proof {
            let lo = find_op(db.op_heads@, (head + start) as int, 0)->Some_0.epoch as int;
            assert(captured.eth_headers@ =~= captured_headers(*db, lo, out.eth_tail.number as int));
        }
        let ghost before = (views(outputs@), chain@);
        extend_chain(&mut chain, &captured.eth_headers);
        outputs.push(out);
        states.push(NodeState::Executed);
        assert(views(outputs@) =~= before.0.push(out.view()));
        if count - start <= size {
            done = true;
        } else {
            start = start + size;
        }
    }
    match compose_segments(&outputs, &states, &chain, NodeState::Executed) {
        Err(e) => Err(e),
        Ok((h, t, _)) => Ok((h, t)),
    }
}

} // verus!
