//! The derivation state machine: turns a rollup head and its batches into derived rollup
//! blocks, advancing a cursor over source-chain blocks as batches name later origins.
use crate::digest::{BlockRef, Digest};
use crate::error::ErrorKind;
use vstd::prelude::*;

verus! {

/// A source-chain header.
#[derive(Clone, Copy, Debug, PartialEq, Eq)]
pub struct L1Header {
    pub number: u64,
    pub hash: Digest,
    pub parent_hash: Digest,
}

/// A rollup block known to the data source, with the number of its source-chain origin.
#[derive(Clone, Copy, Debug, PartialEq, Eq)]
pub struct OpHead {
    pub number: u64,
    pub hash: Digest,
    pub epoch: u64,
}

/// The batch data of one rollup block: its source-chain origin and its hash.
#[derive(Clone, Copy, Debug, PartialEq, Eq)]
pub struct Batch {
    pub epoch: u64,
    pub block_hash: Digest,
}

/// The records a data source serves; for each number the first record counts.
#[derive(Clone, Debug, PartialEq, Eq)]
pub struct ChainDb {
    pub eth_headers: Vec<L1Header>,
    pub op_heads: Vec<OpHead>,
}

/// What one derivation run is asked to do.
#[derive(Clone, Debug, PartialEq, Eq)]
pub struct DeriveInput {
    pub op_head_block_no: u64,
    pub op_derive_block_count: u64,
    pub op_blocks: Vec<Batch>,
}

/// The result of a derivation run.
#[derive(Clone, Debug, PartialEq, Eq)]
pub struct DeriveOutput {
    /// The last source-chain block consumed.
    pub eth_tail: BlockRef,
    /// The rollup head before derivation.
    pub op_head: BlockRef,
    /// The derived rollup blocks, in order.
    pub derived_op_blocks: Vec<BlockRef>,
}

/// The spec-level result of a derivation: (eth_tail, op_head, derived blocks).
pub type Derived = (BlockRef, BlockRef, Seq<BlockRef>);

/// The first header, from index `j` on, with number `n`.
pub open spec fn find_header(hs: Seq<L1Header>, n: int, j: nat) -> Option<L1Header>
    decreases hs.len() - j,
{
    if j >= hs.len() {
        None
    } else if hs[j as int].number == n {
        Some(hs[j as int])
    } else {
        find_header(hs, n, j + 1)
    }
}

/// The first rollup record, from index `j` on, with number `n`.
pub open spec fn find_op(ops: Seq<OpHead>, n: int, j: nat) -> Option<OpHead>
    decreases ops.len() - j,
{
    if j >= ops.len() {
        None
    } else if ops[j as int].number == n {
        Some(ops[j as int])
    } else {
        find_op(ops, n, j + 1)
    }
}

pub open spec fn header_ref(h: L1Header) -> BlockRef {
    BlockRef { number: h.number, hash: h.hash }
}

/// Every header numbered in `(lo, hi]` can be served.
pub open spec fn range_present(hs: Seq<L1Header>, lo: int, hi: int) -> bool {
    forall|n: int| lo < n <= hi ==> (#[trigger] find_header(hs, n, 0)) is Some
}

/// One derivation step: the batch's origin may not precede the cursor, every source-chain
/// block up to it must be served, and the derived block takes the next rollup number.
pub open spec fn step(
    hs: Seq<L1Header>,
    head: BlockRef,
    epoch: BlockRef,
    derived: Seq<BlockRef>,
    b: Batch,
) -> Result<(BlockRef, Seq<BlockRef>), ErrorKind> {
    if (b.epoch as int) < (epoch.number as int) {
        Err(ErrorKind::MalformedInput)
    } else if !range_present(hs, epoch.number as int, b.epoch as int) {
        Err(ErrorKind::DataUnavailable)
    } else if head.number + derived.len() + 1 > u64::MAX {
        Err(ErrorKind::MalformedInput)
    } else {
        let next_epoch = if b.epoch == epoch.number {
            epoch
        } else {
            header_ref(find_header(hs, b.epoch as int, 0)->Some_0)
        };
        Ok(
            (
                next_epoch,
                derived.push(
                    BlockRef { number: (head.number + derived.len() + 1) as u64, hash: b.block_hash },
                ),
            ),
        )
    }
}

/// The state after processing `bs` in order from the cursor `e0`.
pub open spec fn run(hs: Seq<L1Header>, head: BlockRef, e0: BlockRef, bs: Seq<Batch>) -> Result<
    (BlockRef, Seq<BlockRef>),
    ErrorKind,
>
    decreases bs.len(),
{
    if bs.len() == 0 {
        Ok((e0, seq![]))
    } else {
        match run(hs, head, e0, bs.drop_last()) {
            Err(e) => Err(e),
            Ok((e, d)) => step(hs, head, e, d, bs.last()),
        }
    }
}

/// What a derivation of `input` against `db` yields.
pub open spec fn derive_spec(input: DeriveInput, db: ChainDb) -> Result<Derived, ErrorKind> {
    derive_parts(input.op_head_block_no, input.op_derive_block_count, input.op_blocks@, db)
}

/// What a derivation of `count` blocks with batches `bs` after the rollup head `head_no`
/// yields against `db`.
pub open spec fn derive_parts(head_no: u64, count: u64, bs: Seq<Batch>, db: ChainDb) -> Result<
    Derived,
    ErrorKind,
> {
    match find_op(db.op_heads@, head_no as int, 0) {
        None => Err(ErrorKind::DataUnavailable),
        Some(h) => if bs.len() != count {
            Err(ErrorKind::MalformedInput)
        } else {
            match find_header(db.eth_headers@, h.epoch as int, 0) {
                None => Err(ErrorKind::DataUnavailable),
                Some(e0) => {
                    let head = BlockRef { number: h.number, hash: h.hash };
                    match run(db.eth_headers@, head, header_ref(e0), bs) {
                        Err(e) => Err(e),
                        Ok((tail, d)) => Ok((tail, head, d)),
                    }
                },
            }
        },
    }
}

impl DeriveOutput {
    pub open spec fn view(&self) -> Derived {
        (self.eth_tail, self.op_head, self.derived_op_blocks@)
    }
}

impl ChainDb {
    /// The first header numbered `n`.
    pub fn find_header(&self, n: u64) -> (r: Option<L1Header>)
        ensures
            r == find_header(self.eth_headers@, n as int, 0),
    {
        let mut j: usize = 0;
        while j < self.eth_headers.len()
            invariant
                0 <= j <= self.eth_headers@.len(),
                find_header(self.eth_headers@, n as int, 0) == find_header(
                    self.eth_headers@,
                    n as int,
                    j as nat,
                ),
            decreases self.eth_headers@.len() - j,
        {
            if self.eth_headers[j].number == n {
                return Some(self.eth_headers[j]);
            }
            j += 1;
        }
        None
    }

    /// The first rollup record numbered `n`.
    pub fn find_op(&self, n: u64) -> (r: Option<OpHead>)
        ensures
            r == find_op(self.op_heads@, n as int, 0),
    {
        let mut j: usize = 0;
        while j < self.op_heads.len()
            invariant
                0 <= j <= self.op_heads@.len(),
                find_op(self.op_heads@, n as int, 0) == find_op(self.op_heads@, n as int, j as nat),
            decreases self.op_heads@.len() - j,
        {
            if self.op_heads[j].number == n {
                return Some(self.op_heads[j]);
            }
            j += 1;
        }
        None
    }
}

/// Fetches every header numbered in `(from.number, to]`, answering the last one fetched (or
/// `from` when there is none).
fn advance_cursor(db: &ChainDb, from: BlockRef, to: u64) -> (r: Result<BlockRef, ErrorKind>)
    requires
        from.number <= to,
    ensures
        r is Ok <==> range_present(db.eth_headers@, from.number as int, to as int),
        r matches Err(e) ==> e == ErrorKind::DataUnavailable,
        r matches Ok(e) ==> e == (if to == from.number {
            from
        } else {
            header_ref(find_header(db.eth_headers@, to as int, 0)->Some_0)
        }),
{
    let mut n: u64 = from.number;
    let mut last = from;
    while n < to
        invariant
            from.number <= n <= to,
            range_present(db.eth_headers@, from.number as int, n as int),
            last == (if n == from.number {
                from
            } else {
                header_ref(find_header(db.eth_headers@, n as int, 0)->Some_0)
            }),
        decreases to - n,
    {
        n += 1;
        match db.find_header(n) {
            None => {
                return Err(ErrorKind::DataUnavailable);
            },
            Some(h) => {
                proof {
                    lemma_find_header_number(db.eth_headers@, n as int, 0);
                }
                last = BlockRef { number: h.number, hash: h.hash };
                assert forall|m: int| from.number < m <= n implies (#[trigger] find_header(
                    db.eth_headers@,
                    m,
                    0,
                )) is Some by {
                    if m < n {
                        assert(find_header(db.eth_headers@, m, 0) is Some);
                    }
                }
            },
        }
    }
    Ok(last)
}

/// Once a prefix of the batches fails, the whole run fails the same way.
pub proof fn lemma_run_error_sticks(
    hs: Seq<L1Header>,
    head: BlockRef,
    e0: BlockRef,
    bs: Seq<Batch>,
    i: int,
)
    requires
        0 <= i <= bs.len(),
        run(hs, head, e0, bs.take(i)) is Err,
    ensures
        run(hs, head, e0, bs) == run(hs, head, e0, bs.take(i)),
    decreases bs.len(),
{
    if i == bs.len() {
        assert(bs.take(i) =~= bs);
    } else {
        assert(bs.drop_last().take(i) =~= bs.take(i));
        lemma_run_error_sticks(hs, head, e0, bs.drop_last(), i);
    }
}

/// A header found for `n` carries the number `n`.
pub proof fn lemma_find_header_number(hs: Seq<L1Header>, n: int, j: nat)
    ensures
        find_header(hs, n, j) matches Some(h) ==> h.number == n,
    decreases hs.len() - j,
{
    if j < hs.len() && hs[j as int].number != n {
        lemma_find_header_number(hs, n, j + 1);
    }
}

/// Derives the rollup blocks that `input` asks for, reading source-chain headers from `db`.
/// Fails when the rollup head or a needed header cannot be served, when the batch count differs
/// from the requested count, or when a batch's origin moves the cursor backward.
pub fn derive(input: &DeriveInput, db: &ChainDb) -> (r: Result<DeriveOutput, ErrorKind>)
    ensures
        match (r, derive_spec(*input, *db)) {
            (Ok(out), Ok(d)) => out.view() == d,
            (Err(e), Err(f)) => e == f,
            _ => false,
        },
{
    let h = match db.find_op(input.op_head_block_no) {
        None => {
            return Err(ErrorKind::DataUnavailable);
        },
        Some(h) => h,
    };
    if input.op_blocks.len() as u128 != input.op_derive_block_count as u128 {
        return Err(ErrorKind::MalformedInput);
    }
    let e0h = match db.find_header(h.epoch) {
        None => {
            return Err(ErrorKind::DataUnavailable);
        },
        Some(e) => e,
    };
    let head = BlockRef { number: h.number, hash: h.hash };
    let ghost e0 = header_ref(e0h);
    let ghost hs = db.eth_headers@;
    let ghost bs = input.op_blocks@;
    let mut epoch = BlockRef { number: e0h.number, hash: e0h.hash };
    let mut derived: Vec<BlockRef> = Vec::new();
    let mut k: usize = 0;
    let ghost whole = derive_spec(*input, *db);
    assert(whole == match run(hs, head, e0, bs) {
        Err(e) => Err(e),
        Ok((t, d)) => Ok((t, head, d)),
    });
    assert(bs.take(0) =~= Seq::<Batch>::empty());
    while k < input.op_blocks.len()
        invariant
            0 <= k <= bs.len(),
            bs == input.op_blocks@,
            hs == db.eth_headers@,
            whole == derive_spec(*input, *db),
            whole == match run(hs, head, e0, bs) {
                Err(e) => Err(e),
                Ok((t, d)) => Ok((t, head, d)),
            },
            run(hs, head, e0, bs.take(k as int)) == Ok::<(BlockRef, Seq<BlockRef>), ErrorKind>(
                (epoch, derived@),
            ),
        decreases bs.len() - k,
    {
        let b = input.op_blocks[k];
        assert(bs.take(k + 1).drop_last() =~= bs.take(k as int));
        assert(bs.take(k + 1).last() == b);
        if b.epoch < epoch.number {
            proof {
                lemma_run_error_sticks(hs, head, e0, bs, k + 1);
            }
            return Err(ErrorKind::MalformedInput);
        }
        let next_epoch = match advance_cursor(db, epoch, b.epoch) {
            Err(e) => {
                proof {
                    lemma_run_error_sticks(hs, head, e0, bs, k + 1);
                }
                return Err(e);
            },
            Ok(e) => e,
        };
        if head.number >= u64::MAX - derived.len() as u64 {
            proof {
                lemma_run_error_sticks(hs, head, e0, bs, k + 1);
            }
            return Err(ErrorKind::MalformedInput);
        }
        derived.push(BlockRef { number: head.number + derived.len() as u64 + 1, hash: b.block_hash });
        epoch = next_epoch;
        k += 1;
    }
    assert(bs.take(bs.len() as int) =~= bs);
    Ok(DeriveOutput { eth_tail: epoch, op_head: head, derived_op_blocks: derived })
}

/// `c` holds exactly the records touched by a derivation whose rollup head is numbered `op_no`
/// and whose source-chain cursor ran over `[lo, hi]`: that head, and one header per number.
pub open spec fn is_capture(c: ChainDb, db: ChainDb, op_no: int, lo: int, hi: int) -> bool {
    &&& find_op(db.op_heads@, op_no, 0) matches Some(h)
    &&& c.op_heads@ == seq![h]
    &&& lo <= hi
    &&& c.eth_headers@.len() == hi - lo + 1
    &&& forall|k: int|
        0 <= k < c.eth_headers@.len() ==> Some(#[trigger] c.eth_headers@[k]) == find_header(
            db.eth_headers@,
            lo + k,
            0,
        )
}

/// Two header lists serve the same header for every number in `[lo, hi]`.
pub open spec fn agree(h1: Seq<L1Header>, h2: Seq<L1Header>, lo: int, hi: int) -> bool {
    forall|n: int| lo <= n <= hi ==> #[trigger] find_header(h1, n, 0) == find_header(h2, n, 0)
}

/// A rollup record found for `n` carries the number `n`.
pub proof fn lemma_find_op_number(ops: Seq<OpHead>, n: int, j: nat)
    ensures
        find_op(ops, n, j) matches Some(h) ==> h.number == n,
    decreases ops.len() - j,
{
    if j < ops.len() && ops[j as int].number != n {
        lemma_find_op_number(ops, n, j + 1);
    }
}

/// The cursor of a successful run never moves backward.
pub proof fn lemma_run_monotone(hs: Seq<L1Header>, head: BlockRef, e0: BlockRef, bs: Seq<Batch>)
    requires
        run(hs, head, e0, bs) is Ok,
    ensures
        e0.number <= (run(hs, head, e0, bs)->Ok_0).0.number,
    decreases bs.len(),
{
    if bs.len() > 0 {
        lemma_run_monotone(hs, head, e0, bs.drop_last());
        lemma_find_header_number(hs, bs.last().epoch as int, 0);
    }
}

/// A successful run reads only the headers from its start through its tail: any header list
/// that agrees there gives the same run.
pub proof fn lemma_run_reads_its_range(
    h1: Seq<L1Header>,
    h2: Seq<L1Header>,
    head: BlockRef,
    e0: BlockRef,
    bs: Seq<Batch>,
)
    requires
        run(h1, head, e0, bs) is Ok,
        agree(h1, h2, e0.number as int, (run(h1, head, e0, bs)->Ok_0).0.number as int),
    ensures
        run(h2, head, e0, bs) == run(h1, head, e0, bs),
    decreases bs.len(),
{
    if bs.len() > 0 {
        let prev = bs.drop_last();
        let (e, d) = run(h1, head, e0, prev)->Ok_0;
        let b = bs.last();
        lemma_find_header_number(h1, b.epoch as int, 0);
        lemma_run_monotone(h1, head, e0, prev);
        let t = (run(h1, head, e0, bs)->Ok_0).0;
        assert(e.number <= b.epoch <= t.number);
        lemma_run_reads_its_range(h1, h2, head, e0, prev);
        assert(range_present(h1, e.number as int, b.epoch as int) == range_present(
            h2,
            e.number as int,
            b.epoch as int,
        )) by {
            assert forall|n: int| e.number < n <= b.epoch implies find_header(h1, n, 0) == find_header(
                h2,
                n,
                0,
            ) by {}
        }
        if b.epoch != e.number {
            assert(find_header(h1, b.epoch as int, 0) == find_header(h2, b.epoch as int, 0));
        }
    }
}

/// Header lists that serve the same header for every number give the same run.
pub proof fn lemma_run_same_records(
    h1: Seq<L1Header>,
    h2: Seq<L1Header>,
    head: BlockRef,
    e0: BlockRef,
    bs: Seq<Batch>,
)
    requires
        forall|n: int| #[trigger] find_header(h1, n, 0) == find_header(h2, n, 0),
    ensures
        run(h2, head, e0, bs) == run(h1, head, e0, bs),
    decreases bs.len(),
{
    if bs.len() > 0 {
        lemma_run_same_records(h1, h2, head, e0, bs.drop_last());
        let b = bs.last();
        match run(h1, head, e0, bs.drop_last()) {
            Err(_) => {},
            Ok((e, d)) => {
                assert(range_present(h1, e.number as int, b.epoch as int) == range_present(
                    h2,
                    e.number as int,
                    b.epoch as int,
                ));
            },
        }
    }
}

/// Derivation is deterministic: two data sources that serve the same record for every number
/// yield the same result, success or failure.
pub proof fn lemma_derive_deterministic(input: DeriveInput, db1: ChainDb, db2: ChainDb)
    requires
        forall|n: int| #[trigger]
            find_header(db1.eth_headers@, n, 0) == find_header(db2.eth_headers@, n, 0),
        forall|n: int| #[trigger] find_op(db1.op_heads@, n, 0) == find_op(db2.op_heads@, n, 0),
    ensures
        derive_spec(input, db1) == derive_spec(input, db2),
{
    assert(find_op(db1.op_heads@, input.op_head_block_no as int, 0) == find_op(
        db2.op_heads@,
        input.op_head_block_no as int,
        0,
    ));
    match find_op(db1.op_heads@, input.op_head_block_no as int, 0) {
        None => {},
        Some(h) => {
            assert(find_header(db1.eth_headers@, h.epoch as int, 0) == find_header(
                db2.eth_headers@,
                h.epoch as int,
                0,
            ));
            match find_header(db1.eth_headers@, h.epoch as int, 0) {
                None => {},
                Some(e0) => {
                    let head = BlockRef { number: h.number, hash: h.hash };
                    lemma_run_same_records(
                        db1.eth_headers@,
                        db2.eth_headers@,
                        head,
                        header_ref(e0),
                        input.op_blocks@,
                    );
                },
            }
        },
    }
}

/// In a list holding one header per number from `lo` on, the header for `m` sits at `m - lo`.
proof fn lemma_find_in_capture(c: Seq<L1Header>, lo: int, m: int, j: nat)
    requires
        forall|k: int| 0 <= k < c.len() ==> (#[trigger] c[k]).number == lo + k,
        lo <= m < lo + c.len(),
        j <= m - lo,
    ensures
        find_header(c, m, j) == Some(c[m - lo]),
    decreases m - lo - j,
{
    if j < m - lo {
        lemma_find_in_capture(c, lo, m, j + 1);
    }
}

/// Replay equivalence: derivation against only the records that a successful live derivation
/// touched yields the live result.
pub proof fn lemma_replay_matches(input: DeriveInput, db: ChainDb, c: ChainDb, lo: int)
    requires
        derive_spec(input, db) is Ok,
        is_capture(c, db, input.op_head_block_no as int, lo, (derive_spec(input, db)->Ok_0).0.number as int),
        find_op(db.op_heads@, input.op_head_block_no as int, 0) matches Some(h) && lo == h.epoch,
    ensures
        derive_spec(input, c) == derive_spec(input, db),
{
    let h = find_op(db.op_heads@, input.op_head_block_no as int, 0)->Some_0;
    lemma_find_op_number(db.op_heads@, input.op_head_block_no as int, 0);
    assert(find_op(c.op_heads@, input.op_head_block_no as int, 0) == Some(h));
    let hi = (derive_spec(input, db)->Ok_0).0.number as int;
    assert forall|k: int| 0 <= k < c.eth_headers@.len() implies (#[trigger] c.eth_headers@[k]).number
        == lo + k by {
        lemma_find_header_number(db.eth_headers@, lo + k, 0);
    }
    assert forall|n: int| lo <= n <= hi implies #[trigger] find_header(c.eth_headers@, n, 0)
        == find_header(db.eth_headers@, n, 0) by {
        lemma_find_in_capture(c.eth_headers@, lo, n, 0);
        assert(c.eth_headers@[n - lo] == c.eth_headers@[n - lo]);
    }
    let e0 = find_header(db.eth_headers@, h.epoch as int, 0)->Some_0;
    let head = BlockRef { number: h.number, hash: h.hash };
    assert(find_header(c.eth_headers@, lo, 0) == find_header(db.eth_headers@, lo, 0));
    lemma_find_header_number(db.eth_headers@, lo, 0);
    lemma_run_reads_its_range(db.eth_headers@, c.eth_headers@, head, header_ref(e0), input.op_blocks@);
}

/// A successful run served every header after its start through its tail.
pub proof fn lemma_run_covers(hs: Seq<L1Header>, head: BlockRef, e0: BlockRef, bs: Seq<Batch>)
    requires
        run(hs, head, e0, bs) is Ok,
    ensures
        range_present(hs, e0.number as int, (run(hs, head, e0, bs)->Ok_0).0.number as int),
    decreases bs.len(),
{
    if bs.len() > 0 {
        lemma_run_covers(hs, head, e0, bs.drop_last());
        lemma_find_header_number(hs, bs.last().epoch as int, 0);
        let (e, d) = run(hs, head, e0, bs.drop_last())->Ok_0;
        let t = (run(hs, head, e0, bs)->Ok_0).0;
        assert forall|n: int| e0.number < n <= t.number implies (#[trigger] find_header(hs, n, 0))
            is Some by {
            if n > e.number {
                assert(e.number < n <= bs.last().epoch);
            }
        }
    }
}

/// Gathers the records that a derivation touched: the rollup head numbered `op_no` and one
/// header for each number in `[lo, hi]`.
pub fn capture(db: &ChainDb, op_no: u64, lo: u64, hi: u64) -> (r: Result<ChainDb, ErrorKind>)
    ensures
        r is Ok <==> (lo <= hi && find_op(db.op_heads@, op_no as int, 0) is Some
            && range_present(db.eth_headers@, lo - 1, hi as int)),
        r matches Ok(c) ==> is_capture(c, *db, op_no as int, lo as int, hi as int),
        r matches Err(e) ==> e == (if lo > hi {
            ErrorKind::MalformedInput
        } else {
            ErrorKind::DataUnavailable
        }),
{
    if lo > hi {
        return Err(ErrorKind::MalformedInput);
    }
    let h = match db.find_op(op_no) {
        None => {
            return Err(ErrorKind::DataUnavailable);
        },
        Some(h) => h,
    };
    let mut headers: Vec<L1Header> = Vec::new();
    let mut n: u64 = lo;
    while n < hi
        invariant
            lo <= n <= hi,
            headers@.len() == n - lo,
            forall|k: int|
                0 <= k < headers@.len() ==> Some(#[trigger] headers@[k]) == find_header(
                    db.eth_headers@,
                    lo + k,
                    0,
                ),
        decreases hi - n,
    {
        match db.find_header(n) {
            None => {
                return Err(ErrorKind::DataUnavailable);
            },
            Some(e) => {
                headers.push(e);
            },
        }
        n += 1;
    }
    match db.find_header(hi) {
        None => {
            return Err(ErrorKind::DataUnavailable);
        },
        Some(e) => {
            headers.push(e);
        },
    }
    assert forall|k: int| 0 <= k < headers@.len() implies Some(#[trigger] headers@[k])
        == find_header(db.eth_headers@, lo + k, 0) by {}
    assert forall|m: int| lo - 1 < m <= hi implies (#[trigger] find_header(db.eth_headers@, m, 0))
        is Some by {
        assert(Some(headers@[m - lo]) == find_header(db.eth_headers@, lo + (m - lo), 0));
    }
    let mut op_heads: Vec<OpHead> = Vec::new();
    op_heads.push(h);
    assert(op_heads@ =~= seq![h]);
    Ok(ChainDb { eth_headers: headers, op_heads })
}

/// Whether two derivation results are identical.
pub fn outputs_equal(a: &DeriveOutput, b: &DeriveOutput) -> (r: bool)
    ensures
        r == (a.view() == b.view()),
{
    if !a.eth_tail.same(&b.eth_tail) || !a.op_head.same(&b.op_head) {
        return false;
    }
    if a.derived_op_blocks.len() != b.derived_op_blocks.len() {
        return false;
    }
    let mut i: usize = 0;
    while i < a.derived_op_blocks.len()
        invariant
            0 <= i <= a.derived_op_blocks@.len(),
            a.derived_op_blocks@.len() == b.derived_op_blocks@.len(),
            forall|j: int| 0 <= j < i ==> a.derived_op_blocks@[j] == b.derived_op_blocks@[j],
        decreases a.derived_op_blocks@.len() - i,
    {
        if !a.derived_op_blocks[i].same(&b.derived_op_blocks[i]) {
            return false;
        }
        i += 1;
    }
    assert(a.derived_op_blocks@ =~= b.derived_op_blocks@);
    true
}

/// Derives `input` against `db`, gathers the records the run touched, derives again against
/// those records alone and checks that both runs agree. Answers the result and the gathered
/// records, which back a later replay.
pub fn derive_and_replay(input: &DeriveInput, db: &ChainDb) -> (r: Result<
    (DeriveOutput, ChainDb),
    ErrorKind,
>)
    ensures
        r is Ok <==> derive_spec(*input, *db) is Ok,
        r matches Err(e) ==> derive_spec(*input, *db) == Err::<Derived, ErrorKind>(e),
        r matches Ok((out, c)) ==> out.view() == derive_spec(*input, *db)->Ok_0
            && derive_spec(*input, c) == derive_spec(*input, *db)
            && is_capture(
            c,
            *db,
            input.op_head_block_no as int,
            find_op(db.op_heads@, input.op_head_block_no as int, 0)->Some_0.epoch as int,
            out.eth_tail.number as int,
        ),
{
    let out = match derive(input, db) {
        Err(e) => {
            return Err(e);
        },
        Ok(out) => out,
    };
    let ghost hs = db.eth_headers@;
    let h = match db.find_op(input.op_head_block_no) {
        None => {
            return Err(ErrorKind::DataUnavailable);
        },
        Some(h) => h,
    };
    proof {
        let e0 = find_header(hs, h.epoch as int, 0)->Some_0;
        let head = BlockRef { number: h.number, hash: h.hash };
        lemma_run_monotone(hs, head, header_ref(e0), input.op_blocks@);
        lemma_run_covers(hs, head, header_ref(e0), input.op_blocks@);
        lemma_find_header_number(hs, h.epoch as int, 0);
        assert forall|m: int| h.epoch - 1 < m <= out.eth_tail.number implies (#[trigger] find_header(
            hs,
            m,
            0,
        )) is Some by {
            if m == h.epoch {
            }
        }
    }
    let c = match capture(db, input.op_head_block_no, h.epoch, out.eth_tail.number) {
        Err(e) => {
            return Err(e);
        },
        Ok(c) => c,
    };
    proof {
        lemma_replay_matches(*input, *db, c, h.epoch as int);
    }
    let replay = match derive(input, &c) {
        Err(e) => {
            return Err(e);
        },
        Ok(o) => o,
    };
    if !outputs_equal(&out, &replay) {
        return Err(ErrorKind::DeterminismViolation);
    }
    Ok((out, c))
}

} // verus!
