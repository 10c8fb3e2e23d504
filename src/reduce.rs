//! The aggregation-tree reduction: a FIFO queue of aggregates, seeded in chain order, is
//! joined pairwise until one aggregate spans the whole range.
use crate::compose::{join_aggregates, joined, max_u64, min_u64, Aggregate};
use crate::backend::{combined_state, NodeState};
use crate::error::ErrorKind;
use vstd::prelude::*;

verus! {

/// Each aggregate ends where the next one begins.
pub open spec fn chained(c: Seq<Aggregate>) -> bool {
    forall|i: int| 0 <= i < c.len() - 1 ==> (#[trigger] c[i]).op_tail == c[i + 1].op_head
}

/// The queue that starts at position `k` of the chain `c` and wraps around.
pub open spec fn rotation(c: Seq<Aggregate>, k: int) -> Seq<Aggregate> {
    c.subrange(k, c.len() as int) + c.subrange(0, k)
}

/// The segments can be reduced: at least one, chained, and (when there are several) the whole
/// chain does not end where it begins.
pub open spec fn reducible(segs: Seq<Aggregate>) -> bool {
    &&& segs.len() > 0
    &&& chained(segs)
    &&& (segs.len() == 1 || segs[0].op_head != segs.last().op_tail)
}

/// The least source-chain tail number among `s`.
pub open spec fn min_lo(s: Seq<Aggregate>) -> u64
    decreases s.len(),
{
    if s.len() <= 1 {
        if s.len() == 0 {
            u64::MAX
        } else {
            s[0].eth_lo
        }
    } else {
        min_u64(min_lo(s.drop_last()), s.last().eth_lo)
    }
}

/// The greatest source-chain tail number among `s`.
pub open spec fn max_hi(s: Seq<Aggregate>) -> u64
    decreases s.len(),
{
    if s.len() <= 1 {
        if s.len() == 0 {
            0
        } else {
            s[0].eth_hi
        }
    } else {
        max_u64(max_hi(s.drop_last()), s.last().eth_hi)
    }
}

proof fn lemma_min_max(s: Seq<Aggregate>) -> (w: (int, int))
    requires
        s.len() > 0,
    ensures
        forall|i: int| 0 <= i < s.len() ==> min_lo(s) <= (#[trigger] s[i]).eth_lo && s[i].eth_hi
            <= max_hi(s),
        0 <= w.0 < s.len() && s[w.0].eth_lo == min_lo(s),
        0 <= w.1 < s.len() && s[w.1].eth_hi == max_hi(s),
    decreases s.len(),
{
    if s.len() == 1 {
        (0, 0)
    } else {
        let p = s.drop_last();
        let (a, b) = lemma_min_max(p);
        assert forall|i: int| 0 <= i < s.len() implies min_lo(s) <= (#[trigger] s[i]).eth_lo
            && s[i].eth_hi <= max_hi(s) by {
            if i < s.len() - 1 {
                assert(s[i] == p[i]);
            }
        }
        let wa = if min_lo(p) <= s.last().eth_lo {
            a
        } else {
            s.len() - 1
        };
        let wb = if max_hi(p) >= s.last().eth_hi {
            b
        } else {
            s.len() - 1
        };
        assert(s[a] == p[a] && s[b] == p[b]);
        (wa, wb)
    }
}

/// Every node of `states` was attested.
pub open spec fn all_attested(states: Seq<NodeState>) -> bool {
    forall|i: int| 0 <= i < states.len() ==> #[trigger] states[i] == NodeState::Attested
}

/// The state a tree over nodes in `states` reaches: attested only when every node was.
pub open spec fn tree_state(states: Seq<NodeState>) -> NodeState {
    if all_attested(states) {
        NodeState::Attested
    } else {
        NodeState::Executed
    }
}

/// Whether each aggregate of `segs` ends where the next one begins.
pub fn check_chained(segs: &Vec<Aggregate>) -> (r: bool)
    ensures
        r == chained(segs@),
{
    let mut i: usize = 1;
    while i < segs.len()
        invariant
            1 <= i,
            forall|j: int| 0 <= j < i - 1 && j < segs@.len() - 1 ==> (#[trigger] segs@[j]).op_tail
                == segs@[j + 1].op_head,
        decreases segs@.len() - i,
    {
        if !segs[i - 1].op_tail.same(&segs[i].op_head) {
            return false;
        }
        i += 1;
    }
    true
}

/// Reduces aggregates seeded in chain order to one; `states[i]` tells whether `segs[i]` was
/// attested. The front item is taken; when it does not end where the new front begins it goes
/// back to the tail of the queue, else both are joined and the join, attested only when both
/// were, goes to the tail. Fails with `MalformedInput` on no segments or when the two lists
/// differ in length, and with `AdjacencyViolation` when the segments are not chained or the
/// chain ends where it begins.
#[verifier::rlimit(60)]
pub fn reduce(segs: Vec<Aggregate>, states: Vec<NodeState>) -> (r: Result<
    (Aggregate, NodeState),
    ErrorKind,
>)
    ensures
        r is Ok <==> states@.len() == segs@.len() && reducible(segs@),
        r matches Err(e) ==> e == (if segs@.len() == 0 || states@.len() != segs@.len() {
            ErrorKind::MalformedInput
        } else {
            ErrorKind::AdjacencyViolation
        }),
        r matches Ok((a, st)) ==> a.op_head == segs@[0].op_head && a.op_tail == segs@.last().op_tail
            && a.eth_lo == min_lo(segs@) && a.eth_hi == max_hi(segs@) && st == tree_state(states@),
{
    let n0 = segs.len();
    if n0 == 0 || states.len() != n0 {
        return Err(ErrorKind::MalformedInput);
    }
    if !check_chained(&segs) {
        return Err(ErrorKind::AdjacencyViolation);
    }
    if n0 > 1 && segs[0].op_head.same(&segs[n0 - 1].op_tail) {
        return Err(ErrorKind::AdjacencyViolation);
    }
    let ghost all = all_attested(states@);
    let ghost mut we: int = if all {
        0
    } else {
        choose|i: int| 0 <= i < states@.len() && states@[i] != NodeState::Attested
    };
    let mut sq = states;
    let ghost h = segs@[0].op_head;
    let ghost t = segs@.last().op_tail;
    let ghost lo = min_lo(segs@);
    let ghost hi = max_hi(segs@);
    let ghost (mut wl, mut wh) = lemma_min_max(segs@);
    let mut q = segs;
    let ghost mut c = q@;
    let ghost mut k: int = 0;
    assert(rotation(c, 0) =~= c);
    while q.len() > 1
        invariant
            c.len() == q@.len(),
            c.len() >= 1,
            0 <= k < c.len(),
            q@ == rotation(c, k),
            chained(c),
            c[0].op_head == h,
            c.last().op_tail == t,
            c.len() > 1 ==> h != t,
            forall|i: int| 0 <= i < q@.len() ==> lo <= (#[trigger] q@[i]).eth_lo && q@[i].eth_hi <= hi,
            0 <= wl < q@.len() && q@[wl].eth_lo == lo,
            0 <= wh < q@.len() && q@[wh].eth_hi == hi,
            sq@.len() == q@.len(),
            all ==> forall|i: int| 0 <= i < sq@.len() ==> #[trigger] sq@[i] == NodeState::Attested,
            !all ==> 0 <= we < sq@.len() && sq@[we] == NodeState::Executed,
        decreases 2 * q@.len() + (if k == c.len() - 1 {
            1int
        } else {
            0int
        }),
    {
        let ghost n = c.len() as int;
        assert(q@[0] == c[k]);
        assert(q@[1] == if k + 1 < n {
            c[k + 1]
        } else {
            c[0]
        });
        let left = q.remove(0);
        let left_state = sq.remove(0);
        let right = q[0];
        if !left.op_tail.same(&right.op_head) {
            q.push(left);
            sq.push(left_state);
            proof {
                let m = q@.len() - 1;
                we = if we == 0 { m } else { we - 1 };
                wl = if wl == 0 { m } else { wl - 1 };
                wh = if wh == 0 { m } else { wh - 1 };
                assert(k == n - 1);
                k = 0;
                assert(q@ =~= rotation(c, 0));
            }
        } else {
            let _ = q.remove(0);
            let right_state = sq.remove(0);
            sq.push(combined_state(left_state, right_state));
            let j = join_aggregates(&left, &right);
            q.push(j);
            proof {
                let m = q@.len() - 1;
                wl = if wl <= 1 { m } else { wl - 2 };
                we = if we <= 1 { m } else { we - 2 };
                wh = if wh <= 1 { m } else { wh - 2 };
                assert(k < n - 1);
                let c2 = c.subrange(0, k) + seq![j] + c.subrange(k + 2, n);
                let k2 = if k + 2 < n {
                    k + 1
                } else {
                    0
                };
                assert(j == joined(c[k], c[k + 1]));
                assert(q@ =~= rotation(c2, k2));
                assert forall|i: int| 0 <= i < c2.len() - 1 implies (#[trigger] c2[i]).op_tail
                    == c2[i + 1].op_head by {
                    if i < k - 1 {
                        assert(c2[i] == c[i] && c2[i + 1] == c[i + 1]);
                    } else if i == k - 1 {
                        assert(c2[i] == c[i] && c2[i + 1] == j);
                    } else if i == k {
                        assert(c2[i + 1] == c[i + 2]);
                    } else {
                        assert(c2[i] == c[i + 1] && c2[i + 1] == c[i + 2]);
                    }
                }
                if k > 0 {
                    assert(c2[0] == c[0]);
                }
                if k + 2 < n {
                    assert(c2.last() == c.last());
                }
                c = c2;
                k = k2;
            }
        }
    }
    Ok((q[0], sq[0]))
}

/// Chained segments that each derive at least one rollup block are reducible: block numbers
/// only grow along the chain, so it cannot end where it begins.
pub proof fn lemma_growing_chain_reducible(segs: Seq<Aggregate>)
    requires
        segs.len() > 0,
        chained(segs),
        forall|i: int| 0 <= i < segs.len() ==> (#[trigger] segs[i]).op_head.number < segs[i].op_tail.number,
    ensures
        reducible(segs),
{
    lemma_chain_numbers_grow(segs, segs.len() - 1);
}

proof fn lemma_chain_numbers_grow(segs: Seq<Aggregate>, i: int)
    requires
        0 <= i < segs.len(),
        chained(segs),
        forall|j: int| 0 <= j < segs.len() ==> (#[trigger] segs[j]).op_head.number < segs[j].op_tail.number,
    ensures
        segs[0].op_head.number < segs[i].op_tail.number,
    decreases i,
{
    if i > 0 {
        lemma_chain_numbers_grow(segs, i - 1);
        assert(segs[i - 1].op_tail == segs[i].op_head);
        assert(segs[i].op_head.number < segs[i].op_tail.number);
    }
}

} // verus!
