//! A Merkle Mountain Range: an append-only commitment over an ordered list of hashes, with a
//! sibling map that records what a later membership proof needs.
use crate::digest::{combine, digest_eq, hash_pair, Digest};
use vstd::prelude::*;

verus! {

/// The peaks of the range, indexed by height: slot `h` holds the root of the perfect subtree of
/// height `h` when the number of leaves has bit `h` set.
#[derive(Clone, Debug, PartialEq, Eq)]
pub struct MerkleMountainRange {
    pub peaks: Vec<Option<Digest>>,
}

/// One record of the sibling map: `node` was combined with `sibling`, which stood on the left
/// when `sibling_on_left` holds.
#[derive(Clone, Copy, Debug, PartialEq, Eq)]
pub struct SiblingEntry {
    pub node: Digest,
    pub sibling: Digest,
    pub sibling_on_left: bool,
}

/// The proof material recorded while appending and bagging, oldest record first.
#[derive(Clone, Debug, PartialEq, Eq)]
pub struct SiblingMap {
    pub entries: Vec<SiblingEntry>,
}

/// One step of a membership proof.
#[derive(Clone, Copy, Debug, PartialEq, Eq)]
pub struct ProofStep {
    pub sibling: Digest,
    pub sibling_on_left: bool,
}

/// A leaf hash and the path of siblings from it to the root.
#[derive(Clone, Debug, PartialEq, Eq)]
pub struct MerkleProof {
    pub leaf: Digest,
    pub path: Vec<ProofStep>,
}

pub open spec fn opt_view(p: Option<Digest>) -> Option<Seq<u8>> {
    match p {
        Some(d) => Some(d@),
        None => None,
    }
}

/// The peaks as byte strings.
pub open spec fn peaks_view(p: Seq<Option<Digest>>) -> Seq<Option<Seq<u8>>> {
    p.map_values(|x: Option<Digest>| opt_view(x))
}

/// A record of the map as byte strings: (node, sibling, sibling on the left).
pub open spec fn entry_view(e: SiblingEntry) -> (Seq<u8>, Seq<u8>, bool) {
    (e.node@, e.sibling@, e.sibling_on_left)
}

pub open spec fn entries_view(s: Seq<SiblingEntry>) -> Seq<(Seq<u8>, Seq<u8>, bool)> {
    s.map_values(|e: SiblingEntry| entry_view(e))
}

/// The two records written when `left` and `right` are combined.
pub open spec fn pair_log(left: Seq<u8>, right: Seq<u8>) -> Seq<(Seq<u8>, Seq<u8>, bool)> {
    seq![(right, left, true), (left, right, false)]
}

/// Placing `v` at height `i`: an occupied slot is emptied and merged upward with `v`.
pub open spec fn carry(p: Seq<Option<Seq<u8>>>, v: Seq<u8>, i: nat) -> Seq<Option<Seq<u8>>>
    decreases p.len() - i,
{
    if i >= p.len() {
        p.push(Some(v))
    } else {
        match p[i as int] {
            None => p.update(i as int, Some(v)),
            Some(s) => carry(p.update(i as int, None), combine(s, v), i + 1),
        }
    }
}

/// The sibling records written by `carry`, in order.
pub open spec fn carry_log(p: Seq<Option<Seq<u8>>>, v: Seq<u8>, i: nat) -> Seq<
    (Seq<u8>, Seq<u8>, bool),
>
    decreases p.len() - i,
{
    if i >= p.len() {
        seq![]
    } else {
        match p[i as int] {
            None => seq![],
            Some(s) => pair_log(s, v) + carry_log(p.update(i as int, None), combine(s, v), i + 1),
        }
    }
}

/// The peaks after appending one leaf.
pub open spec fn add_leaf(p: Seq<Option<Seq<u8>>>, v: Seq<u8>) -> Seq<Option<Seq<u8>>> {
    carry(p, v, 0)
}

/// The peaks after appending `leaves` in order to an empty range.
pub open spec fn peaks_of(leaves: Seq<Seq<u8>>) -> Seq<Option<Seq<u8>>>
    decreases leaves.len(),
{
    if leaves.len() == 0 {
        seq![]
    } else {
        add_leaf(peaks_of(leaves.drop_last()), leaves.last())
    }
}

/// Bagging the peaks of heights below `i`, lowest first: each higher peak becomes the left
/// child of the accumulated right part.
pub open spec fn bag(p: Seq<Option<Seq<u8>>>, i: nat) -> Option<Seq<u8>>
    decreases i,
{
    if i == 0 || i > p.len() {
        None
    } else {
        let acc = bag(p, (i - 1) as nat);
        match p[i - 1] {
            None => acc,
            Some(n) => match acc {
                None => Some(n),
                Some(v) => Some(combine(n, v)),
            },
        }
    }
}

/// The sibling records written while bagging the peaks below height `i`.
pub open spec fn bag_log(p: Seq<Option<Seq<u8>>>, i: nat) -> Seq<(Seq<u8>, Seq<u8>, bool)>
    decreases i,
{
    if i == 0 || i > p.len() {
        seq![]
    } else {
        let prev = bag_log(p, (i - 1) as nat);
        match (p[i - 1], bag(p, (i - 1) as nat)) {
            (Some(n), Some(v)) => prev + pair_log(n, v),
            _ => prev,
        }
    }
}

/// The commitment of a set of peaks; none when the range is empty.
pub open spec fn root_of(p: Seq<Option<Seq<u8>>>) -> Option<Seq<u8>> {
    bag(p, p.len())
}

/// The commitment over `leaves` appended in order.
pub open spec fn mmr_root(leaves: Seq<Seq<u8>>) -> Option<Seq<u8>> {
    root_of(peaks_of(leaves))
}

/// A sibling record as byte strings: (node, sibling, sibling on the left).
pub type Record = (Seq<u8>, Seq<u8>, bool);

/// A proof step as byte strings: (sibling, sibling on the left).
pub type StepView = (Seq<u8>, bool);

/// The steps of a proof path as byte strings.
pub open spec fn steps_view(path: Seq<ProofStep>) -> Seq<StepView> {
    path.map_values(|s: ProofStep| (s.sibling@, s.sibling_on_left))
}

/// One step up a proof path.
pub open spec fn step_up(cur: Seq<u8>, s: StepView) -> Seq<u8> {
    if s.1 {
        combine(s.0, cur)
    } else {
        combine(cur, s.0)
    }
}

/// The node reached after the first `i` steps of `path` from `leaf`.
pub open spec fn fold_path(leaf: Seq<u8>, path: Seq<StepView>, i: nat) -> Seq<u8>
    decreases i,
{
    if i == 0 || i > path.len() {
        leaf
    } else {
        step_up(fold_path(leaf, path, (i - 1) as nat), path[i - 1])
    }
}

/// The root that a proof leads to.
pub open spec fn proof_root(leaf: Seq<u8>, path: Seq<StepView>) -> Seq<u8> {
    fold_path(leaf, path, path.len())
}

/// The first record, from index `j` on, about `node`.
pub open spec fn lookup(log: Seq<Record>, node: Seq<u8>, j: nat) -> Option<Record>
    decreases log.len() - j,
{
    if j >= log.len() {
        None
    } else if log[j as int].0 == node {
        Some(log[j as int])
    } else {
        lookup(log, node, j + 1)
    }
}

/// The proof step a record gives.
pub open spec fn record_step(e: Record) -> StepView {
    (e.1, e.2)
}

/// The path that the sibling records lead to from `cur`, taking at most `fuel` steps.
pub open spec fn walk(log: Seq<Record>, cur: Seq<u8>, fuel: nat) -> Seq<StepView>
    decreases fuel,
{
    if fuel == 0 {
        seq![]
    } else {
        match lookup(log, cur, 0) {
            None => seq![],
            Some(e) => seq![record_step(e)] + walk(log, step_up(cur, record_step(e)), (fuel - 1) as nat),
        }
    }
}

impl SiblingMap {
    pub fn new() -> (r: SiblingMap)
        ensures
            r.entries@.len() == 0,
    {
        SiblingMap { entries: Vec::new() }
    }

    fn record(&mut self, left: &Digest, right: &Digest)
        ensures
            entries_view(final(self).entries@) == entries_view(old(self).entries@) + pair_log(
                left@,
                right@,
            ),
    {
        self.entries.push(SiblingEntry { node: *right, sibling: *left, sibling_on_left: true });
        self.entries.push(SiblingEntry { node: *left, sibling: *right, sibling_on_left: false });
        assert(entries_view(self.entries@) =~= entries_view(old(self).entries@) + pair_log(
            left@,
            right@,
        ));
    }

    /// The first record about `node`.
    pub fn find(&self, node: &Digest) -> (r: Option<SiblingEntry>)
        ensures
            r is None <==> lookup(entries_view(self.entries@), node@, 0) is None,
            r matches Some(e) ==> lookup(entries_view(self.entries@), node@, 0) == Some(entry_view(e)),
    {
        let mut j: usize = 0;
        while j < self.entries.len()
            invariant
                0 <= j <= self.entries@.len(),
                lookup(entries_view(self.entries@), node@, 0) == lookup(
                    entries_view(self.entries@),
                    node@,
                    j as nat,
                ),
            decreases self.entries@.len() - j,
        {
            let e = self.entries[j];
            if digest_eq(&e.node, node) {
                return Some(e);
            }
            j += 1;
        }
        None
    }
}

impl MerkleMountainRange {
    pub open spec fn view(&self) -> Seq<Option<Seq<u8>>> {
        peaks_view(self.peaks@)
    }

    /// An empty range.
    pub fn new() -> (r: MerkleMountainRange)
        ensures
            r.view() == Seq::<Option<Seq<u8>>>::empty(),
    {
        let r = MerkleMountainRange { peaks: Vec::new() };
        assert(r.view() =~= Seq::<Option<Seq<u8>>>::empty());
        r
    }

    /// Appends `value` as the rightmost leaf, merging equal-height peaks upward and recording
    /// every merge in `sibling_map`.
    pub fn append_leaf(&mut self, leaf: Digest, sibling_map: &mut SiblingMap)
        ensures
            final(self).view() == add_leaf(old(self).view(), leaf@),
            entries_view(final(sibling_map).entries@) == entries_view(old(sibling_map).entries@)
                + carry_log(old(self).view(), leaf@, 0),
    {
        let ghost start_peaks = self.view();
        let ghost m0 = entries_view(sibling_map.entries@);
        let mut value = leaf;
        let ghost v0 = value@;
        let mut i: usize = 0;
        while i < self.peaks.len()
            invariant
                0 <= i <= self.peaks@.len(),
                v0 == leaf@,
                start_peaks == old(self).view(),
                m0 == entries_view(old(sibling_map).entries@),
                carry(self.view(), value@, i as nat) == carry(start_peaks, v0, 0),
                entries_view(sibling_map.entries@) + carry_log(self.view(), value@, i as nat) == m0
                    + carry_log(start_peaks, v0, 0),
            decreases self.peaks@.len() - i,
        {
            match self.peaks[i] {
                None => {
                    let ghost before = self.view();
                    assert(before[i as int].is_none());
                    assert(carry(before, value@, i as nat) == before.update(i as int, Some(value@)));
                    self.peaks.set(i, Some(value));
                    assert(self.view() =~= before.update(i as int, Some(value@)));
                    assert(carry_log(before, value@, i as nat) =~= seq![]);
                    assert(entries_view(sibling_map.entries@) =~= m0 + carry_log(start_peaks, v0, 0));
                    return ;
                },
                Some(sibling) => {
                    let ghost before = self.view();
                    let ghost log_before = entries_view(sibling_map.entries@);
                    let ghost vb = value@;
                    sibling_map.record(&sibling, &value);
                    self.peaks.set(i, None);
                    value = hash_pair(&sibling, &value);
                    assert(self.view() =~= before.update(i as int, None));
                    assert(before[i as int] == Some(sibling@));
                    assert(carry_log(before, vb, i as nat) == pair_log(sibling@, vb) + carry_log(
                        self.view(),
                        value@,
                        (i + 1) as nat,
                    ));
                    assert(entries_view(sibling_map.entries@) + carry_log(
                        self.view(),
                        value@,
                        (i + 1) as nat,
                    ) =~= log_before + carry_log(before, vb, i as nat));
                    i += 1;
                },
            }
        }
        let ghost before = self.view();
        self.peaks.push(Some(value));
        assert(self.view() =~= before.push(Some(value@)));
        assert(entries_view(sibling_map.entries@) =~= m0 + carry_log(start_peaks, v0, 0));
    }
    /// Folds the peaks, lowest first, into one commitment, recording each fold in
    /// `sibling_map`; none when no leaf has been appended.
    pub fn root(&self, sibling_map: &mut SiblingMap) -> (r: Option<Digest>)
        ensures
            opt_view(r) == root_of(self.view()),
            entries_view(final(sibling_map).entries@) == entries_view(old(sibling_map).entries@)
                + bag_log(self.view(), self.view().len()),
    {
        let ghost p = self.view();
        let ghost m0 = entries_view(sibling_map.entries@);
        let mut acc: Option<Digest> = None;
        let mut i: usize = 0;
        while i < self.peaks.len()
            invariant
                0 <= i <= self.peaks@.len(),
                p == self.view(),
                p.len() == self.peaks@.len(),
                m0 == entries_view(old(sibling_map).entries@),
                opt_view(acc) == bag(p, i as nat),
                entries_view(sibling_map.entries@) == m0 + bag_log(p, i as nat),
            decreases self.peaks@.len() - i,
        {
            let ghost log_before = entries_view(sibling_map.entries@);
            match self.peaks[i] {
                None => {},
                Some(node) => {
                    match acc {
                        None => {
                            acc = Some(node);
                        },
                        Some(v) => {
                            sibling_map.record(&node, &v);
                            acc = Some(hash_pair(&node, &v));
                            assert(entries_view(sibling_map.entries@) =~= m0 + bag_log(
                                p,
                                (i + 1) as nat,
                            ));
                        },
                    }
                },
            }
            i += 1;
        }
        acc
    }

    /// Whether no leaf has been appended.
    pub fn is_empty(&self) -> (r: bool)
        ensures
            r == (root_of(self.view()) is None),
    {
        let mut i: usize = 0;
        while i < self.peaks.len()
            invariant
                0 <= i <= self.peaks@.len(),
                bag(self.view(), i as nat) is None,
            decreases self.peaks@.len() - i,
        {
            if self.peaks[i].is_some() {
                proof {
                    lemma_bag_stays_some(self.view(), (i + 1) as nat, self.view().len());
                }
                return false;
            }
            i += 1;
        }
        true
    }
}

/// Once some peak has been bagged, bagging more peaks never yields none.
pub proof fn lemma_bag_stays_some(p: Seq<Option<Seq<u8>>>, i: nat, j: nat)
    requires
        i <= j <= p.len(),
        bag(p, i) is Some,
    ensures
        bag(p, j) is Some,
    decreases j - i,
{
    if j > i {
        lemma_bag_stays_some(p, i, (j - 1) as nat);
    }
}

impl MerkleProof {
    /// Walks the sibling map from `leaf` towards the root, taking for each node its first
    /// record, for at most as many steps as the map has records; none when the map holds no
    /// record of `leaf`.
    pub fn new(sibling_map: &SiblingMap, leaf: Digest) -> (r: Option<MerkleProof>)
        ensures
            r is None <==> lookup(entries_view(sibling_map.entries@), leaf@, 0) is None,
            r matches Some(proof) ==> proof.leaf == leaf && steps_view(proof.path@) == walk(
                entries_view(sibling_map.entries@),
                leaf@,
                sibling_map.entries@.len(),
            ),
    {
        let ghost log = entries_view(sibling_map.entries@);
        if sibling_map.find(&leaf).is_none() {
            return None;
        }
        let mut path: Vec<ProofStep> = Vec::new();
        let mut cur = leaf;
        let mut fuel: usize = sibling_map.entries.len();
        assert(steps_view(path@) =~= Seq::<StepView>::empty());
        while fuel > 0
            invariant
                log == entries_view(sibling_map.entries@),
                lookup(log, leaf@, 0) is Some,
                steps_view(path@) + walk(log, cur@, fuel as nat) == walk(
                    log,
                    leaf@,
                    sibling_map.entries@.len(),
                ),
            decreases fuel,
        {
            match sibling_map.find(&cur) {
                None => {
                    assert(walk(log, cur@, fuel as nat) =~= Seq::<StepView>::empty());
                    assert(steps_view(path@) =~= steps_view(path@) + walk(log, cur@, fuel as nat));
                    return Some(MerkleProof { leaf, path });
                },
                Some(e) => {
                    let st = ProofStep { sibling: e.sibling, sibling_on_left: e.sibling_on_left };
                    let ghost before = steps_view(path@);
                    let ghost cur_before = cur@;
                    path.push(st);
                    cur =
                    if e.sibling_on_left {
                        hash_pair(&e.sibling, &cur)
                    } else {
                        hash_pair(&cur, &e.sibling)
                    };
                    assert(steps_view(path@) =~= before.push(record_step(entry_view(e))));
                    assert(cur@ == step_up(cur_before, record_step(entry_view(e))));
                    assert(steps_view(path@) + walk(log, cur@, (fuel - 1) as nat) =~= before + walk(
                        log,
                        cur_before,
                        fuel as nat,
                    ));
                    fuel -= 1;
                },
            }
        }
        assert(steps_view(path@) =~= steps_view(path@) + walk(log, cur@, 0));
        Some(MerkleProof { leaf, path })
    }

    /// Whether the path leads from the leaf to `root`.
    pub fn verify(&self, root: &Digest) -> (r: bool)
        ensures
            r == (proof_root(self.leaf@, steps_view(self.path@)) == root@),
    {
        let mut cur = self.leaf;
        let mut i: usize = 0;
        while i < self.path.len()
            invariant
                0 <= i <= self.path@.len(),
                cur@ == fold_path(self.leaf@, steps_view(self.path@), i as nat),
            decreases self.path@.len() - i,
        {
            let st = self.path[i];
            cur =
            if st.sibling_on_left {
                hash_pair(&st.sibling, &cur)
            } else {
                hash_pair(&cur, &st.sibling)
            };
            i += 1;
        }
        digest_eq(&cur, root)
    }
}


/// The commitment after the first `n` appends is fixed by those `n` leaves: two leaf lists that
/// agree on their first `n` entries have the same commitment there, whatever follows.
pub proof fn lemma_root_fixed_by_prefix(a: Seq<Seq<u8>>, b: Seq<Seq<u8>>, n: nat)
    requires
        n <= a.len(),
        n <= b.len(),
        forall|i: int| 0 <= i < n ==> a[i] == b[i],
    ensures
        mmr_root(a.take(n as int)) == mmr_root(b.take(n as int)),
{
    assert(a.take(n as int) =~= b.take(n as int));
}

/// Appending is incremental: the peaks after `n + 1` leaves are those after `n` leaves with the
/// next leaf appended, so later appends never revisit earlier leaves.
pub proof fn lemma_append_only(a: Seq<Seq<u8>>, n: nat)
    requires
        n < a.len(),
    ensures
        peaks_of(a.take(n + 1int)) == add_leaf(peaks_of(a.take(n as int)), a[n as int]),
{
    assert(a.take(n + 1int).drop_last() =~= a.take(n as int));
}

/// Placing a value always leaves some peak occupied.
proof fn lemma_carry_occupies(p: Seq<Option<Seq<u8>>>, v: Seq<u8>, i: nat) -> (j: int)
    ensures
        0 <= j < carry(p, v, i).len() && carry(p, v, i)[j] is Some,
    decreases p.len() - i,
{
    if i >= p.len() {
        p.len() as int
    } else {
        match p[i as int] {
            None => i as int,
            Some(s) => lemma_carry_occupies(p.update(i as int, None), combine(s, v), i + 1),
        }
    }
}

/// A range with at least one leaf appended has a commitment.
pub proof fn lemma_nonempty_has_root(p: Seq<Option<Seq<u8>>>, v: Seq<u8>)
    ensures
        root_of(add_leaf(p, v)) is Some,
{
    let q = add_leaf(p, v);
    let j = lemma_carry_occupies(p, v, 0);
    assert(bag(q, (j + 1) as nat) is Some);
    lemma_bag_stays_some(q, (j + 1) as nat, q.len());
}

} // verus!
