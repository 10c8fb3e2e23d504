use rollup_compose::digest::{digest_eq, hash_pair, Digest};
use rollup_compose::mmr::{MerkleMountainRange, MerkleProof, SiblingMap};

fn d(b: u8) -> Digest {
    [b; 32]
}

fn build(leaves: &[Digest]) -> (MerkleMountainRange, SiblingMap) {
    let mut mmr = MerkleMountainRange::new();
    let mut map = SiblingMap::new();
    for leaf in leaves {
        mmr.append_leaf(*leaf, &mut map);
    }
    (mmr, map)
}

#[test]
fn hash_pair_is_keccak_of_concatenation() {
    let h = hash_pair(&[0u8; 32], &[0u8; 32]);
    // Keccak-256 of 64 zero bytes.
    let expected: Digest = [
        0xad, 0x32, 0x28, 0xb6, 0x76, 0xf7, 0xd3, 0xcd, 0x42, 0x84, 0xa5, 0x44, 0x3f, 0x17, 0xf1,
        0x96, 0x2b, 0x36, 0xe4, 0x91, 0xb3, 0x0a, 0x40, 0xb2, 0x40, 0x58, 0x49, 0xe5, 0x97, 0xba,
        0x5f, 0xb5,
    ];
    assert_eq!(h, expected);
    assert_ne!(hash_pair(&d(1), &d(2)), hash_pair(&d(2), &d(1)));
}

#[test]
fn digest_eq_compares_bytes() {
    let mut a = d(7);
    assert!(digest_eq(&a, &d(7)));
    a[31] = 8;
    assert!(!digest_eq(&a, &d(7)));
}

#[test]
fn empty_range_has_no_root() {
    let mmr = MerkleMountainRange::new();
    let mut map = SiblingMap::new();
    assert!(mmr.is_empty());
    assert_eq!(mmr.root(&mut map), None);
    assert!(map.entries.is_empty());
}

#[test]
fn single_leaf_root_is_the_leaf() {
    let (mmr, mut map) = build(&[d(1)]);
    assert!(!mmr.is_empty());
    assert_eq!(mmr.root(&mut map), Some(d(1)));
}

#[test]
fn two_leaves_merge_into_one_peak() {
    let (mmr, mut map) = build(&[d(1), d(2)]);
    assert_eq!(mmr.peaks, vec![None, Some(hash_pair(&d(1), &d(2)))]);
    assert_eq!(mmr.root(&mut map), Some(hash_pair(&d(1), &d(2))));
}

#[test]
fn three_leaves_bag_higher_peak_on_the_left() {
    let (mmr, mut map) = build(&[d(1), d(2), d(3)]);
    let p = hash_pair(&d(1), &d(2));
    assert_eq!(mmr.peaks, vec![Some(d(3)), Some(p)]);
    assert_eq!(mmr.root(&mut map), Some(hash_pair(&p, &d(3))));
}

#[test]
fn root_after_n_leaves_ignores_later_leaves() {
    let leaves: Vec<Digest> = (1u8..=7).map(d).collect();
    for n in 1..=leaves.len() {
        let (short, mut m1) = build(&leaves[..n]);
        let (mut long, mut m2) = build(&leaves[..n]);
        let at_n = long.root(&mut m2);
        assert_eq!(short.root(&mut m1), at_n);
        for leaf in &leaves[n..] {
            long.append_leaf(*leaf, &mut m2);
        }
        let (again, mut m3) = build(&leaves[..n]);
        assert_eq!(again.root(&mut m3), at_n);
    }
}

#[test]
fn proof_for_each_leaf_verifies_against_root() {
    let leaves: Vec<Digest> = (1u8..=5).map(d).collect();
    let (mmr, mut map) = build(&leaves);
    let root = mmr.root(&mut map).unwrap();
    for leaf in &leaves {
        let proof = MerkleProof::new(&map, *leaf).unwrap();
        assert_eq!(proof.leaf, *leaf);
        assert!(proof.verify(&root));
        assert!(!proof.verify(&d(99)));
    }
}

#[test]
fn proof_for_unrecorded_leaf_fails() {
    let (mmr, mut map) = build(&[d(1), d(2), d(3)]);
    let _ = mmr.root(&mut map);
    assert!(MerkleProof::new(&map, d(42)).is_none());
}

#[test]
fn tampered_proof_does_not_verify() {
    let (mmr, mut map) = build(&[d(1), d(2), d(3), d(4)]);
    let root = mmr.root(&mut map).unwrap();
    let mut proof = MerkleProof::new(&map, d(2)).unwrap();
    assert!(proof.verify(&root));
    proof.path[0].sibling_on_left = !proof.path[0].sibling_on_left;
    assert!(!proof.verify(&root));
}
