//! Fixed-size block digests, block references and the hash-combine function.
use tiny_keccak::{Hasher, Keccak};
use vstd::prelude::*;

verus! {

/// A 32-byte block or node hash.
pub type Digest = [u8; 32];

/// The Keccak-256 digest of a byte string.
pub uninterp spec fn keccak256_of(data: Seq<u8>) -> Seq<u8>;

/// The parent hash of two sibling nodes: Keccak-256 over the left child followed by the right.
pub open spec fn combine(left: Seq<u8>, right: Seq<u8>) -> Seq<u8> {
    keccak256_of(left + right)
}

/// Relies on tiny_keccak's `Keccak::v256` hasher: after `update` with the left and then the
/// right digest, `finalize` writes the Keccak-256 digest of their concatenation, which depends
/// on those bytes alone.
#[verifier::external_body]
pub(crate) fn keccak_pair(left: &Digest, right: &Digest) -> (r: Digest)
    ensures
        r@ == keccak256_of(left@ + right@),
{
    let mut hasher = Keccak::v256();
    hasher.update(left);
    hasher.update(right);
    let mut out = [0u8; 32];
    hasher.finalize(&mut out);
    out
}

/// The parent of two sibling nodes.
pub fn hash_pair(left: &Digest, right: &Digest) -> (r: Digest)
    ensures
        r@ == combine(left@, right@),
{
    keccak_pair(left, right)
}

/// Byte-wise equality of two digests.
pub fn digest_eq(a: &Digest, b: &Digest) -> (r: bool)
    ensures
        r == (a@ == b@),
{
    let mut i: usize = 0;
    while i < 32
        invariant
            0 <= i <= 32,
            a@.len() == 32,
            b@.len() == 32,
            forall|j: int| 0 <= j < i ==> a@[j] == b@[j],
        decreases 32 - i,
    {
        if a[i] != b[i] {
            return false;
        }
        i += 1;
    }
    proof {
        assert(a@ =~= b@);
    }
    true
}

/// A block identified by its number and hash, without its content.
#[derive(Clone, Copy, Debug, PartialEq, Eq)]
pub struct BlockRef {
    pub number: u64,
    pub hash: Digest,
}

impl BlockRef {
    pub fn new(number: u64, hash: Digest) -> (r: BlockRef)
        ensures
            r.number == number,
            r.hash == hash,
    {
        BlockRef { number, hash }
    }

    /// Whether `self` and `other` name the same block.
    pub fn same(&self, other: &BlockRef) -> (r: bool)
        ensures
            r == (*self == *other),
    {
        if self.number != other.number {
            return false;
        }
        let r = digest_eq(&self.hash, &other.hash);
        if r {
            assert(self.hash =~= other.hash);
        }
        r
    }
}

} // verus!
