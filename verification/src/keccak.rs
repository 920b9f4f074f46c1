//! Keccak-256.
use vstd::prelude::*;

use crate::types::{hash_of_bytes, H256};

verus! {

/// The 32 bytes of the Keccak-256 hash of some bytes.
pub uninterp spec fn keccak256(bytes: Seq<u8>) -> Seq<u8>;

/// `keccak_hash::keccak`: the 32 bytes of the hash, which depend on the bytes alone.
#[verifier::external_body]
pub(crate) fn keccak_bytes(bytes: &Vec<u8>) -> (r: Vec<u8>)
    ensures
        r@ == keccak256(bytes@),
        r@.len() == 32,
{
    keccak_hash::keccak(bytes.as_slice()).as_bytes().to_vec()
}

/// The Keccak-256 hash of some bytes.
pub open spec fn keccak_of(bytes: Seq<u8>) -> H256 {
    hash_of_bytes(keccak256(bytes))
}

/// The Keccak-256 hash of some bytes.
pub fn keccak(bytes: &Vec<u8>) -> (r: H256)
    ensures
        r == keccak_of(bytes@),
{
    let digest: Vec<u8> = keccak_bytes(bytes);
    H256::from_bytes(&digest)
}

/// The bytes of some hashes, one after the other.
pub open spec fn concat_bytes(hashes: Seq<H256>) -> Seq<u8>
    decreases hashes.len(),
{
    if hashes.len() == 0 {
        Seq::empty()
    } else {
        concat_bytes(hashes.drop_last()) + hashes.last().bytes()
    }
}

/// The hash of a list of roots: Keccak-256 of their bytes, one after the other.
pub open spec fn vec_root(roots: Seq<H256>) -> H256 {
    keccak_of(concat_bytes(roots))
}

/// The hash of a list of roots.
pub fn compute_blame_state_root_vec_root(roots: &Vec<H256>) -> (r: H256)
    ensures
        r == vec_root(roots@),
{
    let mut bytes: Vec<u8> = Vec::new();
    let mut i: usize = 0;
    while i < roots.len()
        invariant
            i <= roots.len(),
            bytes@ == concat_bytes(roots@.take(i as int)),
        decreases roots.len() - i,
    {
        roots[i].append_bytes(&mut bytes);
        assert(roots@.take(i + 1).drop_last() =~= roots@.take(i as int));
        i = i + 1;
    }
    assert(roots@.take(i as int) =~= roots@);
    keccak(&bytes)
}

} // verus!
