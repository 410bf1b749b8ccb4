//! The 64-byte-to-32-byte compression primitive and the zero-subtree table.
//!
//! The library never depends on which digest is used, only on its being a
//! fixed, deterministic function of the input: everything proved about
//! roots is stated over the abstract digest `hash_of`.

use vstd::prelude::*;
use sha2::Digest;

verus! {

use crate::chunk::H256;

/// The digest of a byte string.  Deterministic: a function of the input
/// bytes alone, on every machine and in every process.
pub uninterp spec fn hash_of(input: Seq<u8>) -> Seq<u8>;

/// Relies on sha2::Sha256::digest: a pure function of the input bytes,
/// whose output is always exactly 32 bytes.
#[verifier::external_body]
pub fn hash_pair(left: &H256, right: &H256) -> (r: H256)
    ensures
        r@ == hash_of(left@ + right@),
        r@.len() == 32,
{
    let mut hasher = sha2::Sha256::new();
    hasher.update(left.as_bytes());
    hasher.update(right.as_bytes());
    let digest = hasher.finalize();
    let mut out = [0u8; 32];
    out.copy_from_slice(&digest);
    H256::new(out)
}

/// The canonical chunk of an empty subtree of depth `d`.  Depth zero is the
/// canonical empty-leaf chunk (the unit value, little-endian); above that,
/// each level hashes two copies of the level below.
pub open spec fn zh_spec(d: nat) -> Seq<u8>
    decreases d,
{
    if d == 0 {
        Seq::<u8>::new(32, |i: int| 0u8).update(0, 1u8)
    } else {
        hash_of(zh_spec((d - 1) as nat) + zh_spec((d - 1) as nat))
    }
}

/// The root of an empty subtree of the given depth.
pub fn zero_hash(depth: usize) -> (r: H256)
    ensures
        r@ == zh_spec(depth as nat),
{
    let mut cur = H256::from_u8(1);
    let mut d: usize = 0;
    while d < depth
        invariant
            d <= depth,
            cur@ == zh_spec(d as nat),
        decreases depth - d,
    {
        cur = hash_pair(&cur, &cur);
        d = d + 1;
    }
    cur
}

} // verus!
