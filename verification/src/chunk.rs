//! The 32-byte value slot: a hash digest at an internal node, or an encoded
//! account field at a leaf.

use vstd::prelude::*;

verus! {

use crate::u264::{le_value, p2, lemma_le_value_bound, lemma_le_value_take_succ, lemma_p2_adds,
    lemma_p2_pos, lemma_p2_le, lemma_p2_256, lemma_p2_64_val};
use vstd::arithmetic::div_mod::lemma_fundamental_div_mod;

/// A 32-byte chunk.  Leaf chunks hold a little-endian `u64` in their low
/// 8 bytes and zero padding above; internal chunks hold a digest.
#[derive(Debug, PartialEq, Eq, Clone, Copy)]
pub struct H256([u8; 32]);

impl View for H256 {
    type V = Seq<u8>;

    closed spec fn view(&self) -> Seq<u8> {
        self.0@
    }
}

impl H256 {
    pub fn new(arr: [u8; 32]) -> (r: Self)
        ensures
            r@ == arr@,
    {
        H256(arr)
    }

    pub fn zero() -> (r: Self)
        ensures
            r@ == Seq::<u8>::new(32, |i: int| 0u8),
            r@.len() == 32,
    {
        let a = [0u8; 32];
        proof {
            assert(a@ =~= Seq::<u8>::new(32, |i: int| 0u8));
        }
        H256(a)
    }

    pub fn as_bytes(&self) -> (r: &[u8; 32])
        ensures
            r@ == self@,
    {
        &self.0
    }

    /// Copy of a 32-byte slice.
    pub fn from_slice(s: &[u8]) -> (r: Self)
        requires
            s@.len() == 32,
        ensures
            r@ == s@,
    {
        let mut a = [0u8; 32];
        let mut i: usize = 0;
        while i < 32
            invariant
                s@.len() == 32,
                a@.len() == 32,
                i <= 32,
                forall|j: int| 0 <= j < i ==> a@[j] == s@[j],
            decreases 32 - i,
        {
            a[i] = s[i];
            i = i + 1;
        }
        proof {
            assert(a@ =~= s@);
        }
        H256(a)
    }

    /// The `u64` held little-endian in the low 8 bytes of a leaf chunk.
    pub fn low_u64(&self) -> (r: u64)
        ensures
            r == le_value(self@.take(8)),
    {
        let mut acc: u64 = 0;
        let mut k: usize = 8;
        proof {
            assert(self@.take(8).skip(8) =~= Seq::<u8>::empty());
        }
        while k > 0
            invariant
                self@.len() == 32,
                k <= 8,
                acc == le_value(self@.take(8).skip(k as int)),
            decreases k,
        {
            let ghost pre = self@.take(8).skip(k as int);
            proof {
                lemma_le_value_bound(pre);
                lemma_p2_le((8 * pre.len()) as nat, 56);
                assert(p2(56) * 256 == p2(64)) by {
                    lemma_p2_adds(56, 8);
                    lemma_p2_256();
                };
                assert(le_value(pre) * 256 < p2(64)) by (nonlinear_arith)
                    requires le_value(pre) < p2(56), p2(56) * 256 == p2(64);
                lemma_p2_64_val();
                assert(self@.take(8).skip(k - 1).drop_first() =~= pre);
                assert(self@.take(8).skip(k - 1)[0] == self@[k - 1]);
            }
            acc = acc * 256 + (self.0[k - 1] as u64);
            k = k - 1;
        }
        proof {
            assert(self@.take(8).skip(0) =~= self@.take(8));
        }
        acc
    }

    /// The chunk with its low 8 bytes replaced by `v`, little-endian, and
    /// every other byte kept.
    pub fn with_low_u64(&self, v: u64) -> (r: Self)
        ensures
            r@.len() == 32,
            le_value(r@.take(8)) == v,
            r@.skip(8) == self@.skip(8),
    {
        let mut a = [0u8; 32];
        let mut i: usize = 0;
        while i < 32
            invariant
                self@.len() == 32,
                a@.len() == 32,
                i <= 32,
                forall|j: int| 0 <= j < i ==> a@[j] == self@[j],
            decreases 32 - i,
        {
            a[i] = self.0[i];
            i = i + 1;
        }
        let mut cur: u64 = v;
        let mut i: usize = 0;
        proof {
            assert(a@.take(0) =~= Seq::<u8>::empty());
            assert(p2(0) == 1);
            assert((v as nat) * 1 == v as nat) by (nonlinear_arith);
        }
        while i < 8
            invariant
                self@.len() == 32,
                a@.len() == 32,
                i <= 8,
                le_value(a@.take(i as int)) + (cur as nat) * p2((8 * i) as nat) == v,
                forall|j: int| 8 <= j < 32 ==> a@[j] == self@[j],
            decreases 8 - i,
        {
            let b: u8 = (cur % 256) as u8;
            let ghost old_a = a@;
            a[i] = b;
            proof {
                assert(a@.take(i as int) =~= old_a.take(i as int));
                lemma_le_value_take_succ(a@, i as int);
                lemma_p2_adds((8 * i) as nat, 8);
                lemma_p2_256();
                let pw = p2((8 * i) as nat) as int;
                assert((cur % 256) * pw + (cur / 256) * (pw * 256) == cur * pw)
                    by (nonlinear_arith)
                    requires cur == 256 * (cur / 256) + cur % 256;
                lemma_fundamental_div_mod(cur as int, 256);
            }
            cur = cur / 256;
            i = i + 1;
        }
        proof {
            lemma_le_value_bound(a@.take(8));
            if cur >= 1 {
                lemma_p2_pos(64);
                assert((cur as nat) * p2(64) >= p2(64)) by (nonlinear_arith)
                    requires cur >= 1, p2(64) >= 1;
                lemma_le_value_bound(Seq::<u8>::empty());
                assert(v < p2(64)) by {
                    lemma_p2_64_val();
                };
            }
            assert(a@.skip(8) =~= self@.skip(8));
        }
        H256(a)
    }
}

impl H256 {
    /// The leaf chunk holding the single byte `n` in its lowest position.
    pub fn from_u8(n: u8) -> (r: H256)
        ensures
            r@ == Seq::<u8>::new(32, |i: int| 0u8).update(0, n),
            r@.len() == 32,
    {
        let mut a = [0u8; 32];
        a[0] = n;
        proof {
            assert(a@ =~= Seq::<u8>::new(32, |i: int| 0u8).update(0, n));
        }
        H256(a)
    }
}

} // verus!
