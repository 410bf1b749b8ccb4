//! A 264-bit unsigned integer: the key space of the account tree.
//!
//! Tree indices address nodes of a conceptual binary tree over up to `2^256`
//! account slots, so they need exact, non-truncating arithmetic at 264 bits
//! (33 bytes).  The value is held little-endian, one byte per digit, which is
//! also its wire encoding.

use vstd::prelude::*;

verus! {

use vstd::arithmetic::div_mod::{
    lemma_fundamental_div_mod, lemma_fundamental_div_mod_converse, lemma_div_denominator,
};

/// The value of a little-endian byte string.
pub open spec fn le_value(s: Seq<u8>) -> nat
    decreases s.len(),
{
    if s.len() == 0 {
        0
    } else {
        s[0] as nat + 256 * le_value(s.drop_first())
    }
}

/// `2^n`.
pub open spec fn p2(n: nat) -> nat
    decreases n,
{
    if n == 0 {
        1
    } else {
        2 * p2((n - 1) as nat)
    }
}

pub proof fn lemma_p2_256()
    ensures
        p2(1) == 2,
        p2(8) == 256,
{
    reveal_with_fuel(p2, 9);
}

pub proof fn lemma_p2_64_val()
    ensures
        p2(56) == 0x100_0000_0000_0000,
        p2(64) == 0x1_0000_0000_0000_0000,
{
    lemma_p2_256();
    lemma_p2_adds(8, 8);
    assert(p2(16) == 0x1_0000) by (nonlinear_arith)
        requires p2(16) == p2(8) * p2(8), p2(8) == 256;
    lemma_p2_adds(16, 16);
    assert(p2(32) == 0x1_0000_0000) by (nonlinear_arith)
        requires p2(32) == p2(16) * p2(16), p2(16) == 0x1_0000;
    lemma_p2_adds(32, 16);
    assert(p2(48) == 0x1_0000_0000_0000) by (nonlinear_arith)
        requires p2(48) == p2(32) * p2(16), p2(32) == 0x1_0000_0000, p2(16) == 0x1_0000;
    lemma_p2_adds(48, 8);
    assert(p2(56) == 0x100_0000_0000_0000) by (nonlinear_arith)
        requires p2(56) == p2(48) * p2(8), p2(48) == 0x1_0000_0000_0000, p2(8) == 256;
    lemma_p2_adds(56, 8);
    assert(p2(64) == 0x1_0000_0000_0000_0000) by (nonlinear_arith)
        requires p2(64) == p2(56) * p2(8), p2(56) == 0x100_0000_0000_0000, p2(8) == 256;
}

pub proof fn lemma_p2_pos(n: nat)
    ensures
        p2(n) >= 1,
    decreases n,
{
    if n > 0 {
        lemma_p2_pos((n - 1) as nat);
    }
}

pub proof fn lemma_p2_adds(m: nat, n: nat)
    ensures
        p2(m + n) == p2(m) * p2(n),
    decreases m,
{
    if m == 0 {
        assert(p2(0) * p2(n) == p2(n)) by (nonlinear_arith)
            requires p2(0) == 1;
    } else {
        lemma_p2_adds((m - 1) as nat, n);
        assert(2 * (p2((m - 1) as nat) * p2(n)) == (2 * p2((m - 1) as nat)) * p2(n))
            by (nonlinear_arith);
    }
}

pub proof fn lemma_p2_le(m: nat, n: nat)
    requires
        m <= n,
    ensures
        p2(m) <= p2(n),
    decreases n,
{
    if m < n {
        lemma_p2_le(m, (n - 1) as nat);
    }
}

pub proof fn lemma_le_value_bound(s: Seq<u8>)
    ensures
        le_value(s) < p2(8 * s.len()),
    decreases s.len(),
{
    if s.len() == 0 {
    } else {
        let rest = s.drop_first();
        lemma_le_value_bound(rest);
        lemma_p2_adds(8, (8 * rest.len()) as nat);
        lemma_p2_256();
        assert(s[0] as nat + 256 * le_value(rest) < 256 * p2(8 * rest.len())) by (nonlinear_arith)
            requires
                le_value(rest) < p2(8 * rest.len()),
                s[0] < 256;
    }
}

pub proof fn lemma_le_value_take_succ(s: Seq<u8>, i: int)
    requires
        0 <= i < s.len(),
    ensures
        le_value(s.take(i + 1)) == le_value(s.take(i)) + (s[i] as nat) * p2((8 * i) as nat),
{
    assert(s.take(i + 1) =~= s.take(i).push(s[i]));
    lemma_le_value_push(s.take(i), s[i]);
}

pub proof fn lemma_le_value_push(s: Seq<u8>, b: u8)
    ensures
        le_value(s.push(b)) == le_value(s) + (b as nat) * p2((8 * s.len()) as nat),
    decreases s.len(),
{
    if s.len() == 0 {
        assert(s.push(b).drop_first() =~= Seq::<u8>::empty());
        assert(s.push(b)[0] == b);
        assert(le_value(Seq::<u8>::empty()) == 0);
        assert((b as nat) * 1 == b as nat) by (nonlinear_arith);
        assert(le_value(s.push(b)) == b as nat);
        assert(le_value(s) == 0);
        assert(p2((8 * s.len()) as nat) == 1);
    } else {
        assert(s.push(b).drop_first() =~= s.drop_first().push(b));
        assert(s.push(b)[0] == s[0]);
        lemma_le_value_push(s.drop_first(), b);
        lemma_p2_adds(8, (8 * (s.len() - 1)) as nat);
        lemma_p2_256();
        let r = s.drop_first();
        let pw = p2((8 * r.len()) as nat);
        assert(256 * (le_value(r) + (b as nat) * pw) == 256 * le_value(r) + (b as nat) * (256
            * pw)) by (nonlinear_arith);
    }
}

pub proof fn lemma_le_value_mod(s: Seq<u8>)
    requires
        s.len() > 0,
    ensures
        le_value(s) % 256 == s[0] as nat,
        le_value(s) / 256 == le_value(s.drop_first()),
{
    lemma_fundamental_div_mod_converse(
        le_value(s) as int,
        256,
        le_value(s.drop_first()) as int,
        s[0] as int,
    );
}

pub proof fn lemma_le_value_inj(s1: Seq<u8>, s2: Seq<u8>)
    requires
        s1.len() == s2.len(),
        le_value(s1) == le_value(s2),
    ensures
        s1 =~= s2,
    decreases s1.len(),
{
    if s1.len() > 0 {
        lemma_le_value_mod(s1);
        lemma_le_value_mod(s2);
        lemma_le_value_inj(s1.drop_first(), s2.drop_first());
        assert forall|i: int| 0 <= i < s1.len() implies s1[i] == s2[i] by {
            if i > 0 {
                assert(s1.drop_first()[i - 1] == s2.drop_first()[i - 1]);
            }
        }
    }
}

pub proof fn lemma_le_value_zero(s: Seq<u8>)
    requires
        le_value(s) == 0,
    ensures
        forall|i: int| 0 <= i < s.len() ==> s[i] == 0,
    decreases s.len(),
{
    if s.len() > 0 {
        lemma_le_value_zero(s.drop_first());
        assert forall|i: int| 0 <= i < s.len() implies s[i] == 0 by {
            if i > 0 {
                assert(s.drop_first()[i - 1] == 0);
            }
        }
    }
}


/// The `n`-byte little-endian encoding of `v` (mod `2^(8n)`).
pub open spec fn le_bytes(v: nat, n: nat) -> Seq<u8>
    decreases n,
{
    if n == 0 {
        Seq::<u8>::empty()
    } else {
        seq![(v % 256) as u8] + le_bytes(v / 256, (n - 1) as nat)
    }
}

pub proof fn lemma_le_bytes_len(v: nat, n: nat)
    ensures
        le_bytes(v, n).len() == n,
    decreases n,
{
    if n > 0 {
        lemma_le_bytes_len(v / 256, (n - 1) as nat);
    }
}

pub proof fn lemma_le_bytes_value(v: nat, n: nat)
    requires
        v < p2(8 * n),
    ensures
        le_value(le_bytes(v, n)) == v,
    decreases n,
{
    if n == 0 {
    } else {
        lemma_p2_adds(8, (8 * (n - 1)) as nat);
        lemma_p2_256();
        assert(v / 256 < p2((8 * (n - 1)) as nat)) by (nonlinear_arith)
            requires
                v < 256 * p2((8 * (n - 1)) as nat),
                v == 256 * (v / 256) + v % 256,
                v % 256 < 256;
        lemma_le_bytes_value(v / 256, (n - 1) as nat);
        let tail = le_bytes(v / 256, (n - 1) as nat);
        let whole = seq![(v % 256) as u8] + tail;
        assert(whole[0] == (v % 256) as u8);
        assert(whole.drop_first() =~= tail);
        lemma_fundamental_div_mod(v as int, 256);
    }
}

/// The little-endian bytes of `v`, `n` bytes long.
pub fn write_le_bytes(v: u64, n: usize) -> (r: Vec<u8>)
    ensures
        r@ == le_bytes(v as nat, n as nat),
        r@.len() == n,
{
    let mut out: Vec<u8> = Vec::new();
    let mut cur: u64 = v;
    let mut i: usize = 0;
    proof {
        lemma_le_bytes_len(v as nat, n as nat);
    }
    while i < n
        invariant
            i <= n,
            out@.len() == i,
            le_bytes(v as nat, n as nat) == out@ + le_bytes(cur as nat, (n - i) as nat),
        decreases n - i,
    {
        let ghost pre_out = out@;
        let b: u8 = (cur % 256) as u8;
        out.push(b);
        proof {
            let rest = le_bytes(cur as nat / 256, (n - i - 1) as nat);
            assert(le_bytes(cur as nat, (n - i) as nat) =~= seq![b] + rest);
            assert(pre_out + (seq![b] + rest) =~= (pre_out.push(b)) + rest);
        }
        cur = cur / 256;
        i = i + 1;
    }
    proof {
        assert(le_bytes(cur as nat, 0) =~= Seq::<u8>::empty());
        assert(out@ + Seq::<u8>::empty() =~= out@);
    }
    out
}

/// Bit `k` of the binary expansion of `v`.
pub open spec fn nth_bit(v: nat, k: nat) -> bool {
    (v / p2(k)) % 2 == 1
}

/// A 264-bit unsigned tree index, little-endian, 33 bytes.
#[derive(Debug, PartialEq, Eq)]
pub struct U264 {
    bytes: Vec<u8>,
}

impl View for U264 {
    type V = Seq<u8>;

    closed spec fn view(&self) -> Seq<u8> {
        self.bytes@
    }
}

impl U264 {
    /// Maintained by every constructor: an index is always exactly 33 bytes.
    #[verifier::type_invariant]
    pub open spec fn wf(&self) -> bool {
        self@.len() == 33
    }

    /// The numeric value of the index.
    pub open spec fn value(&self) -> nat {
        le_value(self@)
    }

    pub fn from_u64(v: u64) -> (r: U264)
        ensures
            r.value() == v,
    {
        let mut bytes: Vec<u8> = Vec::new();
        let mut cur: u64 = v;
        let mut i: usize = 0;
        proof {
            assert(p2(0) == 1);
            assert((v as nat) * 1 == v as nat) by (nonlinear_arith);
        }
        while i < 33
            invariant
                bytes@.len() == i,
                i <= 33,
                le_value(bytes@) + (cur as nat) * p2((8 * i) as nat) == v,
            decreases 33 - i,
        {
            let b: u8 = (cur % 256) as u8;
            proof {
                lemma_le_value_push(bytes@, b);
                lemma_p2_adds((8 * i) as nat, 8);
                lemma_p2_256();
                let pw = p2((8 * i) as nat) as int;
                assert((cur % 256) * pw + (cur / 256) * (pw * 256) == cur * pw)
                    by (nonlinear_arith)
                    requires cur == 256 * (cur / 256) + cur % 256;
            }
            bytes.push(b);
            cur = cur / 256;
            i = i + 1;
        }
        proof {
            lemma_p2_le(64, 264);
            lemma_p2_64_val();
            lemma_le_value_bound(bytes@);
            if cur >= 1 {
                assert((cur as nat) * p2(264) >= p2(264)) by (nonlinear_arith)
                    requires cur >= 1, p2(264) >= 1;
                lemma_p2_pos(264);
            }
        }
        U264 { bytes }
    }

    /// Rebuild an index from its 33-byte little-endian encoding.
    pub fn from_bytes(bytes: Vec<u8>) -> (r: U264)
        requires
            bytes@.len() == 33,
        ensures
            r@ == bytes@,
    {
        U264 { bytes }
    }

    /// The 33-byte little-endian encoding of the index.
    pub fn to_bytes(&self) -> (r: Vec<u8>)
        ensures
            r@ == self@,
            r@.len() == 33,
    {
        proof {
            use_type_invariant(self);
        }
        let mut out: Vec<u8> = Vec::new();
        let mut i: usize = 0;
        while i < 33
            invariant
                self@.len() == 33,
                i <= 33,
                out@ =~= self@.take(i as int),
            decreases 33 - i,
        {
            out.push(self.bytes[i]);
            i = i + 1;
        }
        assert(out@ =~= self@);
        out
    }

    /// Exact doubling; the caller must show the result still fits.
    pub fn double(&self) -> (r: U264)
        requires
            2 * self.value() < p2(264),
        ensures
            r.value() == 2 * self.value(),
    {
        proof {
            use_type_invariant(self);
        }
        let mut out: Vec<u8> = Vec::new();
        let mut carry: u16 = 0;
        let mut i: usize = 0;
        proof {
            assert(self@.take(0) =~= Seq::<u8>::empty());
        }
        while i < 33
            invariant
                self@.len() == 33,
                i <= 33,
                out@.len() == i,
                carry <= 1,
                le_value(out@) + (carry as nat) * p2((8 * i) as nat) == 2 * le_value(
                    self@.take(i as int),
                ),
            decreases 33 - i,
        {
            let t: u16 = (self.bytes[i] as u16) * 2 + carry;
            let b: u8 = (t % 256) as u8;
            proof {
                lemma_le_value_push(out@, b);
                lemma_le_value_take_succ(self@, i as int);
                lemma_p2_adds((8 * i) as nat, 8);
                lemma_p2_256();
                let pw = p2((8 * i) as nat) as int;
                assert((t % 256) * pw + (t / 256) * (pw * 256) == t * pw) by (nonlinear_arith)
                    requires t == 256 * (t / 256) + t % 256;
                assert((2 * (self@[i as int] as int) + carry) * pw == 2 * ((self@[i as int] as int)
                    * pw) + carry * pw) by (nonlinear_arith);
            }
            out.push(b);
            carry = t / 256;
            i = i + 1;
        }
        proof {
            assert(self@.take(33) =~= self@);
            lemma_le_value_bound(out@);
            if carry >= 1 {
                lemma_p2_pos(264);
                assert((carry as nat) * p2(264) >= p2(264)) by (nonlinear_arith)
                    requires carry >= 1, p2(264) >= 1;
            }
        }
        U264 { bytes: out }
    }

    /// Exact addition; the caller must show the sum still fits.
    pub fn add(&self, other: &U264) -> (r: U264)
        requires
            self.value() + other.value() < p2(264),
        ensures
            r.value() == self.value() + other.value(),
    {
        proof {
            use_type_invariant(self);
            use_type_invariant(other);
        }
        let mut out: Vec<u8> = Vec::new();
        let mut carry: u16 = 0;
        let mut i: usize = 0;
        proof {
            assert(self@.take(0) =~= Seq::<u8>::empty());
            assert(other@.take(0) =~= Seq::<u8>::empty());
        }
        while i < 33
            invariant
                self@.len() == 33,
                other@.len() == 33,
                i <= 33,
                out@.len() == i,
                carry <= 1,
                le_value(out@) + (carry as nat) * p2((8 * i) as nat) == le_value(
                    self@.take(i as int),
                ) + le_value(other@.take(i as int)),
            decreases 33 - i,
        {
            let t: u16 = (self.bytes[i] as u16) + (other.bytes[i] as u16) + carry;
            let b: u8 = (t % 256) as u8;
            proof {
                lemma_le_value_push(out@, b);
                lemma_le_value_take_succ(self@, i as int);
                lemma_le_value_take_succ(other@, i as int);
                lemma_p2_adds((8 * i) as nat, 8);
                lemma_p2_256();
                let pw = p2((8 * i) as nat) as int;
                assert((t % 256) * pw + (t / 256) * (pw * 256) == t * pw) by (nonlinear_arith)
                    requires t == 256 * (t / 256) + t % 256;
                assert(((self@[i as int] as int) + (other@[i as int] as int) + carry) * pw
                    == (self@[i as int] as int) * pw + (other@[i as int] as int) * pw + carry * pw)
                    by (nonlinear_arith);
            }
            out.push(b);
            carry = t / 256;
            i = i + 1;
        }
        proof {
            assert(self@.take(33) =~= self@);
            assert(other@.take(33) =~= other@);
            lemma_le_value_bound(out@);
            if carry >= 1 {
                lemma_p2_pos(264);
                assert((carry as nat) * p2(264) >= p2(264)) by (nonlinear_arith)
                    requires carry >= 1, p2(264) >= 1;
            }
        }
        U264 { bytes: out }
    }

    /// Left shift by `n` bits: multiplication by `2^n`, which must not
    /// truncate.
    pub fn shl(&self, n: usize) -> (r: U264)
        requires
            self.value() * p2(n as nat) < p2(264),
        ensures
            r.value() == self.value() * p2(n as nat),
    {
        let mut cur = self.clone();
        proof {
            use_type_invariant(self);
            assert(p2(0) == 1);
            assert(cur.value() * 1 == cur.value()) by (nonlinear_arith);
        }
        let mut i: usize = 0;
        while i < n
            invariant
                i <= n,
                cur.value() == self.value() * p2(i as nat),
                self.value() * p2(n as nat) < p2(264),
            decreases n - i,
        {
            proof {
                lemma_p2_le((i + 1) as nat, n as nat);
                assert(2 * (self.value() * p2(i as nat)) == self.value() * (2 * p2(i as nat)))
                    by (nonlinear_arith);
                assert(self.value() * p2((i + 1) as nat) <= self.value() * p2(n as nat))
                    by (nonlinear_arith)
                    requires p2((i + 1) as nat) <= p2(n as nat);
            }
            cur = cur.double();
            i = i + 1;
        }
        cur
    }

    /// Halving with remainder: the quotient is the parent index, the bit says
    /// whether the index was odd (a right child).
    pub fn divmod2(&self) -> (r: (U264, bool))
        ensures
            r.0.value() == self.value() / 2,
            r.1 == (self.value() % 2 == 1),
    {
        proof {
            use_type_invariant(self);
        }
        let mut out: Vec<u8> = Vec::new();
        let mut i: usize = 0;
        while i < 33
            invariant
                i <= 33,
                out@.len() == i,
                forall|j: int| 0 <= j < i ==> out@[j] == 0u8,
            decreases 33 - i,
        {
            out.push(0u8);
            i = i + 1;
        }
        let mut rem: u16 = 0;
        let mut k: usize = 33;
        proof {
            assert(out@.skip(33) =~= Seq::<u8>::empty());
            assert(self@.skip(33) =~= Seq::<u8>::empty());
        }
        while k > 0
            invariant
                self@.len() == 33,
                out@.len() == 33,
                k <= 33,
                rem <= 1,
                2 * le_value(out@.skip(k as int)) + (rem as nat) == le_value(self@.skip(k as int)),
            decreases k,
        {
            let b: u8 = self.bytes[k - 1];
            let t: u16 = rem * 256 + (b as u16);
            let qb: u8 = (t / 2) as u8;
            let ghost old_out = out@;
            let ghost old_rem = rem;
            out[k - 1] = qb;
            rem = t % 2;
            k = k - 1;
            proof {
                assert(out@.skip(k as int).drop_first() =~= old_out.skip(k + 1));
                assert(out@.skip(k as int)[0] == qb);
                assert(self@.skip(k as int).drop_first() =~= self@.skip(k + 1));
                assert(self@.skip(k as int)[0] == b);
                assert(2 * (qb as nat) + rem as nat == t as nat) by {
                    lemma_fundamental_div_mod(t as int, 2);
                };
                let q1 = le_value(out@.skip(k as int));
                let s1 = le_value(self@.skip(k as int));
                let q0 = le_value(old_out.skip(k + 1));
                let s0 = le_value(self@.skip(k + 1));
                assert(q1 == qb as nat + 256 * q0);
                assert(s1 == b as nat + 256 * s0);
                assert(2 * q1 + rem as nat == s1) by (nonlinear_arith)
                    requires
                        q1 == qb as nat + 256 * q0,
                        s1 == b as nat + 256 * s0,
                        2 * (qb as nat) + rem as nat == (old_rem as nat) * 256 + b as nat,
                        2 * q0 + old_rem as nat == s0;
            }
        }
        proof {
            assert(out@.skip(0) =~= out@);
            assert(self@.skip(0) =~= self@);
            lemma_fundamental_div_mod_converse(
                self.value() as int,
                2,
                le_value(out@) as int,
                rem as int,
            );
        }
        (U264 { bytes: out }, rem == 1)
    }

    /// True exactly when the value is zero.
    pub fn is_zero(&self) -> (r: bool)
        ensures
            r <==> self.value() == 0,
    {
        proof {
            use_type_invariant(self);
        }
        let mut i: usize = 0;
        while i < 33
            invariant
                self@.len() == 33,
                i <= 33,
                forall|j: int| 0 <= j < i ==> self@[j] == 0u8,
            decreases 33 - i,
        {
            if self.bytes[i] != 0 {
                proof {
                    if self.value() == 0 {
                        lemma_le_value_zero(self@);
                    }
                }
                return false;
            }
            i = i + 1;
        }
        proof {
            let zeros = Seq::<u8>::new(33, |j: int| 0u8);
            assert(self@ =~= zeros);
            lemma_le_value_zero_seq(zeros);
        }
        true
    }

    /// Numeric equality.
    pub fn eq_value(&self, other: &U264) -> (r: bool)
        ensures
            r <==> self.value() == other.value(),
    {
        proof {
            use_type_invariant(self);
            use_type_invariant(other);
        }
        let mut i: usize = 0;
        while i < 33
            invariant
                self@.len() == 33,
                other@.len() == 33,
                i <= 33,
                forall|j: int| 0 <= j < i ==> self@[j] == other@[j],
            decreases 33 - i,
        {
            if self.bytes[i] != other.bytes[i] {
                proof {
                    if self.value() == other.value() {
                        lemma_le_value_inj(self@, other@);
                    }
                }
                return false;
            }
            i = i + 1;
        }
        proof {
            assert(self@ =~= other@);
        }
        true
    }

    /// The `n` low-order bits, least significant first.
    pub fn low_bits(&self, n: usize) -> (r: Vec<bool>)
        ensures
            r@.len() == n,
            forall|k: int| 0 <= k < n ==> r@[k] == nth_bit(self.value(), k as nat),
    {
        let mut bits: Vec<bool> = Vec::new();
        let mut cur = self.clone();
        proof {
            use_type_invariant(self);
        }
        let mut k: usize = 0;
        proof {
            assert(p2(0) == 1);
            assert((self.value() as int) / 1 == self.value() as int);
        }
        while k < n
            invariant
                bits@.len() == k,
                k <= n,
                cur.value() == self.value() / p2(k as nat),
                forall|j: int| 0 <= j < k ==> bits@[j] == nth_bit(self.value(), j as nat),
            decreases n - k,
        {
            let (q, bit) = cur.divmod2();
            proof {
                lemma_p2_pos(k as nat);
                lemma_div_denominator(self.value() as int, p2(k as nat) as int, 2);
                assert(p2(k as nat) * 2 == p2((k + 1) as nat)) by {
                    lemma_p2_adds(k as nat, 1);
                    lemma_p2_256();
                };
            }
            bits.push(bit);
            cur = q;
            k = k + 1;
        }
        bits
    }
}

impl Clone for U264 {
    fn clone(&self) -> (r: Self)
        ensures
            r@ == self@,
    {
        proof {
            use_type_invariant(self);
        }
        U264 { bytes: self.to_bytes() }
    }
}

proof fn lemma_le_value_zero_seq(s: Seq<u8>)
    requires
        forall|i: int| 0 <= i < s.len() ==> s[i] == 0,
    ensures
        le_value(s) == 0,
    decreases s.len(),
{
    if s.len() > 0 {
        assert(forall|i: int| 0 <= i < s.drop_first().len() ==> s.drop_first()[i] == 0);
        lemma_le_value_zero_seq(s.drop_first());
    }
}

} // verus!
