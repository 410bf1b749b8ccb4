//! The flat, offset-addressed state backend.
//!
//! The proof is held as a caller-supplied flat chunk buffer `db` plus a
//! navigation table `offsets` of little-endian `u64` skip counts.  A lookup
//! walks the table bit-by-bit from the root towards a target index,
//! maintaining a running chunk offset; the root is derived by recursively
//! splitting the skip-count sequence.

use vstd::prelude::*;

verus! {

use crate::chunk::H256;
use crate::error::Error;
use crate::hashing::hash_of;
use crate::u264::{U264, le_value, le_bytes, p2, nth_bit, lemma_le_value_bound, lemma_p2_64_val,
    lemma_le_value_inj, lemma_p2_le, lemma_le_bytes_len, lemma_le_bytes_value};
use crate::index::{leaf_index, leaf_index_spec, FIELD_VALUE, FIELD_NONCE};
use vstd::slice::slice_subrange;

/// The 32-byte chunk at chunk-offset `o` of the flat buffer, if the buffer
/// is long enough.
pub open spec fn chunk_at(db: Seq<u8>, o: nat) -> Option<Seq<u8>> {
    if (o + 1) * 32 <= db.len() {
        Some(db.subrange(32 * o as int, 32 * o as int + 32))
    } else {
        None
    }
}

/// The navigation table, read as little-endian 64-bit skip counts.
pub open spec fn le_u64s(s: Seq<u8>) -> Seq<u64> {
    Seq::new(s.len() / 8, |i: int| le_value(s.subrange(8 * i, 8 * i + 8)) as u64)
}

/// One step of the navigation walk per remaining bit of the target index,
/// most significant first: a zero bit steps past the left subtree's table
/// entry, a one bit skips the left subtree's chunks entirely.
pub open spec fn lookup_walk(offs: Seq<u64>, idx: nat, n: nat, position: nat, offset: nat)
    -> Option<nat>
    decreases n,
{
    if n == 0 {
        Some(offset)
    } else if !nth_bit(idx, (n - 1) as nat) {
        lookup_walk(offs, idx, (n - 1) as nat, position + 1, offset)
    } else if position < offs.len() {
        lookup_walk(
            offs,
            idx,
            (n - 1) as nat,
            position + offs[position as int] as nat,
            offset + offs[position as int] as nat,
        )
    } else {
        None
    }
}

/// The chunk offset of tree index `idx` in a backend of the given height,
/// when the walk stays inside the navigation table and the offset is
/// representable.
pub open spec fn flat_lookup_spec(offsets: Seq<u8>, height: nat, idx: nat) -> Option<nat> {
    match lookup_walk(le_u64s(offsets), idx, height + 3, 0, 0) {
        Some(o) => if o <= usize::MAX { Some(o) } else { None },
        None => None,
    }
}

/// The chunk stored for tree index `idx`: navigation then buffer read.
pub open spec fn flat_chunk_spec(offsets: Seq<u8>, db: Seq<u8>, height: nat, idx: nat)
    -> Option<Seq<u8>> {
    match flat_lookup_spec(offsets, height, idx) {
        Some(o) => chunk_at(db, o),
        None => None,
    }
}

/// Interface of a state backend over a partial account tree.
pub trait Backend: Sized {
    /// The height the backend was constructed with.
    spec fn height_spec(&self) -> nat;

    fn new(offsets: Vec<u8>, db: Vec<u8>, height: usize) -> Self;

    /// The Merkle root implied by the loaded proof slice.
    fn root(&mut self) -> Result<H256, Error>;

    /// Increase the value of the account at `address`.
    fn add_value(&mut self, address: &U264, amount: u64) -> Result<u64, Error>
        requires
            old(self).height_spec() <= 256,
            address.value() < p2(old(self).height_spec()),
    ;

    /// Decrease the value of the account at `address`.
    fn sub_value(&mut self, address: &U264, amount: u64) -> Result<u64, Error>
        requires
            old(self).height_spec() <= 256,
            address.value() < p2(old(self).height_spec()),
    ;

    /// Increment the nonce of the account at `address` by one.
    fn inc_nonce(&mut self, address: &U264) -> Result<u64, Error>
        requires
            old(self).height_spec() <= 256,
            address.value() < p2(old(self).height_spec()),
    ;
}

/// The offset-addressed backend: a navigation table, a flat chunk buffer,
/// and the tree height.
pub struct InMemoryBackend {
    pub offsets: Vec<u8>,
    pub db: Vec<u8>,
    pub height: usize,
}

impl InMemoryBackend {
    /// Walks the navigation table towards `index` and returns the chunk
    /// offset of the covering proof entry.
    pub fn lookup(&self, index: &U264) -> (r: Result<usize, Error>)
        requires
            self.height <= 256,
        ensures
            ({
                let spec = flat_lookup_spec(self.offsets@, self.height as nat, index.value());
                match r {
                    Ok(o) => spec == Some(o as nat),
                    Err(e) => spec is None && (e matches Error::ChunkNotLoaded(i) && i@ == index@),
                }
            }),
    {
        let n = self.height + 3;
        let bits = index.low_bits(n);
        let ghost offs = le_u64s(self.offsets@);
        let ghost idx = index.value();
        let olen = self.offsets.len();
        let table_len = olen / 8;
        let mut position: u128 = 0;
        let mut offset: u128 = 0;
        let mut i: usize = 0;
        let mut failed: bool = false;
        while i < n
            invariant
                n == self.height + 3,
                self.height <= 256,
                i <= n,
                bits@.len() == n,
                forall|k: int| 0 <= k < n ==> bits@[k] == nth_bit(idx, k as nat),
                table_len == self.offsets@.len() / 8,
                olen == self.offsets@.len(),
                offs == le_u64s(self.offsets@),
                position <= (i as int) * 0x1_0000_0000_0000_0000,
                offset <= (i as int) * 0x1_0000_0000_0000_0000,
                !failed ==> lookup_walk(offs, idx, n as nat, 0, 0) == lookup_walk(
                    offs,
                    idx,
                    (n - i) as nat,
                    position as nat,
                    offset as nat,
                ),
                failed ==> lookup_walk(offs, idx, n as nat, 0, 0) is None,
            decreases n - i,
        {
            proof {
                assert((i as int) * 0x1_0000_0000_0000_0000 + 0x1_0000_0000_0000_0000 == ((i + 1)
                    as int) * 0x1_0000_0000_0000_0000) by (nonlinear_arith);
                assert((i + 1) as int * 0x1_0000_0000_0000_0000 <= 260
                    * 0x1_0000_0000_0000_0000) by (nonlinear_arith)
                    requires i + 1 <= 260;
            }
            if !failed {
                let bit = bits[n - 1 - i];
                if !bit {
                    position = position + 1;
                } else {
                    if position < table_len as u128 {
                        let p = position as usize;
                        proof {
                            assert(8 * (p + 1) <= 8 * (table_len as int)) by (nonlinear_arith)
                                requires p + 1 <= table_len as int;
                            vstd::arithmetic::div_mod::lemma_fundamental_div_mod(
                                self.offsets@.len() as int, 8);
                        }
                        let skip = read_le_u64(&self.offsets, p * 8);
                        proof {
                            assert(offs[p as int] == le_value(
                                self.offsets@.subrange(8 * p as int, 8 * p as int + 8),
                            ) as u64);
                        }
                        position = position + skip as u128;
                        offset = offset + skip as u128;
                    } else {
                        failed = true;
                    }
                }
            }
            i = i + 1;
        }
        if failed {
            return Err(Error::ChunkNotLoaded(index.clone()));
        }
        if offset <= usize::MAX as u128 {
            Ok(offset as usize)
        } else {
            Err(Error::ChunkNotLoaded(index.clone()))
        }
    }

    /// The chunk covering `index`: `post` never exists in this variant, so
    /// this is simply the stored bytes.
    pub fn get(&self, index: &U264) -> (r: Result<H256, Error>)
        requires
            self.height <= 256,
        ensures
            ({
                let spec = flat_chunk_spec(self.offsets@, self.db@, self.height as nat,
                    index.value());
                match r {
                    Ok(c) => spec == Some(c@),
                    Err(e) => spec is None && (e matches Error::ChunkNotLoaded(i) && i@ == index@),
                }
            }),
    {
        let o = match self.lookup(index) {
            Ok(o) => o,
            Err(e) => {
                return Err(e);
            },
        };
        let dblen = self.db.len();
        let end = match o.checked_add(1) {
            Some(x) => x.checked_mul(32),
            None => None,
        };
        match end {
            Some(e) => {
                if e <= dblen {
                    let s = slice_subrange(self.db.as_slice(), e - 32, e);
                    Ok(H256::from_slice(s))
                } else {
                    Err(Error::ChunkNotLoaded(index.clone()))
                }
            },
            None => {
                Err(Error::ChunkNotLoaded(index.clone()))
            },
        }
    }

    /// Overwrites the chunk covering `index` with `value`.
    pub fn update(&mut self, index: &U264, value: H256) -> (r: Result<(), Error>)
        requires
            old(self).height <= 256,
        ensures
            final(self).offsets@ == old(self).offsets@,
            final(self).height == old(self).height,
            ({
                let spec = flat_lookup_spec(old(self).offsets@, old(self).height as nat,
                    index.value());
                match r {
                    Ok(()) => spec matches Some(o) && (o + 1) * 32 <= old(self).db@.len()
                        && final(self).db@.len() == old(self).db@.len()
                        && final(self).db@.subrange(32 * o as int, 32 * o as int + 32) == value@
                        && (forall|j: int|
                            0 <= j < old(self).db@.len() && !(32 * o <= j < 32 * o + 32)
                                ==> final(self).db@[j] == old(self).db@[j]),
                    Err(e) => final(self).db@ == old(self).db@
                        && (flat_chunk_spec(old(self).offsets@, old(self).db@,
                            old(self).height as nat, index.value()) is None)
                        && (e matches Error::ChunkNotLoaded(i) && i@ == index@),
                }
            }),
    {
        let o = match self.lookup(index) {
            Ok(o) => o,
            Err(e) => {
                return Err(e);
            },
        };
        let dblen = self.db.len();
        let end = match o.checked_add(1) {
            Some(x) => x.checked_mul(32),
            None => None,
        };
        match end {
            Some(e) => {
                if e <= dblen {
                    let base = e - 32;
                    let bytes = value.as_bytes();
                    let mut j: usize = 0;
                    while j < 32
                        invariant
                            j <= 32,
                            base == 32 * o,
                            base + 32 <= self.db@.len(),
                            self.db@.len() == old(self).db@.len(),
                            self.offsets@ == old(self).offsets@,
                            self.height == old(self).height,
                            bytes@ == value@,
                            bytes@.len() == 32,
                            forall|k: int| 0 <= k < j ==> self.db@[base + k] == value@[k],
                            forall|k: int|
                                0 <= k < old(self).db@.len() && !(base <= k < base + j)
                                    ==> self.db@[k] == old(self).db@[k],
                        decreases 32 - j,
                    {
                        self.db[base + j] = bytes[j];
                        j = j + 1;
                    }
                    proof {
                        assert(self.db@.subrange(32 * o as int, 32 * o as int + 32) =~= value@);
                    }
                    Ok(())
                } else {
                    Err(Error::ChunkNotLoaded(index.clone()))
                }
            },
            None => {
                Err(Error::ChunkNotLoaded(index.clone()))
            },
        }
    }
}

/// The root of a structurally encoded partial tree: a skip count of one
/// marks a literal leaf chunk; otherwise the count splits the table into
/// the left and right subtree, whose roots are hashed together.  `None`
/// marks inconsistent bookkeeping or a buffer too short for it.
pub open spec fn structural_root(db: Seq<u8>, offs: Seq<u64>, offset: nat) -> Option<Seq<u8>>
    decreases offs.len(),
{
    if offs.len() == 0 {
        chunk_at(db, offset)
    } else if offs[0] < 1 || offs[0] > offs.len() {
        None
    } else {
        let left = if offs[0] == 1 {
            chunk_at(db, offset)
        } else {
            structural_root(db, offs.subrange(1, offs[0] as int), offset)
        };
        let right = if offs.len() == 1 {
            chunk_at(db, offset + 1)
        } else {
            structural_root(
                db,
                offs.subrange(offs[0] as int, offs.len() as int),
                offset + offs[0] as nat,
            )
        };
        match (left, right) {
            (Some(l), Some(r)) => Some(hash_of(l + r)),
            _ => None,
        }
    }
}

/// A walk that starts past the end of the buffer can never produce a root:
/// offsets only grow towards the leaves.
pub proof fn lemma_structural_root_oob(db: Seq<u8>, offs: Seq<u64>, offset: nat)
    requires
        (offset + 1) * 32 > db.len(),
    ensures
        structural_root(db, offs, offset) is None,
    decreases offs.len(),
{
    if offs.len() == 0 {
    } else if offs[0] < 1 || offs[0] > offs.len() {
    } else {
        if offs[0] != 1 {
            lemma_structural_root_oob(db, offs.subrange(1, offs[0] as int), offset);
        }
    }
}

/// Reads the chunk at chunk-offset `o`, rejecting reads past the buffer.
fn read_chunk(db: &[u8], o: u64) -> (r: Result<H256, Error>)
    ensures
        match r {
            Ok(c) => chunk_at(db@, o as nat) == Some(c@),
            Err(e) => e == Error::MalformedProof && chunk_at(db@, o as nat) is None,
        },
{
    let dblen = db.len();
    let end = match o.checked_add(1) {
        Some(x) => x.checked_mul(32),
        None => None,
    };
    match end {
        Some(e) => {
            if e <= dblen as u64 {
                let eu = e as usize;
                let sl = slice_subrange(db, eu - 32, eu);
                Ok(H256::from_slice(sl))
            } else {
                Err(Error::MalformedProof)
            }
        },
        None => {
            proof {
                assert((o as nat + 1) * 32 > u64::MAX);
            }
            Err(Error::MalformedProof)
        },
    }
}

/// Derives the root of a structurally encoded proof slice.  `offset` is the
/// chunk offset at which the current subtree's chunks begin.
pub fn helper(proof_db: &[u8], offsets: &[u64], offset: u64) -> (r: Result<H256, Error>)
    ensures
        match r {
            Ok(h) => structural_root(proof_db@, offsets@, offset as nat) == Some(h@),
            Err(e) => e == Error::MalformedProof && structural_root(
                proof_db@,
                offsets@,
                offset as nat,
            ) is None,
        },
    decreases offsets@.len(),
{
    let dlen = proof_db.len();
    proof {
        assert(dlen <= usize::MAX);
        assert(usize::MAX <= u64::MAX);
    }
    let len = offsets.len();
    if len == 0 {
        return read_chunk(proof_db, offset);
    }
    let o0 = offsets[0];
    if o0 < 1 || o0 > len as u64 {
        return Err(Error::MalformedProof);
    }
    let o0u = o0 as usize;
    let left = if o0 == 1 {
        match read_chunk(proof_db, offset) {
            Ok(c) => c,
            Err(e) => {
                return Err(e);
            },
        }
    } else {
        match helper(proof_db, slice_subrange(offsets, 1, o0u), offset) {
            Ok(c) => c,
            Err(e) => {
                return Err(e);
            },
        }
    };
    let right = if len == 1 {
        match offset.checked_add(1) {
            Some(off1) => match read_chunk(proof_db, off1) {
                Ok(c) => c,
                Err(e) => {
                    return Err(e);
                },
            },
            None => {
                proof {
                    assert((offset as nat + 1 + 1) * 32 > u64::MAX);
                    assert(chunk_at(proof_db@, offset as nat + 1) is None);
                }
                return Err(Error::MalformedProof);
            },
        }
    } else {
        match offset.checked_add(o0) {
            Some(off2) => match helper(
                proof_db,
                slice_subrange(offsets, o0u, len),
                off2,
            ) {
                Ok(c) => c,
                Err(e) => {
                    return Err(e);
                },
            },
            None => {
                proof {
                    assert((offset as nat + o0 as nat + 1) * 32 > u64::MAX) by (nonlinear_arith)
                        requires offset as nat + o0 as nat > u64::MAX;
                    lemma_structural_root_oob(
                        proof_db@,
                        offsets@.subrange(o0 as int, len as int),
                        offset as nat + o0 as nat,
                    );
                }
                return Err(Error::MalformedProof);
            },
        }
    };
    Ok(crate::hashing::hash_pair(&left, &right))
}

impl InMemoryBackend {
    pub fn new(offsets: Vec<u8>, db: Vec<u8>, height: usize) -> (r: Self)
        ensures
            r.offsets@ == offsets@,
            r.db@ == db@,
            r.height == height,
    {
        InMemoryBackend { offsets, db, height }
    }

    /// The Merkle root implied by the loaded proof slice.  The navigation
    /// table is read as little-endian skip counts; a trailing fragment of
    /// fewer than eight bytes is ignored.
    pub fn root(&self) -> (r: Result<H256, Error>)
        ensures
            match r {
                Ok(h) => structural_root(self.db@, le_u64s(self.offsets@), 0) == Some(h@),
                Err(e) => e == Error::MalformedProof && structural_root(
                    self.db@,
                    le_u64s(self.offsets@),
                    0,
                ) is None,
            },
    {
        let olen = self.offsets.len();
        let n = olen / 8;
        let mut offs: Vec<u64> = Vec::new();
        let mut i: usize = 0;
        while i < n
            invariant
                n == self.offsets@.len() / 8,
                olen == self.offsets@.len(),
                i <= n,
                offs@.len() == i,
                forall|j: int| 0 <= j < i ==> offs@[j] == le_u64s(self.offsets@)[j],
            decreases n - i,
        {
            proof {
                assert(8 * (i + 1) <= 8 * (n as int)) by (nonlinear_arith)
                    requires i + 1 <= n as int;
                vstd::arithmetic::div_mod::lemma_fundamental_div_mod(self.offsets@.len() as int, 8);
            }
            let v = read_le_u64(&self.offsets, i * 8);
            offs.push(v);
            i = i + 1;
        }
        proof {
            assert(offs@ =~= le_u64s(self.offsets@));
        }
        helper(self.db.as_slice(), offs.as_slice(), 0)
    }
}

/// What a successful balance or nonce write does to the flat store: the
/// low 8 bytes of the addressed leaf now hold `v` little-endian, the rest
/// of that chunk and every other byte are unchanged.
pub open spec fn wrote_leaf(pre: InMemoryBackend, post: InMemoryBackend, idx: nat, v: nat)
    -> bool {
    &&& post.offsets@ == pre.offsets@
    &&& post.height == pre.height
    &&& match flat_lookup_spec(pre.offsets@, pre.height as nat, idx) {
        Some(oo) => {
            &&& (oo + 1) * 32 <= pre.db@.len()
            &&& post.db@.len() == pre.db@.len()
            &&& le_value(post.db@.subrange(32 * oo as int, 32 * oo as int + 8)) == v
            &&& post.db@.subrange(32 * oo as int + 8, 32 * oo as int + 32) == pre.db@.subrange(
                32 * oo as int + 8,
                32 * oo as int + 32,
            )
            &&& forall|j: int|
                0 <= j < pre.db@.len() && !(32 * oo <= j < 32 * oo + 32) ==> post.db@[j]
                    == pre.db@[j]
        },
        None => false,
    }
}

impl InMemoryBackend {
    /// Increase the value of the account at `address`; the new balance is
    /// returned and written back, and on any failure nothing changes.
    pub fn add_value(&mut self, address: &U264, amount: u64) -> (r: Result<u64, Error>)
        requires
            old(self).height <= 256,
            address.value() < p2(old(self).height as nat),
        ensures
            final(self).offsets@ == old(self).offsets@,
            final(self).height == old(self).height,
            ({
                let h = old(self).height as nat;
                let idx = leaf_index_spec(h, address.value(), 2);
                let cur = flat_chunk_spec(old(self).offsets@, old(self).db@, h, idx);
                match r {
                    Ok(v) => cur matches Some(c) && v == le_value(c.take(8)) + amount
                        && wrote_leaf(*old(self), *final(self), idx, v as nat),
                    Err(e) => final(self).db@ == old(self).db@ && match e {
                        Error::Overflow => cur matches Some(c) && le_value(c.take(8)) + amount
                            > u64::MAX,
                        Error::ChunkNotLoaded(i) => i.value() == idx && cur is None,
                        Error::MalformedProof => false,
                    },
                }
            }),
    {
        let index = leaf_index(self.height, address, FIELD_VALUE);
        self.mutate_leaf(&index, amount, false)
    }

    /// Decrease the value of the account at `address`.
    pub fn sub_value(&mut self, address: &U264, amount: u64) -> (r: Result<u64, Error>)
        requires
            old(self).height <= 256,
            address.value() < p2(old(self).height as nat),
        ensures
            final(self).offsets@ == old(self).offsets@,
            final(self).height == old(self).height,
            ({
                let h = old(self).height as nat;
                let idx = leaf_index_spec(h, address.value(), 2);
                let cur = flat_chunk_spec(old(self).offsets@, old(self).db@, h, idx);
                match r {
                    Ok(v) => cur matches Some(c) && v + amount == le_value(c.take(8))
                        && wrote_leaf(*old(self), *final(self), idx, v as nat),
                    Err(e) => final(self).db@ == old(self).db@ && match e {
                        Error::Overflow => cur matches Some(c) && le_value(c.take(8)) < amount,
                        Error::ChunkNotLoaded(i) => i.value() == idx && cur is None,
                        Error::MalformedProof => false,
                    },
                }
            }),
    {
        let index = leaf_index(self.height, address, FIELD_VALUE);
        self.mutate_leaf(&index, amount, true)
    }

    /// Increment the nonce of the account at `address` by one.
    pub fn inc_nonce(&mut self, address: &U264) -> (r: Result<u64, Error>)
        requires
            old(self).height <= 256,
            address.value() < p2(old(self).height as nat),
        ensures
            final(self).offsets@ == old(self).offsets@,
            final(self).height == old(self).height,
            ({
                let h = old(self).height as nat;
                let idx = leaf_index_spec(h, address.value(), 3);
                let cur = flat_chunk_spec(old(self).offsets@, old(self).db@, h, idx);
                match r {
                    Ok(v) => cur matches Some(c) && v == le_value(c.take(8)) + 1
                        && wrote_leaf(*old(self), *final(self), idx, v as nat),
                    Err(e) => final(self).db@ == old(self).db@ && match e {
                        Error::Overflow => cur matches Some(c) && le_value(c.take(8)) + 1
                            > u64::MAX,
                        Error::ChunkNotLoaded(i) => i.value() == idx && cur is None,
                        Error::MalformedProof => false,
                    },
                }
            }),
    {
        let index = leaf_index(self.height, address, FIELD_NONCE);
        self.mutate_leaf(&index, 1, false)
    }

    /// Shared read-modify-write on one leaf: adds or subtracts `amount`
    /// with explicit overflow detection, writing back only on success.
    fn mutate_leaf(&mut self, index: &U264, amount: u64, subtract: bool) -> (r: Result<
        u64,
        Error,
    >)
        requires
            old(self).height <= 256,
        ensures
            final(self).offsets@ == old(self).offsets@,
            final(self).height == old(self).height,
            ({
                let h = old(self).height as nat;
                let idx = index.value();
                let cur = flat_chunk_spec(old(self).offsets@, old(self).db@, h, idx);
                match r {
                    Ok(v) => cur matches Some(c) && (if subtract {
                        v + amount == le_value(c.take(8))
                    } else {
                        v == le_value(c.take(8)) + amount
                    }) && wrote_leaf(*old(self), *final(self), idx, v as nat),
                    Err(e) => final(self).db@ == old(self).db@ && match e {
                        Error::Overflow => cur matches Some(c) && (if subtract {
                            le_value(c.take(8)) < amount
                        } else {
                            le_value(c.take(8)) + amount > u64::MAX
                        }),
                        Error::ChunkNotLoaded(i) => i.value() == idx && cur is None,
                        Error::MalformedProof => false,
                    },
                }
            }),
    {
        let chunk = match self.get(index) {
            Ok(c) => c,
            Err(e) => {
                return Err(e);
            },
        };
        proof {
            lemma_le_value_bound(chunk@.take(8));
            lemma_p2_64_val();
        }
        let value = chunk.low_u64();
        let new = if subtract {
            match value.checked_sub(amount) {
                Some(v) => v,
                None => {
                    return Err(Error::Overflow);
                },
            }
        } else {
            match value.checked_add(amount) {
                Some(v) => v,
                None => {
                    return Err(Error::Overflow);
                },
            }
        };
        let newchunk = chunk.with_low_u64(new);
        let ghost pre = *self;
        match self.update(index, newchunk) {
            Ok(()) => {
                proof {
                    let h = pre.height as nat;
                    let idx = index.value();
                    let oo = flat_lookup_spec(pre.offsets@, h, idx)->Some_0;
                    assert(self.db@.subrange(32 * oo as int, 32 * oo as int + 8) =~= newchunk@.take(
                        8,
                    ));
                    assert(self.db@.subrange(32 * oo as int + 8, 32 * oo as int + 32)
                        =~= newchunk@.skip(8));
                    assert(chunk@ == pre.db@.subrange(32 * oo as int, 32 * oo as int + 32));
                    assert(chunk@.skip(8) =~= pre.db@.subrange(
                        32 * oo as int + 8,
                        32 * oo as int + 32,
                    ));
                }
                Ok(new)
            },
            Err(e) => {
                proof {
                    assert(false);
                }
                Err(e)
            },
        }
    }
}

/// After a successful leaf write, reading the same leaf back gives the
/// written value, with the padding bytes of the chunk kept.
pub proof fn lemma_leaf_after_write(pre: InMemoryBackend, post: InMemoryBackend, idx: nat, v: nat)
    requires
        wrote_leaf(pre, post, idx, v),
    ensures
        post.offsets@ == pre.offsets@,
        post.height == pre.height,
        flat_chunk_spec(pre.offsets@, pre.db@, pre.height as nat, idx) is Some,
        ({
            let c = flat_chunk_spec(post.offsets@, post.db@, post.height as nat, idx);
            let c0 = flat_chunk_spec(pre.offsets@, pre.db@, pre.height as nat, idx);
            c matches Some(cc) && (c0 matches Some(cc0) && le_value(cc.take(8)) == v
                && cc.skip(8) == cc0.skip(8))
        }),
{
    let h = pre.height as nat;
    let oo = flat_lookup_spec(pre.offsets@, h, idx)->Some_0;
    let cc = post.db@.subrange(32 * oo as int, 32 * oo as int + 32);
    let cc0 = pre.db@.subrange(32 * oo as int, 32 * oo as int + 32);
    assert(cc.take(8) =~= post.db@.subrange(32 * oo as int, 32 * oo as int + 8));
    assert(cc.skip(8) =~= post.db@.subrange(32 * oo as int + 8, 32 * oo as int + 32));
    assert(cc0.skip(8) =~= pre.db@.subrange(32 * oo as int + 8, 32 * oo as int + 32));
}

/// Conservation: subtracting `k` immediately after adding `k` (both
/// successful) restores the original balance, and in fact restores the
/// whole store byte for byte.
pub proof fn lemma_add_sub_conservation(
    s0: InMemoryBackend,
    s1: InMemoryBackend,
    s2: InMemoryBackend,
    a: nat,
    k: u64,
    v1: u64,
    v2: u64,
)
    requires
        ({
            let h = s0.height as nat;
            let idx = leaf_index_spec(h, a, 2);
            let cur = flat_chunk_spec(s0.offsets@, s0.db@, h, idx);
            cur matches Some(c) && v1 == le_value(c.take(8)) + k && wrote_leaf(
                s0,
                s1,
                idx,
                v1 as nat,
            )
        }),
        ({
            let h = s1.height as nat;
            let idx = leaf_index_spec(h, a, 2);
            let cur = flat_chunk_spec(s1.offsets@, s1.db@, h, idx);
            cur matches Some(c) && v2 + k == le_value(c.take(8)) && wrote_leaf(
                s1,
                s2,
                idx,
                v2 as nat,
            )
        }),
    ensures
        ({
            let h = s0.height as nat;
            let idx = leaf_index_spec(h, a, 2);
            flat_chunk_spec(s0.offsets@, s0.db@, h, idx) matches Some(c) && v2 == le_value(
                c.take(8),
            )
        }),
        s2.db@ == s0.db@,
        s2.offsets@ == s0.offsets@,
        s2.height == s0.height,
{
    let h = s0.height as nat;
    let idx = leaf_index_spec(h, a, 2);
    lemma_leaf_after_write(s0, s1, idx, v1 as nat);
    lemma_leaf_after_write(s1, s2, idx, v2 as nat);
    let oo = flat_lookup_spec(s0.offsets@, h, idx)->Some_0;
    assert(le_value(s1.db@.subrange(32 * oo as int, 32 * oo as int + 8)) == v1);
    let c1 = flat_chunk_spec(s1.offsets@, s1.db@, h, idx)->Some_0;
    assert(c1.take(8) =~= s1.db@.subrange(32 * oo as int, 32 * oo as int + 8));
    assert(v2 == le_value(flat_chunk_spec(s0.offsets@, s0.db@, h, idx)->Some_0.take(8)));
    let lo0 = s0.db@.subrange(32 * oo as int, 32 * oo as int + 8);
    let lo2 = s2.db@.subrange(32 * oo as int, 32 * oo as int + 8);
    let c0 = flat_chunk_spec(s0.offsets@, s0.db@, h, idx)->Some_0;
    assert(c0.take(8) =~= lo0);
    assert(le_value(lo2) == le_value(lo0));
    lemma_le_value_inj(lo2, lo0);
    assert forall|j: int| 0 <= j < s0.db@.len() implies s2.db@[j] == s0.db@[j] by {
        if 32 * oo <= j < 32 * oo + 8 {
            assert(lo2[j - 32 * oo] == lo0[j - 32 * oo]);
        } else if 32 * oo + 8 <= j < 32 * oo + 32 {
            let mid2 = s2.db@.subrange(32 * oo as int + 8, 32 * oo as int + 32);
            let mid1 = s1.db@.subrange(32 * oo as int + 8, 32 * oo as int + 32);
            let mid0 = s0.db@.subrange(32 * oo as int + 8, 32 * oo as int + 32);
            assert(mid2 == mid1 && mid1 == mid0);
            assert(mid2[j - (32 * oo + 8)] == mid0[j - (32 * oo + 8)]);
        }
    }
    assert(s2.db@ =~= s0.db@);
}

/// One successful `inc_nonce` call on account `a`: the result is the old
/// nonce plus one, and exactly that leaf was rewritten.
pub open spec fn inc_step(pre: InMemoryBackend, post: InMemoryBackend, a: nat, r: u64) -> bool {
    let h = pre.height as nat;
    let idx = leaf_index_spec(h, a, 3);
    let cur = flat_chunk_spec(pre.offsets@, pre.db@, h, idx);
    cur matches Some(c) && r == le_value(c.take(8)) + 1 && wrote_leaf(pre, post, idx, r as nat)
}

/// Monotonic nonce: one increment returns the previous nonce plus one (the
/// ensures of `inc_nonce`); a chain of `n` increments accumulates, so the
/// last result is the initial nonce plus `n`.
pub proof fn lemma_inc_nonce_accumulates(
    states: Seq<InMemoryBackend>,
    results: Seq<u64>,
    a: nat,
)
    requires
        results.len() >= 1,
        states.len() == results.len() + 1,
        forall|i: int|
            0 <= i < results.len() ==> #[trigger] inc_step(states[i], states[i + 1], a,
                results[i]),
    ensures
        ({
            let h = states[0].height as nat;
            let idx = leaf_index_spec(h, a, 3);
            flat_chunk_spec(states[0].offsets@, states[0].db@, h, idx) matches Some(c)
                && results.last() == le_value(c.take(8)) + results.len()
        }),
    decreases results.len(),
{
    let h = states[0].height as nat;
    let idx = leaf_index_spec(h, a, 3);
    if results.len() == 1 {
        assert(inc_step(states[0], states[1], a, results[0]));
    } else {
        let n = results.len() as int;
        assert forall|i: int| 0 <= i < n - 1 implies #[trigger] inc_step(
            states.take(n)[i],
            states.take(n)[i + 1],
            a,
            results.take(n - 1)[i],
        ) by {
            assert(inc_step(states[i], states[i + 1], a, results[i]));
            assert(states.take(n)[i] == states[i]);
            assert(states.take(n)[i + 1] == states[i + 1]);
            assert(results.take(n - 1)[i] == results[i]);
        }
        lemma_inc_nonce_accumulates(states.take(n), results.take(n - 1), a);
        assert(states.take(n)[0] == states[0]);
        assert(results.take(n - 1).last() == results[n - 2]);
        let m = n - 2;
        assert(inc_step(states[m], states[m + 1], a, results[m]));
        assert(inc_step(states[m + 1], states[m + 1 + 1], a, results[m + 1]));
        lemma_leaf_after_write(
            states[m],
            states[m + 1],
            leaf_index_spec(states[m].height as nat, a, 3),
            results[m] as nat,
        );
        assert(states[m + 1].height == states[m].height);
        assert(states[m + 1 + 1] == states[n]);
        assert(results[m + 1] == results[n - 1]);
    }
}

impl Backend for InMemoryBackend {
    open spec fn height_spec(&self) -> nat {
        self.height as nat
    }

    fn new(offsets: Vec<u8>, db: Vec<u8>, height: usize) -> Self {
        InMemoryBackend::new(offsets, db, height)
    }

    fn root(&mut self) -> Result<H256, Error> {
        InMemoryBackend::root(self)
    }

    fn add_value(&mut self, address: &U264, amount: u64) -> Result<u64, Error> {
        InMemoryBackend::add_value(self, address, amount)
    }

    fn sub_value(&mut self, address: &U264, amount: u64) -> Result<u64, Error> {
        InMemoryBackend::sub_value(self, address, amount)
    }

    fn inc_nonce(&mut self, address: &U264) -> Result<u64, Error> {
        InMemoryBackend::inc_nonce(self, address)
    }
}


/// The byte image of a navigation table: each skip count little-endian in
/// eight bytes, in order.
pub open spec fn offsets_bytes(offs: Seq<u64>) -> Seq<u8>
    decreases offs.len(),
{
    if offs.len() == 0 {
        Seq::<u8>::empty()
    } else {
        le_bytes(offs[0] as nat, 8) + offsets_bytes(offs.drop_first())
    }
}

proof fn lemma_offsets_bytes_len(offs: Seq<u64>)
    ensures
        offsets_bytes(offs).len() == 8 * offs.len(),
    decreases offs.len(),
{
    if offs.len() > 0 {
        lemma_le_bytes_len(offs[0] as nat, 8);
        lemma_offsets_bytes_len(offs.drop_first());
    }
}

proof fn lemma_offsets_bytes_extract(offs: Seq<u64>, i: int)
    requires
        0 <= i < offs.len(),
    ensures
        offsets_bytes(offs).subrange(8 * i, 8 * i + 8) == le_bytes(offs[i] as nat, 8),
    decreases offs.len(),
{
    lemma_offsets_bytes_len(offs);
    lemma_le_bytes_len(offs[0] as nat, 8);
    if i == 0 {
        assert(offsets_bytes(offs).subrange(0, 8) =~= le_bytes(offs[0] as nat, 8));
    } else {
        lemma_offsets_bytes_extract(offs.drop_first(), i - 1);
        lemma_offsets_bytes_len(offs.drop_first());
        assert(offsets_bytes(offs).subrange(8 * i, 8 * i + 8) =~= offsets_bytes(
            offs.drop_first(),
        ).subrange(8 * (i - 1), 8 * (i - 1) + 8));
        assert(offs.drop_first()[i - 1] == offs[i]);
    }
}

/// Round trip of the structural format's navigation table: reading the
/// encoded table back as little-endian skip counts yields the original.
pub proof fn lemma_offsets_round_trip(offs: Seq<u64>)
    ensures
        le_u64s(offsets_bytes(offs)) == offs,
{
    lemma_offsets_bytes_len(offs);
    let b = offsets_bytes(offs);
    assert forall|i: int| 0 <= i < offs.len() implies le_u64s(b)[i] == offs[i] by {
        lemma_offsets_bytes_extract(offs, i);
        crate::u264::lemma_p2_64_val();
        lemma_p2_le(8 * 8, 64);
        lemma_le_bytes_value(offs[i] as nat, 8);
    }
    assert(le_u64s(b) =~= offs);
}

/// Encodes a navigation table for the structural wire format.
pub fn encode_offsets(offs: &Vec<u64>) -> (r: Vec<u8>)
    ensures
        r@ == offsets_bytes(offs@),
        le_u64s(r@) == offs@,
{
    let n = offs.len();
    let mut out: Vec<u8> = Vec::new();
    let mut i: usize = 0;
    proof {
        assert(offs@.take(0) =~= Seq::<u64>::empty());
        assert(out@ =~= offsets_bytes(offs@.take(0)));
    }
    while i < n
        invariant
            i <= n,
            n == offs@.len(),
            out@ == offsets_bytes(offs@.take(i as int)),
        decreases n - i,
    {
        let ghost pre = out@;
        let bytes = crate::u264::write_le_bytes(offs[i], 8);
        let mut j: usize = 0;
        while j < 8
            invariant
                j <= 8,
                bytes@.len() == 8,
                out@ == pre + bytes@.take(j as int),
            decreases 8 - j,
        {
            out.push(bytes[j]);
            proof {
                assert(pre + bytes@.take(j + 1) =~= (pre + bytes@.take(j as int)).push(
                    bytes@[j as int],
                ));
            }
            j = j + 1;
        }
        proof {
            assert(bytes@.take(8) =~= bytes@);
            lemma_offsets_bytes_push(offs@.take(i as int), offs@[i as int]);
            assert(offs@.take(i + 1) =~= offs@.take(i as int).push(offs@[i as int]));
            assert(out@ =~= offsets_bytes(offs@.take(i + 1)));
        }
        i = i + 1;
    }
    proof {
        assert(offs@.take(n as int) =~= offs@);
        lemma_offsets_round_trip(offs@);
    }
    out
}

proof fn lemma_offsets_bytes_push(offs: Seq<u64>, v: u64)
    ensures
        offsets_bytes(offs.push(v)) == offsets_bytes(offs) + le_bytes(v as nat, 8),
    decreases offs.len(),
{
    if offs.len() == 0 {
        assert(offs.push(v).drop_first() =~= Seq::<u64>::empty());
        assert(offs.push(v)[0] == v);
        assert(offsets_bytes(Seq::<u64>::empty()) =~= Seq::<u8>::empty());
        assert(offsets_bytes(offs.push(v)) =~= offsets_bytes(offs) + le_bytes(v as nat, 8));
    } else {
        assert(offs.push(v).drop_first() =~= offs.drop_first().push(v));
        lemma_offsets_bytes_push(offs.drop_first(), v);
        assert(offs.push(v)[0] == offs[0]);
        assert(offsets_bytes(offs.push(v)) =~= offsets_bytes(offs) + le_bytes(v as nat, 8));
    }
}


/// Reads the little-endian `u64` at byte offset `at` of `table`.
fn read_le_u64(table: &Vec<u8>, at: usize) -> (r: u64)
    requires
        at + 8 <= table@.len(),
    ensures
        r == le_value(table@.subrange(at as int, at as int + 8)),
{
    let tl = table.len();
    let ghost s = table@.subrange(at as int, at as int + 8);
    let mut acc: u64 = 0;
    let mut k: usize = 8;
    proof {
        assert(s.skip(8) =~= Seq::<u8>::empty());
    }
    while k > 0
        invariant
            at + 8 <= table@.len(),
            table@.len() == tl,
            s == table@.subrange(at as int, at as int + 8),
            k <= 8,
            acc == le_value(s.skip(k as int)),
        decreases k,
    {
        let ghost pre = s.skip(k as int);
        proof {
            lemma_le_value_bound(pre);
            lemma_p2_le((8 * pre.len()) as nat, 56);
            lemma_p2_64_val();
            assert(p2(56) * 256 == p2(64)) by {
                crate::u264::lemma_p2_adds(56, 8);
                crate::u264::lemma_p2_256();
            };
            assert(le_value(pre) * 256 + 256 <= p2(64)) by (nonlinear_arith)
                requires le_value(pre) < p2(56), p2(56) * 256 == p2(64);
            assert(s.skip(k - 1).drop_first() =~= pre);
            assert(s.skip(k - 1)[0] == s[k - 1]);
            assert(s[k - 1] == table@[at + k - 1]);
        }
        acc = acc * 256 + (table[at + k - 1] as u64);
        k = k - 1;
    }
    proof {
        assert(s.skip(0) =~= s);
    }
    acc
}

} // verus!
