//! The index-addressed state backend: a sparse store of tree nodes with
//! before/after duality.
//!
//! Every known node keeps the chunk the proof supplied (`pre`) and, once a
//! mutation or a derived parent touched it, the current chunk (`post`).
//! The root calculator walks the known indices bottom-up with a work list,
//! deriving each parent whose two children are known, and reads both roots
//! off index one in a single pass.

use vstd::prelude::*;

verus! {

use crate::chunk::H256;
use crate::error::Error;
use crate::hashing::{hash_of, hash_pair};
use crate::codec::{decode, decode_spec, view_entries};
use crate::u264::{U264, le_value, p2, lemma_le_value_bound, lemma_p2_64_val, lemma_p2_le};
use crate::index::{leaf_index, leaf_index_spec, FIELD_VALUE, FIELD_NONCE};

broadcast use vstd::std_specs::vec::axiom_spec_len;

/// One known tree node.
pub struct Node {
    pub index: U264,
    pub pre: H256,
    pub post: Option<H256>,
}

/// The `(pre, effective)` chunk pair of a node: `post` if set, else `pre`.
pub open spec fn node_entry(n: Node) -> (Seq<u8>, Seq<u8>) {
    (
        n.pre@,
        match n.post {
            Some(p) => p@,
            None => n.pre@,
        },
    )
}

/// The store as a map from index value to `(pre, effective)` chunks.
pub open spec fn pmap_of(ns: Seq<Node>) -> Map<nat, (Seq<u8>, Seq<u8>)>
    decreases ns.len(),
{
    if ns.len() == 0 {
        Map::empty()
    } else {
        pmap_of(ns.drop_last()).insert(ns.last().index.value(), node_entry(ns.last()))
    }
}

/// No two stored nodes share an index.
pub open spec fn nodes_distinct(ns: Seq<Node>) -> bool {
    forall|i: int, j: int|
        0 <= i < j < ns.len() ==> (#[trigger] ns[i]).index.value() != (#[trigger] ns[j]).index.value()
}

pub open spec fn nodes_wf(ns: Seq<Node>) -> bool {
    &&& nodes_distinct(ns)
    &&& forall|i: int| 0 <= i < ns.len() ==> (#[trigger] ns[i]).index.wf()
}

proof fn lemma_pmap_contains(ns: Seq<Node>, k: nat)
    ensures
        pmap_of(ns).contains_key(k) <==> exists|i: int|
            0 <= i < ns.len() && (#[trigger] ns[i]).index.value() == k,
    decreases ns.len(),
{
    if ns.len() > 0 {
        lemma_pmap_contains(ns.drop_last(), k);
        if pmap_of(ns).contains_key(k) {
            if ns.last().index.value() != k {
                let i = choose|i: int|
                    0 <= i < ns.drop_last().len() && (#[trigger] ns.drop_last()[i]).index.value()
                        == k;
                assert(ns[i].index.value() == k);
            }
        }
        if exists|i: int| 0 <= i < ns.len() && (#[trigger] ns[i]).index.value() == k {
            let i = choose|i: int| 0 <= i < ns.len() && (#[trigger] ns[i]).index.value() == k;
            if i < ns.len() - 1 {
                assert(ns.drop_last()[i].index.value() == k);
            }
        }
    }
}

proof fn lemma_pmap_lookup(ns: Seq<Node>, i: int)
    requires
        nodes_distinct(ns),
        0 <= i < ns.len(),
    ensures
        pmap_of(ns).contains_key(ns[i].index.value()),
        pmap_of(ns)[ns[i].index.value()] == node_entry(ns[i]),
    decreases ns.len(),
{
    if i == ns.len() - 1 {
        assert(ns.last() == ns[i]);
    } else {
        assert(nodes_distinct(ns.drop_last())) by {
            assert(forall|a: int|
                0 <= a < ns.drop_last().len() ==> ns.drop_last()[a] == ns[a]);
        };
        assert(ns.drop_last()[i] == ns[i]);
        lemma_pmap_lookup(ns.drop_last(), i);
        assert(ns.last().index.value() != ns[i].index.value());
    }
}

proof fn lemma_pmap_update(ns: Seq<Node>, i: int, n2: Node)
    requires
        nodes_distinct(ns),
        0 <= i < ns.len(),
        n2.index.value() == ns[i].index.value(),
    ensures
        pmap_of(ns.update(i, n2)) == pmap_of(ns).insert(n2.index.value(), node_entry(n2)),
    decreases ns.len(),
{
    let k = n2.index.value();
    if i == ns.len() - 1 {
        assert(ns.update(i, n2).drop_last() =~= ns.drop_last());
        assert(ns.update(i, n2).last() == n2);
        assert(pmap_of(ns.update(i, n2)) =~= pmap_of(ns).insert(k, node_entry(n2)));
    } else {
        assert(nodes_distinct(ns.drop_last())) by {
            assert(forall|a: int|
                0 <= a < ns.drop_last().len() ==> ns.drop_last()[a] == ns[a]);
        };
        assert(ns.drop_last()[i] == ns[i]);
        lemma_pmap_update(ns.drop_last(), i, n2);
        assert(ns.update(i, n2).drop_last() =~= ns.drop_last().update(i, n2));
        assert(ns.update(i, n2).last() == ns.last());
        assert(ns.last().index.value() != k);
        assert(pmap_of(ns.update(i, n2)) =~= pmap_of(ns).insert(k, node_entry(n2)));
    }
}

/// The index-addressed backend.
pub struct PartialBackend {
    height: usize,
    nodes: Vec<Node>,
}

impl PartialBackend {
    /// Valid state: distinct, well-formed indices, a sane height.
    pub closed spec fn wf(&self) -> bool {
        &&& nodes_wf(self.nodes@)
        &&& self.height <= 256
    }

    /// The store's contents: index value to `(pre, effective)` chunks.
    pub closed spec fn map_spec(&self) -> Map<nat, (Seq<u8>, Seq<u8>)> {
        pmap_of(self.nodes@)
    }

    pub closed spec fn height_spec(&self) -> nat {
        self.height as nat
    }

    /// The number of stored nodes.
    pub closed spec fn map_len(&self) -> nat {
        self.nodes@.len()
    }

    /// A fresh, empty backend for a tree of the given height.
    pub fn new(height: usize) -> (r: Self)
        requires
            height <= 256,
        ensures
            r.wf(),
            r.height_spec() == height,
            r.map_spec() == Map::<nat, (Seq<u8>, Seq<u8>)>::empty(),
    {
        PartialBackend { height, nodes: Vec::new() }
    }

    /// The position of `index` in the store, if it is known.
    fn find(&self, index: &U264) -> (r: Option<usize>)
        requires
            self.wf(),
        ensures
            match r {
                Some(i) => i < self.nodes@.len() && self.nodes@[i as int].index.value()
                    == index.value() && self.map_spec().contains_key(index.value())
                    && self.map_spec()[index.value()] == node_entry(self.nodes@[i as int]),
                None => !self.map_spec().contains_key(index.value()),
            },
    {
        let mut i: usize = 0;
        let n = self.nodes.len();
        while i < n
            invariant
                self.wf(),
                n == self.nodes@.len(),
                i <= n,
                forall|j: int| 0 <= j < i ==> (#[trigger] self.nodes@[j]).index.value()
                    != index.value(),
            decreases n - i,
        {
            if self.nodes[i].index.eq_value(index) {
                proof {
                    lemma_pmap_lookup(self.nodes@, i as int);
                }
                return Some(i);
            }
            i = i + 1;
        }
        proof {
            lemma_pmap_contains(self.nodes@, index.value());
        }
        None
    }

    /// The effective chunk of a node: `post` if a mutation or derivation
    /// set it, else the proof-supplied `pre`.
    pub fn get(&self, index: &U264) -> (r: Result<H256, Error>)
        requires
            self.wf(),
        ensures
            match r {
                Ok(c) => self.map_spec().contains_key(index.value())
                    && c@ == self.map_spec()[index.value()].1,
                Err(e) => !self.map_spec().contains_key(index.value()) && (e matches
                    Error::ChunkNotLoaded(i) && i@ == index@),
            },
    {
        match self.find(index) {
            Some(i) => match &self.nodes[i].post {
                Some(p) => Ok(*p),
                None => Ok(self.nodes[i].pre),
            },
            None => Err(Error::ChunkNotLoaded(index.clone())),
        }
    }

    /// The chunk as the proof supplied it, ignoring any mutation.
    pub fn get_pre(&self, index: &U264) -> (r: Result<H256, Error>)
        requires
            self.wf(),
        ensures
            match r {
                Ok(c) => self.map_spec().contains_key(index.value())
                    && c@ == self.map_spec()[index.value()].0,
                Err(e) => !self.map_spec().contains_key(index.value()) && (e matches
                    Error::ChunkNotLoaded(i) && i@ == index@),
            },
    {
        match self.find(index) {
            Some(i) => Ok(self.nodes[i].pre),
            None => Err(Error::ChunkNotLoaded(index.clone())),
        }
    }

    /// Overwrites only the `post` chunk of an already-loaded node.
    pub fn set_post(&mut self, index: &U264, chunk: H256) -> (r: Result<(), Error>)
        requires
            old(self).wf(),
        ensures
            final(self).wf(),
            final(self).height_spec() == old(self).height_spec(),
            match r {
                Ok(()) => old(self).map_spec().contains_key(index.value())
                    && final(self).map_spec() == old(self).map_spec().insert(
                    index.value(),
                    (old(self).map_spec()[index.value()].0, chunk@),
                ),
                Err(e) => *final(self) == *old(self) && !old(self).map_spec().contains_key(
                    index.value(),
                ) && (e matches Error::ChunkNotLoaded(i) && i@ == index@),
            },
    {
        match self.find(index) {
            Some(i) => {
                let n2 = Node {
                    index: self.nodes[i].index.clone(),
                    pre: self.nodes[i].pre,
                    post: Some(chunk),
                };
                proof {
                    use_type_invariant(&n2.index);
                    lemma_pmap_update(self.nodes@, i as int, n2);
                }
                let ghost old_nodes = self.nodes@;
                self.nodes[i] = n2;
                proof {
                    assert(forall|a: int, b: int|
                        0 <= a < b < self.nodes@.len() ==> (#[trigger] self.nodes@[a]).index.value()
                            != (#[trigger] self.nodes@[b]).index.value()) by {
                        assert(forall|a: int|
                            0 <= a < self.nodes@.len() && a != i ==> (#[trigger] self.nodes@[a])
                                == old_nodes[a]);
                    };
                }
                Ok(())
            },
            None => Err(Error::ChunkNotLoaded(index.clone())),
        }
    }

    /// Records a freshly derived internal node with both of its chunks.
    pub fn insert_derived(&mut self, index: U264, pre: H256, post: H256)
        requires
            old(self).wf(),
            !old(self).map_spec().contains_key(index.value()),
        ensures
            final(self).wf(),
            final(self).height_spec() == old(self).height_spec(),
            final(self).map_spec() == old(self).map_spec().insert(index.value(), (pre@, post@)),
            final(self).map_len() == old(self).map_len() + 1,
    {
        proof {
            use_type_invariant(&index);
            lemma_pmap_contains(self.nodes@, index.value());
        }
        let ghost old_nodes = self.nodes@;
        let ghost k = index.value();
        self.nodes.push(Node { index, pre, post: Some(post) });
        proof {
            assert(self.nodes@.drop_last() =~= old_nodes);
            assert(forall|a: int|
                0 <= a < old_nodes.len() ==> (#[trigger] self.nodes@[a]) == old_nodes[a]);
            assert(forall|a: int, b: int|
                0 <= a < b < self.nodes@.len() ==> (#[trigger] self.nodes@[a]).index.value() != (
                #[trigger] self.nodes@[b]).index.value()) by {
                assert forall|a: int|
                    0 <= a < old_nodes.len() implies old_nodes[a].index.value() != k by {
                    if old_nodes[a].index.value() == k {
                        assert(exists|i: int|
                            0 <= i < old_nodes.len() && (#[trigger] old_nodes[i]).index.value()
                                == k);
                    }
                }
            };
        }
    }
}


/// Pairwise-distinct entry indices.
pub open spec fn entries_distinct(ev: Seq<(Seq<u8>, Seq<u8>)>) -> bool {
    forall|i: int, j: int|
        0 <= i < j < ev.len() ==> le_value((#[trigger] ev[i]).0) != le_value((#[trigger] ev[j]).0)
}

/// The store a decoded entry list populates: every chunk is `pre`, no
/// `post` is set, so the effective chunk equals `pre`.
pub open spec fn entry_map(ev: Seq<(Seq<u8>, Seq<u8>)>) -> Map<nat, (Seq<u8>, Seq<u8>)>
    decreases ev.len(),
{
    if ev.len() == 0 {
        Map::empty()
    } else {
        entry_map(ev.drop_last()).insert(le_value(ev.last().0), (ev.last().1, ev.last().1))
    }
}

impl PartialBackend {
    /// Populates a fresh backend from an index-addressed proof blob.
    /// Rejects malformed blobs and duplicate indices, leaving the backend
    /// untouched.
    #[verifier::loop_isolation(false)]
    pub fn load(&mut self, bytes: &[u8]) -> (r: Result<(), Error>)
        requires
            old(self).wf(),
            old(self).map_spec() == Map::<nat, (Seq<u8>, Seq<u8>)>::empty(),
        ensures
            final(self).wf(),
            final(self).height_spec() == old(self).height_spec(),
            match r {
                Ok(()) => decode_spec(bytes@) matches Some(ev) && entries_distinct(ev)
                    && final(self).map_spec() == entry_map(ev),
                Err(e) => e == Error::MalformedProof && *final(self) == *old(self) && (decode_spec(
                    bytes@,
                ) is None || (decode_spec(bytes@) matches Some(ev) && !entries_distinct(ev))),
            },
    {
        let es = match decode(bytes) {
            Ok(es) => es,
            Err(e) => {
                return Err(e);
            },
        };
        let ghost ev = decode_spec(bytes@)->Some_0;
        proof {
            assert(ev == view_entries(es@));
        }
        let mut nodes: Vec<Node> = Vec::new();
        let n = es.len();
        let mut i: usize = 0;
        proof {
            assert(ev.take(0) =~= Seq::<(Seq<u8>, Seq<u8>)>::empty());
        }
        while i < n
            invariant
                *self == *old(self),
                n == es@.len(),
                ev == view_entries(es@),
                i <= n,
                nodes@.len() == i,
                nodes_wf(nodes@),
                forall|j: int| 0 <= j < i ==> (#[trigger] nodes@[j]).index.value() == le_value(
                    ev[j].0,
                ) && nodes@[j].pre@ == ev[j].1 && nodes@[j].post is None,
                pmap_of(nodes@) == entry_map(ev.take(i as int)),
                forall|a: int, b: int|
                    0 <= a < b < i ==> le_value((#[trigger] ev[a]).0) != le_value(
                        (#[trigger] ev[b]).0,
                    ),
            decreases n - i,
        {
            let idx = es[i].0.clone();
            let chunk = es[i].1;
            proof {
                use_type_invariant(&idx);
                assert(ev[i as int].0 == es@[i as int].0@);
            }
            let mut j: usize = 0;
            while j < i
                invariant
                    *self == *old(self),
                    i <= nodes@.len(),
                    j <= i,
                    idx@ == es@[i as int].0@,
                    forall|a: int| 0 <= a < i ==> (#[trigger] nodes@[a]).index.value()
                        == le_value(ev[a].0),
                    ev == view_entries(es@),
                    i < es@.len(),
                    forall|a: int| 0 <= a < j ==> le_value((#[trigger] ev[a]).0) != idx.value(),
                decreases i - j,
            {
                if nodes[j].index.eq_value(&idx) {
                    proof {
                        assert(ev[i as int] == (es@[i as int].0@, es@[i as int].1@));
                        assert(le_value(ev[j as int].0) == idx.value());
                        assert(le_value(ev[i as int].0) == idx.value());
                        assert(!entries_distinct(ev));
                    }
                    return Err(Error::MalformedProof);
                }
                j = j + 1;
            }
            let ghost old_nodes = nodes@;
            nodes.push(Node { index: idx, pre: chunk, post: None });
            proof {
                assert(nodes@.drop_last() =~= old_nodes);
                assert(forall|a: int|
                    0 <= a < old_nodes.len() ==> (#[trigger] nodes@[a]) == old_nodes[a]);
                assert(ev.take(i + 1).drop_last() =~= ev.take(i as int));
                assert(ev.take(i + 1).last() == ev[i as int]);
                assert(node_entry(nodes@.last()) == (ev[i as int].1, ev[i as int].1));
                assert(pmap_of(nodes@) =~= entry_map(ev.take(i + 1)));
            }
            i = i + 1;
        }
        proof {
            assert(ev.take(n as int) =~= ev);
        }
        self.nodes = nodes;
        Ok(())
    }

    /// Shared read-modify-write on one leaf of the store.
    fn mutate_leaf(&mut self, index: &U264, amount: u64, subtract: bool) -> (r: Result<
        u64,
        Error,
    >)
        requires
            old(self).wf(),
        ensures
            final(self).wf(),
            final(self).height_spec() == old(self).height_spec(),
            ({
                let idx = index.value();
                let m = old(self).map_spec();
                match r {
                    Ok(v) => m.contains_key(idx) && ({
                        let cur = m[idx].1;
                        let newc = final(self).map_spec()[idx].1;
                        &&& (if subtract {
                            v + amount == le_value(cur.take(8))
                        } else {
                            v == le_value(cur.take(8)) + amount
                        })
                        &&& le_value(newc.take(8)) == v
                        &&& newc.skip(8) == cur.skip(8)
                        &&& final(self).map_spec() == m.insert(idx, (m[idx].0, newc))
                    }),
                    Err(e) => *final(self) == *old(self) && match e {
                        Error::Overflow => m.contains_key(idx) && (if subtract {
                            le_value(m[idx].1.take(8)) < amount
                        } else {
                            le_value(m[idx].1.take(8)) + amount > u64::MAX
                        }),
                        Error::ChunkNotLoaded(i) => i@ == index@ && !m.contains_key(idx),
                        Error::MalformedProof => false,
                    },
                }
            }),
    {
        let chunk = match self.get(index) {
            Ok(c) => c,
            Err(e) => {
                return Err(e);
            },
        };
        proof {
            lemma_le_value_bound(chunk@.take(8));
            lemma_p2_64_val();
            lemma_p2_le(8 * 8, 64);
        }
        let value = chunk.low_u64();
        let new = if subtract {
            match value.checked_sub(amount) {
                Some(v) => v,
                None => {
                    return Err(Error::Overflow);
                },
            }
        } else {
            match value.checked_add(amount) {
                Some(v) => v,
                None => {
                    return Err(Error::Overflow);
                },
            }
        };
        let newchunk = chunk.with_low_u64(new);
        match self.set_post(index, newchunk) {
            Ok(()) => Ok(new),
            Err(e) => {
                proof {
                    assert(false);
                }
                Err(e)
            },
        }
    }

    /// Increase the value of the account at `address`; the new balance is
    /// written to the `post` chunk of the balance leaf.
    pub fn add_value(&mut self, address: &U264, amount: u64) -> (r: Result<u64, Error>)
        requires
            old(self).wf(),
            address.value() < p2(old(self).height_spec()),
        ensures
            final(self).wf(),
            final(self).height_spec() == old(self).height_spec(),
            ({
                let idx = leaf_index_spec(old(self).height_spec(), address.value(), 2);
                let m = old(self).map_spec();
                match r {
                    Ok(v) => m.contains_key(idx) && ({
                        let cur = m[idx].1;
                        let newc = final(self).map_spec()[idx].1;
                        &&& v == le_value(cur.take(8)) + amount
                        &&& le_value(newc.take(8)) == v
                        &&& newc.skip(8) == cur.skip(8)
                        &&& final(self).map_spec() == m.insert(idx, (m[idx].0, newc))
                    }),
                    Err(e) => *final(self) == *old(self) && match e {
                        Error::Overflow => m.contains_key(idx) && le_value(m[idx].1.take(8))
                            + amount > u64::MAX,
                        Error::ChunkNotLoaded(i) => i.value() == idx && !m.contains_key(idx),
                        Error::MalformedProof => false,
                    },
                }
            }),
    {
        let index = leaf_index(self.height, address, FIELD_VALUE);
        self.mutate_leaf(&index, amount, false)
    }

    /// Decrease the value of the account at `address`.
    pub fn sub_value(&mut self, address: &U264, amount: u64) -> (r: Result<u64, Error>)
        requires
            old(self).wf(),
            address.value() < p2(old(self).height_spec()),
        ensures
            final(self).wf(),
            final(self).height_spec() == old(self).height_spec(),
            ({
                let idx = leaf_index_spec(old(self).height_spec(), address.value(), 2);
                let m = old(self).map_spec();
                match r {
                    Ok(v) => m.contains_key(idx) && ({
                        let cur = m[idx].1;
                        let newc = final(self).map_spec()[idx].1;
                        &&& v + amount == le_value(cur.take(8))
                        &&& le_value(newc.take(8)) == v
                        &&& newc.skip(8) == cur.skip(8)
                        &&& final(self).map_spec() == m.insert(idx, (m[idx].0, newc))
                    }),
                    Err(e) => *final(self) == *old(self) && match e {
                        Error::Overflow => m.contains_key(idx) && le_value(m[idx].1.take(8))
                            < amount,
                        Error::ChunkNotLoaded(i) => i.value() == idx && !m.contains_key(idx),
                        Error::MalformedProof => false,
                    },
                }
            }),
    {
        let index = leaf_index(self.height, address, FIELD_VALUE);
        self.mutate_leaf(&index, amount, true)
    }

    /// Increment the nonce of the account at `address` by one.
    pub fn inc_nonce(&mut self, address: &U264) -> (r: Result<u64, Error>)
        requires
            old(self).wf(),
            address.value() < p2(old(self).height_spec()),
        ensures
            final(self).wf(),
            final(self).height_spec() == old(self).height_spec(),
            ({
                let idx = leaf_index_spec(old(self).height_spec(), address.value(), 3);
                let m = old(self).map_spec();
                match r {
                    Ok(v) => m.contains_key(idx) && ({
                        let cur = m[idx].1;
                        let newc = final(self).map_spec()[idx].1;
                        &&& v == le_value(cur.take(8)) + 1
                        &&& le_value(newc.take(8)) == v
                        &&& newc.skip(8) == cur.skip(8)
                        &&& final(self).map_spec() == m.insert(idx, (m[idx].0, newc))
                    }),
                    Err(e) => *final(self) == *old(self) && match e {
                        Error::Overflow => m.contains_key(idx) && le_value(m[idx].1.take(8)) + 1
                            > u64::MAX,
                        Error::ChunkNotLoaded(i) => i.value() == idx && !m.contains_key(idx),
                        Error::MalformedProof => false,
                    },
                }
            }),
    {
        let index = leaf_index(self.height, address, FIELD_NONCE);
        self.mutate_leaf(&index, 1, false)
    }
}


/// The root pair below index `i` implied by store `m`: a stored node is its
/// own root; otherwise both children must have roots, whose `pre` and
/// effective chunks are hashed pairwise.
pub open spec fn root_at(m: Map<nat, (Seq<u8>, Seq<u8>)>, i: nat) -> Option<(Seq<u8>, Seq<u8>)>
    decreases p2(264) - i,
{
    if m.contains_key(i) {
        Some(m[i])
    } else if i < 1 || i >= p2(263) {
        None
    } else {
        match (root_at(m, 2 * i), root_at(m, 2 * i + 1)) {
            (Some(l), Some(r)) => Some((hash_of(l.0 + r.0), hash_of(l.1 + r.1))),
            _ => None,
        }
    }
}

/// The sibling of a non-root index.
pub open spec fn sib_of(c: nat) -> nat {
    if c % 2 == 0 {
        c + 1
    } else {
        (c - 1) as nat
    }
}

/// A store in which every derivable parent has been derived.
pub open spec fn saturated(m: Map<nat, (Seq<u8>, Seq<u8>)>) -> bool {
    forall|c: nat|
        m.contains_key(c) && #[trigger] m.contains_key(sib_of(c)) && c >= 2 ==> m.contains_key(
            c / 2,
        )
}

/// A store that only grew consistently keeps every root: each entry of
/// `m2` is the root the smaller store `m1` already implied.
pub proof fn lemma_root_at_extend(
    m1: Map<nat, (Seq<u8>, Seq<u8>)>,
    m2: Map<nat, (Seq<u8>, Seq<u8>)>,
    i: nat,
)
    requires
        m1.dom().subset_of(m2.dom()),
        forall|k: nat| #[trigger] m2.contains_key(k) ==> root_at(m1, k) == Some(m2[k]),
    ensures
        root_at(m2, i) == root_at(m1, i),
    decreases p2(264) - i,
{
    if m2.contains_key(i) {
    } else {
        assert(!m1.contains_key(i)) by {
            if m1.contains_key(i) {
                assert(m1.dom().contains(i));
            }
        };
        if 1 <= i < p2(263) {
            lemma_root_at_extend(m1, m2, 2 * i);
            lemma_root_at_extend(m1, m2, 2 * i + 1);
        }
    }
}

/// In a saturated consistent store, every root that the original store
/// implies is present as an entry.
pub proof fn lemma_saturated_reaches(
    m1: Map<nat, (Seq<u8>, Seq<u8>)>,
    m2: Map<nat, (Seq<u8>, Seq<u8>)>,
    i: nat,
)
    requires
        m1.dom().subset_of(m2.dom()),
        forall|k: nat| #[trigger] m2.contains_key(k) ==> root_at(m1, k) == Some(m2[k]),
        saturated(m2),
        root_at(m1, i) is Some,
    ensures
        m2.contains_key(i),
    decreases p2(264) - i,
{
    if m1.contains_key(i) {
        assert(m1.dom().contains(i));
        assert(m2.dom().contains(i));
    } else {
        lemma_saturated_reaches(m1, m2, 2 * i);
        lemma_saturated_reaches(m1, m2, 2 * i + 1);
        assert(sib_of(2 * i) == 2 * i + 1);
        assert((2 * i) / 2 == i);
        assert(m2.contains_key(sib_of(2 * i)));
        assert(2 * i >= 2);
    }
}

/// In a store with no pending mutation every entry's chunks agree, so both
/// derived roots agree too.
pub proof fn lemma_roots_unmutated(m: Map<nat, (Seq<u8>, Seq<u8>)>, i: nat)
    requires
        forall|k: nat| #[trigger] m.contains_key(k) ==> m[k].0 == m[k].1,
    ensures
        root_at(m, i) matches Some(p) ==> p.0 == p.1,
    decreases p2(264) - i,
{
    if m.contains_key(i) {
    } else if 1 <= i < p2(263) {
        lemma_roots_unmutated(m, 2 * i);
        lemma_roots_unmutated(m, 2 * i + 1);
    }
}


/// Conservation on the sparse store: subtracting `k` immediately after
/// adding `k` (both successful, on the same leaf) restores the original
/// balance and leaves the store exactly as it was.
pub proof fn lemma_partial_conservation(
    m: Map<nat, (Seq<u8>, Seq<u8>)>,
    m1: Map<nat, (Seq<u8>, Seq<u8>)>,
    m2: Map<nat, (Seq<u8>, Seq<u8>)>,
    idx: nat,
    k: u64,
    v1: u64,
    v2: u64,
    c1: Seq<u8>,
    c2: Seq<u8>,
)
    requires
        m.contains_key(idx),
        m[idx].1.len() == 32,
        c1.len() == 32,
        c2.len() == 32,
        v1 == le_value(m[idx].1.take(8)) + k,
        le_value(c1.take(8)) == v1,
        c1.skip(8) == m[idx].1.skip(8),
        m1 == m.insert(idx, (m[idx].0, c1)),
        v2 + k == le_value(m1[idx].1.take(8)),
        le_value(c2.take(8)) == v2,
        c2.skip(8) == m1[idx].1.skip(8),
        m2 == m1.insert(idx, (m1[idx].0, c2)),
    ensures
        v2 == le_value(m[idx].1.take(8)),
        m2 == m,
{
    let orig = m[idx].1;
    assert(m1[idx].1 == c1);
    assert(v2 == le_value(orig.take(8)));
    crate::u264::lemma_le_value_inj(c2.take(8), orig.take(8));
    assert(c2 =~= c2.take(8) + c2.skip(8));
    assert(orig =~= orig.take(8) + orig.skip(8));
    assert(c2 == orig);
    assert(m2 =~= m);
}


/// One successful `inc_nonce` step on the sparse store, from `m` to `m2`
/// returning `r`: the nonce leaf at `idx` went up by one and nothing else
/// moved.
pub open spec fn partial_inc_step(
    m: Map<nat, (Seq<u8>, Seq<u8>)>,
    m2: Map<nat, (Seq<u8>, Seq<u8>)>,
    idx: nat,
    r: u64,
) -> bool {
    &&& m.contains_key(idx)
    &&& r == le_value(m[idx].1.take(8)) + 1
    &&& m2.contains_key(idx)
    &&& le_value(m2[idx].1.take(8)) == r
    &&& m2 == m.insert(idx, (m[idx].0, m2[idx].1))
}

/// Monotonic nonce on the sparse store: a chain of `n` successful
/// increments returns, last, the initial nonce plus `n`.
pub proof fn lemma_partial_inc_accumulates(
    maps: Seq<Map<nat, (Seq<u8>, Seq<u8>)>>,
    results: Seq<u64>,
    idx: nat,
)
    requires
        results.len() >= 1,
        maps.len() == results.len() + 1,
        forall|i: int|
            0 <= i < results.len() ==> #[trigger] partial_inc_step(maps[i], maps[i + 1], idx,
                results[i]),
    ensures
        maps[0].contains_key(idx),
        results.last() == le_value(maps[0][idx].1.take(8)) + results.len(),
    decreases results.len(),
{
    if results.len() == 1 {
        let z: int = 0;
        assert(partial_inc_step(maps[z], maps[z + 1], idx, results[z]));
    } else {
        let n = results.len() as int;
        assert forall|i: int| 0 <= i < n - 1 implies #[trigger] partial_inc_step(
            maps.take(n)[i],
            maps.take(n)[i + 1],
            idx,
            results.take(n - 1)[i],
        ) by {
            assert(partial_inc_step(maps[i], maps[i + 1], idx, results[i]));
            assert(maps.take(n)[i] == maps[i]);
            assert(maps.take(n)[i + 1] == maps[i + 1]);
            assert(results.take(n - 1)[i] == results[i]);
        }
        lemma_partial_inc_accumulates(maps.take(n), results.take(n - 1), idx);
        assert(maps.take(n)[0] == maps[0]);
        assert(results.take(n - 1).last() == results[n - 2]);
        let m = n - 2;
        assert(partial_inc_step(maps[m], maps[m + 1], idx, results[m]));
        assert(partial_inc_step(maps[m + 1], maps[m + 1 + 1], idx, results[m + 1]));
        assert(results[m + 1] == results[n - 1]);
    }
}

impl PartialBackend {
    /// Derives the `(root_pre, root_post)` pair in one bottom-up pass.
    ///
    /// Every index in the store seeds a work list; whenever an index and
    /// its sibling are known and their parent is not, the parent is
    /// derived, stored, and appended, until the list is exhausted.  The
    /// pair is then read off index one; a proof slice that does not
    /// connect to the root fails instead.
    #[verifier::loop_isolation(false)]
    #[verifier::rlimit(60)]
    pub fn roots(&mut self) -> (r: Result<(H256, H256), Error>)
        requires
            old(self).wf(),
        ensures
            final(self).wf(),
            final(self).height_spec() == old(self).height_spec(),
            root_at(final(self).map_spec(), 1) == root_at(old(self).map_spec(), 1),
            match r {
                Ok(p) => root_at(old(self).map_spec(), 1) == Some((p.0@, p.1@)),
                Err(e) => root_at(old(self).map_spec(), 1) is None && (e matches
                    Error::ChunkNotLoaded(i) && i.value() == 1),
            },
    {
        let ghost m0 = self.map_spec();
        let mut wl: Vec<U264> = Vec::new();
        let n0 = self.nodes.len();
        let mut t: usize = 0;
        while t < n0
            invariant
                t <= n0,
                n0 == self.nodes@.len(),
                wl@.len() == t,
                forall|j: int| 0 <= j < t ==> (#[trigger] wl@[j]).value()
                    == self.nodes@[j].index.value(),
            decreases n0 - t,
        {
            wl.push(self.nodes[t].index.clone());
            t = t + 1;
        }
        proof {
            assert forall|j: int| 0 <= j < wl@.len() implies self.map_spec().contains_key(
                (#[trigger] wl@[j]).value(),
            ) by {
                lemma_pmap_lookup(self.nodes@, j);
            }
            assert forall|c: nat|
                self.map_spec().contains_key(c) && #[trigger] self.map_spec().contains_key(
                    sib_of(c),
                ) && c >= 2 && !self.map_spec().contains_key(c / 2) implies exists|j: int|
                0 <= j < wl@.len() && ((#[trigger] wl@[j]).value() == c || wl@[j].value() == sib_of(
                    c,
                )) by {
                lemma_pmap_contains(self.nodes@, c);
                let i = choose|i: int|
                    0 <= i < self.nodes@.len() && (#[trigger] self.nodes@[i]).index.value() == c;
                assert(wl@[i].value() == c);
            }
        }
        let mut k: usize = 0;
        while k < wl.len()
            invariant
                self.wf(),
                self.height_spec() == old(self).height_spec(),
                k <= wl@.len(),
                m0.dom().subset_of(self.map_spec().dom()),
                forall|q: nat| #[trigger] self.map_spec().contains_key(q) ==> root_at(m0, q)
                    == Some(self.map_spec()[q]),
                forall|j: int| 0 <= j < wl@.len() ==> self.map_spec().contains_key(
                    (#[trigger] wl@[j]).value(),
                ),
                forall|c: nat|
                    self.map_spec().contains_key(c) && #[trigger] self.map_spec().contains_key(
                        sib_of(c),
                    ) && c >= 2 && !self.map_spec().contains_key(c / 2) ==> exists|j: int|
                        k <= j < wl@.len() && ((#[trigger] wl@[j]).value() == c
                            || wl@[j].value() == sib_of(c)),
            decreases wl@.len() - k + 2 * (usize::MAX - self.map_len()),
        {
            let ghost pre_map = self.map_spec();
            let ghost pre_wl = wl@;
            let ghost pre_ml = self.map_len();
            proof {
                vstd::std_specs::vec::axiom_spec_len(&self.nodes);
            }
            let c = wl[k].clone();
            proof {
                use_type_invariant(&c);
                lemma_le_value_bound(c@);
                assert(p2(264) == 2 * p2(263));
            }
            let (q, codd) = c.divmod2();
            let mut derived: bool = false;
            if !q.is_zero() {
                proof {
                    assert(c.value() >= 2);
                    assert(q.value() < p2(263)) by (nonlinear_arith)
                        requires
                            q.value() == c.value() / 2,
                            c.value() < 2 * p2(263),
                            c.value() == 2 * (c.value() / 2) + c.value() % 2,
                            c.value() % 2 < 2;
                    assert(2 * q.value() + 1 < p2(264));
                }
                let sibbit: u64 = if codd {
                    0
                } else {
                    1
                };
                let sib = q.double().add(&U264::from_u64(sibbit));
                proof {
                    assert(c.value() == 2 * q.value() + (if codd { 1nat } else { 0nat }));
                    assert(sib.value() == sib_of(c.value()));
                    assert(sib_of(sib.value()) == c.value());
                }
                match self.find(&sib) {
                    Some(si) => {
                        let already = match self.find(&q) {
                            Some(_) => true,
                            None => false,
                        };
                        if !already {
                            let ci = match self.find(&c) {
                                Some(ci) => ci,
                                None => {
                                    proof {
                                        assert(pre_wl[k as int].value() == c.value());
                                        assert(false);
                                    }
                                    return Err(Error::ChunkNotLoaded(c));
                                },
                            };
                            let cpre = self.nodes[ci].pre;
                            let ceff = match self.nodes[ci].post {
                                Some(p) => p,
                                None => self.nodes[ci].pre,
                            };
                            let spre = self.nodes[si].pre;
                            let seff = match self.nodes[si].post {
                                Some(p) => p,
                                None => self.nodes[si].pre,
                            };
                            let (lpre, leff, rpre, reff) = if codd {
                                (spre, seff, cpre, ceff)
                            } else {
                                (cpre, ceff, spre, seff)
                            };
                            let hpre = hash_pair(&lpre, &rpre);
                            let heff = hash_pair(&leff, &reff);
                            let q2 = q.clone();
                            proof {
                                let qv = q.value();
                                assert(!m0.contains_key(qv)) by {
                                    if m0.contains_key(qv) {
                                        assert(m0.dom().contains(qv));
                                    }
                                };
                                assert(root_at(m0, 2 * qv) == Some(pre_map[2 * qv]));
                                assert(root_at(m0, 2 * qv + 1) == Some(pre_map[2 * qv + 1]));
                                if codd {
                                    assert(pre_map[2 * qv] == (spre@, seff@));
                                    assert(pre_map[2 * qv + 1] == (cpre@, ceff@));
                                } else {
                                    assert(pre_map[2 * qv] == (cpre@, ceff@));
                                    assert(pre_map[2 * qv + 1] == (spre@, seff@));
                                }
                                assert(root_at(m0, qv) == Some((hpre@, heff@)));
                            }
                            self.insert_derived(q2, hpre, heff);
                            wl.push(q);
                            derived = true;
                            proof {
                                let qv = wl@[wl@.len() - 1].value();
                                assert(self.map_spec() == pre_map.insert(qv, (hpre@, heff@)));
                            }
                        }
                    },
                    None => {},
                }
            }
            k = k + 1;
            proof {
                vstd::std_specs::vec::axiom_spec_len(&self.nodes);
                assert(self.map_len() <= usize::MAX);
                assert(pre_ml <= usize::MAX);
                if derived {
                    assert(self.map_len() == pre_ml + 1);
                    assert(wl@.len() == pre_wl.len() + 1);
                } else {
                    assert(self.map_len() == pre_ml);
                    assert(wl@ == pre_wl);
                }
                let mnew = self.map_spec();
                assert forall|c2: nat|
                    mnew.contains_key(c2) && #[trigger] mnew.contains_key(sib_of(c2)) && c2 >= 2
                        && !mnew.contains_key(c2 / 2) implies exists|j: int|
                    k <= j < wl@.len() && ((#[trigger] wl@[j]).value() == c2 || wl@[j].value()
                        == sib_of(c2)) by {
                    assert(sib_of(sib_of(c2)) == c2);
                    if derived {
                        let qv = pre_wl[k - 1].value() / 2;
                        if c2 == qv || sib_of(c2) == qv {
                            assert(wl@[wl@.len() - 1].value() == qv);
                        } else {
                            assert(pre_map.contains_key(c2) && pre_map.contains_key(sib_of(c2)));
                            assert(!pre_map.contains_key(c2 / 2)) by {
                                if pre_map.contains_key(c2 / 2) {
                                    assert(mnew.contains_key(c2 / 2));
                                }
                            };
                            let j = choose|j: int|
                                k - 1 <= j < pre_wl.len() && ((#[trigger] pre_wl[j]).value() == c2
                                    || pre_wl[j].value() == sib_of(c2));
                            if j == k - 1 {
                                let cv = pre_wl[k - 1].value();
                                assert(cv == c2 || cv == sib_of(c2));
                                assert(cv >= 2);
                                assert(cv / 2 == c2 / 2) by {
                                    if cv == sib_of(c2) {
                                        assert(sib_of(c2) / 2 == c2 / 2) by (nonlinear_arith)
                                            requires c2 >= 2, sib_of(c2) == (if c2 % 2 == 0 { c2 + 1 } else { (c2 - 1) as nat }), c2 == 2 * (c2 / 2) + c2 % 2, c2 % 2 < 2, sib_of(c2) == 2 * (sib_of(c2) / 2) + sib_of(c2) % 2, sib_of(c2) % 2 < 2;
                                    }
                                };
                                assert(mnew.contains_key(c2 / 2));
                                assert(false);
                            } else {
                                assert(wl@[j].value() == pre_wl[j].value());
                            }
                        }
                    } else {
                        assert(mnew == pre_map);
                        let j = choose|j: int|
                            k - 1 <= j < pre_wl.len() && ((#[trigger] pre_wl[j]).value() == c2
                                || pre_wl[j].value() == sib_of(c2));
                        if j == k - 1 {
                            let cv = pre_wl[k - 1].value();
                            assert(cv == c2 || cv == sib_of(c2));
                            assert(cv >= 2);
                            if cv == c.value() {
                                if c.value() < 2 {
                                    assert(false);
                                } else {
                                    let qv = c.value() / 2;
                                    assert(cv / 2 == c2 / 2) by (nonlinear_arith)
                                        requires (cv == c2 || (cv == sib_of(c2) && sib_of(c2) == (if c2 % 2 == 0 { c2 + 1 } else { (c2 - 1) as nat }))), c2 >= 2, cv >= 2, c2 == 2 * (c2 / 2) + c2 % 2, c2 % 2 < 2, cv == 2 * (cv / 2) + cv % 2, cv % 2 < 2;
                                    if self.map_spec().contains_key(qv) {
                                        assert(false);
                                    } else {
                                        assert(self.map_spec().contains_key(sib_of(c.value())));
                                        assert(false);
                                    }
                                }
                            }
                            assert(false);
                        } else {
                            assert(wl@[j].value() == pre_wl[j].value());
                        }
                    }
                }
            }
        }
        proof {
            assert(saturated(self.map_spec()));
        }
        let one = U264::from_u64(1);
        match self.find(&one) {
            Some(i) => {
                let pre = self.nodes[i].pre;
                let eff = match self.nodes[i].post {
                    Some(p) => p,
                    None => self.nodes[i].pre,
                };
                proof {
                    lemma_root_at_extend(m0, self.map_spec(), 1);
                }
                Ok((pre, eff))
            },
            None => {
                proof {
                    if root_at(m0, 1) is Some {
                        lemma_saturated_reaches(m0, self.map_spec(), 1);
                        assert(false);
                    }
                    lemma_root_at_extend(m0, self.map_spec(), 1);
                }
                Err(Error::ChunkNotLoaded(one))
            },
        }
    }
}

} // verus!
