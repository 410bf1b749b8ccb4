//! The index mapper: where an account field lives in the tree.
//!
//! For a tree of height `H` the account's leaf-group root is `2^H + address`.
//! The group holds four sibling slots (two public-key chunks, the balance,
//! the nonce), and each slot is shifted one further level down to its value
//! sub-level.  The mapping is injective over all valid `(address, field)`
//! pairs.

use vstd::prelude::*;

verus! {

use crate::u264::{U264, p2, lemma_p2_adds, lemma_p2_le, lemma_p2_pos, lemma_p2_256};

/// Field slots within an account's leaf group.
pub const FIELD_PUBKEY_LO: u64 = 0;

pub const FIELD_PUBKEY_HI: u64 = 1;

pub const FIELD_VALUE: u64 = 2;

pub const FIELD_NONCE: u64 = 3;

/// The tree index of an account field's leaf:
/// `((2^height + address) * 4 + field) * 2`.
pub open spec fn leaf_index_spec(height: nat, address: nat, field: nat) -> nat {
    ((p2(height) + address) * 4 + field) * 2
}

/// Maps an `(address, field)` pair to the index of the leaf that holds the
/// field.  Callers must have rejected out-of-range addresses already.
pub fn leaf_index(height: usize, address: &U264, field: u64) -> (r: U264)
    requires
        height <= 256,
        address.value() < p2(height as nat),
        field < 4,
    ensures
        r.value() == leaf_index_spec(height as nat, address.value(), field as nat),
{
    let ghost h = height as nat;
    proof {
        lemma_p2_pos(h);
        lemma_p2_le(h, 256);
        lemma_p2_le(257, 264);
        lemma_p2_le(259, 264);
        lemma_p2_le(261, 264);
        lemma_p2_adds(256, 1);
        lemma_p2_adds(257, 2);
        lemma_p2_adds(259, 1);
        lemma_p2_256();
        assert(p2(2) == 4) by {
            reveal_with_fuel(p2, 3);
        };
    }
    let one = U264::from_u64(1);
    proof {
        assert(1 * p2(h) == p2(h)) by (nonlinear_arith);
        assert(p2(h) < p2(257)) by {
            assert(p2(h) <= p2(256));
            assert(p2(256) < p2(256) * 2) by (nonlinear_arith)
                requires p2(256) >= 1;
        };
    }
    let acct = one.shl(height).add(address);
    proof {
        assert(acct.value() + acct.value() < p2(257) + p2(257));
        assert(acct.value() * p2(2) < p2(257) * p2(2)) by (nonlinear_arith)
            requires acct.value() < p2(257), p2(2) == 4;
    }
    let slot = acct.shl(2).add(&U264::from_u64(field));
    proof {
        assert(slot.value() < p2(259) + 4);
        assert(p2(259) >= 4) by {
            lemma_p2_le(2, 259);
        };
        assert(slot.value() * p2(1) < p2(259) * 4) by (nonlinear_arith)
            requires slot.value() < p2(259) + 4, p2(259) >= 4, p2(1) == 2;
        assert(p2(259) * 4 == p2(259) * p2(2));
        assert(p2(259) * p2(2) == p2(261)) by {
            lemma_p2_adds(259, 2);
        };
    }
    let idx = slot.shl(1);
    proof {
        assert(idx.value() == (slot.value()) * p2(1));
        assert(slot.value() * p2(1) == slot.value() * 2) by (nonlinear_arith)
            requires p2(1) == 2;
    }
    idx
}

/// Injectivity of the index mapping: for a fixed height, two valid
/// `(address, field)` pairs that map to the same leaf index are the same
/// pair.
pub proof fn lemma_leaf_index_injective(height: nat, a1: nat, f1: nat, a2: nat, f2: nat)
    requires
        a1 < p2(height),
        a2 < p2(height),
        f1 < 4,
        f2 < 4,
        leaf_index_spec(height, a1, f1) == leaf_index_spec(height, a2, f2),
    ensures
        a1 == a2,
        f1 == f2,
{
    let y1 = p2(height) + a1;
    let y2 = p2(height) + a2;
    assert((y1 * 4 + f1) * 2 == (y2 * 4 + f2) * 2);
    assert(y1 * 4 + f1 == y2 * 4 + f2);
    assert(y1 == y2 && f1 == f2) by (nonlinear_arith)
        requires
            y1 * 4 + f1 == y2 * 4 + f2,
            f1 < 4,
            f2 < 4;
}

} // verus!
