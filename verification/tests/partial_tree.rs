use smt_state::codec::{decode, encode};
use smt_state::hashing::{hash_pair, zero_hash};
use smt_state::index::leaf_index;
use smt_state::{Error, H256, PartialBackend, U264};

fn idx(v: u64) -> U264 {
    U264::from_u64(v)
}

fn proof_blob(entries: &[(u64, H256)]) -> Vec<u8> {
    let v: Vec<(U264, H256)> = entries.iter().map(|(i, c)| (idx(*i), *c)).collect();
    encode(&v)
}

#[test]
fn zero_hash_matches_known_digest() {
    // the depth-1 zero hash is the SHA-256 digest of two depth-0 chunks
    let expected: [u8; 32] = [
        86, 216, 166, 111, 186, 224, 48, 14, 251, 167, 236, 44, 83, 25, 115, 170, 174, 34, 231,
        162, 237, 109, 237, 8, 27, 91, 50, 208, 122, 50, 120, 10,
    ];
    assert_eq!(zero_hash(1).as_bytes(), &expected);
    assert_ne!(zero_hash(1).as_bytes(), zero_hash(0).as_bytes());
    assert_eq!(
        hash_pair(&zero_hash(0), &zero_hash(0)).as_bytes(),
        zero_hash(1).as_bytes()
    );
}

#[test]
fn codec_round_trip() {
    let entries: Vec<(U264, H256)> = vec![
        (idx(8), zero_hash(0)),
        (idx(9), H256::from_u8(7)),
        (idx(3), zero_hash(2)),
    ];
    let blob = encode(&entries);
    assert_eq!(blob.len(), 4 + 65 * 3);
    let back = decode(&blob).unwrap();
    assert_eq!(back, entries);
}

#[test]
fn decode_rejects_short_buffer() {
    assert_eq!(decode(&[1, 2, 3]), Err(Error::MalformedProof));
    // declares two entries but carries none
    let blob = vec![2u8, 0, 0, 0];
    assert_eq!(decode(&blob), Err(Error::MalformedProof));
}

#[test]
fn load_rejects_duplicate_index() {
    let blob = proof_blob(&[(8, zero_hash(0)), (8, zero_hash(0))]);
    let mut b = PartialBackend::new(1);
    assert_eq!(b.load(&blob), Err(Error::MalformedProof));
}

#[test]
fn roots_full_tree_of_height_one() {
    // a full balanced account tree: 8 leaves, all the depth-0 zero chunk
    let entries: Vec<(u64, H256)> = (8..16).map(|i| (i, zero_hash(0))).collect();
    let blob = proof_blob(&entries);
    let mut b = PartialBackend::new(1);
    b.load(&blob).unwrap();
    let (pre, post) = b.roots().unwrap();
    assert_eq!(pre, zero_hash(3));
    assert_eq!(post, zero_hash(3));
}

#[test]
fn roots_partial_tree() {
    // indices [4, 10, 11, 3] with zero-subtree chunks still give zh(3)
    let blob = proof_blob(&[
        (4, zero_hash(1)),
        (10, zero_hash(0)),
        (11, zero_hash(0)),
        (3, zero_hash(2)),
    ]);
    let mut b = PartialBackend::new(1);
    b.load(&blob).unwrap();
    let (pre, post) = b.roots().unwrap();
    assert_eq!(pre, zero_hash(3));
    assert_eq!(post, zero_hash(3));
}

#[test]
fn roots_deterministic_and_equal_when_unmutated() {
    let entries: Vec<(u64, H256)> = (8..16).map(|i| (i, zero_hash(0))).collect();
    let blob = proof_blob(&entries);
    let mut b = PartialBackend::new(1);
    b.load(&blob).unwrap();
    let first = b.roots().unwrap();
    let second = b.roots().unwrap();
    assert_eq!(first, second);
    assert_eq!(first.0, first.1);
}

#[test]
fn roots_disconnected_proof_fails() {
    // two deep leaves with no path to the root
    let blob = proof_blob(&[(8, zero_hash(0)), (9, zero_hash(0))]);
    let mut b = PartialBackend::new(1);
    b.load(&blob).unwrap();
    match b.roots() {
        Err(Error::ChunkNotLoaded(_)) => {}
        other => panic!("expected ChunkNotLoaded, got {:?}", other),
    }
}

#[test]
fn mutation_moves_post_root_only() {
    // account 0 at height 1: a full proof of its leaf group and the
    // sibling subtree
    let entries: Vec<(u64, H256)> = vec![
        (16, H256::from_u8(0)),
        (17, H256::from_u8(0)),
        (9, zero_hash(0)),
        (20, H256::from_u8(1)),
        (21, H256::from_u8(0)),
        (22, H256::from_u8(1)),
        (23, H256::from_u8(0)),
        (3, zero_hash(2)),
    ];
    let blob = proof_blob(&entries);
    let mut b = PartialBackend::new(1);
    b.load(&blob).unwrap();
    assert_eq!(b.add_value(&idx(0), 1), Ok(2));
    let (pre, post) = b.roots().unwrap();
    assert_ne!(pre, post);
}

#[test]
fn partial_value_and_nonce_accounting() {
    let entries: Vec<(u64, H256)> = vec![
        (20, H256::from_u8(9)),
        (22, H256::from_u8(4)),
    ];
    let blob = proof_blob(&entries);
    let mut b = PartialBackend::new(1);
    b.load(&blob).unwrap();
    assert_eq!(b.add_value(&idx(0), 1), Ok(10));
    assert_eq!(b.sub_value(&idx(0), 3), Ok(7));
    assert_eq!(b.sub_value(&idx(0), 8), Err(Error::Overflow));
    assert_eq!(b.inc_nonce(&idx(0)), Ok(5));
    assert_eq!(b.inc_nonce(&idx(0)), Ok(6));
    // the value leaf's post chunk carries little-endian 7
    let got = b.get(&idx(20)).unwrap();
    assert_eq!(got.as_bytes()[0..8], 7u64.to_le_bytes());
    // untouched proof chunk is still there
    assert_eq!(b.get_pre(&idx(20)).unwrap(), H256::from_u8(9));
}

#[test]
fn partial_overflow_leaves_store_unchanged() {
    let mut max_chunk = [0u8; 32];
    max_chunk[0..8].copy_from_slice(&u64::MAX.to_le_bytes());
    let blob = proof_blob(&[(20, H256::new(max_chunk))]);
    let mut b = PartialBackend::new(1);
    b.load(&blob).unwrap();
    assert_eq!(b.add_value(&idx(0), 1), Err(Error::Overflow));
    assert_eq!(b.get(&idx(20)).unwrap(), H256::new(max_chunk));
}

#[test]
fn missing_leaf_is_reported_not_assumed_zero() {
    let blob = proof_blob(&[(22, H256::from_u8(1))]);
    let mut b = PartialBackend::new(1);
    b.load(&blob).unwrap();
    match b.add_value(&idx(0), 1) {
        Err(Error::ChunkNotLoaded(_)) => {}
        other => panic!("expected ChunkNotLoaded, got {:?}", other),
    }
}

#[test]
fn leaf_indices_are_distinct() {
    let a0 = idx(0);
    let a1 = idx(1);
    let value0 = leaf_index(1, &a0, 2);
    let value1 = leaf_index(1, &a1, 2);
    let nonce0 = leaf_index(1, &a0, 3);
    assert!(!value0.eq_value(&value1));
    assert!(!value0.eq_value(&nonce0));
    // account 0 at height 1: balance leaf sits at index 20, nonce at 22
    assert!(value0.eq_value(&idx(20)));
    assert!(nonce0.eq_value(&idx(22)));
}

#[test]
fn set_post_requires_loaded_index() {
    let mut b = PartialBackend::new(1);
    match b.set_post(&idx(20), H256::from_u8(1)) {
        Err(Error::ChunkNotLoaded(_)) => {}
        other => panic!("expected ChunkNotLoaded, got {:?}", other),
    }
}
