use smt_state::flat::helper;
use smt_state::{Backend, Error, H256, InMemoryBackend, U264};

fn zh(depth: usize) -> H256 {
    smt_state::hashing::zero_hash(depth)
}

fn le64(x: u64) -> Vec<u8> {
    x.to_le_bytes().to_vec()
}

fn build_proof() -> (Vec<u8>, Vec<u8>) {
    // indexes = [16, 17, 9, 10, 11, 3]
    let offsets: Vec<u8> = vec![5u64, 3, 2, 1, 1].iter().fold(vec![], |mut acc, x| {
        acc.extend(&x.to_le_bytes());
        acc
    });

    let proof: Vec<u8> = vec![
        H256::from_u8(0),
        H256::from_u8(0),
        zh(0),
        H256::from_u8(1),
        H256::from_u8(1),
        zh(0),
    ]
    .iter()
    .fold(vec![], |mut acc, x| {
        acc.extend(x.as_bytes());
        acc
    });

    (offsets, proof)
}

fn idx(v: u64) -> U264 {
    U264::from_u64(v)
}

#[test]
fn lookup_small_branch() {
    // indexes = [4, 10, 11, 3]
    let offsets: Vec<u8> = vec![3u64, 1, 1].iter().fold(vec![], |mut acc, x| {
        acc.extend(&x.to_le_bytes());
        acc
    });

    let mem = InMemoryBackend::new(offsets, vec![], 1);

    assert_eq!(mem.lookup(&idx(10 << 1)).unwrap(), 1);
    assert_eq!(mem.lookup(&idx(11 << 1)).unwrap(), 2);
    assert_eq!(mem.lookup(&idx(4 << 2)).unwrap(), 0);
    assert_eq!(mem.lookup(&idx(3 << 3)).unwrap(), 3);
}

#[test]
fn lookup_single_account() {
    let (offsets, proof) = build_proof();
    let mem = InMemoryBackend::new(offsets, proof, 1);

    assert_eq!(mem.lookup(&idx(9 << 1)).unwrap(), 2);
    assert_eq!(mem.lookup(&idx(10 << 1)).unwrap(), 3);
    assert_eq!(mem.lookup(&idx(11 << 1)).unwrap(), 4);
    assert_eq!(mem.lookup(&idx(16)).unwrap(), 0);
    assert_eq!(mem.lookup(&idx(17)).unwrap(), 1);
}

#[test]
fn lookup_full_tree() {
    // indexes = [8, 9, 10, 11, 12, 13, 14, 15]
    let offsets: Vec<u8> = vec![4u64, 2, 1, 1, 2, 1, 1].iter().fold(vec![], |mut acc, x| {
        acc.extend(&x.to_le_bytes());
        acc
    });

    let mem = InMemoryBackend::new(offsets, vec![], 1);

    for i in 0..7u64 {
        assert_eq!(mem.lookup(&idx((i + 8) << 1)).unwrap(), i as usize);
    }
}

#[test]
fn add_value() {
    let (offsets, proof) = build_proof();
    let mut mem = InMemoryBackend::new(offsets, proof, 1);

    assert_eq!(mem.add_value(&idx(0), 1), Ok(2));
    assert_eq!(mem.get(&idx(10 << 1)).unwrap(), H256::from_u8(2));
}

#[test]
fn sub_value() {
    let (offsets, proof) = build_proof();
    let mut mem = InMemoryBackend::new(offsets, proof, 1);

    assert_eq!(mem.sub_value(&idx(0), 1), Ok(0));
    assert_eq!(mem.get(&idx(10 << 1)).unwrap(), H256::from_u8(0));
}

#[test]
fn inc_nonce() {
    let (offsets, proof) = build_proof();
    let mut mem = InMemoryBackend::new(offsets, proof, 1);

    assert_eq!(mem.inc_nonce(&idx(0)), Ok(2));
    assert_eq!(mem.get(&idx(11 << 1)).unwrap(), H256::from_u8(2));
}

#[test]
fn root_simple_branch() {
    // indexes = [4, 10, 11, 3]
    let offsets: Vec<u64> = vec![3, 1, 1];

    let proof: Vec<u8> = vec![zh(1), zh(0), zh(0), zh(2)].iter().fold(vec![], |mut acc, x| {
        acc.extend(x.as_bytes());
        acc
    });

    assert_eq!(helper(&proof, &offsets, 0), Ok(zh(3)))
}

#[test]
fn root_full_tree() {
    // indexes = [8, 9, 10, 11, 12, 13, 14, 15]
    let offsets: Vec<u64> = vec![4, 2, 1, 1, 2, 1, 1];
    let proof: Vec<u8> = vec![zh(0), zh(0), zh(0), zh(0), zh(0), zh(0), zh(0), zh(0)]
        .iter()
        .fold(vec![], |mut acc, x| {
            acc.extend(x.as_bytes());
            acc
        });

    assert_eq!(helper(&proof, &offsets, 0), Ok(zh(3)))
}

#[test]
fn root_large_branch() {
    // indexes = [2, 6, 7168, 7169, 3585, 1793, 897, 449, 225, 113, 57, 29, 15]
    let offsets: Vec<u64> = vec![1, 1, 10, 9, 8, 7, 6, 5, 4, 3, 2, 1];
    let proof: Vec<u8> = vec![
        zh(11),
        zh(10),
        zh(0),
        zh(0),
        zh(1),
        zh(2),
        zh(3),
        zh(4),
        zh(5),
        zh(6),
        zh(7),
        zh(8),
        zh(9),
    ]
    .iter()
    .fold(vec![], |mut acc, x| {
        acc.extend(x.as_bytes());
        acc
    });

    assert_eq!(helper(&proof, &offsets, 0), Ok(zh(12)))
}

#[test]
fn root_after_mutation_via_backend() {
    let (offsets, proof) = build_proof();
    let mut mem = InMemoryBackend::new(offsets, proof, 1);
    let before = mem.root().unwrap();
    mem.add_value(&idx(0), 5).unwrap();
    let after = mem.root().unwrap();
    assert_ne!(before, after);
}

#[test]
fn flat_add_overflow_guard() {
    // indexes = [16, 17, 9, 10, 11, 3]; balance leaf holds u64::MAX
    let offsets: Vec<u8> = vec![5u64, 3, 2, 1, 1].iter().fold(vec![], |mut acc, x| {
        acc.extend(&x.to_le_bytes());
        acc
    });
    let mut max_chunk = [0u8; 32];
    max_chunk[0..8].copy_from_slice(&le64(u64::MAX));
    let proof: Vec<u8> = vec![
        H256::from_u8(0),
        H256::from_u8(0),
        zh(0),
        H256::new(max_chunk),
        H256::from_u8(1),
        zh(0),
    ]
    .iter()
    .fold(vec![], |mut acc, x| {
        acc.extend(x.as_bytes());
        acc
    });
    let mut mem = InMemoryBackend::new(offsets, proof, 1);
    let root_before = mem.root().unwrap();
    assert_eq!(mem.add_value(&idx(0), 1), Err(Error::Overflow));
    assert_eq!(mem.get(&idx(10 << 1)).unwrap(), H256::new(max_chunk));
    assert_eq!(mem.root().unwrap(), root_before);
}

#[test]
fn flat_conservation_and_nonce_chain() {
    let (offsets, proof) = build_proof();
    let mut mem = InMemoryBackend::new(offsets, proof, 1);
    let original = mem.get(&idx(10 << 1)).unwrap();
    assert_eq!(mem.add_value(&idx(0), 41), Ok(42));
    assert_eq!(mem.sub_value(&idx(0), 41), Ok(1));
    assert_eq!(mem.get(&idx(10 << 1)).unwrap(), original);

    // nonce starts at 1; five increments return 2..=6
    for expect in 2..=6u64 {
        assert_eq!(mem.inc_nonce(&idx(0)), Ok(expect));
    }
}

#[test]
fn offsets_table_round_trip() {
    // the structural format's navigation table: encode then read back
    let table: Vec<u64> = vec![5, 3, 2, 1, 1];
    let bytes = smt_state::flat::encode_offsets(&table);
    let manual: Vec<u8> = table.iter().fold(vec![], |mut acc, x| {
        acc.extend(&x.to_le_bytes());
        acc
    });
    assert_eq!(bytes, manual);
}

#[test]
fn backend_trait_round() {
    // the same operations through the trait interface
    let (offsets, proof) = build_proof();
    let mut mem = <InMemoryBackend as Backend>::new(offsets, proof, 1);
    assert_eq!(Backend::add_value(&mut mem, &idx(0), 1), Ok(2));
    assert_eq!(Backend::inc_nonce(&mut mem, &idx(0)), Ok(2));
    assert!(Backend::root(&mut mem).is_ok());
}

#[test]
fn lookup_missing_table_entry() {
    // a one-bit walk that needs a table entry past the end fails
    let mem = InMemoryBackend::new(vec![], vec![], 1);
    match mem.lookup(&idx(10 << 1)) {
        Err(Error::ChunkNotLoaded(_)) => {}
        other => panic!("expected ChunkNotLoaded, got {:?}", other),
    }
}
