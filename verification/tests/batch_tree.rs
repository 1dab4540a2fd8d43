use qlsa_stark_stwo::batch_tree::{
    batch_leaf_hash, build_batch_tree, bytes_to_m31_words, node_words, verify_batch_membership,
    TreeError,
};
use qlsa_stark_stwo::constraint::P;
use blake2::{Blake2s256, Digest};
use qlsa_stark_stwo::node_hash::NodeHash;

type Hash = NodeHash<
    fn(Vec<u32>) -> [u8; 32],
    fn([u8; 32], [u8; 32]) -> [u8; 32],
    fn([u8; 32]) -> [u64; 4],
>;

/// A node with four words of a digest, each reduced to a field element.
fn node_of(data: &[u8]) -> [u8; 32] {
    let digest: [u8; 32] = Blake2s256::digest(data).into();
    let mut node = [0u8; 32];
    for k in 0..4 {
        let at = 4 * k;
        let word = [digest[at], digest[at + 1], digest[at + 2], digest[at + 3]];
        let reduced = u32::from_le_bytes(word) % P;
        node[16 + at..20 + at].copy_from_slice(&reduced.to_le_bytes());
    }
    node
}

fn leaf(words: Vec<u32>) -> [u8; 32] {
    let mut data = vec![0u8];
    for w in words {
        data.extend_from_slice(&w.to_le_bytes());
    }
    node_of(&data)
}

fn pair(left: [u8; 32], right: [u8; 32]) -> [u8; 32] {
    let mut data = vec![1u8];
    data.extend_from_slice(&left[16..]);
    data.extend_from_slice(&right[16..]);
    node_of(&data)
}

fn words(node: [u8; 32]) -> [u64; 4] {
    std::array::from_fn(|k| {
        let at = 16 + 4 * k;
        u32::from_le_bytes([node[at], node[at + 1], node[at + 2], node[at + 3]]) as u64
    })
}

/// A hash for the tests.
fn hash() -> Hash {
    NodeHash { leaf, pair, words }
}

#[test]
fn the_packing_is_injective_over_a_trailing_zero() {
    // The collision the length word exists to prevent.
    let a = bytes_to_m31_words(&[1, 2, 3]).unwrap();
    let b = bytes_to_m31_words(&[1, 2, 3, 0]).unwrap();
    assert_ne!(a, b, "a trailing zero byte must change the packing");
    assert_ne!(batch_leaf_hash(&[1, 2, 3], &hash()).unwrap(), batch_leaf_hash(&[1, 2, 3, 0], &hash()).unwrap());
}

#[test]
fn every_packed_word_is_already_a_field_element() {
    // 3 bytes < 2^24 < P, so no reduction runs and none can collide.
    let data: Vec<u8> = (0..=255u8).collect();
    for w in bytes_to_m31_words(&data).unwrap() {
        assert!(w < P, "word {w} is not reduced");
    }
}

#[test]
fn distinct_byte_strings_pack_distinctly() {
    let mut seen = std::collections::HashSet::new();
    // From len 1: at length 0 every seed makes the same empty string, so a
    // "collision" there would be one of the test data, not of the packing.
    for len in 1..40usize {
        for seed in 0..8u8 {
            let data: Vec<u8> = (0..len).map(|i| (i as u8).wrapping_mul(31).wrapping_add(seed)).collect();
            assert!(seen.insert(bytes_to_m31_words(&data).unwrap()),
                    "collision at len {len} seed {seed}");
        }
    }
}

#[test]
fn an_empty_leaf_is_not_a_zero_leaf() {
    assert_ne!(batch_leaf_hash(&[], &hash()).unwrap(), batch_leaf_hash(&[0], &hash()).unwrap());
}

#[test]
fn every_leaf_of_a_tree_proves_its_membership() {
    for n in [1usize, 2, 3, 5, 8, 17] {
        let leaves: Vec<Vec<u8>> = (0..n).map(|i| format!("tx-{i}").into_bytes()).collect();
        let tree = build_batch_tree(&leaves, &hash()).unwrap();
        let root = tree.root();
        for (i, leaf) in leaves.iter().enumerate() {
            let (sibs, bits) = tree.membership_proof(i).unwrap();
            assert!(
                verify_batch_membership(&root, &batch_leaf_hash(leaf, &hash()).unwrap(), &sibs, &bits, &hash()),
                "leaf {i} of {n} failed to prove membership");
        }
    }
}

#[test]
fn a_leaf_outside_the_batch_does_not_prove_membership() {
    let leaves: Vec<Vec<u8>> = (0..4).map(|i| format!("tx-{i}").into_bytes()).collect();
    let tree = build_batch_tree(&leaves, &hash()).unwrap();
    let (sibs, bits) = tree.membership_proof(1).unwrap();
    let outsider = batch_leaf_hash(b"tx-not-in-the-batch", &hash()).unwrap();
    assert!(!verify_batch_membership(&tree.root(), &outsider, &sibs, &bits, &hash()));
}

#[test]
fn a_tampered_sibling_does_not_prove_membership() {
    let leaves: Vec<Vec<u8>> = (0..4).map(|i| format!("tx-{i}").into_bytes()).collect();
    let tree = build_batch_tree(&leaves, &hash()).unwrap();
    let (mut sibs, bits) = tree.membership_proof(2).unwrap();
    // Byte 31, not byte 0: a node is FOUR words in bytes[16..32], and the
    // leading 16 bytes are padding the hash never reads. Flipping byte 0 is
    // not a tamper.
    sibs[0][31] ^= 1;
    assert!(!verify_batch_membership(
        &tree.root(), &batch_leaf_hash(&leaves[2], &hash()).unwrap(), &sibs, &bits, &hash()));
}

#[test]
fn the_direction_bits_are_load_bearing() {
    // Flipping a bit re-associates the path; only a symmetric tree survives.
    let leaves: Vec<Vec<u8>> = (0..4).map(|i| format!("tx-{i}").into_bytes()).collect();
    let tree = build_batch_tree(&leaves, &hash()).unwrap();
    let (sibs, mut bits) = tree.membership_proof(1).unwrap();
    bits[0] = !bits[0];
    assert!(!verify_batch_membership(
        &tree.root(), &batch_leaf_hash(&leaves[1], &hash()).unwrap(), &sibs, &bits, &hash()));
}

#[test]
fn a_t8_node_lives_in_the_low_16_bytes() {
    // Four M31 words occupy bytes[16..32]; the leading 16 bytes are padding
    // the hash does not read.
    let a = batch_leaf_hash(b"leaf", &hash()).unwrap();
    let mut b = a;
    b[0] ^= 0xff;
    assert_eq!(hash().hash_pair(&a, &a), hash().hash_pair(&b, &b),
               "the high bytes must not affect the hash");
    assert_eq!(&a[..16], &[0u8; 16], "hash output has a zero prefix");
}

#[test]
fn a_different_batch_has_a_different_root() {
    let a: Vec<Vec<u8>> = (0..4).map(|i| format!("tx-{i}").into_bytes()).collect();
    let mut b = a.clone();
    b[3] = b"tx-3-altered".to_vec();
    assert_ne!(build_batch_tree(&a, &hash()).unwrap().root(), build_batch_tree(&b, &hash()).unwrap().root());
}

#[test]
fn reordering_a_batch_changes_its_root() {
    let a: Vec<Vec<u8>> = (0..4).map(|i| format!("tx-{i}").into_bytes()).collect();
    let mut b = a.clone();
    b.swap(0, 1);
    assert_ne!(build_batch_tree(&a, &hash()).unwrap().root(), build_batch_tree(&b, &hash()).unwrap().root());
}

#[test]
fn input_validation() {
    assert!(build_batch_tree(&[], &hash()).is_err());
    assert!(build_batch_tree(&[vec![1]], &hash()).unwrap().depth() == 0);
    let tree = build_batch_tree(&[vec![1], vec![2]], &hash()).unwrap();
    assert!(tree.membership_proof(2).is_err());
}

#[test]
fn leaf_words_are_three_bytes_each_and_the_length() {
    assert_eq!(bytes_to_m31_words(&[]).unwrap(), vec![0]);
    assert_eq!(bytes_to_m31_words(&[1, 2, 3]).unwrap(), vec![0x030201, 3]);
    assert_eq!(bytes_to_m31_words(&[1, 2, 3, 0xff]).unwrap(), vec![0x030201, 0xff, 4]);
}

#[test]
fn leaf_node_is_the_reduced_digest() {
    // The words of the leaf are hashed, not the leaf itself.
    let node = batch_leaf_hash(b"leaf", &hash()).unwrap();
    let words = node_words(&node, &hash());
    for (k, w) in words.iter().enumerate() {
        assert!(*w < P as u64);
        let at = 16 + 4 * k;
        let bytes = [node[at], node[at + 1], node[at + 2], node[at + 3]];
        assert_eq!(*w, u32::from_le_bytes(bytes) as u64);
    }
    assert_ne!(words, [0u64; 4]);
}

#[test]
fn node_words_are_little_endian() {
    let mut node = [0u8; 32];
    node[16] = 1;
    node[21] = 1;
    node[26] = 1;
    node[31] = 1;
    assert_eq!(node_words(&node, &hash()), [1, 0x100, 0x10000, 0x1000000]);
}

#[test]
fn a_lone_node_is_paired_with_itself() {
    let leaves: Vec<Vec<u8>> = vec![vec![1], vec![2], vec![3]];
    let tree = build_batch_tree(&leaves, &hash()).unwrap();
    let last = batch_leaf_hash(&[3], &hash()).unwrap();
    assert_eq!(tree.levels[1][1], hash().hash_pair(&last, &last));
    assert_eq!(tree.root(), hash().hash_pair(&tree.levels[1][0], &tree.levels[1][1]));
    let (sibs, bits) = tree.membership_proof(2).unwrap();
    assert_eq!(sibs, vec![last, tree.levels[1][0]]);
    assert_eq!(bits, vec![false, true]);
}

#[test]
fn tree_shape() {
    for (n, depth) in [(1usize, 0usize), (2, 1), (3, 2), (4, 2), (5, 3), (8, 3), (9, 4)] {
        let leaves: Vec<Vec<u8>> = (0..n).map(|i| vec![i as u8]).collect();
        let tree = build_batch_tree(&leaves, &hash()).unwrap();
        assert_eq!(tree.leaf_count(), n);
        assert_eq!(tree.depth(), depth);
    }
}

#[test]
fn a_path_of_uneven_lengths_is_refused() {
    let leaf = batch_leaf_hash(b"leaf", &hash()).unwrap();
    assert!(verify_batch_membership(&leaf, &leaf, &[], &[], &hash()));
    assert!(!verify_batch_membership(&leaf, &leaf, &[leaf], &[], &hash()));
}

#[test]
fn tree_errors() {
    assert_eq!(build_batch_tree(&[], &hash()).err(), Some(TreeError::NoLeaves));
    let tree = build_batch_tree(&[vec![1], vec![2]], &hash()).unwrap();
    assert_eq!(
        tree.membership_proof(2).err(),
        Some(TreeError::IndexOutOfRange { index: 2, count: 2 })
    );
    let long = vec![0u8; 1 << 30];
    assert_eq!(bytes_to_m31_words(&long).err(), Some(TreeError::LeafTooLong { len: 1 << 30 }));
    let many: Vec<Vec<u8>> = vec![Vec::new(); (1 << 20) + 1];
    assert_eq!(
        build_batch_tree(&many, &hash()).err(),
        Some(TreeError::TooManyLeaves { count: (1 << 20) + 1 })
    );
}
