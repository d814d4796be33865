//! Tests of the SHA3-256 Merkle tree.

use cpc::merkle::{verify_path, MerkleTree};
use sha3::{Digest, Sha3_256};

#[test]
fn build_and_verify_round_trip() {
    let leaves: Vec<Vec<u8>> = (0..8).map(|i| vec![i as u8; 32]).collect();
    let tree = MerkleTree::build(&leaves);
    let root = tree.root();
    for i in 0..8 {
        let path = tree.generate_path(i);
        assert!(verify_path(&root, &leaves[i], &path), "valid path for leaf {i} must verify");
    }
    // Tampered leaf rejected.
    let path = tree.generate_path(3);
    let mut bad = leaves[3].clone();
    bad[0] ^= 0xFF;
    assert!(!verify_path(&root, &bad, &path), "tampered leaf must be rejected");
    // Wrong leaf under existing path rejected.
    let path3 = tree.generate_path(3);
    assert!(!verify_path(&root, &leaves[5], &path3), "leaf 5 under path 3 must be rejected");
}

#[test]
fn merkle_tree_odd_leaf_count_uses_padding_branch() {
    // 3 leaves are padded to 4.
    let leaves: Vec<Vec<u8>> = (0..3).map(|i| vec![i as u8; 32]).collect();
    let tree = MerkleTree::build(&leaves);
    assert_eq!(tree.leaf_count(), 3);

    let root = tree.root();
    for (i, leaf) in leaves.iter().enumerate() {
        let path = tree.generate_path(i);
        assert!(verify_path(&root, leaf, &path), "valid path for leaf {} must verify under odd-leaf tree", i);
    }
    let path2 = tree.generate_path(2);
    let mut bad = leaves[2].clone();
    bad[0] ^= 0xFF;
    assert!(!verify_path(&root, &bad, &path2), "tampered leaf at odd index must be rejected");
}

#[test]
fn merkle_tree_single_leaf_yields_empty_path() {
    let leaves: Vec<Vec<u8>> = vec![vec![42u8; 32]];
    let tree = MerkleTree::build(&leaves);
    assert_eq!(tree.leaf_count(), 1);

    let root = tree.root();
    let path = tree.generate_path(0);
    assert!(path.siblings.is_empty(), "single-leaf tree path must have no siblings");
    assert!(verify_path(&root, &leaves[0], &path), "single-leaf path must verify");
    let mut wrong = leaves[0].clone();
    wrong[0] ^= 0xFF;
    assert!(!verify_path(&root, &wrong, &path), "wrong leaf under single-leaf tree must be rejected");
}

/// `H(0x00 || leaf)`.
fn leaf_hash(leaf: &[u8]) -> [u8; 32] {
    let mut h = Sha3_256::new();
    h.update([0x00]);
    h.update(leaf);
    let mut r = [0u8; 32];
    r.copy_from_slice(&h.finalize());
    r
}

/// `H(0x01 || left || right)`.
fn node_hash(left: &[u8; 32], right: &[u8; 32]) -> [u8; 32] {
    let mut h = Sha3_256::new();
    h.update([0x01]);
    h.update(left);
    h.update(right);
    let mut r = [0u8; 32];
    r.copy_from_slice(&h.finalize());
    r
}

#[test]
fn root_is_domain_separated_sha3_of_leaves() {
    // One leaf: the root is H(0x00 || leaf), not the leaf itself.
    let leaves = vec![vec![7u8; 5]];
    let tree = MerkleTree::build(&leaves);
    assert_eq!(tree.root(), leaf_hash(&leaves[0]));
    assert_ne!(tree.root().to_vec(), leaves[0]);

    // Three leaves: padded with an all-zero placeholder hash.
    let leaves: Vec<Vec<u8>> = vec![vec![1u8], vec![2u8, 3], vec![]];
    let tree = MerkleTree::build(&leaves);
    let l0 = leaf_hash(&leaves[0]);
    let l1 = leaf_hash(&leaves[1]);
    let l2 = leaf_hash(&leaves[2]);
    let pad = [0u8; 32];
    let want = node_hash(&node_hash(&l0, &l1), &node_hash(&l2, &pad));
    assert_eq!(tree.root(), want);

    // The path of leaf 2 is [padding, H(l0, l1)].
    let path = tree.generate_path(2);
    assert_eq!(path.index, 2);
    assert_eq!(path.siblings, vec![pad, node_hash(&l0, &l1)]);
}

#[test]
fn path_length_is_tree_depth() {
    for (n, depth) in [(1usize, 0usize), (2, 1), (5, 3), (8, 3), (9, 4), (1024, 10)] {
        let leaves: Vec<Vec<u8>> = (0..n).map(|i| (i as u32).to_le_bytes().to_vec()).collect();
        let tree = MerkleTree::build(&leaves);
        let root = tree.root();
        let last = tree.generate_path(n - 1);
        assert_eq!(last.siblings.len(), depth);
        assert!(verify_path(&root, &leaves[n - 1], &last));
        // A valid path under the wrong index is rejected.
        if n > 1 {
            let mut moved = last.clone();
            moved.index = n - 2;
            assert!(!verify_path(&root, &leaves[n - 1], &moved));
        }
    }
}
