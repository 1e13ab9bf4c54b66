//! Merkle trees over commitments.

use mpcith_zk::commit_merkle::CommitTree;

#[test]
fn commit_merkle_test_four_leaves_deterministic_root() {
    let leaves = [[10u8; 32], [20u8; 32], [30u8; 32], [42u8; 32]];
    let tree = CommitTree::build(&leaves);
    let root1 = tree.root();
    let root2 = CommitTree::build(&leaves).root();
    assert_eq!(root1, root2);
    assert_ne!(root1, [0u8; 32]);
}

#[test]
fn commit_merkle_test_four_leaves_all_proofs_valid() {
    let leaves = [[10u8; 32], [20u8; 32], [30u8; 32], [42u8; 32]];
    let tree = CommitTree::build(&leaves);
    for i in 0..4 {
        let proof = tree.prove_membership(i);
        assert!(proof.verify(), "proof for leaf {i} failed");
    }
}

#[test]
fn commit_merkle_test_tampered_sibling_fails() {
    let leaves = [[10u8; 32], [20u8; 32], [30u8; 32], [42u8; 32]];
    let tree = CommitTree::build(&leaves);
    let mut proof = tree.prove_membership(1);
    proof.siblings[0][0] ^= 1;
    assert!(!proof.verify());
}

#[test]
fn commit_merkle_test_tampered_leaf_fails() {
    let leaves = [[10u8; 32], [20u8; 32], [30u8; 32], [42u8; 32]];
    let tree = CommitTree::build(&leaves);
    let mut proof = tree.prove_membership(2);
    proof.leaf[0] ^= 0xFF;
    assert!(!proof.verify());
}

#[test]
fn commit_merkle_test_eight_leaves() {
    let leaves: Vec<[u8; 32]> = (1u32..=8).map(|v| {
        let mut buf = [0u8; 32];
        buf[..4].copy_from_slice(&v.to_le_bytes());
        buf
    }).collect();
    let tree = CommitTree::build(&leaves);
    let root = tree.root();
    assert_ne!(root, [0u8; 32]);
    assert_eq!(root, CommitTree::build(&leaves).root());
    for i in 0..8 {
        let proof = tree.prove_membership(i);
        assert!(proof.verify(), "proof for leaf {i} failed");
    }
}

#[test]
fn copies_of_commitment_trees_keep_leaves_and_root() {
    let tree = CommitTree::build(&[[10u8; 32], [20u8; 32], [30u8; 32]]);
    let copy = tree.clone();
    assert_eq!(copy.root(), tree.root());
    let proof = copy.prove_membership(2);
    assert_eq!(proof.leaf, [30u8; 32]);
    assert!(proof.verify());
}
