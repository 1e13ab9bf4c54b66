//! Merkle trees over words.

use mpcith_zk::merkle::MerkleTree;

#[test]
fn merkle_test_four_leaves_deterministic_root() {
    let tree = MerkleTree::build(&[10, 20, 30, 42]);
    let root1 = tree.root();
    let root2 = MerkleTree::build(&[10, 20, 30, 42]).root();
    assert_eq!(root1, root2);
    assert_ne!(root1, 0);
}

#[test]
fn merkle_test_four_leaves_all_proofs_valid() {
    let tree = MerkleTree::build(&[10, 20, 30, 42]);
    for i in 0..4 {
        let proof = tree.prove_membership(i);
        assert!(proof.verify(), "proof for leaf {i} failed");
    }
}

#[test]
fn merkle_test_tampered_sibling_fails() {
    let tree = MerkleTree::build(&[10, 20, 30, 42]);
    let mut proof = tree.prove_membership(1);
    proof.siblings[0] ^= 1;
    assert!(!proof.verify());
}

#[test]
fn merkle_test_tampered_leaf_fails() {
    let tree = MerkleTree::build(&[10, 20, 30, 42]);
    let mut proof = tree.prove_membership(2);
    proof.leaf = 99;
    assert!(!proof.verify());
}

#[test]
fn merkle_test_eight_leaves() {
    let vals: Vec<u32> = (1..=8).collect();
    let tree = MerkleTree::build(&vals);
    let root = tree.root();
    assert_ne!(root, 0);

    // Rebuild is deterministic.
    assert_eq!(root, MerkleTree::build(&vals).root());

    for i in 0..8 {
        let proof = tree.prove_membership(i);
        assert!(proof.verify(), "proof for leaf {i} failed");
    }
}

#[test]
fn copies_of_word_trees_keep_leaves_and_root() {
    let tree = MerkleTree::build(&[10, 20, 30]);
    let copy = tree.clone();
    assert_eq!(copy.root(), tree.root());
    let proof = copy.prove_membership(2);
    assert_eq!(proof.leaf, 30);
    assert!(proof.verify());
}
