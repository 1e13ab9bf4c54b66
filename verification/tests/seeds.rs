//! Seed trees.

use mpcith_zk::seed_tree::build_seed_tree;
use mpcith_zk::seed_tree::reconstruct_leaves_from_co_path;
use mpcith_zk::seed_tree::SeedTree;

/// Core correctness check: build → co_path → reconstruct round-trips.
fn round_trip(num_parties: usize, hidden: usize) {
    let root = [0xABu8; 32];
    let tree = SeedTree::build(root, num_parties);
    let leaves = tree.leaf_seeds();
    let co = tree.co_path(hidden);
    let recon = reconstruct_leaves_from_co_path(&co, hidden, num_parties);

    for i in 0..num_parties {
        if i != hidden {
            assert_eq!(
                recon[i], leaves[i],
                "leaf {i} mismatch (N={num_parties}, hidden={hidden})"
            );
        }
    }
}

#[test]
fn test_n16_hidden7() {
    round_trip(16, 7);
}

#[test]
fn test_n3_non_power_of_two() {
    // N=3 → N_padded=4, depth=2, co-path has 2 entries.
    for h in 0..3 {
        round_trip(3, h);
    }
}

#[test]
fn test_n5_non_power_of_two() {
    // N=5 → N_padded=8, depth=3, co-path has 3 entries.
    for h in 0..5 {
        round_trip(5, h);
    }
}

#[test]
fn test_n16_all_hidden_indices() {
    for h in 0..16 {
        round_trip(16, h);
    }
}

#[test]
fn test_build_seed_tree_standalone() {
    let leaves = build_seed_tree([1u8; 32], 4);
    assert_eq!(leaves.len(), 4);
    // All leaves must be distinct.
    for i in 0..4 {
        for j in (i + 1)..4 {
            assert_ne!(leaves[i], leaves[j], "leaves {i} and {j} collide");
        }
    }
}

#[test]
fn test_determinism() {
    assert_eq!(
        build_seed_tree([7u8; 32], 8),
        build_seed_tree([7u8; 32], 8),
        "build_seed_tree must be deterministic"
    );
}

#[test]
fn test_different_roots_differ() {
    let a = build_seed_tree([0u8; 32], 4);
    let b = build_seed_tree([1u8; 32], 4);
    assert_ne!(a, b);
}

#[test]
fn test_co_path_length() {
    for &n in &[2usize, 3, 4, 5, 8, 16] {
        let tree = SeedTree::build([0u8; 32], n);
        let expected_depth = n.next_power_of_two().trailing_zeros() as usize;
        assert_eq!(
            tree.co_path(0).len(),
            expected_depth,
            "co-path depth wrong for N={n}"
        );
    }
}
