//! Commitments.

use mpcith_zk::commitment::commit;
use mpcith_zk::commitment::verify_commitment;
use mpcith_zk::commitment::CommitmentMatrix;
use mpcith_zk::commitment::CommitmentOpening;

#[test]
fn test_commit_verify() {
    let randomness = [0xABu8; 32];
    let data = b"hello world";
    let domain = b"test";

    let commitment = commit(domain, &randomness, data);
    let opening = CommitmentOpening { randomness };

    assert!(verify_commitment(domain, &opening, data, &commitment));
    assert!(!verify_commitment(domain, &opening, b"wrong data", &commitment));
}

#[test]
fn test_commit_binding() {
    let randomness = [0u8; 32];
    let c1 = commit(b"d", &randomness, b"value1");
    let c2 = commit(b"d", &randomness, b"value2");
    assert_ne!(c1, c2);
}

#[test]
fn test_commit_hiding() {
    // Same data, different randomness → different commitments.
    let c1 = commit(b"d", &[0u8; 32], b"secret");
    let c2 = commit(b"d", &[1u8; 32], b"secret");
    assert_ne!(c1, c2);
}

#[test]
fn test_domain_separation() {
    let randomness = [0u8; 32];
    let data = b"same data";
    let c1 = commit(b"domain1", &randomness, data);
    let c2 = commit(b"domain2", &randomness, data);
    assert_ne!(c1, c2);
}

#[test]
fn copies_of_commitment_matrices_keep_every_entry() {
    let mut matrix = CommitmentMatrix::new(2, 3);
    let commitment = commit(b"test", &[1u8; 32], b"data");
    matrix.set(1, 2, commitment);
    let copy = matrix.clone();
    assert_eq!(copy.get(1, 2), &commitment);
    assert_eq!(copy.to_bytes(), matrix.to_bytes());
    assert_eq!((copy.num_repetitions, copy.num_parties), (2, 3));
}
