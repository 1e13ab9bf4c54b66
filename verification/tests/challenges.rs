//! The choice of the hidden parties.

use mpcith_zk::fiat_shamir::derive_challenges;

#[test]
fn test_challenges_deterministic() {
    let commitments = vec![0u8; 64];
    let public_inputs = [7u32, 42u32];
    let circuit_hash = vec![1u8; 32];

    let c1 = derive_challenges(&commitments, &public_inputs, &circuit_hash, 10, 3);
    let c2 = derive_challenges(&commitments, &public_inputs, &circuit_hash, 10, 3);

    assert_eq!(c1, c2, "Challenges must be deterministic");
    assert_eq!(c1.len(), 10);
    assert!(c1.iter().all(|&c| c < 3), "Challenges must be in [0, N)");
}

#[test]
fn test_challenges_differ_on_different_commitments() {
    let c1 = vec![0u8; 64];
    let c2 = vec![1u8; 64];
    let pub_in = [7u32];
    let ch = vec![0u8; 32];

    let ch1 = derive_challenges(&c1, &pub_in, &ch, 10, 3);
    let ch2 = derive_challenges(&c2, &pub_in, &ch, 10, 3);

    // With high probability these will differ (not a strict test but catches bugs).
    assert_ne!(ch1, ch2);
}
