//! The MiMC hash.

use mpcith_zk::circuit::CircuitBuilder;
use mpcith_zk::mimc::build_mimc_hash;
use mpcith_zk::mimc::mimc_constants;
use mpcith_zk::mimc::mimc_hash_native;
use mpcith_zk::mimc::MIMC_ROUNDS;

#[test]
fn test_mimc_native_and_circuit_agree() {
    let cases: [(u32, u32); 4] = [(0, 0), (1, 0), (0, 1), (42, 1337)];
    for &(l, r) in &cases {
        let native = mimc_hash_native(l, r, MIMC_ROUNDS);

        let mut builder = CircuitBuilder::new(2);
        let _ = build_mimc_hash(&mut builder, 0, 1, MIMC_ROUNDS);
        let circuit = builder.build(2);
        let trace = circuit.evaluate(&[l, r]).unwrap();
        let out = circuit.outputs(&trace);
        assert_eq!(
            (out[0], out[1]),
            native,
            "mismatch for input ({l}, {r})"
        );
    }
}

#[test]
fn test_mimc_different_inputs_different_outputs() {
    let pairs = [
        (0u32, 0u32),
        (1, 0),
        (0, 1),
        (42, 1337),
        (1337, 42),
        (u32::MAX, u32::MAX),
    ];
    let hashes: Vec<_> = pairs
        .iter()
        .map(|&(l, r)| mimc_hash_native(l, r, MIMC_ROUNDS))
        .collect();
    for i in 0..hashes.len() {
        for j in (i + 1)..hashes.len() {
            assert_ne!(
                hashes[i], hashes[j],
                "collision between pairs {i} and {j}"
            );
        }
    }
}

#[test]
fn test_mimc_constants_deterministic() {
    let a = mimc_constants(MIMC_ROUNDS);
    let b = mimc_constants(MIMC_ROUNDS);
    assert_eq!(a, b);
    assert_eq!(a.len(), MIMC_ROUNDS);
    // Spot-check: first constant should not be zero (extremely unlikely).
    assert_ne!(a[0], 0);
}
