//! Predicates and the circuits that they compile to.

use mpcith_zk::circuit::Circuit;
use mpcith_zk::circuit::Gate;
use mpcith_zk::fiat_shamir::hash_circuit;
use mpcith_zk::merkle::MerkleProof;
use mpcith_zk::merkle::MerkleTree;
use mpcith_zk::params::ProofParams;
use mpcith_zk::predicate::bits_needed;
use mpcith_zk::predicate::compile_set_membership_from_root;
use mpcith_zk::predicate::set_membership_witness_vec;
use mpcith_zk::predicate::CompiledPredicate;
use mpcith_zk::predicate::CompoundPredicate;
use mpcith_zk::predicate::Predicate;
use mpcith_zk::prove;
use mpcith_zk::prove_compound;
use mpcith_zk::verify_compound;
use mpcith_zk::verify_predicate;
use mpcith_zk::MpcithError;

#[test]
fn test_addition_predicate_compiles() {
    let pred = Predicate::AdditionCheck { expected_sum: 7 };
    let compiled = pred.compile().unwrap();
    let trace = compiled.circuit.evaluate(&[3, 4]).unwrap();
    assert_eq!(trace[2], 7);
}

#[test]
fn test_multiplication_predicate() {
    let pred = Predicate::MultiplicationCheck {
        expected_product: 12,
    };
    let compiled = pred.compile().unwrap();
    compiled.circuit.evaluate(&[3, 4]).unwrap();
    assert!(compiled.circuit.evaluate(&[3, 5]).is_err());
}

#[test]
fn test_set_membership_predicate() {
    let members = vec![10u32, 20, 30, 42];
    let tree = MerkleTree::build(&members);
    let root = tree.root();
    let pred = Predicate::SetMembership { members };
    let compiled = pred.compile().unwrap();
    assert_eq!(compiled.public_inputs, vec![root]);

    let proof42 = tree.prove_membership(3);
    let w42 = set_membership_witness(&proof42);
    compiled.circuit.evaluate(&w42).unwrap();

    let proof10 = tree.prove_membership(0);
    let w10 = set_membership_witness(&proof10);
    compiled.circuit.evaluate(&w10).unwrap();

    let mut bad_proof = tree.prove_membership(3);
    bad_proof.leaf = 99;
    let wbad = set_membership_witness(&bad_proof);
    assert!(compiled.circuit.evaluate(&wbad).is_err());
}

fn set_membership_witness(proof: &MerkleProof) -> Vec<u32> {
    let depth = proof.siblings.len();
    let mut w = Vec::with_capacity(2 + 2 * depth);
    w.push(proof.leaf);
    w.push(proof.leaf_index as u32);
    for i in 0..depth {
        w.push(((proof.leaf_index >> i) & 1) as u32);
    }
    w.extend(&proof.siblings);
    w
}

#[test]
fn test_range_check_compiles() {
    let pred = Predicate::RangeCheck { lo: 10, hi: 100 };
    let compiled = pred.compile().unwrap();
    assert!(compiled.circuit.num_wires > 0);
}

fn range_witness(x: u32, lo: u32, hi: u32) -> Vec<u32> {
    let width = hi.wrapping_sub(lo);
    let k = bits_needed(width);
    let shifted = x.wrapping_sub(lo);
    let slack = width.wrapping_sub(shifted);

    let mut w = Vec::with_capacity(1 + 32 + k + k);
    w.push(x);
    for i in 0..32 {
        w.push((x >> i) & 1);
    }
    for i in 0..k {
        w.push((shifted >> i) & 1);
    }
    for i in 0..k {
        w.push((slack >> i) & 1);
    }
    w
}

#[test]
fn test_range_check_42() {
    let pred = Predicate::RangeCheck { lo: 10, hi: 100 };
    let compiled = pred.compile().unwrap();
    let witness = range_witness(42, 10, 100);
    let trace = compiled.circuit.evaluate(&witness).unwrap();
    let out_start = compiled.circuit.num_wires - compiled.circuit.num_outputs;
    assert_eq!(trace[out_start], 0);
}

#[test]
fn test_range_check_at_lo() {
    let pred = Predicate::RangeCheck { lo: 10, hi: 100 };
    let compiled = pred.compile().unwrap();
    let witness = range_witness(10, 10, 100);
    compiled.circuit.evaluate(&witness).unwrap();
}

#[test]
fn test_range_check_at_hi() {
    let pred = Predicate::RangeCheck { lo: 10, hi: 100 };
    let compiled = pred.compile().unwrap();
    let witness = range_witness(100, 10, 100);
    compiled.circuit.evaluate(&witness).unwrap();
}

#[test]
fn test_range_check_below_lo() {
    let pred = Predicate::RangeCheck { lo: 10, hi: 100 };
    let compiled = pred.compile().unwrap();
    let witness = range_witness(9, 10, 100);
    assert!(compiled.circuit.evaluate(&witness).is_err());
}

#[test]
fn test_range_check_above_hi() {
    let pred = Predicate::RangeCheck { lo: 10, hi: 100 };
    let compiled = pred.compile().unwrap();
    let witness = range_witness(101, 10, 100);
    assert!(compiled.circuit.evaluate(&witness).is_err());
}

#[test]
fn test_compound_and_compiles() {
    let compound = CompoundPredicate::range_and_membership(0, 100, vec![10, 20, 30, 42]);
    let compiled = compound.compile().unwrap();
    assert!(compiled.circuit.num_wires > 0);
    assert!(compiled.circuit.num_inputs > 0);
    assert!(compiled.circuit.gates.len() > 0);
}

#[test]
fn test_compound_and_valid_witness() {
    let members = vec![10u32, 20, 30, 42];
    let compound = CompoundPredicate::range_and_membership(0, 100, members.clone());
    let compiled = compound.compile().unwrap();

    let tree = MerkleTree::build(&members);
    let proof = tree.prove_membership(3);
    let sm_witness = set_membership_witness(&proof);
    let range_w = range_witness(42, 0, 100);

    let mut full_witness = range_w;
    full_witness.extend_from_slice(&sm_witness);

    compiled.circuit.evaluate(&full_witness).unwrap();
}

#[test]
fn test_compound_and_fails_if_range_invalid() {
    let members = vec![10u32, 20, 30, 42];
    let compound = CompoundPredicate::range_and_membership(0, 100, members.clone());
    let compiled = compound.compile().unwrap();

    let tree = MerkleTree::build(&members);
    let proof = tree.prove_membership(3);
    let sm_witness = set_membership_witness(&proof);
    let range_w = range_witness(200, 0, 100);

    let mut full_witness = range_w;
    full_witness.extend_from_slice(&sm_witness);

    assert!(compiled.circuit.evaluate(&full_witness).is_err());
}

#[test]
fn test_compound_and_fails_if_membership_invalid() {
    let members = vec![10u32, 20, 30, 42];
    let compound = CompoundPredicate::range_and_membership(0, 100, members.clone());
    let compiled = compound.compile().unwrap();

    let tree = MerkleTree::build(&members);
    let range_w = range_witness(50, 0, 100);

    let mut bad_proof = tree.prove_membership(3);
    bad_proof.leaf = 50;
    let sm_witness = set_membership_witness(&bad_proof);

    let mut full_witness = range_w;
    full_witness.extend_from_slice(&sm_witness);

    assert!(compiled.circuit.evaluate(&full_witness).is_err());
}

#[test]
fn test_compound_and_fails_if_both_invalid() {
    let members = vec![10u32, 20, 30, 42];
    let compound = CompoundPredicate::range_and_membership(0, 100, members.clone());
    let compiled = compound.compile().unwrap();

    let tree = MerkleTree::build(&members);
    let proof = tree.prove_membership(3);
    let sm_witness = set_membership_witness(&proof);
    let range_w = range_witness(200, 0, 100);

    let mut full_witness = range_w;
    full_witness.extend_from_slice(&sm_witness);

    assert!(compiled.circuit.evaluate(&full_witness).is_err());
}

fn range_compile(lo: u32, hi: u32) -> Result<CompiledPredicate, MpcithError> {
    Predicate::RangeCheck { lo, hi }.compile()
}

#[test]
fn test_c2_width_zero_supported() {
    let compiled = range_compile(5, 5).unwrap();
    assert!(compiled.circuit.evaluate(&range_witness(5, 5, 5)).is_ok());
    assert!(compiled.circuit.evaluate(&range_witness(4, 5, 5)).is_err());
    assert!(compiled.circuit.evaluate(&range_witness(6, 5, 5)).is_err());
}

#[test]
fn test_c2_width_one_supported() {
    let compiled = range_compile(10, 11).unwrap();
    assert!(compiled.circuit.evaluate(&range_witness(10, 10, 11)).is_ok());
    assert!(compiled.circuit.evaluate(&range_witness(11, 10, 11)).is_ok());
    assert!(compiled.circuit.evaluate(&range_witness(9, 10, 11)).is_err());
    assert!(compiled.circuit.evaluate(&range_witness(12, 10, 11)).is_err());
}

#[test]
fn test_c2_width_2p31_minus_2_supported() {
    let lo = 1u32;
    let hi = 2u32 * (1 << 30) - 1; // width = 2^31 - 2
    assert_eq!(hi - lo, (1u32 << 31) - 2);
    let compiled = range_compile(lo, hi).unwrap();
    assert!(compiled.circuit.evaluate(&range_witness(lo, lo, hi)).is_ok());
    assert!(compiled.circuit.evaluate(&range_witness(hi, lo, hi)).is_ok());
    assert!(
        compiled
            .circuit
            .evaluate(&range_witness(lo + (hi - lo) / 2, lo, hi))
            .is_ok()
    );
    assert!(compiled.circuit.evaluate(&range_witness(lo - 1, lo, hi)).is_err());
    assert!(compiled.circuit.evaluate(&range_witness(hi + 1, lo, hi)).is_err());
}

#[test]
fn test_c2_width_2p31_minus_1_supported() {
    let lo = 0u32;
    let hi = (1u32 << 31) - 1;
    let compiled = range_compile(lo, hi).unwrap();
    for &x in &[lo, hi, 1u32 << 30] {
        assert!(compiled.circuit.evaluate(&range_witness(x, lo, hi)).is_ok());
    }
    assert!(compiled.circuit.evaluate(&range_witness(hi + 1, lo, hi)).is_err());
}

#[test]
fn test_c2_width_2p31_rejected() {
    let err = range_compile(0, 1u32 << 31)
        .err()
        .expect("width = 2^31 must be rejected");
    assert!(
        matches!(err, MpcithError::InvalidParams(_)),
        "width = 2^31 must be rejected as InvalidParams, got {err:?}"
    );
}

#[test]
fn test_c2_width_gt_2p31_rejected() {
    for (lo, hi) in [
        (0u32, (1u32 << 31) + 5),
        (0u32, u32::MAX),
        (12345u32, u32::MAX),
    ] {
        let err = range_compile(lo, hi)
            .err()
            .expect("width > 2^31 must be rejected");
        assert!(
            matches!(err, MpcithError::InvalidParams(_)),
            "width > 2^31 must be rejected as InvalidParams, got {err:?}"
        );
    }
}

#[test]
fn test_c2_boundary_values() {
    let (lo, hi) = (100u32, 200u32);
    let compiled = range_compile(lo, hi).unwrap();
    assert!(compiled.circuit.evaluate(&range_witness(99, lo, hi)).is_err()); // x = lo-1
    assert!(compiled.circuit.evaluate(&range_witness(100, lo, hi)).is_ok()); // x = lo
    assert!(compiled.circuit.evaluate(&range_witness(200, lo, hi)).is_ok()); // x = hi
    assert!(compiled.circuit.evaluate(&range_witness(201, lo, hi)).is_err()); // x = hi+1
}

#[test]
fn test_c2_values_near_u32_max() {
    let lo = u32::MAX - 100;
    let hi = u32::MAX;
    let compiled = range_compile(lo, hi).unwrap();
    assert!(compiled.circuit.evaluate(&range_witness(u32::MAX, lo, hi)).is_ok());
    assert!(compiled.circuit.evaluate(&range_witness(u32::MAX - 50, lo, hi)).is_ok());
    assert!(compiled.circuit.evaluate(&range_witness(lo, lo, hi)).is_ok());

    assert!(compiled.circuit.evaluate(&range_witness(lo - 1, lo, hi)).is_err());
    assert!(compiled.circuit.evaluate(&range_witness(0, lo, hi)).is_err());

    assert!(range_compile(0, u32::MAX).is_err());
    assert!(range_compile(1, u32::MAX).is_err());
}

fn membership_witness_at(members: &[u32], idx: usize, leaf: u32) -> Vec<u32> {
    let tree = MerkleTree::build(members);
    let mp = tree.prove_membership(idx);
    let depth = mp.siblings.len();
    let mut w = vec![leaf, idx as u32];
    for i in 0..depth {
        w.push(((idx >> i) & 1) as u32);
    }
    w.extend(&mp.siblings);
    w
}

#[test]
fn test_f1_padded_zero_leaf_unprovable_3set() {
    let members = vec![7u32, 8, 9];
    let compiled = Predicate::SetMembership { members: members.clone() }
        .compile()
        .unwrap();
    let w = membership_witness_at(&members, 3, 0);
    assert_eq!(w[0], 0, "padded slot must hold zero");
    assert!(
        compiled.circuit.evaluate(&w).is_err(),
        "padded index 3 must violate the circuit's index < len constraint"
    );
}

#[test]
fn test_f1_all_real_members_provable_3set() {
    let members = vec![7u32, 8, 9];
    let compiled = Predicate::SetMembership { members: members.clone() }
        .compile()
        .unwrap();
    for (idx, &value) in members.iter().enumerate() {
        let w = membership_witness_at(&members, idx, value);
        compiled.circuit.evaluate(&w).unwrap_or_else(|e| {
            panic!("real member {value} at index {idx} must satisfy the circuit: {e:?}")
        });
    }
}

#[test]
fn test_f1_five_element_set_padding_rejected() {
    let members = vec![11u32, 22, 33, 44, 55];
    let compiled = Predicate::SetMembership { members: members.clone() }
        .compile()
        .unwrap();
    for (idx, &value) in members.iter().enumerate() {
        let w = membership_witness_at(&members, idx, value);
        compiled.circuit.evaluate(&w).unwrap_or_else(|e| {
            panic!("real member {value} at index {idx} must be provable: {e:?}")
        });
    }
    for idx in 5..8usize {
        let w = membership_witness_at(&members, idx, 0);
        assert!(
            compiled.circuit.evaluate(&w).is_err(),
            "padded index {idx} must be rejected"
        );
        let w2 = membership_witness_at(&members, idx, 12345);
        assert!(compiled.circuit.evaluate(&w2).is_err());
    }
    let w3 = membership_witness_at(&members, 6, 0);
    assert!(compiled.circuit.evaluate(&w3).is_err());
}

#[test]
fn test_f1_power_of_two_set_all_members_provable() {
    let members = vec![10u32, 20, 30, 42];
    let compiled = Predicate::SetMembership { members: members.clone() }
        .compile()
        .unwrap();
    for (idx, &value) in members.iter().enumerate() {
        let w = membership_witness_at(&members, idx, value);
        compiled.circuit.evaluate(&w).unwrap_or_else(|e| {
            panic!("power-of-two set member {value} at index {idx}: {e:?}")
        });
    }
    let mut w = membership_witness_at(&members, 3, 0);
    w[1] = 4; // claimed leaf_index
    for i in 0..2 {
        w[2 + i] = ((4 >> i) & 1) as u32; // bits of 4 = [0, 0]
    }
    assert!(compiled.circuit.evaluate(&w).is_err());
}

#[test]
fn test_f1_single_member_set_depth0_still_works() {
    let members = vec![42u32];
    let pred = Predicate::SetMembership { members: members.clone() };
    let compiled = pred.compile().unwrap();
    let w = membership_witness_at(&members, 0, 42);
    compiled.circuit.evaluate(&w).unwrap();
    let mut bad = membership_witness_at(&members, 0, 43);
    bad[0] = 43;
    assert!(compiled.circuit.evaluate(&bad).is_err());
}

#[test]
fn test_f1_empty_set_rejected() {
    let err = Predicate::SetMembership { members: vec![] }
        .compile()
        .err()
        .expect("empty set must not compile");
    assert!(matches!(err, MpcithError::InvalidParams(_)));
}

#[test]
fn test_f1_compiler_paths_hash_equal_with_bound() {
    let members = vec![10u32, 20, 30, 42, 50]; // non-power-of-two → padding + bound active
    let lo = 0u32;
    let hi = 100u32;
    let prover = CompoundPredicate::range_and_membership(lo, hi, members.clone())
        .compile()
        .unwrap();

    let tree = MerkleTree::build(&members);
    let root = tree.root();
    let depth = members.len().next_power_of_two().trailing_zeros() as usize;

    let verifier = CompoundPredicate::range_and_membership_for_verify(
        lo, hi, root, depth, members.len(),
    )
    .unwrap();
    assert_eq!(
        hash_circuit(&prover.circuit),
        hash_circuit(&verifier.circuit),
        "both compilation paths must embed identical index-bound constraints"
    );

    for wrong in [members.len() - 1, members.len() + 1, 1] {
        let bad = CompoundPredicate::range_and_membership_for_verify(
            lo, hi, root, depth, wrong,
        );
        match bad {
            Ok(compiled_bad) => assert_ne!(
                hash_circuit(&prover.circuit),
                hash_circuit(&compiled_bad.circuit),
                "wrong count {wrong} must yield a different (stricter) circuit"
            ),
            Err(_) => {} // rejected outright — also fail-closed
        }
    }
}

#[test]
fn test_f1_absurd_depth_rejected_before_shift() {
    let err = compile_set_membership_from_root(12345, 40, 100)
        .err()
        .expect("depth 40 must be rejected");
    assert!(matches!(err, MpcithError::InvalidParams(_)));
}

#[test]
fn test_f6_depth0_circuit_is_leaf_eq_root_and_symmetric() {
    let members = vec![42u32];
    let tree = MerkleTree::build(&members);
    assert_eq!(tree.root(), 42, "single-leaf tree root must be the member");

    let prover = Predicate::SetMembership { members: members.clone() }
        .compile()
        .unwrap();
    assert_eq!(prover.circuit.gates.len(), 1);
    assert!(matches!(
        prover.circuit.gates[0],
        Gate::AssertEq { input: 0, expected: 42, .. }
    ));

    let verifier = compile_set_membership_from_root(tree.root(), 0, 1).unwrap();
    assert_eq!(
        hash_circuit(&prover.circuit),
        hash_circuit(&verifier.circuit),
        "depth-0 circuits from both compilers must be identical"
    );
    let cp = CompoundPredicate::range_and_membership(0, 100, members.clone())
        .compile()
        .unwrap();
    let cv = CompoundPredicate::range_and_membership_for_verify(0, 100, tree.root(), 0, 1)
        .unwrap();
    assert_eq!(
        hash_circuit(&cp.circuit),
        hash_circuit(&cv.circuit),
        "depth-0 compound circuits must match across compilers"
    );

    compiled_eval_ok(&prover.circuit, &[42u32, 0]);
    assert!(prover.circuit.evaluate(&[43u32, 0]).is_err());
}

fn compiled_eval_ok(circuit: &Circuit, w: &[u32]) {
    circuit
        .evaluate(w)
        .unwrap_or_else(|e| panic!("depth-0 honest witness must satisfy circuit: {e:?}"));
}

#[test]
fn test_f6_depth0_end_to_end_prove_verify() {
    let params = ProofParams::fast_insecure();
    let members = vec![42u32];
    let pred = Predicate::SetMembership { members: members.clone() };
    let tree = MerkleTree::build(&members);
    let root = tree.root();

    let w = set_membership_witness_vec(&tree.prove_membership(0));
    assert_eq!(w.len(), 2, "depth-0 witness is exactly [leaf, index]");

    let proof = prove(pred.clone(), &w, &[root], &params)
        .unwrap_or_else(|e| panic!("single-member membership proof must exist: {e:?}"));
    assert!(
        verify_predicate(&pred, &proof, &[root], &params).unwrap(),
        "single-member membership proof must verify"
    );
}

#[test]
fn test_f6_depth0_wrong_secret_rejected_end_to_end() {
    let params = ProofParams::fast_insecure();
    let members = vec![42u32];
    let tree = MerkleTree::build(&members);
    let root = tree.root();
    let pred = Predicate::SetMembership { members };

    assert!(pred.generate_witness(43).is_err());

    assert!(prove(pred.clone(), &[43u32, 0], &[43], &params).is_err());
    assert!(prove(pred, &[43u32, 0], &[root], &params).is_err());
}

#[test]
fn test_f6_depth0_compound_end_to_end_prove_verify() {
    let params = ProofParams::fast_insecure();
    let members = vec![42u32];
    let compound = CompoundPredicate::range_and_membership(0, 100, members.clone());
    let witness = compound.generate_witness(42).unwrap();
    let public_inputs = vec![0u32, 100, MerkleTree::build(&members).root()];
    let proof = prove_compound(compound.clone(), &witness, &public_inputs, &params)
        .expect("single-member compound proof must exist");
    assert!(
        verify_compound(&compound, &proof, &public_inputs, &params).unwrap(),
        "single-member compound proof must verify"
    );

    assert!(compound.generate_witness(43).is_err());
}

#[test]
fn test_f6_depth0_count_mismatch_still_fail_closed() {
    for bad in [0usize, 2, 5] {
        let err = compile_set_membership_from_root(42, 0, bad)
            .err()
            .expect("inconsistent count/depth must be rejected");
        assert!(matches!(err, MpcithError::InvalidParams(_)));
    }
}
