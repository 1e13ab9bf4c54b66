//! Making and checking proofs.

use mpcith_zk::circuit::CircuitBuilder;
use mpcith_zk::circuit::Gate;
use mpcith_zk::commit_merkle::CommitTree;
use mpcith_zk::commitment::commit_view;
use mpcith_zk::fiat_shamir::derive_challenges;
use mpcith_zk::fiat_shamir::hash_circuit;
use mpcith_zk::merkle::MerkleProof;
use mpcith_zk::merkle::MerkleTree;
use mpcith_zk::mpc::run_mpc_emulation;
use mpcith_zk::params::ProofParams;
use mpcith_zk::predicate::CompoundPredicate;
use mpcith_zk::predicate::Predicate;
use mpcith_zk::proofs::OpenedView;
use mpcith_zk::proofs::RepetitionProof;
use mpcith_zk::protocol::MAX_PROOF_CIRCUIT_WIRES;
use mpcith_zk::prove;
use mpcith_zk::prove_compound;
use mpcith_zk::seed_tree::SeedTree;
use mpcith_zk::sharing::PartySeed;
use mpcith_zk::verification::encode_public_shares;
use mpcith_zk::verify;
use mpcith_zk::verify_compound;
use mpcith_zk::verify_predicate;
use mpcith_zk::MpcithError;
use mpcith_zk::Proof;

/// A proof as it arrives over a network: the seeds and the shares of all wires stay behind.
fn without_local_parts(mut proof: Proof) -> Proof {
    for rep in proof.repetitions.iter_mut() {
        for opened in rep.opened_views.iter_mut() {
            opened.view.seed = [0u8; 32];
            opened.view.wire_shares.clear();
        }
    }
    proof
}

fn fast_params() -> ProofParams {
    ProofParams::fast_insecure()
}

#[test]
fn test_prove_verify_addition() {
    let params = fast_params();
    let pred = Predicate::AdditionCheck { expected_sum: 7 };
    let proof = prove(pred, &[3, 4], &[7], &params).unwrap();
    assert!(verify(&proof, &[7], &params).unwrap());
}

#[test]
fn test_verify_predicate_roundtrip() {
    let params = fast_params();
    let pred = Predicate::AdditionCheck { expected_sum: 7 };
    let proof = prove(pred.clone(), &[3, 4], &[7], &params).unwrap();
    assert!(verify_predicate(&pred, &proof, &[7], &params).unwrap());
}

#[test]
fn test_verify_predicate_rejects_circuit_substitution() {
    let params = fast_params();
    let pred = Predicate::AdditionCheck { expected_sum: 7 };
    let proof = prove(pred.clone(), &[3, 4], &[7], &params).unwrap();

    let mut builder = CircuitBuilder::new(2);
    builder.assert_eq(0, 0);
    let trivial_circuit = builder.build(1);

    let mut forged = proof;
    forged.circuit = trivial_circuit.clone();
    forged.circuit_hash = hash_circuit(&trivial_circuit);
    forged.num_circuit_wires = trivial_circuit.num_wires;
    forged.num_circuit_outputs = trivial_circuit.num_outputs;

    let result = verify_predicate(&pred, &forged, &[7], &params);
    assert!(result.is_err(), "substituted circuit must be rejected");
    let err = result.unwrap_err();
    match err {
        MpcithError::VerificationFailed(msg) => {
            assert!(
                msg.contains("circuit-substitution"),
                "error should mention circuit-substitution, got: {msg}"
            );
        }
        other => panic!("expected VerificationFailed, got {other:?}"),
    }
}

#[test]
fn test_forged_expected_outputs_field_is_inert() {
    let params = fast_params();
    let pred = Predicate::AdditionCheck { expected_sum: 7 };
    let mut proof = prove(pred, &[3, 4], &[7], &params).unwrap();
    proof.expected_outputs[0] = 999;
    assert!(
        verify(&proof, &[7], &params).unwrap(),
        "tampering the prover-supplied expected_outputs field must not affect verification"
    );
}

#[test]
fn test_forged_assert_share_sum_rejected() {
    let params = fast_params();
    let pred = Predicate::RangeCheck { lo: 1, hi: 1000 };
    let witness = range_witness(500, 1, 1000);
    let mut proof = prove(pred, &witness, &[1, 1000], &params).unwrap();
    assert!(verify(&proof, &[1, 1000], &params).unwrap());

    proof.repetitions[0].assert_shares[0][0] =
        proof.repetitions[0].assert_shares[0][0].wrapping_add(1);
    let result = verify(&proof, &[1, 1000], &params);
    assert!(result.is_err(), "forged AssertEq share sum must cause Err");
}

#[test]
fn test_forged_assert_share_shift_rejected() {
    let params = fast_params();
    let pred = Predicate::RangeCheck { lo: 1, hi: 1000 };
    let witness = range_witness(500, 1, 1000);
    let mut proof = prove(pred, &witness, &[1, 1000], &params).unwrap();
    assert!(verify(&proof, &[1, 1000], &params).unwrap());

    proof.repetitions[0].assert_shares[0][0] =
        proof.repetitions[0].assert_shares[0][0].wrapping_add(1);
    proof.repetitions[0].assert_shares[0][1] =
        proof.repetitions[0].assert_shares[0][1].wrapping_sub(1);
    let result = verify(&proof, &[1, 1000], &params);
    assert!(
        result.is_err(),
        "sum-preserving shift between parties' AssertEq shares must still be rejected"
    );
}

#[test]
fn test_prove_verify_multiplication() {
    let params = fast_params();
    let pred = Predicate::MultiplicationCheck {
        expected_product: 12,
    };
    let proof = prove(pred, &[3, 4], &[12], &params).unwrap();
    assert!(verify(&proof, &[12], &params).unwrap());
}

#[test]
fn test_prove_verify_xor() {
    let params = fast_params();
    let x = 0b1010u32;
    let y = 0b1100u32;
    let pred = Predicate::XorCheck { expected_xor: x ^ y };
    let mut witness = vec![x, y];
    for i in 0..32 {
        witness.push((x >> i) & 1);
    }
    for i in 0..32 {
        witness.push((y >> i) & 1);
    }
    let proof = prove(pred, &witness, &[x ^ y], &params).unwrap();
    assert!(verify(&proof, &[x ^ y], &params).unwrap());
}

#[test]
fn test_invalid_witness_rejected() {
    let params = fast_params();
    let pred = Predicate::AdditionCheck { expected_sum: 7 };
    assert!(prove(pred, &[3, 5], &[7], &params).is_err());
}

#[test]
fn test_wrong_public_inputs_rejected() {
    let params = fast_params();
    let pred = Predicate::AdditionCheck { expected_sum: 7 };
    let proof = prove(pred, &[3, 4], &[7], &params).unwrap();
    assert!(verify(&proof, &[8], &params).is_err());
}

#[test]
fn test_set_membership_prove_verify() {
    let params = fast_params();
    let members = vec![10u32, 20, 30, 42];
    let tree = MerkleTree::build(&members);
    let root = tree.root();
    let pred = Predicate::SetMembership { members };

    let proof = tree.prove_membership(3);
    let witness = set_membership_witness(&proof);
    let compiled_proof = prove(pred, &witness, &[root], &params).unwrap();
    assert!(verify(&compiled_proof, &[root], &params).unwrap());
}

fn set_membership_witness(proof: &MerkleProof) -> Vec<u32> {
    let depth = proof.siblings.len();
    let mut w = Vec::with_capacity(2 + 2 * depth);
    w.push(proof.leaf);
    w.push(proof.leaf_index as u32);
    for i in 0..depth {
        w.push(((proof.leaf_index >> i) & 1) as u32);
    }
    w.extend(&proof.siblings);
    w
}

fn range_witness(x: u32, lo: u32, hi: u32) -> Vec<u32> {
    let width = hi.wrapping_sub(lo);
    let k = if width == 0 {
        1
    } else {
        (32 - width.leading_zeros()) as usize
    };
    let shifted = x.wrapping_sub(lo);
    let slack = width.wrapping_sub(shifted);

    let mut w = Vec::with_capacity(1 + 32 + k + k);
    w.push(x);
    for i in 0..32 {
        w.push((x >> i) & 1);
    }
    for i in 0..k {
        w.push((shifted >> i) & 1);
    }
    for i in 0..k {
        w.push((slack >> i) & 1);
    }
    w
}

#[test]
fn test_range_proof_valid() {
    let params = fast_params();
    let pred = Predicate::RangeCheck { lo: 0, hi: 1000 };
    let witness = range_witness(500, 0, 1000);
    let proof = prove(pred, &witness, &[0, 1000], &params).unwrap();
    assert!(verify(&proof, &[0, 1000], &params).unwrap());
}

#[test]
fn test_range_proof_boundary_lo() {
    let params = fast_params();
    let pred = Predicate::RangeCheck { lo: 0, hi: 1000 };
    let witness = range_witness(0, 0, 1000);
    let proof = prove(pred, &witness, &[0, 1000], &params).unwrap();
    assert!(verify(&proof, &[0, 1000], &params).unwrap());
}

#[test]
fn test_range_proof_boundary_hi() {
    let params = fast_params();
    let pred = Predicate::RangeCheck { lo: 0, hi: 1000 };
    let witness = range_witness(1000, 0, 1000);
    let proof = prove(pred, &witness, &[0, 1000], &params).unwrap();
    assert!(verify(&proof, &[0, 1000], &params).unwrap());
}

#[test]
fn test_range_proof_invalid_witness() {
    let params = fast_params();
    let pred = Predicate::RangeCheck { lo: 0, hi: 1000 };
    let witness = range_witness(1500, 0, 1000);
    assert!(prove(pred, &witness, &[0, 1000], &params).is_err());
}

#[test]
fn test_range_proof_secure_params() {
    let params = ProofParams::balanced();
    let pred = Predicate::RangeCheck { lo: 0, hi: 1000 };
    let witness = range_witness(500, 0, 1000);
    let proof = prove(pred, &witness, &[0, 1000], &params).unwrap();
    assert!(verify(&proof, &[0, 1000], &params).unwrap());
}

#[test]
fn test_compound_prove_verify() {
    let params = fast_params();
    let members = vec![10u32, 20, 30, 42];
    let compound = CompoundPredicate::range_and_membership(0, 100, members.clone());

    let witness = compound.generate_witness(42).unwrap();

    let tree = MerkleTree::build(&members);
    let root = tree.root();
    let public_inputs = vec![0u32, 100, root];

    let proof = prove_compound(compound, &witness, &public_inputs, &params).unwrap();
    assert!(verify(&proof, &public_inputs, &params).unwrap());
}

#[test]
fn test_compound_prove_verify_secure_params() {
    let params = ProofParams::balanced();
    let members = vec![10u32, 20, 30, 42];
    let compound = CompoundPredicate::range_and_membership(0, 100, members.clone());

    let witness = compound.generate_witness(42).unwrap();

    let tree = MerkleTree::build(&members);
    let root = tree.root();
    let public_inputs = vec![0u32, 100, root];

    let proof = prove_compound(compound, &witness, &public_inputs, &params).unwrap();
    assert!(verify(&proof, &public_inputs, &params).unwrap());
}

#[test]
fn test_compound_invalid_range_rejected() {
    let params = fast_params();
    let members = vec![10u32, 20, 30, 42];
    let compound = CompoundPredicate::range_and_membership(0, 100, members.clone());

    let tree = MerkleTree::build(&members);
    let merkle_proof = tree.prove_membership(3);
    let mut witness = range_witness(200, 0, 100);
    witness.extend_from_slice(&set_membership_witness(&merkle_proof));

    let root = tree.root();
    let public_inputs = vec![0u32, 100, root];

    assert!(prove_compound(compound, &witness, &public_inputs, &params).is_err());
}

#[test]
fn test_compound_invalid_membership_rejected() {
    let _params = fast_params();
    let members = vec![10u32, 20, 30, 42];
    let compound = CompoundPredicate::range_and_membership(0, 100, members.clone());

    assert!(compound.generate_witness(50).is_err());
}

#[test]
fn test_compound_proof_not_transferable() {
    let params = fast_params();
    let members_a = vec![10u32, 20, 30, 42];
    let compound_a = CompoundPredicate::range_and_membership(0, 100, members_a.clone());

    let witness = compound_a.generate_witness(42).unwrap();
    let tree_a = MerkleTree::build(&members_a);
    let root_a = tree_a.root();
    let public_inputs_a = vec![0u32, 100, root_a];

    let proof = prove_compound(compound_a, &witness, &public_inputs_a, &params).unwrap();

    let members_b = vec![5u32, 15, 25, 42];
    let tree_b = MerkleTree::build(&members_b);
    let root_b = tree_b.root();
    let public_inputs_b = vec![0u32, 100, root_b];

    assert!(verify(&proof, &public_inputs_b, &params).is_err());
}

fn proofs_for_every_hidden(
    params: &ProofParams,
) -> Vec<Proof> {
    let mut per_hidden: Vec<Option<Proof>> = vec![None; params.num_parties];
    for _ in 0..500 {
        let proof = prove(
            Predicate::AdditionCheck { expected_sum: 7 },
            &[3, 4],
            &[7],
            params,
        )
        .unwrap();
        let h = proof.repetitions[0].hidden_party;
        if per_hidden[h].is_none() {
            per_hidden[h] = Some(proof);
        }
        if per_hidden.iter().all(|p| p.is_some()) {
            break;
        }
    }
    assert!(
        per_hidden.iter().all(|p| p.is_some()),
        "expected to observe every hidden-party value across repetitions"
    );
    per_hidden.into_iter().map(|p| p.unwrap()).collect()
}

#[test]
fn test_c1_duplicate_opened_party_rejected() {
    let params = fast_params();
    for proof in proofs_for_every_hidden(&params) {
        let hidden = proof.repetitions[0].hidden_party;
        let orig = proof.repetitions[0].opened_views.clone();
        assert_eq!(orig.len(), params.num_parties - 1);

        let mut forged = proof;
        forged.repetitions[0].opened_views =
            vec![orig[0].clone(), orig[0].clone()];
        let result = verify(&forged, &[7], &params);
        assert!(
            result.is_err(),
            "A: duplicated opened party must be rejected (hidden = {hidden})"
        );
    }
}

#[test]
fn test_c1_omitted_nonhidden_party_rejected() {
    let params = fast_params();
    for proof in proofs_for_every_hidden(&params) {
        let hidden = proof.repetitions[0].hidden_party;
        let orig = proof.repetitions[0].opened_views.clone();

        let mut relabeled = orig[1].clone();
        relabeled.view.party_idx = orig[0].view.party_idx;

        let mut forged = proof;
        forged.repetitions[0].opened_views = vec![orig[0].clone(), relabeled];
        let result = verify(&forged, &[7], &params);
        assert!(
            result.is_err(),
            "B: omitted non-hidden party must be rejected (hidden = {hidden})"
        );
    }
}

#[test]
fn test_c1_out_of_range_opened_party_rejected_no_panic() {
    let params = fast_params();
    for proof in proofs_for_every_hidden(&params) {
        let hidden = proof.repetitions[0].hidden_party;
        let orig = proof.repetitions[0].opened_views.clone();

        let mut oor = orig[1].clone();
        oor.view.party_idx = params.num_parties; // 3 for N=3

        let mut forged = proof;
        forged.repetitions[0].opened_views = vec![orig[0].clone(), oor];
        let result = verify(&forged, &[7], &params);
        assert!(
            result.is_err(),
            "C: out-of-range opened party must be rejected (hidden = {hidden})"
        );
    }
}

#[test]
fn test_c1_hidden_party_in_opened_views_rejected() {
    let params = fast_params();
    for proof in proofs_for_every_hidden(&params) {
        let hidden = proof.repetitions[0].hidden_party;
        let orig = proof.repetitions[0].opened_views.clone();

        let mut as_opened = orig[1].clone();
        as_opened.view.party_idx = hidden;

        let mut forged = proof;
        forged.repetitions[0].opened_views = vec![orig[0].clone(), as_opened];
        let result = verify(&forged, &[7], &params);
        assert!(
            result.is_err(),
            "D: hidden party claimed as opened must be rejected (hidden = {hidden})"
        );
    }
}

#[test]
fn test_c1_valid_permutation_of_opened_set_still_verifies() {
    let params = fast_params();
    for proof in proofs_for_every_hidden(&params) {
        let orig = proof.repetitions[0].opened_views.clone();

        assert!(verify(&proof, &[7], &params).unwrap());

        let mut reordered = proof;
        reordered.repetitions[0].opened_views =
            vec![orig[1].clone(), orig[0].clone()];
        assert!(
            verify(&reordered, &[7], &params).unwrap(),
            "E: valid permutation of the opened set must still verify"
        );
    }
}

#[test]
fn test_c2_adversarial_large_width_cannot_prove() {
    let params = fast_params();
    let pred = Predicate::RangeCheck {
        lo: 0,
        hi: 2_147_483_648u32, // 2^31
    };

    let compiled = pred.compile();
    assert!(
        matches!(compiled, Err(MpcithError::InvalidParams(_))),
        "RangeCheck with width 2^31 must be rejected as InvalidParams"
    );

    let witness = range_witness(3_000_000_000u32, 0, 2_147_483_648);
    let result = prove(pred, &witness, &[0, 2_147_483_648], &params);
    assert!(
        result.is_err(),
        "x = 3_000_000_000 must not be provable in [0, 2^31]"
    );
}

#[test]
fn test_c2_max_supported_width_end_to_end() {
    let params = fast_params();
    let lo = 0u32;
    let hi = (1u32 << 31) - 1;
    let x = 1u32 << 30;
    let pred = Predicate::RangeCheck { lo, hi };
    let witness = range_witness(x, lo, hi);
    let proof = prove(pred, &witness, &[lo, hi], &params).unwrap();
    assert!(verify(&proof, &[lo, hi], &params).unwrap());
}

fn c3_setup() -> (MerkleTree, Vec<u32>, Vec<u32>) {
    let members = vec![10u32, 20, 30, 42];
    let tree = MerkleTree::build(&members);
    let root = tree.root();
    let public_inputs = vec![0u32, 100, root]; // [lo, hi, root]
    (tree, members, public_inputs)
}

#[test]
fn test_c3_different_values_must_not_be_provable() {
    let params = fast_params();
    let (tree, members, public_inputs) = c3_setup();

    let compound = CompoundPredicate::range_and_membership(0, 100, members.clone());
    let mut witness = range_witness(50, 0, 100);
    witness.extend(set_membership_witness(&tree.prove_membership(3)));

    let compiled = compound.compile().unwrap();
    assert!(
        compiled.circuit.evaluate(&witness).is_err(),
        "decoupled witness (x=50 vs leaf=42) must violate the merged circuit"
    );

    let result = prove_compound(compound, &witness, &public_inputs, &params);
    assert!(
        result.is_err(),
        "RangeCheck(50) AND SetMembership(42) must not be provable"
    );
}

#[test]
fn test_c3_same_value_proves_and_verifies() {
    let params = fast_params();
    let (_tree, members, public_inputs) = c3_setup();

    let compound = CompoundPredicate::range_and_membership(0, 100, members.clone());
    let witness = compound.generate_witness(42).unwrap();
    let proof = prove_compound(compound, &witness, &public_inputs, &params).unwrap();

    let compound_v = CompoundPredicate::range_and_membership(0, 100, members);
    assert!(verify_compound(&compound_v, &proof, &public_inputs, &params).unwrap());
}

#[test]
fn test_c3_nested_and_binds_all_subpredicates() {
    let params = fast_params();
    let (tree, members, _pi) = c3_setup();
    let tree_root = tree.root();

    let compound = CompoundPredicate::And(
        Box::new(CompoundPredicate::Single(Predicate::RangeCheck {
            lo: 0,
            hi: 100,
        })),
        Box::new(CompoundPredicate::And(
            Box::new(CompoundPredicate::Single(Predicate::SetMembership {
                members: members.clone(),
            })),
            Box::new(CompoundPredicate::Single(Predicate::RangeCheck {
                lo: 40,
                hi: 44,
            })),
        )),
    );
    let public_inputs = vec![0u32, 100, tree_root, 40, 44];

    let mut honest = range_witness(42, 0, 100);
    honest.extend(set_membership_witness(&tree.prove_membership(3)));
    honest.extend(range_witness(42, 40, 44));
    let proof = prove_compound(compound.clone(), &honest, &public_inputs, &params).unwrap();
    assert!(verify(&proof, &public_inputs, &params).unwrap());

    let mut mixed1 = range_witness(50, 0, 100);
    mixed1.extend(set_membership_witness(&tree.prove_membership(3)));
    mixed1.extend(range_witness(42, 40, 44));
    assert!(prove_compound(compound.clone(), &mixed1, &public_inputs, &params).is_err());

    let mut mixed2 = range_witness(42, 0, 100);
    mixed2.extend(set_membership_witness(&tree.prove_membership(0))); // leaf 10
    mixed2.extend(range_witness(42, 40, 44));
    assert!(
        prove_compound(compound, &mixed2, &public_inputs, &params).is_err(),
        "nested And must reject witnesses whose sub-values differ"
    );
}

fn f1_members() -> Vec<u32> {
    vec![7u32, 8, 9] // pads to [7, 8, 9, 0]
}

#[test]
fn test_f1_end_to_end_small_set_prove_verify() {
    let params = fast_params();
    let members = f1_members();
    let pred = Predicate::SetMembership { members: members.clone() };
    let tree = MerkleTree::build(&members);
    let root = tree.root();
    for idx in 0..members.len() {
        let w = set_membership_witness(&tree.prove_membership(idx));
        let proof = prove(pred.clone(), &w, &[root], &params)
            .unwrap_or_else(|e| panic!("member {} must be provable: {e:?}", members[idx]));
        assert!(
            verify_predicate(&pred, &proof, &[root], &params).unwrap(),
            "member {} (index {idx}) must verify end-to-end",
            members[idx]
        );
    }
}

#[test]
fn test_f1_end_to_end_padded_zero_prove_rejected() {
    let params = fast_params();
    let members = f1_members();
    let tree = MerkleTree::build(&members);
    let root = tree.root();
    let pred = Predicate::SetMembership { members };

    let mp = tree.prove_membership(3);
    assert_eq!(mp.leaf, 0, "padded slot of {{7,8,9}} must hold zero");
    let w = set_membership_witness(&mp);
    assert!(
        prove(pred, &w, &[root], &params).is_err(),
        "proving 0 ∈ {{7,8,9}} via the padded slot must fail"
    );
}

fn forge_padded_index_proof(params: &ProofParams) -> Proof {
    let members = f1_members();
    let tree = MerkleTree::build(&members);
    let root = tree.root();
    let pred = Predicate::SetMembership { members };
    let compiled = pred.compile().unwrap(); 
    let circuit_hash = hash_circuit(&compiled.circuit);
    let num_outputs = compiled.circuit.num_outputs;
    let num_wires = compiled.circuit.num_wires;
    let circuit = compiled.circuit;

    let mp = tree.prove_membership(3);
    assert_eq!(mp.leaf, 0);
    let witness = set_membership_witness(&mp);

    let assert_constraints = circuit.assert_constraints();
    let output_start = num_wires - num_outputs;
    let num_parties = params.num_parties;
    let num_repetitions = params.num_repetitions;

    let mut execs = Vec::with_capacity(num_repetitions);
    let mut root_seeds = Vec::with_capacity(num_repetitions);
    let mut output_shares: Vec<Vec<Vec<u32>>> = Vec::with_capacity(num_repetitions);
    let mut assert_shares: Vec<Vec<Vec<u32>>> = Vec::with_capacity(num_repetitions);
    for _ in 0..num_repetitions {
        let rs = PartySeed::random().0;
        root_seeds.push(rs);
        let st = SeedTree::build(rs, num_parties);
        let seeds: Vec<PartySeed> = st.leaf_seeds().into_iter().map(PartySeed).collect();
        let exec = run_mpc_emulation(&circuit, &witness, &seeds, &[]).unwrap();
        output_shares.push(
            (output_start..num_wires)
                .map(|w| (0..num_parties).map(|p| exec.shared_trace.wires[w].shares[p]).collect())
                .collect(),
        );
        assert_shares.push(
            assert_constraints
                .iter()
                .map(|&(w, _)| (0..num_parties).map(|p| exec.shared_trace.wires[w].shares[p]).collect())
                .collect(),
        );
        execs.push(exec);
    }

    let mut trees = Vec::with_capacity(num_repetitions);
    let mut randomness = Vec::with_capacity(num_repetitions);
    for rep in 0..num_repetitions {
        let mut rep_rand = Vec::with_capacity(num_parties);
        let leaves: Vec<[u8; 32]> = (0..num_parties)
            .map(|p| {
                let r = PartySeed::random().0;
                rep_rand.push(r);
                let view = &execs[rep].views[p];
                commit_view(rep, p, &view.seed, &view.to_commitment_bytes(), &r).0
            })
            .collect();
        randomness.push(rep_rand);
        trees.push(CommitTree::build(&leaves));
    }

    let j = 0usize;
    for rep in 0..num_repetitions {
        for (g, &(_, expected)) in assert_constraints.iter().enumerate() {
            let others: u32 = (0..num_parties)
                .filter(|&p| p != j)
                .fold(0u32, |acc, p| acc.wrapping_add(assert_shares[rep][g][p]));
            assert_shares[rep][g][j] = expected.wrapping_sub(others);
        }
        for o in 0..num_outputs {
            let wire = output_start + o;
            let expected = circuit
                .assert_expected_for_output(wire)
                .expect("membership circuit output is AssertEq-covered");
            let others: u32 = (0..num_parties)
                .filter(|&p| p != j)
                .fold(0u32, |acc, p| acc.wrapping_add(output_shares[rep][o][p]));
            output_shares[rep][o][j] = expected.wrapping_sub(others);
        }
    }

    let mut commit_bytes = Vec::with_capacity(num_repetitions * 32);
    for rep in 0..num_repetitions {
        commit_bytes.extend_from_slice(&trees[rep].root());
        commit_bytes.extend_from_slice(&encode_public_shares(
            &assert_shares[rep],
            &output_shares[rep],
        ));
    }
    let public_inputs = vec![root];
    let challenges = derive_challenges(
        &commit_bytes,
        &public_inputs,
        &circuit_hash,
        num_repetitions,
        num_parties,
    );

    let mut repetitions = Vec::with_capacity(num_repetitions);
    for (rep, &hidden) in challenges.iter().enumerate() {
        let mut opened_views = Vec::with_capacity(num_parties - 1);
        for p in 0..num_parties {
            if p == hidden {
                continue;
            }
            let auth = trees[rep].prove_membership(p);
            opened_views.push(OpenedView {
                view: execs[rep].views[p].clone(),
                commitment_randomness: randomness[rep][p],
                commitment_auth_path: auth.siblings,
            });
        }
        let co_path = SeedTree::build(root_seeds[rep], num_parties).co_path(hidden);
        repetitions.push(RepetitionProof {
            hidden_party: hidden,
            commitment_root: trees[rep].root(),
            co_path,
            opened_views,
            output_shares: output_shares[rep].clone(),
            assert_shares: assert_shares[rep].clone(),
        });
    }

    Proof {
        public_inputs,
        expected_outputs: vec![0],
        repetitions,
        params: params.clone(),
        circuit,
        circuit_hash,
        num_circuit_wires: num_wires,
        num_circuit_outputs: num_outputs,
    }
}

#[test]
fn test_f1_manual_forged_padded_index_proof_rejected() {
    let members = f1_members();
    let root = MerkleTree::build(&members).root();

    let balanced = ProofParams::balanced();
    let forged = forge_padded_index_proof(&balanced);
    let result = verify(&forged, &[root], &balanced);
    assert!(
        !matches!(result, Ok(true)),
        "manually forged padded-index proof must not verify (balanced params)"
    );

    let fast = fast_params();
    for attempt in 0..5 {
        let f = forge_padded_index_proof(&fast);
        assert!(
            !matches!(verify(&f, &[root], &fast), Ok(true)),
            "forged attempt {attempt} must not verify"
        );
    }
}

#[test]
fn test_f1_tampered_index_share_rejected() {
    let params = fast_params();
    let members = f1_members();
    let pred = Predicate::SetMembership { members };
    let tree = MerkleTree::build(&f1_members());
    let root = tree.root();

    let w = set_membership_witness(&tree.prove_membership(1));
    let mut proof = prove(pred, &w, &[root], &params).unwrap();

    let n = params.num_parties;
    let mut touched = false;
    for rep in proof.repetitions.iter_mut() {
        for ov in rep.opened_views.iter_mut() {
            if ov.view.party_idx == n - 1 && ov.view.residual_input_shares.len() > 1 {
                ov.view.residual_input_shares[1] ^= 0xFF;
                touched = true;
            }
        }
    }
    assert!(
        touched,
        "expected the residual party to be opened in at least one repetition"
    );
    let result = verify(&proof, &[root], &params);
    assert!(result.is_err(), "tampered leaf_index share must cause rejection");
}

fn assert_rejects_no_panic(
    label: &str,
    pi: &[u32],
    params: &ProofParams,
    make: impl FnOnce() -> Proof,
) {
    let p = make();
    if let Ok(true) = verify(&p, pi, params) {
        panic!("[{label}]: malformed proof was accepted");
    }
}

fn h2_sync_circuit_fields(proof: &mut Proof) {
    proof.num_circuit_wires = proof.circuit.num_wires;
    proof.num_circuit_outputs = proof.circuit.num_outputs;
    proof.circuit_hash = hash_circuit(&proof.circuit);
}

fn h2_set_gate_wire(gate: &mut Gate, slot: usize, val: usize) -> bool {
    let mut refs: Vec<&mut usize> = match gate {
        Gate::Add { left, right, output }
        | Gate::Mul { left, right, output }
        | Gate::Xor { left, right, output } => vec![left, right, output],
        Gate::AddConst { input, output, .. }
        | Gate::MulConst { input, output, .. }
        | Gate::AssertEq { input, output, .. } => vec![input, output],
    };
    if slot >= refs.len() {
        return false;
    }
    *refs[slot] = val;
    true
}

#[test]
fn test_h2_valid_proofs_still_verify_after_validation() {
    let params = fast_params();

    let pred_add = Predicate::AdditionCheck { expected_sum: 7 };
    assert!(verify(&prove(pred_add, &[3, 4], &[7], &params).unwrap(), &[7], &params).unwrap());

    let pred_mul = Predicate::MultiplicationCheck { expected_product: 12 };
    let pm = prove(pred_mul, &[3, 4], &[12], &params).unwrap();
    assert!(verify(&pm, &[12], &params).unwrap());

    let x = 0b1010u32;
    let y = 0b1100u32;
    let mut w = vec![x, y];
    for i in 0..32 {
        w.push((x >> i) & 1);
    }
    for i in 0..32 {
        w.push((y >> i) & 1);
    }
    let px = prove(Predicate::XorCheck { expected_xor: x ^ y }, &w, &[x ^ y], &params).unwrap();
    assert!(verify(&px, &[x ^ y], &params).unwrap());

    let members = f1_members();
    let tree = MerkleTree::build(&members);
    let root = tree.root();
    let pw = prove(
        Predicate::SetMembership { members },
        &set_membership_witness(&tree.prove_membership(1)),
        &[root],
        &params,
    )
    .unwrap();
    assert!(verify(&pw, &[root], &params).unwrap());

    let pr = prove(
        Predicate::RangeCheck { lo: 0, hi: 1000 },
        &range_witness(500, 0, 1000),
        &[0, 1000],
        &params,
    )
    .unwrap();
    assert!(verify(&pr, &[0, 1000], &params).unwrap());

    let rt = without_local_parts(pr);
    assert!(verify(&rt, &[0, 1000], &params).unwrap());
}

#[test]
fn test_h2_short_residual_input_shares() {
    let params = fast_params();
    let proof = prove(
        Predicate::RangeCheck { lo: 0, hi: 1000 },
        &range_witness(500, 0, 1000),
        &[0, 1000],
        &params,
    )
    .unwrap(); // num_inputs = 67
    let n = params.num_parties;
    let snapshot = proof.clone();
    assert_rejects_no_panic("short residual_input_shares", &[0, 1000], &params, move || {
        let mut p = snapshot;
        for rep in p.repetitions.iter_mut() {
            for ov in rep.opened_views.iter_mut() {
                if ov.view.party_idx == n - 1 && !ov.view.residual_input_shares.is_empty() {
                    ov.view.residual_input_shares.truncate(n);
                }
            }
        }
        p
    });
}

#[test]
fn test_h2_oversized_and_misplaced_residual_input_shares() {
    let params = fast_params();
    let proof = prove(
        Predicate::RangeCheck { lo: 0, hi: 1000 },
        &range_witness(500, 0, 1000),
        &[0, 1000],
        &params,
    )
    .unwrap();
    let n = params.num_parties;

    let snapshot = proof.clone();
    assert_rejects_no_panic(
        "oversized residual_input_shares",
        &[0, 1000],
        &params,
        move || {
            let mut p = snapshot;
            for rep in p.repetitions.iter_mut() {
                for ov in rep.opened_views.iter_mut() {
                    if ov.view.party_idx == n - 1 && !ov.view.residual_input_shares.is_empty()
                    {
                        let last = *ov.view.residual_input_shares.last().unwrap();
                        ov.view.residual_input_shares.push(last);
                    }
                }
            }
            p
        },
    );

    let snapshot = proof.clone();
    assert_rejects_no_panic(
        "non-residual party with residual_input_shares",
        &[0, 1000],
        &params,
        move || {
            let mut p = snapshot;
            for rep in p.repetitions.iter_mut() {
                for ov in rep.opened_views.iter_mut() {
                    if ov.view.party_idx != n - 1 {
                        ov.view.residual_input_shares = vec![0xDEADBEEF; 4];
                    }
                }
            }
            p
        },
    );
}

#[test]
fn test_h2_mul_output_shares_wrong_length() {
    let params = fast_params();
    let proof = prove(
        Predicate::MultiplicationCheck { expected_product: 12 },
        &[3, 4],
        &[12],
        &params,
    )
    .unwrap(); // exactly 1 Mul gate

    let snapshot = proof.clone();
    assert_rejects_no_panic("empty mul_output_shares", &[12], &params, move || {
        let mut p = snapshot;
        for rep in p.repetitions.iter_mut() {
            for ov in rep.opened_views.iter_mut() {
                ov.view.mul_output_shares.clear();
            }
        }
        p
    });

    let snapshot = proof.clone();
    assert_rejects_no_panic("short mul_output_shares", &[12], &params, move || {
        let mut p = snapshot;
        p.repetitions.truncate(1); // keep runtime low; single rep still checked
        for rep in p.repetitions.iter_mut() {
            for ov in rep.opened_views.iter_mut() {
                ov.view.mul_output_shares.pop();
            }
        }
        p
    });
}

#[test]
fn test_h2_invalid_gate_wire_indices() {
    let params = fast_params();
    let proof = prove(
        Predicate::RangeCheck { lo: 0, hi: 1000 },
        &range_witness(500, 0, 1000),
        &[0, 1000],
        &params,
    )
    .unwrap();
    let num_wires = proof.circuit.num_wires;

    for gi in 0..proof.circuit.gates.len() {
        for slot in 0..3usize {
            for &bad in &[num_wires, usize::MAX] {
                let snapshot = proof.clone();
                assert_rejects_no_panic(
                    &format!("gate {gi} slot {slot} = {bad:#x}"),
                    &[0, 1000],
                    &params,
                    move || {
                        let mut p = snapshot;
                        if !h2_set_gate_wire(&mut p.circuit.gates[gi], slot, bad) {
                            p.repetitions.clear();
                        } else {
                            h2_sync_circuit_fields(&mut p);
                        }
                        p
                    },
                );
            }
        }
    }
}

#[test]
fn test_h2_num_wires_too_large_no_allocation() {
    let params = fast_params();
    let proof = prove(Predicate::AdditionCheck { expected_sum: 7 }, &[3, 4], &[7], &params)
        .unwrap();

    for bad in [
        MAX_PROOF_CIRCUIT_WIRES + 1,
        MAX_PROOF_CIRCUIT_WIRES * 16,
        usize::MAX,
    ] {
        let snapshot = proof.clone();
        assert_rejects_no_panic(
            &format!("num_wires = {bad:#x}"),
            &[7],
            &params,
            move || {
                let mut p = snapshot;
                p.circuit.num_wires = bad;
                h2_sync_circuit_fields(&mut p);
                p
            },
        );
    }
}

#[test]
fn test_h2_num_outputs_exceeds_wires_invalid_output_start() {
    let params = fast_params();
    let proof = prove(Predicate::AdditionCheck { expected_sum: 7 }, &[3, 4], &[7], &params)
        .unwrap(); // 4 wires, 1 output

    let snapshot = proof.clone();
    assert_rejects_no_panic("num_outputs > num_wires", &[7], &params, move || {
        let mut p = snapshot;
        let new_outputs = p.circuit.num_wires + 1;
        p.circuit.num_outputs = new_outputs;
        while p.repetitions[0].output_shares.len() < new_outputs {
            p.repetitions[0]
                .output_shares
                .push(vec![0u32; params.num_parties]);
        }
        h2_sync_circuit_fields(&mut p);
        p
    });

    let snapshot = proof.clone();
    assert_rejects_no_panic("dimension mismatch", &[7], &params, move || {
        let mut p = snapshot;
        p.num_circuit_wires += 1;
        p
    });

    let snapshot = proof.clone();
    assert_rejects_no_panic("zero wires", &[7], &params, move || {
        let mut p = snapshot;
        p.circuit.num_wires = 0;
        h2_sync_circuit_fields(&mut p);
        p
    });
}

#[test]
fn test_h2_expected_outputs_wrong_length() {
    let params = fast_params();
    let proof = prove(Predicate::AdditionCheck { expected_sum: 7 }, &[3, 4], &[7], &params)
        .unwrap();

    let snapshot = proof.clone();
    assert_rejects_no_panic("expected_outputs too short", &[7], &params, move || {
        let mut p = snapshot;
        p.expected_outputs.pop();
        p
    });
    let snapshot = proof.clone();
    assert_rejects_no_panic("expected_outputs too long", &[7], &params, move || {
        let mut p = snapshot;
        p.expected_outputs.push(999);
        p
    });
}

#[test]
fn test_h2_invalid_party_indices() {
    let params = fast_params();
    let proof = prove(Predicate::AdditionCheck { expected_sum: 7 }, &[3, 4], &[7], &params)
        .unwrap();
    let n = params.num_parties;

    let snapshot = proof.clone();
    assert_rejects_no_panic("hidden_party == N", &[7], &params, move || {
        let mut p = snapshot;
        p.repetitions[0].hidden_party = n;
        p
    });
    let snapshot = proof.clone();
    assert_rejects_no_panic("hidden_party == usize::MAX", &[7], &params, move || {
        let mut p = snapshot;
        p.repetitions[0].hidden_party = usize::MAX;
        p
    });
    let snapshot = proof.clone();
    assert_rejects_no_panic("opened party_idx == N", &[7], &params, move || {
        let mut p = snapshot;
        p.repetitions[0].opened_views[0].view.party_idx = n;
        p
    });
    let snapshot = proof.clone();
    assert_rejects_no_panic("opened party_idx == usize::MAX", &[7], &params, move || {
        let mut p = snapshot;
        p.repetitions[0].opened_views[0].view.party_idx = usize::MAX;
        p
    });
}

#[test]
fn test_h2_malformed_seed_tree_data() {
    let params = fast_params();
    let proof = prove(Predicate::AdditionCheck { expected_sum: 7 }, &[3, 4], &[7], &params)
        .unwrap();

    let snapshot = proof.clone();
    assert_rejects_no_panic("co_path too short", &[7], &params, move || {
        let mut p = snapshot;
        p.repetitions[0].co_path.pop();
        p
    });
    let snapshot = proof.clone();
    assert_rejects_no_panic("co_path too long", &[7], &params, move || {
        let mut p = snapshot;
        p.repetitions[0].co_path.push([0u8; 32]);
        p
    });
}

#[test]
fn test_h2_malformed_merkle_paths() {
    let params = fast_params();
    let proof = prove(Predicate::AdditionCheck { expected_sum: 7 }, &[3, 4], &[7], &params)
        .unwrap();

    let snapshot = proof.clone();
    assert_rejects_no_panic("auth path too short", &[7], &params, move || {
        let mut p = snapshot;
        p.repetitions[0].opened_views[0].commitment_auth_path.pop();
        p
    });
    let snapshot = proof.clone();
    assert_rejects_no_panic("auth path too long", &[7], &params, move || {
        let mut p = snapshot;
        p.repetitions[0].opened_views[0]
            .commitment_auth_path
            .push([7u8; 32]);
        p
    });
    let snapshot = proof.clone();
    assert_rejects_no_panic("tampered sibling", &[7], &params, move || {
        let mut p = snapshot;
        p.repetitions[0].opened_views[0].commitment_auth_path[0][0] ^= 0x01;
        p
    });
}

#[test]
fn proofs_are_accepted_as_they_are_sent() {
    let params = ProofParams { num_parties: 5, num_repetitions: 8, field_element_bytes: 4 };
    let predicate = Predicate::MultiplicationCheck { expected_product: 12 };
    let proof = prove(predicate, &[3, 4], &[12], &params).unwrap();
    assert!(verify(&without_local_parts(proof), &[12], &params).unwrap());

    let proof = prove(Predicate::AdditionCheck { expected_sum: 7 }, &[3, 4], &[7], &params).unwrap();
    let mut sent = without_local_parts(proof);
    assert!(verify(&sent, &[7], &params).unwrap());
    for rep in sent.repetitions.iter_mut() {
        rep.opened_views.reverse();
        rep.opened_views[0].view.seed = [9u8; 32];
    }
    assert!(verify(&sent, &[7], &params).unwrap());
}

#[test]
fn changed_proofs_are_refused() {
    let params = fast_params();
    let proof = prove(
        Predicate::RangeCheck { lo: 0, hi: 1000 },
        &range_witness(500, 0, 1000),
        &[0, 1000],
        &params,
    )
    .unwrap();

    let mut state: u64 = 0x243F_6A88_85A3_08D3;
    let mut next = move |bound: usize| -> usize {
        state ^= state << 13;
        state ^= state >> 7;
        state ^= state << 17;
        (state.wrapping_mul(0x2545_F491_4F6C_DD1D) % (bound as u64)) as usize
    };
    for _ in 0..300 {
        let mut changed = proof.clone();
        let kind = next(10);
        let rep = &mut changed.repetitions[next(10)];
        let view = next(2);
        match kind {
            0 => rep.commitment_root[next(32)] ^= 1 << next(8),
            1 => rep.co_path[1][next(32)] ^= 1 << next(8),
            2 => rep.opened_views[view].commitment_randomness[next(32)] ^= 1 << next(8),
            3 => rep.opened_views[view].commitment_auth_path[next(2)][next(32)] ^= 1 << next(8),
            4 => rep.opened_views[view].view.mul_output_shares[next(52)] ^= 1 << next(32),
            5 => rep.opened_views[view].view.party_idx ^= 1 + next(3),
            6 => rep.assert_shares[next(55)][next(3)] ^= 1 << next(32),
            7 => rep.output_shares[0][next(3)] ^= 1 << next(32),
            8 => rep.hidden_party ^= 1 + next(3),
            _ => rep.opened_views[view].view.wire_shares[next(100)] ^= 1 << next(32),
        }
        assert!(verify(&changed, &[0, 1000], &params).is_err(), "change of kind {kind}");
    }
}
