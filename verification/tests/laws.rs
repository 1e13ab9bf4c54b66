//! What holds of the library as a whole, on concrete values.

use mpcith_zk::circuit::Circuit;
use mpcith_zk::circuit::CircuitBuilder;
use mpcith_zk::circuit::Gate;
use mpcith_zk::commitment::Commitment;
use mpcith_zk::commitment::CommitmentMatrix;
use mpcith_zk::fiat_shamir::hash_circuit;
use mpcith_zk::merge::merge_same_witness_circuits;
use mpcith_zk::merkle::MerkleTree;
use mpcith_zk::mpc::recompute_linear_shares;
use mpcith_zk::mpc::run_mpc_emulation;
use mpcith_zk::mpc::verify_party_view;
use mpcith_zk::params::ProofParams;
use mpcith_zk::predicate::CompoundPredicate;
use mpcith_zk::predicate::Predicate;
use mpcith_zk::product::is_on_right;
use mpcith_zk::proofs::ProverRandomness;
use mpcith_zk::prove;
use mpcith_zk::prove_compound;
use mpcith_zk::prover::prove_with_randomness;
use mpcith_zk::sharing::PartySeed;
use mpcith_zk::sharing::SharedTrace;
use mpcith_zk::sharing::Sharing;
use mpcith_zk::tx_validation::create_transaction_proof;
use mpcith_zk::tx_validation::verify_transaction_proof;
use mpcith_zk::tx_validation::TransactionStatement;
use mpcith_zk::tx_validation::TransactionWitness;
use mpcith_zk::verify;
use mpcith_zk::verify_predicate;
use mpcith_zk::MpcithError;

fn with_parties(num_parties: usize) -> ProofParams {
    ProofParams { num_parties, num_repetitions: 6, field_element_bytes: 4 }
}

/// A circuit with every gate that a proof can contain.
fn mixed_circuit() -> Circuit {
    let mut builder = CircuitBuilder::new(3);
    let a = builder.mul(0, 1);
    let b = builder.add(a, 2);
    let c = builder.mul_const(b, 0xffff_fff0);
    let d = builder.add_const(c, 77);
    let e = builder.mul(d, d);
    let f = builder.mul(e, a);
    builder.assert_eq(b, 17);
    builder.assert_eq(f, expected_product());
    builder.build(2)
}

fn expected_product() -> u32 {
    let d = 17u32.wrapping_mul(0xffff_fff0).wrapping_add(77);
    d.wrapping_mul(d).wrapping_mul(12)
}

#[test]
fn honest_proofs_are_accepted_for_any_number_of_parties() {
    for n in [3, 4, 5, 6, 7, 8, 9, 16, 17] {
        let params = with_parties(n);
        let predicate = Predicate::MultiplicationCheck { expected_product: 12 };
        let proof = prove(predicate.clone(), &[3, 4], &[12], &params).unwrap();
        assert!(verify(&proof, &[12], &params).unwrap(), "{n} parties");
        assert!(verify_predicate(&predicate, &proof, &[12], &params).unwrap());
        for rep in proof.repetitions.iter() {
            assert!(rep.hidden_party < n);
            assert_eq!(rep.opened_views.len(), n - 1);
        }
    }
}

#[test]
fn proofs_of_mixed_circuits() {
    let circuit = mixed_circuit();
    let params = with_parties(5);
    let randomness = ProverRandomness {
        root_seeds: (0..6).map(|_| PartySeed::random().0).collect(),
        openings: (0..6).map(|_| (0..5).map(|_| PartySeed::random().0).collect()).collect(),
    };
    let proof = prove_with_randomness(&circuit, &[3, 4, 5], &[], &params, &randomness).unwrap();
    assert!(verify(&proof, &[], &params).unwrap());
    assert_eq!(proof.expected_outputs, vec![17, expected_product()]);
    assert!(matches!(
        prove_with_randomness(&circuit, &[3, 4, 6], &[], &params, &randomness),
        Err(MpcithError::InvalidWitness(_))
    ));
}

#[test]
fn proofs_follow_from_their_randomness() {
    let circuit = mixed_circuit();
    let params = with_parties(3);
    let mut randomness = ProverRandomness {
        root_seeds: (0..6u8).map(|i| [i; 32]).collect(),
        openings: (0..6u8).map(|i| (0..3u8).map(|p| [16 * i + p; 32]).collect()).collect(),
    };
    let first = prove_with_randomness(&circuit, &[3, 4, 5], &[1], &params, &randomness).unwrap();
    let again = prove_with_randomness(&circuit, &[3, 4, 5], &[1], &params, &randomness).unwrap();
    assert_eq!(format!("{first:?}"), format!("{again:?}"));
    randomness.openings[0][0] = [200u8; 32];
    let other = prove_with_randomness(&circuit, &[3, 4, 5], &[1], &params, &randomness).unwrap();
    assert_ne!(first.repetitions[0].commitment_root, other.repetitions[0].commitment_root);
}

#[test]
fn a_changed_multiplication_share_is_noticed() {
    let params = with_parties(4);
    let predicate = Predicate::MultiplicationCheck { expected_product: 12 };
    let mut proof = prove(predicate, &[3, 4], &[12], &params).unwrap();
    proof.repetitions[3].opened_views[2].view.mul_output_shares[0] ^= 4;
    assert!(matches!(
        verify(&proof, &[12], &params),
        Err(MpcithError::CommitmentMismatch { repetition: 3, .. })
    ));
}

#[test]
fn shares_add_up_to_the_trace() {
    let circuit = mixed_circuit();
    let witness = [3, 4, 5];
    let trace = circuit.evaluate(&witness).unwrap();
    for n in [2usize, 3, 4, 7, 16] {
        let seeds: Vec<PartySeed> = (0..n).map(|_| PartySeed::random()).collect();
        let exec = run_mpc_emulation(&circuit, &witness, &seeds, &[]).unwrap();
        for (wire, &value) in trace.iter().enumerate() {
            assert_eq!(exec.shared_trace.reconstruct_wire(wire), value);
        }
        for p in 0..n {
            let view = &exec.views[p];
            assert_eq!(view.wire_shares, exec.shared_trace.party_view(p));
            let again = recompute_linear_shares(
                &circuit,
                &seeds[p].0,
                p,
                n,
                &view.mul_output_shares,
                &view.residual_input_shares,
            );
            assert_eq!(again, view.wire_shares);
        }
    }
}

#[test]
fn honest_views_fit_together_with_the_sums_on_their_right() {
    let circuit = mixed_circuit();
    for n in [3usize, 4, 6, 16] {
        let seeds: Vec<PartySeed> = (0..n).map(|_| PartySeed::random()).collect();
        let exec = run_mpc_emulation(&circuit, &[3, 4, 5], &seeds, &[]).unwrap();
        for p in 0..n {
            let mut sums = vec![0u32; circuit.num_wires];
            for (wire, sum) in sums.iter_mut().enumerate() {
                for q in 0..n {
                    if is_on_right(p, q, n) {
                        *sum = sum.wrapping_add(exec.shared_trace.wires[wire].shares[q]);
                    }
                }
            }
            let own = &exec.views[p].wire_shares;
            let next = &seeds[(p + 1) % n].0;
            assert!(verify_party_view(&circuit, own, p, &seeds[p].0, Some((next, &sums))).is_ok());
            let mut wrong = own.clone();
            wrong[3] ^= 1;
            assert!(matches!(
                verify_party_view(&circuit, &wrong, p, &seeds[p].0, Some((next, &sums))),
                Err(MpcithError::ConsistencyCheckFailed(q)) if q == p
            ));
        }
    }
}

#[test]
fn of_two_parties_one_is_on_the_right() {
    for n in 2..20usize {
        for p in 0..n {
            assert!(!is_on_right(p, p, n));
            for q in 0..n {
                if p != q {
                    assert_ne!(is_on_right(p, q, n), is_on_right(q, p, n));
                }
            }
        }
    }
    assert!(is_on_right(2, 0, 3));
    assert!(!is_on_right(0, 2, 3));
}

#[test]
fn exclusive_ors_are_shared_again() {
    let circuit = Circuit {
        num_wires: 4,
        num_inputs: 2,
        num_outputs: 1,
        gates: vec![
            Gate::Xor { left: 0, right: 1, output: 2 },
            Gate::Xor { left: 2, right: 1, output: 3 },
        ],
    };
    let seeds: Vec<PartySeed> = (0..3).map(|_| PartySeed::random()).collect();
    let exec = run_mpc_emulation(&circuit, &[0b1100, 0b1010], &seeds, &[1, 2, 3, 4]).unwrap();
    assert_eq!(exec.shared_trace.wires[2].shares[..2], [1, 2]);
    assert_eq!(exec.shared_trace.wires[3].shares[..2], [3, 4]);
    assert_eq!(exec.shared_trace.wires[2].reconstruct(), 0b0110);
    assert_eq!(exec.output_values, vec![0b1100]);
}

#[test]
fn sharings_compute_on_shares() {
    let a = Sharing::share(10, 3, &[u32::MAX, 7]);
    assert_eq!(a.shares, vec![u32::MAX, 7, 4]);
    let b = Sharing::share_xor(10, 3, &[0xff, 0xf0]);
    assert_eq!(b.shares, vec![0xff, 0xf0, 10 ^ 0xff ^ 0xf0]);
    assert_eq!(a.num_parties(), 3);
    assert_eq!(a.add_const(5).shares, vec![4, 7, 4]);
    assert_eq!(a.mul_const(2).shares, vec![u32::MAX - 1, 14, 8]);
    let mut trace = SharedTrace::new(2, 3);
    trace.wires.push(a);
    trace.wires.push(Sharing { shares: vec![1, 2, 3] });
    assert_eq!(trace.party_view(1), vec![7, 2]);
    assert_eq!(trace.reconstruct_wire(1), 6);
}

#[test]
fn commitment_matrices() {
    let mut matrix = CommitmentMatrix::new(2, 3);
    assert_eq!(matrix.get(1, 2).0, [0u8; 32]);
    matrix.set(1, 0, Commitment([5u8; 32]));
    assert_eq!(matrix.get(1, 0).0, [5u8; 32]);
    assert_eq!(matrix.get(0, 0).0, [0u8; 32]);
    let bytes = matrix.to_bytes();
    assert_eq!(bytes.len(), 192);
    assert_eq!(bytes[96..128], [5u8; 32]);
    assert!(bytes[..96].iter().all(|&b| b == 0));
}

#[test]
fn circuits_count_and_list_their_gates() {
    let circuit = mixed_circuit();
    assert_eq!(circuit.num_wires, 11);
    assert_eq!(circuit.num_mul_gates(), 3);
    assert_eq!(circuit.assert_constraints(), vec![(4, 17), (8, expected_product())]);
    assert_eq!(circuit.assert_expected_for_output(9), Some(17));
    assert_eq!(circuit.assert_expected_for_output(8), None);
    assert!(circuit.gates[0].is_interactive());
    assert!(!circuit.gates[1].is_interactive());
    assert_eq!(circuit.gates[1].output_wire(), 4);
    let trace = circuit.evaluate(&[3, 4, 5]).unwrap();
    assert_eq!(circuit.outputs(&trace), [17, expected_product()]);
}

#[test]
fn parameters() {
    let values = |p: ProofParams| (p.num_parties, p.num_repetitions, p.field_element_bytes);
    assert_eq!(values(ProofParams::low_n()), (3, 64, 4));
    assert_eq!(values(ProofParams::balanced()), (16, 38, 4));
    assert_eq!(values(ProofParams::default()), (16, 38, 4));
    assert_eq!(values(ProofParams::fast_insecure()), (3, 10, 4));
    assert_eq!(values(ProofParams::secure_128()), (16, 32, 4));
    assert_eq!(values(ProofParams::secure_100()), (16, 25, 4));
    assert_eq!(values(ProofParams::fabric_recommended()), (16, 25, 4));
    // 10 * (2 * 5 * 4 + 3 * 32) + 2 * 4
    assert_eq!(ProofParams::fast_insecure().estimated_proof_bytes(2, 5), 1368);
}

#[test]
fn the_number_of_members_is_part_of_the_circuit() {
    let mut digests = Vec::new();
    for count in 5..=8 {
        let compiled =
            CompoundPredicate::range_and_membership_for_verify(0, 100, 1234, 3, count).unwrap();
        digests.push(hash_circuit(&compiled.circuit));
    }
    for i in 0..digests.len() {
        for j in 0..i {
            assert_ne!(digests[i], digests[j]);
        }
    }
}

#[test]
fn generated_witnesses_are_accepted_where_the_statement_is_true() {
    let range = Predicate::RangeCheck { lo: 5, hi: 9 };
    let circuit = range.compile().unwrap().circuit;
    for value in [0u32, 4, 5, 7, 9, 10, u32::MAX] {
        let witness = range.generate_witness(value).unwrap();
        assert_eq!(circuit.evaluate(&witness).is_ok(), (5..=9).contains(&value));
    }
    assert_eq!(range.witness_size(), 1);
    let members = Predicate::SetMembership { members: vec![4, 8, 8, 15, 16] };
    assert_eq!(members.witness_size(), 5);
    let circuit = members.compile().unwrap().circuit;
    for value in [4u32, 8, 15, 16] {
        assert!(circuit.evaluate(&members.generate_witness(value).unwrap()).is_ok());
    }
    assert!(members.generate_witness(0).is_err());
    let both = CompoundPredicate::range_and_membership(5, 9, vec![4, 8, 15]);
    let circuit = both.compile().unwrap().circuit;
    for value in [4u32, 8, 15] {
        let witness = both.generate_witness(value).unwrap();
        assert_eq!(circuit.evaluate(&witness).is_ok(), value == 8);
    }
}

#[test]
fn parts_of_a_compound_share_their_value() {
    let both = CompoundPredicate::And(
        Box::new(CompoundPredicate::Single(Predicate::RangeCheck { lo: 1, hi: 5 })),
        Box::new(CompoundPredicate::Single(Predicate::RangeCheck { lo: 3, hi: 9 })),
    );
    let params = ProofParams::fast_insecure();
    let witness = both.generate_witness(4).unwrap();
    assert!(prove_compound(both.clone(), &witness, &[], &params).is_ok());
    let mut mixed = Predicate::RangeCheck { lo: 1, hi: 5 }.generate_witness(2).unwrap();
    mixed.extend(Predicate::RangeCheck { lo: 3, hi: 9 }.generate_witness(8).unwrap());
    assert!(prove_compound(both, &mixed, &[], &params).is_err());
}

fn transaction() -> (TransactionStatement, TransactionWitness) {
    let members = vec![10u32, 20, 500];
    let tree = MerkleTree::build(&members);
    let statement = TransactionStatement {
        amount_range: (1, 1000),
        authorized_set_root: tree.root(),
        merkle_depth: 2,
        num_members: members.len(),
        context: b"block".to_vec(),
        members,
    };
    (statement, TransactionWitness { secret_value: 20, merkle_proof: tree.prove_membership(1) })
}

#[test]
fn transaction_proofs_cannot_be_replayed() {
    let params = ProofParams::fast_insecure();
    let (statement, witness) = transaction();
    let proof = create_transaction_proof(&statement, &witness, &params).unwrap();
    assert!(verify_transaction_proof(&proof, &statement, &params).unwrap());
    let refused = |change: fn(&mut TransactionStatement)| {
        let mut other = statement.clone();
        change(&mut other);
        assert!(verify_transaction_proof(&proof, &other, &params).is_err());
    };
    refused(|s| s.context = b"another block".to_vec());
    refused(|s| s.context = vec![]);
    refused(|s| s.amount_range = (0, 1000));
    refused(|s| s.amount_range = (1, 1001));
    refused(|s| s.authorized_set_root ^= 1);
    refused(|s| s.merkle_depth = 3);
    refused(|s| s.num_members = 2);
    let mut without_list = statement.clone();
    without_list.members = vec![];
    assert!(verify_transaction_proof(&proof, &without_list, &params).unwrap());
}

#[test]
fn transaction_proofs_need_a_merkle_proof_for_the_value() {
    let params = ProofParams::fast_insecure();
    let (statement, witness) = transaction();
    let text = "Invalid witness: Merkle proof does not verify against the authorized set root";
    let refused = |change: fn(&mut TransactionWitness)| {
        let mut other = witness.clone();
        change(&mut other);
        assert_eq!(
            create_transaction_proof(&statement, &other, &params).unwrap_err().message(),
            text
        );
    };
    refused(|w| w.merkle_proof.siblings[0] ^= 1);
    refused(|w| w.merkle_proof.leaf_index = 0);
    refused(|w| w.merkle_proof.root ^= 1);
    refused(|w| w.secret_value = 10);
    let mut other = witness.clone();
    other.secret_value = 21;
    assert_eq!(
        create_transaction_proof(&statement, &other, &params).unwrap_err().message(),
        "Invalid witness: Value 21 is not in the member set"
    );
}

#[test]
fn another_circuit_is_refused_for_a_transaction() {
    let params = ProofParams::fast_insecure();
    let (statement, _) = transaction();
    let proof =
        prove(Predicate::AdditionCheck { expected_sum: 7 }, &[3, 4], &[7], &params).unwrap();
    assert_eq!(
        verify_transaction_proof(&proof, &statement, &params).unwrap_err().message(),
        "Proof verification failed: Proof circuit does not match the circuit implied by the \
         transaction statement. Possible circuit-substitution attack."
    );
}

#[test]
fn conjunctions_have_the_outputs_of_their_parts() {
    let sum = Predicate::AdditionCheck { expected_sum: 7 }.compile().unwrap().circuit;
    let product = Predicate::MultiplicationCheck { expected_product: 12 }.compile().unwrap().circuit;
    let merged = merge_same_witness_circuits(&sum, &product);
    let trace = merged.evaluate(&[3, 4, 3, 4]).unwrap();
    assert_eq!(merged.outputs(&trace), [7, 12]);
    assert_eq!(merged.num_wires, sum.num_wires + product.num_wires + 5);
    let twice = merge_same_witness_circuits(&merged, &sum);
    let trace = twice.evaluate(&[3, 4, 3, 4, 3, 4]).unwrap();
    assert_eq!(twice.outputs(&trace), [7, 12, 7]);
}

#[test]
fn circuits_that_assert_nothing_keep_their_outputs() {
    let mut left = CircuitBuilder::new(1);
    left.add_const(0, 5);
    let mut right = CircuitBuilder::new(1);
    right.mul_const(0, 3);
    let merged = merge_same_witness_circuits(&left.build(1), &right.build(2));
    let trace = merged.evaluate(&[4, 4]).unwrap();
    assert_eq!(merged.outputs(&trace), [9, 4, 12]);
}

#[test]
fn published_outputs_do_not_depend_on_the_secret() {
    let params = ProofParams::fast_insecure();
    let range = || {
        Box::new(CompoundPredicate::Single(Predicate::RangeCheck { lo: 0, hi: 100 }))
    };
    let mut joined = range();
    for _ in 0..4 {
        joined = Box::new(CompoundPredicate::And(joined, range()));
    }
    let outputs = |value: u32| {
        let witness = joined.generate_witness(value).unwrap();
        let proof = prove_compound((*joined).clone(), &witness, &[], &params).unwrap();
        for repetition in &proof.repetitions {
            for (o, shares) in repetition.output_shares.iter().enumerate() {
                let sum = shares.iter().fold(0u32, |a, s| a.wrapping_add(*s));
                assert_eq!(sum, proof.expected_outputs[o]);
            }
        }
        for o in 0..proof.circuit.num_outputs {
            let wire = proof.circuit.num_wires - proof.circuit.num_outputs + o;
            let asserted = proof.circuit.assert_expected_for_output(wire);
            assert_eq!(asserted, Some(proof.expected_outputs[o]));
        }
        proof.expected_outputs.clone()
    };
    assert_eq!(outputs(42), outputs(7));
    assert_eq!(outputs(42).len(), 5);
}

#[test]
fn every_field_of_a_circuit_changes_its_hash() {
    let circuit = Circuit {
        num_wires: 6,
        num_inputs: 2,
        num_outputs: 1,
        gates: vec![
            Gate::Add { left: 0, right: 1, output: 2 },
            Gate::Mul { left: 0, right: 2, output: 3 },
            Gate::AddConst { input: 3, constant: 9, output: 4 },
            Gate::AssertEq { input: 4, expected: 7, output: 5 },
        ],
    };
    let hash = hash_circuit(&circuit);
    assert_eq!(hash.len(), 32);
    assert_eq!(hash_circuit(&circuit.clone()), hash);
    let differs = |change: fn(&mut Circuit)| {
        let mut other = circuit.clone();
        change(&mut other);
        assert_ne!(hash_circuit(&other), hash);
    };
    differs(|c| c.num_wires = 7);
    differs(|c| c.num_inputs = 3);
    differs(|c| c.num_outputs = 2);
    differs(|c| c.gates[0] = Gate::Add { left: 1, right: 1, output: 2 });
    differs(|c| c.gates[1] = Gate::Mul { left: 0, right: 1, output: 3 });
    differs(|c| c.gates[2] = Gate::AddConst { input: 3, constant: 8, output: 4 });
    differs(|c| c.gates[2] = Gate::MulConst { input: 3, constant: 9, output: 4 });
    differs(|c| c.gates[3] = Gate::AssertEq { input: 4, expected: 8, output: 5 });
    differs(|c| c.gates[3] = Gate::AssertEq { input: 4, expected: 7, output: 4 });
}
