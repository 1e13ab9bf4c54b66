//! Every error and when it comes.

use mpcith_zk::circuit::CircuitBuilder;
use mpcith_zk::circuit::Gate;
use mpcith_zk::fiat_shamir::hash_circuit;
use mpcith_zk::params::ProofParams;
use mpcith_zk::predicate::compile_set_membership_from_root;
use mpcith_zk::predicate::CompoundPredicate;
use mpcith_zk::predicate::Predicate;
use mpcith_zk::prove;
use mpcith_zk::prove_compound;
use mpcith_zk::validation::validate_proof_structure;
use mpcith_zk::verify;
use mpcith_zk::verify_compound;
use mpcith_zk::verify_predicate;
use mpcith_zk::MpcithError;
use mpcith_zk::Proof;

fn params() -> ProofParams {
    ProofParams::fast_insecure()
}

fn addition() -> Proof {
    prove(Predicate::AdditionCheck { expected_sum: 7 }, &[3, 4], &[7], &params()).unwrap()
}

fn message(proof: &Proof) -> String {
    verify(proof, &[7], &params()).unwrap_err().message()
}

/// The proof with a changed circuit and the digest of that circuit.
fn with_gate(change: impl FnOnce(&mut Proof)) -> Proof {
    let mut proof = addition();
    change(&mut proof);
    proof.circuit_hash = hash_circuit(&proof.circuit);
    proof
}

#[test]
fn messages() {
    let cases = [
        (MpcithError::VerificationFailed("a".to_string()), "Proof verification failed: a"),
        (MpcithError::InvalidParams("b".to_string()), "Invalid parameters: b"),
        (MpcithError::CircuitError("c".to_string()), "Circuit evaluation error: c"),
        (
            MpcithError::CommitmentMismatch { party: 10, repetition: 0 },
            "Commitment mismatch at party 10, repetition 0",
        ),
        (MpcithError::SerializationError("d".to_string()), "Serialization error: d"),
        (MpcithError::InvalidWitness("e".to_string()), "Invalid witness: e"),
        (MpcithError::ConsistencyCheckFailed(205), "Consistency check failed at repetition 205"),
    ];
    for (error, expected) in cases {
        assert_eq!(error.message(), expected);
    }
}

#[test]
fn evaluation_errors() {
    let mut builder = CircuitBuilder::new(2);
    let sum = builder.add(0, 1);
    builder.assert_eq(sum, 7);
    let circuit = builder.build(1);
    assert_eq!(
        circuit.evaluate(&[1]).unwrap_err().message(),
        "Circuit evaluation error: Expected 2 witness values, got 1"
    );
    assert_eq!(
        circuit.evaluate(&[3, 5]).unwrap_err().message(),
        "Circuit evaluation error: AssertEq failed: wire 2 = 8, expected 7"
    );
}

#[test]
fn parameter_errors() {
    let few_parties = ProofParams { num_parties: 2, num_repetitions: 10, field_element_bytes: 4 };
    let no_repetition = ProofParams { num_parties: 3, num_repetitions: 0, field_element_bytes: 4 };
    assert_eq!(
        few_parties.validate().unwrap_err().message(),
        "Invalid parameters: num_parties must be >= 3"
    );
    assert_eq!(
        no_repetition.validate().unwrap_err().message(),
        "Invalid parameters: num_repetitions must be >= 1"
    );
    assert!(ProofParams::low_n().validate().is_ok());
    let predicate = Predicate::AdditionCheck { expected_sum: 7 };
    assert!(matches!(
        prove(predicate, &[3, 4], &[7], &few_parties),
        Err(MpcithError::InvalidParams(_))
    ));
    assert!(matches!(
        verify(&addition(), &[7], &no_repetition),
        Err(MpcithError::InvalidParams(_))
    ));
}

#[test]
fn statement_errors() {
    let text = |p: Predicate| p.compile().err().unwrap().message();
    assert_eq!(
        text(Predicate::RangeCheck { lo: 5, hi: 4 }),
        "Invalid parameters: Range check requires lo <= hi"
    );
    assert_eq!(
        text(Predicate::RangeCheck { lo: 1, hi: 0x8000_0001 }),
        "Invalid parameters: RangeCheck requires hi - lo < 2^31 (got width 2147483648); wider \
         ranges make the bit-decomposition range proof vacuous"
    );
    assert_eq!(
        text(Predicate::SetMembership { members: vec![] }),
        "Invalid parameters: Set membership requires at least one member"
    );
    assert_eq!(
        compile_set_membership_from_root(1, 2, 5).err().unwrap().message(),
        "Invalid parameters: Member count 5 inconsistent with tree depth 2"
    );
    let compound = CompoundPredicate::range_and_membership(5, 4, vec![]);
    assert_eq!(
        compound.compile().err().unwrap().message(),
        "Invalid parameters: Range check requires lo <= hi"
    );
}

#[test]
fn witness_errors() {
    let members = Predicate::SetMembership { members: vec![1, 2] };
    assert_eq!(
        members.generate_witness(3).unwrap_err().message(),
        "Invalid witness: Value 3 is not in the member set"
    );
    assert_eq!(
        Predicate::AdditionCheck { expected_sum: 1 }.generate_witness(1).unwrap_err().message(),
        "Invalid parameters: generate_witness is not supported for this predicate variant"
    );
    let sum = Predicate::AdditionCheck { expected_sum: 7 };
    assert_eq!(
        prove(sum, &[3, 5], &[7], &params()).unwrap_err().message(),
        "Invalid witness: Witness does not satisfy circuit: Circuit evaluation error: AssertEq \
         failed: wire 2 = 8, expected 7"
    );
    let compound = CompoundPredicate::range_and_membership(0, 10, vec![1, 2]);
    assert!(matches!(
        prove_compound(compound, &[1], &[], &params()),
        Err(MpcithError::InvalidWitness(_))
    ));
}

#[test]
fn wrong_inputs_and_repetitions() {
    let proof = addition();
    assert_eq!(
        verify(&proof, &[8], &params()).unwrap_err().message(),
        "Proof verification failed: Public inputs do not match proof"
    );
    let mut short = proof.clone();
    short.repetitions.pop();
    assert_eq!(
        message(&short),
        "Proof verification failed: Expected 10 repetitions, got 9"
    );
    let mut other = proof;
    other.circuit_hash[0] ^= 1;
    assert_eq!(
        message(&other),
        "Proof verification failed: Embedded circuit hash does not match proof circuit_hash"
    );
}

#[test]
fn wrong_circuit_shapes() {
    assert_eq!(
        message(&with_gate(|p| p.circuit.num_wires = 0)),
        "Proof verification failed: malformed proof: circuit declares zero wires"
    );
    assert_eq!(
        message(&with_gate(|p| p.circuit.num_wires = 4194305)),
        "Proof verification failed: malformed proof: circuit.num_wires 4194305 exceeds maximum \
         4194304"
    );
    assert_eq!(
        message(&with_gate(|p| p.circuit.num_inputs = 5)),
        "Proof verification failed: malformed proof: num_inputs 5 exceeds num_wires 4"
    );
    assert_eq!(
        message(&with_gate(|p| p.num_circuit_wires = 9)),
        "Proof verification failed: malformed proof: declared dimensions (9, 1) inconsistent with \
         embedded circuit (4, 1)"
    );
    assert_eq!(
        message(&with_gate(|p| {
            p.circuit.num_outputs = 5;
            p.num_circuit_outputs = 5;
        })),
        "Proof verification failed: malformed proof: num_outputs 5 exceeds num_wires 4"
    );
    assert_eq!(
        message(&with_gate(|p| p.circuit.gates[1] = Gate::AssertEq {
            input: 4,
            expected: 7,
            output: 3
        })),
        "Proof verification failed: malformed proof: gate 1 references a wire outside 0..4"
    );
    assert_eq!(
        message(&with_gate(|p| p.circuit.gates[0] = Gate::Xor { left: 0, right: 1, output: 2 })),
        "Proof verification failed: malformed proof: gate 0 is an XOR gate, which cannot be \
         verified"
    );
    assert_eq!(
        message(&with_gate(|p| p.expected_outputs.push(1))),
        "Proof verification failed: malformed proof: expected_outputs has length 2, expected 1"
    );
}

#[test]
fn too_many_gates() {
    let mut proof = addition();
    let gate = proof.circuit.gates[0];
    proof.circuit.gates = vec![gate; 4194305];
    assert_eq!(
        validate_proof_structure(&proof, &params()).unwrap_err().message(),
        "Proof verification failed: malformed proof: circuit has 4194305 gates, exceeding maximum \
         4194304"
    );
}

#[test]
fn wrong_repetition_shapes() {
    let prefix = "Proof verification failed: malformed proof: repetition 1: ";
    let check = |change: fn(&mut Proof), expected: &str| {
        let mut proof = addition();
        change(&mut proof);
        assert_eq!(message(&proof), format!("{prefix}{expected}"));
    };
    check(
        |p| p.repetitions[1].hidden_party = 3,
        "hidden_party 3 out of range (num_parties = 3)",
    );
    check(
        |p| {
            p.repetitions[1].opened_views.pop();
        },
        "expected 2 opened views, got 1",
    );
    check(
        |p| p.repetitions[1].opened_views[0].view.party_idx = 30,
        "opened party index 30 out of range (num_parties = 3)",
    );
    check(|p| p.repetitions[1].co_path.push([0u8; 32]), "co_path has length 3, expected 2");
    check(
        |p| p.repetitions[1].assert_shares.push(vec![0; 3]),
        "expected 1 AssertEq share rows, got 2",
    );
    check(
        |p| {
            p.repetitions[1].output_shares.pop();
        },
        "expected 1 output share rows, got 0",
    );
    check(
        |p| p.repetitions[1].output_shares[0].push(0),
        "per-party share row has wrong party count",
    );
    check(
        |p| p.repetitions[1].assert_shares[0].push(0),
        "per-party share row has wrong party count",
    );
}

#[test]
fn wrong_view_shapes() {
    let mut proof = addition();
    let hidden = proof.repetitions[0].hidden_party;
    let first = proof.repetitions[0].opened_views[0].view.party_idx;
    let check = |change: &dyn Fn(&mut Proof), expected: String| {
        let mut changed = proof.clone();
        change(&mut changed);
        assert_eq!(
            message(&changed),
            format!("Proof verification failed: malformed proof: repetition 0: {expected}")
        );
    };
    check(
        &|p| p.repetitions[0].opened_views[0].view.party_idx = hidden,
        format!("opened view claims hidden party {hidden}"),
    );
    check(
        &|p| p.repetitions[0].opened_views[1].view.party_idx = first,
        format!("duplicate opened party index {first}"),
    );
    check(
        &|p| p.repetitions[0].opened_views[0].view.mul_output_shares.push(1),
        format!("party {first}: mul_output_shares has length 1, expected 0"),
    );
    check(
        &|p| p.repetitions[0].opened_views[0].view.residual_input_shares = vec![1; 5],
        format!(
            "party {first}: residual_input_shares has length 5, expected {}",
            if first == 2 { 2 } else { 0 }
        ),
    );
    check(
        &|p| {
            p.repetitions[0].opened_views[0].commitment_auth_path.pop();
        },
        format!("party {first}: commitment_auth_path has length 1, expected 2"),
    );
    proof.repetitions[0].opened_views[0].commitment_randomness[5] ^= 1;
    assert_eq!(
        message(&proof),
        format!("Commitment mismatch at party {first}, repetition 0")
    );
}

#[test]
fn wrong_hidden_party() {
    let mut proof = addition();
    let hidden = proof.repetitions[2].hidden_party;
    let other = (hidden + 1) % 3;
    for opened in proof.repetitions[2].opened_views.iter_mut() {
        if opened.view.party_idx == other {
            opened.view.party_idx = hidden;
            opened.view.residual_input_shares =
                if hidden == 2 { vec![0, 0] } else { vec![] };
        }
    }
    proof.repetitions[2].hidden_party = other;
    assert_eq!(
        message(&proof),
        format!(
            "Proof verification failed: Repetition 2: hidden party mismatch (expected {hidden}, \
             got {other})"
        )
    );
}

#[test]
fn wrong_wire_shares() {
    let mut proof = addition();
    let party = proof.repetitions[0].opened_views[1].view.party_idx;
    proof.repetitions[0].opened_views[1].view.wire_shares[2] ^= 1;
    assert!(matches!(
        verify(&proof, &[7], &params()),
        Err(MpcithError::ConsistencyCheckFailed(p)) if p == party
    ));
}

#[test]
fn another_predicate() {
    let proof = addition();
    let other = Predicate::AdditionCheck { expected_sum: 8 };
    assert_eq!(
        verify_predicate(&other, &proof, &[7], &params()).unwrap_err().message(),
        "Proof verification failed: Proof circuit does not match the predicate — possible \
         circuit-substitution attack"
    );
    let compound = CompoundPredicate::Single(other);
    assert_eq!(
        verify_compound(&compound, &proof, &[7], &params()).unwrap_err().message(),
        "Proof verification failed: Proof circuit does not match the compound predicate — \
         possible circuit-substitution attack"
    );
    let same = CompoundPredicate::Single(Predicate::AdditionCheck { expected_sum: 7 });
    assert!(verify_compound(&same, &proof, &[7], &params()).unwrap());
    let empty = Predicate::SetMembership { members: vec![] };
    assert!(matches!(
        verify_predicate(&empty, &proof, &[7], &params()),
        Err(MpcithError::InvalidParams(_))
    ));
}
