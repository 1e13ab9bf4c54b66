//! All predicates from end to end, and proofs that were tampered with.

use mpcith_zk::merkle::MerkleProof;
use mpcith_zk::merkle::MerkleTree;
use mpcith_zk::params::ProofParams;
use mpcith_zk::predicate::Predicate;
use mpcith_zk::prove;
use mpcith_zk::verify;
use mpcith_zk::Proof;

fn range_witness(x: u32, lo: u32, hi: u32) -> Vec<u32> {
    let width = hi.wrapping_sub(lo);
    let k = if width == 0 {
        1
    } else {
        (32 - width.leading_zeros()) as usize
    };
    let shifted = x.wrapping_sub(lo);
    let slack = width.wrapping_sub(shifted);

    let mut w = Vec::with_capacity(1 + 32 + k + k);
    w.push(x);
    for i in 0..32 {
        w.push((x >> i) & 1);
    }
    for i in 0..k {
        w.push((shifted >> i) & 1);
    }
    for i in 0..k {
        w.push((slack >> i) & 1);
    }
    w
}

fn membership_witness(proof: &MerkleProof) -> Vec<u32> {
    let depth = proof.siblings.len();
    let mut w = Vec::with_capacity(2 + 2 * depth);
    w.push(proof.leaf);
    w.push(proof.leaf_index as u32);
    for i in 0..depth {
        w.push(((proof.leaf_index >> i) & 1) as u32);
    }
    w.extend(&proof.siblings);
    w
}

#[test]
fn test_range_and_membership_composition() {
    let params = ProofParams::fast_insecure();

    let lo = 1u32;
    let hi = 100u32;
    let x = 42u32;
    let range_pred = Predicate::RangeCheck { lo, hi };
    let r_witness = range_witness(x, lo, hi);
    let range_proof =
        prove(range_pred, &r_witness, &[lo, hi], &params).expect("range prove should succeed");
    assert!(
        verify(&range_proof, &[lo, hi], &params).unwrap(),
        "range verify should pass"
    );

    let members: Vec<u32> = vec![10, 20, 30, 42, 50, 60, 70, 80];
    let tree = MerkleTree::build(&members);
    let root = tree.root();
    let leaf_idx = members.iter().position(|&v| v == x).unwrap();
    let merkle_proof = tree.prove_membership(leaf_idx);
    let m_witness = membership_witness(&merkle_proof);
    let mem_pred = Predicate::SetMembership { members };
    let mem_proof =
        prove(mem_pred, &m_witness, &[root], &params).expect("membership prove should succeed");
    assert!(
        verify(&mem_proof, &[root], &params).unwrap(),
        "membership verify should pass"
    );
}

#[test]
fn test_membership_non_member_rejected() {
    let params = ProofParams::fast_insecure();
    let members: Vec<u32> = vec![10, 20, 30, 42];
    let tree = MerkleTree::build(&members);
    let root = tree.root();

    let mut fake_proof = tree.prove_membership(0);
    fake_proof.leaf = 99;
    let witness = membership_witness(&fake_proof);
    let pred = Predicate::SetMembership { members };

    let result = prove(pred, &witness, &[root], &params);
    assert!(result.is_err(), "prove() should reject a non-member leaf");
}

#[test]
fn test_range_proof_large_range() {
    let params = ProofParams::balanced();
    let lo = 0u32;
    let hi = u32::MAX / 2;
    let x = u32::MAX / 4;

    let pred = Predicate::RangeCheck { lo, hi };
    let witness = range_witness(x, lo, hi);
    let proof = prove(pred, &witness, &[lo, hi], &params).unwrap();
    assert!(verify(&proof, &[lo, hi], &params).unwrap());
}

#[test]
fn test_soundness_parameter_sweep() {
    println!();
    println!("{:<6} {:<6} {:>12}", "N", "M", "sound_bits");
    println!("{}", "-".repeat(28));

    let party_counts = [3, 5, 16];
    let rep_counts = [10, 20, 38];

    for &n in &party_counts {
        for &m in &rep_counts {
            let bits = (m as f64) * ((n as f64).log2());
            assert!(bits > 0.0, "soundness bits must be positive");
            println!("{:<6} {:<6} {:>12.2}", n, m, bits);
        }
    }
}

fn make_addition_proof() -> Proof {
    let params = ProofParams::fast_insecure();
    let pred = Predicate::AdditionCheck { expected_sum: 7 };
    prove(pred, &[3, 4], &[7], &params).unwrap()
}

#[test]
fn test_tampered_commitment_rejected() {
    let mut proof = make_addition_proof();
    proof.repetitions[0].opened_views[0].commitment_randomness[0] ^= 0x01;
    let result = verify(&proof, &[7], &ProofParams::fast_insecure());
    assert!(
        result.is_err(),
        "tampered commitment randomness must cause Err"
    );
}

#[test]
fn test_tampered_commitment_root_rejected() {
    let mut proof = make_addition_proof();
    proof.repetitions[0].commitment_root[0] ^= 0x01;
    let result = verify(&proof, &[7], &ProofParams::fast_insecure());
    assert!(result.is_err(), "tampered commitment_root must cause Err");
}

#[test]
fn test_tampered_auth_path_rejected() {
    let mut proof = make_addition_proof();
    proof.repetitions[0].opened_views[0].commitment_auth_path[0][0] ^= 0x01;
    let result = verify(&proof, &[7], &ProofParams::fast_insecure());
    assert!(result.is_err(), "tampered auth path must cause Err");
}

#[test]
fn test_tampered_opened_view_rejected() {
    let mut proof = make_addition_proof();
    let output_wire = proof.num_circuit_wires - proof.num_circuit_outputs;
    proof.repetitions[0].opened_views[0].view.wire_shares[output_wire] ^= 0xFF;
    let result = verify(&proof, &[7], &ProofParams::fast_insecure());
    assert!(
        result.is_err(),
        "tampered output wire share must cause Err, not Ok(false)"
    );
}

#[test]
fn test_tampered_hidden_party_rejected() {
    let mut proof = make_addition_proof();
    let original = proof.repetitions[0].hidden_party;
    let alternative = if original == 0 { 1 } else { 0 };
    proof.repetitions[0].hidden_party = alternative;
    let result = verify(&proof, &[7], &ProofParams::fast_insecure());
    assert!(
        result.is_err(),
        "tampered hidden_party must cause Err, not Ok(false)"
    );
}

#[test]
fn test_tampered_intermediate_wire_rejected() {
    let mut proof = make_addition_proof();
    proof.repetitions[0].opened_views[0].view.wire_shares[0] ^= 0xFF;
    let result = verify(&proof, &[7], &ProofParams::fast_insecure());
    assert!(
        result.is_err(),
        "tampered intermediate wire must cause Err"
    );
}

#[test]
fn test_hidden_party_view_not_leaked() {
    let proof = make_addition_proof();
    for (rep_idx, rep) in proof.repetitions.iter().enumerate() {
        for opened in &rep.opened_views {
            assert_ne!(
                opened.view.party_idx, rep.hidden_party,
                "repetition {rep_idx}: opened view contains hidden party {} — ZK leak",
                rep.hidden_party
            );
        }
        assert_eq!(
            rep.opened_views.len(),
            ProofParams::fast_insecure().num_parties - 1,
            "repetition {rep_idx}: expected N-1 opened views"
        );
    }
}

#[test]
fn test_tampered_co_path_rejected() {
    let mut proof = make_addition_proof();
    let last = proof.repetitions[0].co_path.len() - 1;
    proof.repetitions[0].co_path[last][0] ^= 0x01;
    let result = verify(&proof, &[7], &ProofParams::fast_insecure());
    assert!(
        result.is_err(),
        "tampered co_path must cause Err — seed reconstruction produces wrong commitments"
    );
}
