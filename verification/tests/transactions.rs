//! Transaction proofs.

use mpcith_zk::merkle::MerkleProof;
use mpcith_zk::merkle::MerkleTree;
use mpcith_zk::params::ProofParams;
use mpcith_zk::tx_validation::create_transaction_proof;
use mpcith_zk::tx_validation::verify_transaction_proof;
use mpcith_zk::tx_validation::TransactionStatement;
use mpcith_zk::tx_validation::TransactionWitness;

fn setup() -> (TransactionStatement, TransactionWitness, Vec<u32>) {
    let members = vec![10u32, 20, 500, 999];
    let tree = MerkleTree::build(&members);
    let root = tree.root();
    let depth = members.len().next_power_of_two().trailing_zeros() as usize;

    let statement = TransactionStatement {
        amount_range: (1, 1000),
        authorized_set_root: root,
        merkle_depth: depth,
        num_members: members.len(),
        context: b"block-42-channel-myorg".to_vec(),
        members: members.clone(),
    };

    let merkle_proof = tree.prove_membership(2);
    let witness = TransactionWitness {
        secret_value: 500,
        merkle_proof,
    };

    (statement, witness, members)
}

#[test]
fn test_transaction_proof_valid() {
    let params = ProofParams::fast_insecure();
    let (statement, witness, _members) = setup();

    let proof = create_transaction_proof(&statement, &witness, &params).unwrap();
    let ok = verify_transaction_proof(&proof, &statement, &params).unwrap();
    assert!(ok);
}

#[test]
fn test_transaction_proof_wrong_context() {
    let params = ProofParams::fast_insecure();
    let (statement, witness, _members) = setup();

    let proof = create_transaction_proof(&statement, &witness, &params).unwrap();

    let mut wrong_statement = statement.clone();
    wrong_statement.context = b"block-43-channel-myorg".to_vec();

    let result = verify_transaction_proof(&proof, &wrong_statement, &params);
    assert!(result.is_err(), "proof should fail with wrong context");
}

#[test]
fn test_transaction_proof_amount_out_of_range() {
    let params = ProofParams::fast_insecure();
    let members = vec![10u32, 20, 500, 999];
    let tree = MerkleTree::build(&members);
    let root = tree.root();
    let depth = members.len().next_power_of_two().trailing_zeros() as usize;

    let statement = TransactionStatement {
        amount_range: (1, 1000),
        authorized_set_root: root,
        merkle_depth: depth,
        num_members: members.len(),
        context: b"block-42".to_vec(),
        members,
    };

    let merkle_proof = tree.prove_membership(2);
    let witness = TransactionWitness {
        secret_value: 5000,
        merkle_proof,
    };

    let result = create_transaction_proof(&statement, &witness, &params);
    assert!(result.is_err(), "should reject out-of-range amount");
}

#[test]
fn test_transaction_proof_unauthorized_account() {
    let params = ProofParams::fast_insecure();
    let members = vec![10u32, 20, 500, 999];
    let tree = MerkleTree::build(&members);
    let root = tree.root();
    let depth = members.len().next_power_of_two().trailing_zeros() as usize;

    let statement = TransactionStatement {
        amount_range: (1, 1000),
        authorized_set_root: root,
        merkle_depth: depth,
        num_members: members.len(),
        context: b"block-42".to_vec(),
        members,
    };

    let witness = TransactionWitness {
        secret_value: 100,
        merkle_proof: MerkleProof {
            leaf: 100,
            leaf_index: 0,
            siblings: vec![0; depth],
            root,
        },
    };

    let result = create_transaction_proof(&statement, &witness, &params);
    assert!(result.is_err(), "should reject unauthorized account");
}
