//! Evaluating circuits on shares.

use mpcith_zk::circuit::Circuit;
use mpcith_zk::circuit::CircuitBuilder;
use mpcith_zk::circuit::Gate;
use mpcith_zk::mpc::recompute_linear_shares;
use mpcith_zk::mpc::run_mpc_emulation;
use mpcith_zk::mpc::verify_party_view;
use mpcith_zk::mpc::MpcExecution;
use mpcith_zk::sharing::PartySeed;

fn make_addition_circuit() -> Circuit {
    let mut b = CircuitBuilder::new(2);
    let sum = b.add(0, 1);
    let _out = b.assert_eq(sum, 7);
    b.build(1)
}

#[test]
fn test_mpc_emulation_addition() {
    let circuit = make_addition_circuit();
    let seeds: Vec<PartySeed> = (0..3).map(|_| PartySeed::random()).collect();
    let exec = run_mpc_emulation(&circuit, &[3u32, 4u32], &seeds, &[]).unwrap();

    assert_eq!(exec.output_values, vec![7]);
    assert_eq!(exec.shared_trace.wires[0].reconstruct(), 3);
    assert_eq!(exec.shared_trace.wires[1].reconstruct(), 4);
    assert_eq!(exec.shared_trace.wires[2].reconstruct(), 7);
}

#[test]
fn test_view_consistency() {
    let circuit = make_addition_circuit();
    let seeds: Vec<PartySeed> = (0..3).map(|_| PartySeed::random()).collect();
    let exec = run_mpc_emulation(&circuit, &[3u32, 4u32], &seeds, &[]).unwrap();

    // All three views are available (no hidden party), so every party's
    // right neighbour is "opened": pass its seed and wire shares.
    let all_ws: Vec<Vec<u32>> = (0..3)
        .map(|p| {
            recompute_linear_shares(
                &circuit,
                &seeds[p].0,
                p,
                3,
                &exec.views[p].mul_output_shares,
                &exec.views[p].residual_input_shares,
            )
        })
        .collect();
    for p in 0..3 {
        let next = (p + 1) % 3;
        verify_party_view(
            &circuit,
            &all_ws[p],
            p,
            &seeds[p].0,
            Some((&seeds[next].0, &all_ws[next])),
        )
        .unwrap();
    }
}

fn make_multiplication_circuit() -> Circuit {
    let mut b = CircuitBuilder::new(2);
    let prod = b.mul(0, 1);
    let _out = b.assert_eq(prod, 12);
    b.build(1)
}

/// Full emulation + verification for the ZKBoo Mul scheme with all three
/// parties' views available.
fn verify_all_views(circuit: &Circuit, seeds: &[PartySeed], exec: &MpcExecution) {
    let all_ws: Vec<Vec<u32>> = (0..3)
        .map(|p| {
            recompute_linear_shares(
                circuit,
                &seeds[p].0,
                p,
                3,
                &exec.views[p].mul_output_shares,
                &exec.views[p].residual_input_shares,
            )
        })
        .collect();
    for p in 0..3 {
        let next = (p + 1) % 3;
        verify_party_view(
            circuit,
            &all_ws[p],
            p,
            &seeds[p].0,
            Some((&seeds[next].0, &all_ws[next])),
        )
        .unwrap();
    }
}

#[test]
fn test_zkboo_mul_shares_reconstruct() {
    let circuit = make_multiplication_circuit();
    let seeds: Vec<PartySeed> = (0..3).map(|_| PartySeed::random()).collect();
    let exec = run_mpc_emulation(&circuit, &[3u32, 4u32], &seeds, &[]).unwrap();

    assert_eq!(exec.output_values, vec![12]);
    assert_eq!(exec.shared_trace.wires[2].reconstruct(), 12);

    // The three per-party shares of the Mul output wire sum to x*y.
    let sum: u32 = exec
        .views
        .iter()
        .map(|v| v.mul_output_shares[0])
        .fold(0u32, |a, s| a.wrapping_add(s));
    assert_eq!(sum, 12);

    verify_all_views(&circuit, &seeds, &exec);
}

#[test]
fn test_mul_share_tampering_detected() {
    let circuit = make_multiplication_circuit();
    let seeds: Vec<PartySeed> = (0..3).map(|_| PartySeed::random()).collect();
    let exec = run_mpc_emulation(&circuit, &[3u32, 4u32], &seeds, &[]).unwrap();

    let all_ws: Vec<Vec<u32>> = (0..3)
        .map(|p| {
            recompute_linear_shares(
                &circuit,
                &seeds[p].0,
                p,
                3,
                &exec.views[p].mul_output_shares,
                &exec.views[p].residual_input_shares,
            )
        })
        .collect();

    // Tamper party 0's claimed Mul output share.  Since party 0's right
    // neighbour (party 1) is opened, the verifier must detect it.
    let prod_wire = circuit
        .gates
        .iter()
        .find_map(|g| match g {
            Gate::Mul { output, .. } => Some(*output),
            _ => None,
        })
        .unwrap();
    let mut tampered = all_ws[0].clone();
    tampered[prod_wire] = tampered[prod_wire].wrapping_add(1);
    assert!(
        verify_party_view(
            &circuit,
            &tampered,
            0,
            &seeds[0].0,
            Some((&seeds[1].0, &all_ws[1])),
        )
        .is_err(),
        "tampered Mul share with opened neighbour must be rejected"
    );

    // But when the neighbour is the hidden party, the share is skipped by
    // design (2-of-3 scheme): no error is raised.
    verify_party_view(
        &circuit,
        &tampered,
        0,
        &seeds[0].0,
        None,
    )
    .unwrap();
}

#[test]
fn copies_of_executions_keep_views_shares_and_outputs() {
    let circuit = make_addition_circuit();
    let seeds: Vec<PartySeed> = (0..3).map(|_| PartySeed::random()).collect();
    let exec = run_mpc_emulation(&circuit, &[3u32, 4u32], &seeds, &[]).unwrap();
    let copy = exec.clone();
    assert_eq!(copy.output_values, vec![7]);
    assert_eq!(copy.shared_trace.wires[2].reconstruct(), 7);
    assert_eq!(copy.views.len(), 3);
    for p in 0..3 {
        assert_eq!(copy.views[p].to_commitment_bytes(), exec.views[p].to_commitment_bytes());
    }
}

#[test]
fn only_the_wires_that_are_checked_need_shares() {
    let circuit = Circuit {
        num_wires: 100,
        num_inputs: 2,
        num_outputs: 0,
        gates: vec![
            Gate::Add { left: 0, right: 1, output: 2 },
            Gate::AssertEq { input: 2, expected: 5, output: 3 },
        ],
    };
    let seed = [7u8; 32];
    assert!(verify_party_view(&circuit, &[2, 3, 5], 1, &seed, None).is_ok());
    assert!(verify_party_view(&circuit, &[2, 3, 5], 1, &seed, Some((&seed, &[]))).is_ok());
    assert!(verify_party_view(&circuit, &[2, 3, 6], 1, &seed, Some((&seed, &[]))).is_err());
}
