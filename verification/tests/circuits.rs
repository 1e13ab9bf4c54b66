//! Evaluating circuits.

use mpcith_zk::circuit::Circuit;
use mpcith_zk::circuit::CircuitBuilder;
use mpcith_zk::circuit::Gate;

#[test]
fn test_addition_circuit() {
    // Circuit: assert x + y == 7
    let mut builder = CircuitBuilder::new(2); // wires 0=x, 1=y
    let sum = builder.add(0, 1);               // wire 2 = x + y
    let _out = builder.assert_eq(sum, 7);       // wire 3, asserts == 7
    let circuit = builder.build(1);

    let trace = circuit.evaluate(&[3, 4]).unwrap();
    assert_eq!(trace[2], 7);

    // Wrong witness should fail
    assert!(circuit.evaluate(&[3, 5]).is_err());
}

#[test]
fn test_multiplication_circuit() {
    // Circuit: z = x * y, assert z == 12
    let mut builder = CircuitBuilder::new(2);
    let prod = builder.mul(0, 1);
    let _out = builder.assert_eq(prod, 12);
    let circuit = builder.build(1);

    let trace = circuit.evaluate(&[3, 4]).unwrap();
    assert_eq!(trace[2], 12);
}

#[test]
fn xor_without_reserved_inputs_is_one_gate() {
    let mut builder = CircuitBuilder::new(2);
    assert_eq!(builder.xor(0, 1), 2);
    let circuit = builder.build(1);
    assert_eq!(circuit.gates, vec![Gate::Xor { left: 0, right: 1, output: 2 }]);
    let trace = circuit.evaluate(&[0b1010, 0b1100]).unwrap();
    assert_eq!(circuit.outputs(&trace), [0b0110]);
}

#[test]
fn xor_with_reserved_inputs_uses_no_exclusive_or() {
    let mut builder = CircuitBuilder::new_with_reserved_xor_inputs(2, 1);
    let first = builder.xor(0, 1);
    let second = builder.xor(0, first);
    let circuit = builder.build(1);
    assert_eq!(circuit.num_inputs, 66);
    assert_eq!(circuit.num_wires, second + 1);
    let count = circuit.gates.iter().filter(|g| matches!(g, Gate::Xor { .. })).count();
    assert_eq!(count, 1);
    let (x, y) = (0xdead_beefu32, 0x1234_5678);
    let mut witness = vec![x, y];
    witness.extend((0..32).map(|i| (x >> i) & 1));
    witness.extend((0..32).map(|i| (y >> i) & 1));
    let trace = circuit.evaluate(&witness).unwrap();
    assert_eq!(trace[first], x ^ y);
    assert_eq!(trace[second], y);
}

#[test]
fn the_witness_is_counted_before_any_gate_is_looked_at() {
    let circuit = Circuit {
        num_wires: 2,
        num_inputs: 2,
        num_outputs: 0,
        gates: vec![Gate::Add { left: 7, right: 8, output: 9 }],
    };
    assert_eq!(
        circuit.evaluate(&[1]).unwrap_err().message(),
        "Circuit evaluation error: Expected 2 witness values, got 1"
    );
}
