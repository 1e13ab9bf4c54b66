//! Two circuits side by side, on the same value.
//!
//! The merged circuit has the inputs of both circuits, three wires that assert that their first
//! inputs are equal, the gates of both circuits with their wires renumbered, and a copy of every
//! output:
//!
//! `[left inputs | right inputs | link | left gates | right gates | left outputs | right outputs]`
//!
//! Without the link, the two circuits could be satisfied with different values. Without the copies,
//! the last wires would be wires inside the right circuit, and their values would be published.

use crate::circuit::Circuit;
use crate::circuit::CircuitModel;
use crate::circuit::Gate;
use crate::circuit;
use crate::draft;
use crate::ring;
use crate::variants;
use vstd::prelude::*;

verus! {

/// The new number of a wire: input wires and other wires move by different distances.
pub open spec fn moved(wire: usize, num_inputs: nat, input_offset: nat, gate_offset: nat) -> usize {
    if wire < num_inputs {
        (wire + input_offset) as usize
    } else {
        (wire + gate_offset) as usize
    }
}

/// Whether the new number of a wire is a number of a wire.
pub open spec fn wire_can_move(
    wire: usize,
    num_inputs: nat,
    input_offset: nat,
    gate_offset: nat,
) -> bool {
    &&& wire < num_inputs ==> wire + input_offset <= usize::MAX
    &&& wire >= num_inputs ==> wire + gate_offset <= usize::MAX
}

/// Whether all wires of a gate can be renumbered.
pub open spec fn can_move(
    gate: Gate,
    num_inputs: nat,
    input_offset: nat,
    gate_offset: nat,
) -> bool {
    &&& wire_can_move(gate.target(), num_inputs, input_offset, gate_offset)
    &&& match gate {
        Gate::Add { left, right, .. } => {
            &&& wire_can_move(left, num_inputs, input_offset, gate_offset)
            &&& wire_can_move(right, num_inputs, input_offset, gate_offset)
        },
        Gate::Mul { left, right, .. } => {
            &&& wire_can_move(left, num_inputs, input_offset, gate_offset)
            &&& wire_can_move(right, num_inputs, input_offset, gate_offset)
        },
        Gate::Xor { left, right, .. } => {
            &&& wire_can_move(left, num_inputs, input_offset, gate_offset)
            &&& wire_can_move(right, num_inputs, input_offset, gate_offset)
        },
        Gate::AddConst { input, .. } => wire_can_move(
            input,
            num_inputs,
            input_offset,
            gate_offset,
        ),
        Gate::MulConst { input, .. } => wire_can_move(
            input,
            num_inputs,
            input_offset,
            gate_offset,
        ),
        Gate::AssertEq { input, .. } => wire_can_move(
            input,
            num_inputs,
            input_offset,
            gate_offset,
        ),
    }
}

/// A gate with its wires renumbered.
pub open spec fn moved_gate(
    gate: Gate,
    num_inputs: nat,
    input_offset: nat,
    gate_offset: nat,
) -> Gate {
    match gate {
        Gate::Add { left, right, output } => Gate::Add {
            left: moved(left, num_inputs, input_offset, gate_offset),
            right: moved(right, num_inputs, input_offset, gate_offset),
            output: moved(output, num_inputs, input_offset, gate_offset),
        },
        Gate::Mul { left, right, output } => Gate::Mul {
            left: moved(left, num_inputs, input_offset, gate_offset),
            right: moved(right, num_inputs, input_offset, gate_offset),
            output: moved(output, num_inputs, input_offset, gate_offset),
        },
        Gate::Xor { left, right, output } => Gate::Xor {
            left: moved(left, num_inputs, input_offset, gate_offset),
            right: moved(right, num_inputs, input_offset, gate_offset),
            output: moved(output, num_inputs, input_offset, gate_offset),
        },
        Gate::AddConst { input, constant, output } => Gate::AddConst {
            input: moved(input, num_inputs, input_offset, gate_offset),
            constant,
            output: moved(output, num_inputs, input_offset, gate_offset),
        },
        Gate::MulConst { input, constant, output } => Gate::MulConst {
            input: moved(input, num_inputs, input_offset, gate_offset),
            constant,
            output: moved(output, num_inputs, input_offset, gate_offset),
        },
        Gate::AssertEq { input, expected, output } => Gate::AssertEq {
            input: moved(input, num_inputs, input_offset, gate_offset),
            expected,
            output: moved(output, num_inputs, input_offset, gate_offset),
        },
    }
}

/// The gates of a circuit with their wires renumbered.
pub open spec fn moved_gates(c: CircuitModel, input_offset: nat, gate_offset: nat) -> Seq<Gate> {
    Seq::new(
        c.gates.len(),
        |i: int| moved_gate(c.gates[i], c.num_inputs, input_offset, gate_offset),
    )
}

/// The gates that assert that the first inputs are equal.
pub open spec fn link_gates(l: CircuitModel, r: CircuitModel) -> Seq<Gate> {
    let n = l.num_inputs + r.num_inputs;
    seq![
        Gate::MulConst {
            input: l.num_inputs as usize,
            constant: 0xffff_ffff,
            output: n as usize,
        },
        Gate::Add { left: 0, right: n as usize, output: (n + 1) as usize },
        Gate::AssertEq { input: (n + 1) as usize, expected: 0, output: (n + 2) as usize },
    ]
}

/// A copy of a wire of a circuit, read at its new number and written to `target`. If the circuit
/// asserts the wire, so does the copy.
pub open spec fn copy_gate(c: CircuitModel, wire: nat, input: usize, target: usize) -> Gate {
    match circuit::asserted_output(c.gates, 0, wire) {
        Some(expected) => Gate::AssertEq { input, expected, output: target },
        None => Gate::AddConst { input, constant: 0, output: target },
    }
}

/// The gates that copy the outputs of a circuit to the wires from `first` on.
pub open spec fn copy_gates(
    c: CircuitModel,
    input_offset: nat,
    gate_offset: nat,
    first: nat,
) -> Seq<Gate> {
    Seq::new(
        c.num_outputs,
        |o: int|
            copy_gate(
                c,
                (c.output_start() + o) as nat,
                moved((c.output_start() + o) as usize, c.num_inputs, input_offset, gate_offset),
                (first + o) as usize,
            ),
    )
}

/// The gates of the merged circuit before the copies.
pub open spec fn body_gates(l: CircuitModel, r: CircuitModel) -> Seq<Gate> {
    link_gates(l, r) + moved_gates(l, 0, r.num_inputs + 3) + moved_gates(
        r,
        l.num_inputs,
        l.num_wires + 3,
    )
}

/// The merged circuit.
pub open spec fn merged(l: CircuitModel, r: CircuitModel) -> CircuitModel {
    let first = l.num_wires + r.num_wires + 3;
    CircuitModel {
        num_wires: first + l.num_outputs + r.num_outputs,
        num_inputs: l.num_inputs + r.num_inputs,
        num_outputs: l.num_outputs + r.num_outputs,
        gates: body_gates(l, r) + copy_gates(l, 0, r.num_inputs + 3, first) + copy_gates(
            r,
            l.num_inputs,
            l.num_wires + 3,
            first + l.num_outputs,
        ),
    }
}

/// The two circuits can be merged.
pub open spec fn mergeable(l: CircuitModel, r: CircuitModel) -> bool {
    &&& l.sequential()
    &&& r.sequential()
    &&& l.num_inputs >= 1
    &&& r.num_inputs >= 1
    &&& l.num_outputs <= l.num_wires
    &&& r.num_outputs <= r.num_wires
    &&& l.num_wires + r.num_wires + 3 + l.num_outputs + r.num_outputs <= usize::MAX
}

proof fn lemma_moved_value(
    gate: Gate,
    n: nat,
    input_offset: nat,
    gate_offset: nat,
    limit: int,
    old: Seq<u32>,
    new: Seq<u32>,
)
    requires
        gate.reads_below(limit),
        limit <= usize::MAX,
        forall|j: usize|
            j < limit ==> new[#[trigger] moved(j, n, input_offset, gate_offset) as int]
                == old[j as int],
    ensures
        moved_gate(gate, n, input_offset, gate_offset).value(new) == gate.value(old),
        moved_gate(gate, n, input_offset, gate_offset).holds(new) == gate.holds(old),
{
}

proof fn lemma_moved_shape(
    gate: Gate,
    n: nat,
    input_offset: nat,
    gate_offset: nat,
    limit: nat,
)
    requires
        gate.reads_below(limit as int),
        gate.target() == limit,
        n <= limit,
        input_offset <= gate_offset,
        limit + gate_offset <= usize::MAX,
    ensures
        moved_gate(gate, n, input_offset, gate_offset).target() == limit + gate_offset,
        moved_gate(gate, n, input_offset, gate_offset).reads_below((limit + gate_offset) as int),
        moved_gate(gate, n, input_offset, gate_offset) is Xor <==> gate is Xor,
{
}

proof fn lemma_merged_sequential(l: CircuitModel, r: CircuitModel)
    requires
        mergeable(l, r),
    ensures
        merged(l, r).sequential(),
        l.xor_free() && r.xor_free() ==> merged(l, r).xor_free(),
{
    let m = merged(l, r);
    let left = moved_gates(l, 0, r.num_inputs + 3);
    let right = moved_gates(r, l.num_inputs, l.num_wires + 3);
    assert forall|i: int| 0 <= i < m.gates.len() implies (#[trigger] m.gates[i]).target()
        == m.num_inputs + i && m.gates[i].reads_below(m.num_inputs + i) && (l.xor_free()
        && r.xor_free() ==> !(m.gates[i] is Xor)) by {
        if i < 3 {
            assert(m.gates[i] == link_gates(l, r)[i]);
        } else if i < 3 + l.gates.len() {
            let k = i - 3;
            assert(m.gates[i] == left[k]);
            assert(l.gates[k].target() == l.num_inputs + k);
            lemma_moved_shape(
                l.gates[k],
                l.num_inputs,
                0,
                r.num_inputs + 3,
                (l.num_inputs + k) as nat,
            );
        } else if i < 3 + l.gates.len() + r.gates.len() {
            let k = i - 3 - l.gates.len();
            assert(m.gates[i] == right[k]);
            assert(r.gates[k].target() == r.num_inputs + k);
            lemma_moved_shape(
                r.gates[k],
                r.num_inputs,
                l.num_inputs,
                l.num_wires + 3,
                (r.num_inputs + k) as nat,
            );
        } else {
            lemma_copy(l, r, i - 3 - l.gates.len() - r.gates.len());
        }
    }
}

/// The copied wire of output `o` in the circuit that it comes from.
spec fn copied(l: CircuitModel, r: CircuitModel, o: int) -> int {
    if o < l.num_outputs {
        l.output_start() + o
    } else {
        r.output_start() + (o - l.num_outputs)
    }
}

/// The copied wire of output `o` in the merged circuit.
spec fn copied_from(l: CircuitModel, r: CircuitModel, o: int) -> usize {
    if o < l.num_outputs {
        moved(copied(l, r, o) as usize, l.num_inputs, 0, r.num_inputs + 3)
    } else {
        moved(copied(l, r, o) as usize, r.num_inputs, l.num_inputs, l.num_wires + 3)
    }
}

/// What copies output `o`.
proof fn lemma_copy(l: CircuitModel, r: CircuitModel, o: int)
    requires
        mergeable(l, r),
        0 <= o < l.num_outputs + r.num_outputs,
    ensures
        ({
            let m = merged(l, r);
            let first = l.num_wires + r.num_wires + 3;
            let side = if o < l.num_outputs {
                l
            } else {
                r
            };
            &&& 0 <= copied(l, r, o) < side.num_wires
            &&& copied_from(l, r, o) < first
            &&& m.gates[3 + l.gates.len() + r.gates.len() + o] == copy_gate(
                side,
                copied(l, r, o) as nat,
                copied_from(l, r, o),
                (first + o) as usize,
            )
        }),
{
    let first = l.num_wires + r.num_wires + 3;
    let body = body_gates(l, r);
    let left = copy_gates(l, 0, r.num_inputs + 3, first);
    let right = copy_gates(r, l.num_inputs, l.num_wires + 3, first + l.num_outputs);
    assert(body.len() == 3 + l.gates.len() + r.gates.len());
    if o < l.num_outputs {
        assert(merged(l, r).gates[body.len() + o] == left[o]);
    } else {
        assert(merged(l, r).gates[body.len() + o] == right[o - l.num_outputs]);
    }
}

proof fn lemma_link(l: CircuitModel, r: CircuitModel, w: Seq<u32>)
    requires
        mergeable(l, r),
        w.len() == l.num_inputs + r.num_inputs,
    ensures
        circuit::asserts_hold(merged(l, r).gates, 3, w) <==> w[0] == w[l.num_inputs as int],
{
    let m = merged(l, r);
    let g = m.gates;
    let link = link_gates(l, r);
    assert(g[0] == link[0] && g[1] == link[1] && g[2] == link[2]);
    let n = w.len();
    let x = w[0];
    let y = w[l.num_inputs as int];
    reveal_with_fuel(circuit::wire_values, 4);
    reveal_with_fuel(circuit::asserts_hold, 4);
    ring::lemma_negate(y);
    ring::lemma_wrap_add(x as int, -(y as int));
    ring::lemma_difference(x, y);
    let v1 = w.push(ring::wrap(y * 0xffff_ffffu32));
    assert(circuit::wire_values(g, 1, w) == v1);
    assert(circuit::wire_values(g, 2, w) == v1.push(ring::wrap(x - y)));
    assert(circuit::wire_values(g, 2, w)[n + 1int] == ring::wrap(x - y));
}

proof fn lemma_left_values(l: CircuitModel, r: CircuitModel, n: nat, w: Seq<u32>)
    requires
        mergeable(l, r),
        w.len() == l.num_inputs + r.num_inputs,
        n <= l.gates.len(),
    ensures
        ({
            let wl = w.subrange(0, l.num_inputs as int);
            let g = merged(l, r).gates;
            &&& forall|j: usize|
                j < l.num_inputs + n ==> circuit::wire_values(g, 3 + n, w)[#[trigger] moved(
                    j,
                    l.num_inputs,
                    0,
                    r.num_inputs + 3,
                ) as int] == circuit::wire_values(l.gates, n, wl)[j as int]
            &&& circuit::asserts_hold(g, 3 + n, w) == (circuit::asserts_hold(g, 3, w)
                && circuit::asserts_hold(l.gates, n, wl))
        }),
    decreases n,
{
    let wl = w.subrange(0, l.num_inputs as int);
    let g = merged(l, r).gates;
    circuit::lemma_wire_values_len(g, 3 + n, w);
    circuit::lemma_wire_values_len(l.gates, n, wl);
    draft::lemma_wire_values_keep(g, 3 + n, w);
    draft::lemma_wire_values_keep(l.gates, n, wl);
    if n > 0 {
        let m = (n - 1) as nat;
        lemma_left_values(l, r, m, w);
        circuit::lemma_wire_values_len(g, 3 + m, w);
        circuit::lemma_wire_values_len(l.gates, m, wl);
        let left = moved_gates(l, 0, r.num_inputs + 3);
        assert(g[3 + m as int] == left[m as int]);
        assert(l.gates[m as int].target() == l.num_inputs + m);
        lemma_moved_value(
            l.gates[m as int],
            l.num_inputs,
            0,
            r.num_inputs + 3,
            (l.num_inputs + m) as int,
            circuit::wire_values(l.gates, m, wl),
            circuit::wire_values(g, 3 + m, w),
        );
        assert(3 + n - 1 == 3 + m);
    }
}

proof fn lemma_right_values(l: CircuitModel, r: CircuitModel, n: nat, w: Seq<u32>)
    requires
        mergeable(l, r),
        w.len() == l.num_inputs + r.num_inputs,
        n <= r.gates.len(),
    ensures
        ({
            let wr = w.subrange(l.num_inputs as int, w.len() as int);
            let g = merged(l, r).gates;
            let k = 3 + l.gates.len();
            &&& forall|j: usize|
                j < r.num_inputs + n ==> circuit::wire_values(g, k + n, w)[#[trigger] moved(
                    j,
                    r.num_inputs,
                    l.num_inputs,
                    l.num_wires + 3,
                ) as int] == circuit::wire_values(r.gates, n, wr)[j as int]
            &&& circuit::asserts_hold(g, k + n, w) == (circuit::asserts_hold(g, k, w)
                && circuit::asserts_hold(r.gates, n, wr))
        }),
    decreases n,
{
    let wr = w.subrange(l.num_inputs as int, w.len() as int);
    let g = merged(l, r).gates;
    let k = 3 + l.gates.len();
    circuit::lemma_wire_values_len(g, k + n, w);
    circuit::lemma_wire_values_len(r.gates, n, wr);
    draft::lemma_wire_values_keep(g, k + n, w);
    draft::lemma_wire_values_keep(r.gates, n, wr);
    if n > 0 {
        let m = (n - 1) as nat;
        lemma_right_values(l, r, m, w);
        circuit::lemma_wire_values_len(g, k + m, w);
        circuit::lemma_wire_values_len(r.gates, m, wr);
        let right = moved_gates(r, l.num_inputs, l.num_wires + 3);
        assert(g[k + m as int] == right[m as int]);
        assert(r.gates[m as int].target() == r.num_inputs + m);
        lemma_moved_value(
            r.gates[m as int],
            r.num_inputs,
            l.num_inputs,
            l.num_wires + 3,
            (r.num_inputs + m) as int,
            circuit::wire_values(r.gates, m, wr),
            circuit::wire_values(g, k + m, w),
        );
        assert(k + n - 1 == k + m);
    }
}

/// The value of output `o` in the circuit that it comes from.
spec fn copied_value(l: CircuitModel, r: CircuitModel, o: int, w: Seq<u32>) -> u32 {
    if o < l.num_outputs {
        let wl = w.subrange(0, l.num_inputs as int);
        circuit::wire_values(l.gates, l.gates.len(), wl)[copied(l, r, o)]
    } else {
        let wr = w.subrange(l.num_inputs as int, w.len() as int);
        circuit::wire_values(r.gates, r.gates.len(), wr)[copied(l, r, o)]
    }
}

/// A copy is made of the wire with the right value.
proof fn lemma_copied_value(l: CircuitModel, r: CircuitModel, o: nat, w: Seq<u32>)
    requires
        mergeable(l, r),
        w.len() == l.num_inputs + r.num_inputs,
        o < l.num_outputs + r.num_outputs,
    ensures
        circuit::wire_values(merged(l, r).gates, 3 + l.gates.len() + r.gates.len() + o, w)[
        copied_from(l, r, o as int) as int] == copied_value(l, r, o as int, w),
{
    let g = merged(l, r).gates;
    let j = 3 + l.gates.len();
    let k = j + r.gates.len();
    let from = copied_from(l, r, o as int) as int;
    let wire = copied(l, r, o as int) as usize;
    lemma_copy(l, r, o as int);
    if o < l.num_outputs {
        lemma_left_values(l, r, l.gates.len(), w);
        assert(from == moved(wire, l.num_inputs, 0, r.num_inputs + 3));
        assert(wire < l.num_inputs + l.gates.len());
        assert(circuit::wire_values(g, j, w)[from] == copied_value(l, r, o as int, w));
        circuit::lemma_wires_kept(g, j, k + o, w);
        assert(from < w.len() + j);
    } else {
        lemma_right_values(l, r, r.gates.len(), w);
        assert(from == moved(wire, r.num_inputs, l.num_inputs, l.num_wires + 3));
        assert(wire < r.num_inputs + r.gates.len());
        assert(circuit::wire_values(g, k, w)[from] == copied_value(l, r, o as int, w));
        circuit::lemma_wires_kept(g, k, k + o, w);
        assert(from < w.len() + k);
    }
}

/// Where the assertions before the copies are true, so is that of a copy.
proof fn lemma_copied_assert(l: CircuitModel, r: CircuitModel, o: nat, w: Seq<u32>)
    requires
        mergeable(l, r),
        w.len() == l.num_inputs + r.num_inputs,
        o < l.num_outputs + r.num_outputs,
        circuit::asserts_hold(merged(l, r).gates, 3 + l.gates.len() + r.gates.len(), w),
    ensures
        ({
            let side = if o < l.num_outputs {
                l
            } else {
                r
            };
            let asserted = circuit::asserted_output(
                side.gates,
                0,
                copied(l, r, o as int) as nat,
            );
            asserted is Some ==> asserted == Some(copied_value(l, r, o as int, w))
        }),
{
    let g = merged(l, r).gates;
    let j = 3 + l.gates.len();
    let k = j + r.gates.len();
    let wire = copied(l, r, o as int) as nat;
    lemma_copy(l, r, o as int);
    lemma_left_values(l, r, l.gates.len(), w);
    lemma_right_values(l, r, r.gates.len(), w);
    circuit::lemma_asserts_prefix(g, j, k, w);
    if o < l.num_outputs {
        if circuit::asserted_output(l.gates, 0, wire) is Some {
            circuit::lemma_asserted_value(l, 0, wire, w.subrange(0, l.num_inputs as int));
        }
    } else {
        if circuit::asserted_output(r.gates, 0, wire) is Some {
            circuit::lemma_asserted_value(
                r,
                0,
                wire,
                w.subrange(l.num_inputs as int, w.len() as int),
            );
        }
    }
}

/// The values of the first `n` copies, and that they assert nothing new.
proof fn lemma_copies(l: CircuitModel, r: CircuitModel, n: nat, w: Seq<u32>)
    requires
        mergeable(l, r),
        w.len() == l.num_inputs + r.num_inputs,
        n <= l.num_outputs + r.num_outputs,
    ensures
        ({
            let g = merged(l, r).gates;
            let k = 3 + l.gates.len() + r.gates.len();
            &&& forall|o: int|
                0 <= o < n ==> #[trigger] circuit::wire_values(g, k + n, w)[w.len() + k + o]
                    == copied_value(l, r, o, w)
            &&& circuit::asserts_hold(g, k + n, w) == circuit::asserts_hold(g, k, w)
        }),
    decreases n,
{
    if n > 0 {
        let p = (n - 1) as nat;
        let g = merged(l, r).gates;
        let k = 3 + l.gates.len() + r.gates.len();
        lemma_copies(l, r, p, w);
        lemma_copy(l, r, p as int);
        lemma_copied_value(l, r, p, w);
        circuit::lemma_wire_values_len(g, k + p, w);
        if circuit::asserts_hold(g, k, w) {
            lemma_copied_assert(l, r, p, w);
        }
        let value = copied_value(l, r, p as int, w);
        let before = circuit::wire_values(g, k + p, w);
        assert(k + n - 1 == k + p);
        assert(g[k + p as int].value(before) == value);
        assert(circuit::wire_values(g, k + n, w) == before.push(value));
        assert forall|o: int| 0 <= o < n implies #[trigger] circuit::wire_values(g, k + n, w)[
        w.len() + k + o] == copied_value(l, r, o, w) by {
            if o < p {
                assert(before[w.len() + k + o] == copied_value(l, r, o, w));
            }
        }
    }
}

/// The outputs of the merged circuit are the outputs of the left circuit, then those of the right.
pub proof fn lemma_merged_outputs(l: CircuitModel, r: CircuitModel, w: Seq<u32>)
    requires
        mergeable(l, r),
        w.len() == l.num_inputs + r.num_inputs,
    ensures
        ({
            let m = merged(l, r);
            let wl = w.subrange(0, l.num_inputs as int);
            let wr = w.subrange(l.num_inputs as int, w.len() as int);
            m.trace(w).subrange(m.output_start(), m.num_wires as int) == l.trace(wl).subrange(
                l.output_start(),
                l.num_wires as int,
            ) + r.trace(wr).subrange(r.output_start(), r.num_wires as int)
        }),
{
    let m = merged(l, r);
    let wl = w.subrange(0, l.num_inputs as int);
    let wr = w.subrange(l.num_inputs as int, w.len() as int);
    lemma_merged_sequential(l, r);
    circuit::lemma_trace(m, w);
    circuit::lemma_trace(l, wl);
    circuit::lemma_trace(r, wr);
    circuit::lemma_wire_values_len(m.gates, m.gates.len(), w);
    circuit::lemma_wire_values_len(l.gates, l.gates.len(), wl);
    circuit::lemma_wire_values_len(r.gates, r.gates.len(), wr);
    lemma_copies(l, r, l.num_outputs + r.num_outputs, w);
    let k = 3 + l.gates.len() + r.gates.len();
    let outputs = l.num_outputs + r.num_outputs;
    assert(m.gates.len() == k + outputs);
    let a = m.trace(w).subrange(m.output_start(), m.num_wires as int);
    let b = l.trace(wl).subrange(l.output_start(), l.num_wires as int) + r.trace(wr).subrange(
        r.output_start(),
        r.num_wires as int,
    );
    assert forall|o: int| 0 <= o < outputs implies #[trigger] a[o] == b[o] by {
        assert(a[o] == circuit::wire_values(m.gates, k + outputs, w)[w.len() + k + o]);
    }
    assert(a =~= b);
}

/// If both circuits assert all of their outputs, so does the merged circuit.
pub proof fn lemma_merged_outputs_asserted(l: CircuitModel, r: CircuitModel)
    requires
        mergeable(l, r),
        variants::outputs_asserted(l),
        variants::outputs_asserted(r),
    ensures
        variants::outputs_asserted(merged(l, r)),
{
    let m = merged(l, r);
    lemma_merged_sequential(l, r);
    assert forall|o: int| 0 <= o < m.num_outputs implies (#[trigger] circuit::asserted_output(
        m.gates,
        0,
        (m.output_start() + o) as nat,
    )) is Some by {
        let i = 3 + l.gates.len() + r.gates.len() + o;
        lemma_copy(l, r, o);
        if o < l.num_outputs {
            assert(circuit::asserted_output(l.gates, 0, (l.output_start() + o) as nat) is Some);
        } else {
            let p = o - l.num_outputs;
            assert(circuit::asserted_output(r.gates, 0, (r.output_start() + p) as nat) is Some);
        }
        circuit::lemma_asserted_at(m, 0, i);
        assert(m.num_inputs + i == m.output_start() + o);
    }
}

/// The merged circuit accepts a witness exactly if each circuit accepts its part and both parts
/// are about the same value.
pub proof fn lemma_merged(l: CircuitModel, r: CircuitModel, w: Seq<u32>)
    requires
        mergeable(l, r),
    ensures
        merged(l, r).sequential(),
        l.xor_free() && r.xor_free() ==> merged(l, r).xor_free(),
        merged(l, r).accepts(w) <==> {
            &&& w.len() == l.num_inputs + r.num_inputs
            &&& w[0] == w[l.num_inputs as int]
            &&& l.accepts(w.subrange(0, l.num_inputs as int))
            &&& r.accepts(w.subrange(l.num_inputs as int, w.len() as int))
        },
{
    lemma_merged_sequential(l, r);
    let m = merged(l, r);
    if w.len() == l.num_inputs + r.num_inputs {
        let wl = w.subrange(0, l.num_inputs as int);
        let wr = w.subrange(l.num_inputs as int, w.len() as int);
        circuit::lemma_accepts(m, w);
        circuit::lemma_accepts(l, wl);
        circuit::lemma_accepts(r, wr);
        lemma_link(l, r, w);
        lemma_left_values(l, r, l.gates.len(), w);
        lemma_right_values(l, r, r.gates.len(), w);
        lemma_copies(l, r, l.num_outputs + r.num_outputs, w);
        assert(m.gates.len() == 3 + l.gates.len() + r.gates.len() + l.num_outputs + r.num_outputs);
    }
}

fn move_wire(wire: usize, num_inputs: usize, input_offset: usize, gate_offset: usize) -> (r: usize)
    requires
        wire_can_move(wire, num_inputs as nat, input_offset as nat, gate_offset as nat),
    ensures
        r == moved(wire, num_inputs as nat, input_offset as nat, gate_offset as nat),
{
    if wire < num_inputs {
        wire + input_offset
    } else {
        wire + gate_offset
    }
}

/// Renumbers the wires of a gate.
pub(crate) fn remap_gate(
    gate: &Gate,
    num_inputs: usize,
    input_offset: usize,
    gate_offset: usize,
) -> (r: Gate)
    requires
        can_move(*gate, num_inputs as nat, input_offset as nat, gate_offset as nat),
    ensures
        r == moved_gate(*gate, num_inputs as nat, input_offset as nat, gate_offset as nat),
{
    match gate {
        Gate::Add { left, right, output } => Gate::Add {
            left: move_wire(*left, num_inputs, input_offset, gate_offset),
            right: move_wire(*right, num_inputs, input_offset, gate_offset),
            output: move_wire(*output, num_inputs, input_offset, gate_offset),
        },
        Gate::Mul { left, right, output } => Gate::Mul {
            left: move_wire(*left, num_inputs, input_offset, gate_offset),
            right: move_wire(*right, num_inputs, input_offset, gate_offset),
            output: move_wire(*output, num_inputs, input_offset, gate_offset),
        },
        Gate::Xor { left, right, output } => Gate::Xor {
            left: move_wire(*left, num_inputs, input_offset, gate_offset),
            right: move_wire(*right, num_inputs, input_offset, gate_offset),
            output: move_wire(*output, num_inputs, input_offset, gate_offset),
        },
        Gate::AddConst { input, constant, output } => Gate::AddConst {
            input: move_wire(*input, num_inputs, input_offset, gate_offset),
            constant: *constant,
            output: move_wire(*output, num_inputs, input_offset, gate_offset),
        },
        Gate::MulConst { input, constant, output } => Gate::MulConst {
            input: move_wire(*input, num_inputs, input_offset, gate_offset),
            constant: *constant,
            output: move_wire(*output, num_inputs, input_offset, gate_offset),
        },
        Gate::AssertEq { input, expected, output } => Gate::AssertEq {
            input: move_wire(*input, num_inputs, input_offset, gate_offset),
            expected: *expected,
            output: move_wire(*output, num_inputs, input_offset, gate_offset),
        },
    }
}

fn push_moved(out: &mut Vec<Gate>, c: &Circuit, input_offset: usize, gate_offset: usize)
    requires
        c@.in_range(),
        c.num_inputs + input_offset <= usize::MAX,
        c.num_wires + gate_offset <= usize::MAX,
    ensures
        final(out)@ == old(out)@ + moved_gates(c@, input_offset as nat, gate_offset as nat),
{
    let ghost start = out@;
    let ghost gates = moved_gates(c@, input_offset as nat, gate_offset as nat);
    let mut i: usize = 0;
    while i < c.gates.len()
        invariant
            i <= c.gates.len(),
            c@.in_range(),
            c.num_inputs + input_offset <= usize::MAX,
            c.num_wires + gate_offset <= usize::MAX,
            gates == moved_gates(c@, input_offset as nat, gate_offset as nat),
            out@ =~= start + gates.subrange(0, i as int),
        decreases c.gates.len() - i,
    {
        proof {
            assert(c@.gates[i as int].reads_below(c@.num_wires as int));
        }
        out.push(remap_gate(&c.gates[i], c.num_inputs, input_offset, gate_offset));
        i = i + 1;
    }
    proof {
        assert(out@ =~= start + gates);
    }
}

fn push_copies(
    out: &mut Vec<Gate>,
    c: &Circuit,
    input_offset: usize,
    gate_offset: usize,
    first: usize,
)
    requires
        c.num_outputs <= c.num_wires,
        c.num_inputs + input_offset <= usize::MAX,
        c.num_wires + gate_offset <= usize::MAX,
        first + c.num_outputs <= usize::MAX,
    ensures
        final(out)@ == old(out)@ + copy_gates(
            c@,
            input_offset as nat,
            gate_offset as nat,
            first as nat,
        ),
{
    let ghost start = out@;
    let ghost gates = copy_gates(c@, input_offset as nat, gate_offset as nat, first as nat);
    let output_start: usize = c.num_wires - c.num_outputs;
    let mut o: usize = 0;
    while o < c.num_outputs
        invariant
            o <= c.num_outputs,
            output_start == c@.output_start(),
            output_start + c.num_outputs == c.num_wires,
            c.num_inputs + input_offset <= usize::MAX,
            c.num_wires + gate_offset <= usize::MAX,
            first + c.num_outputs <= usize::MAX,
            gates == copy_gates(c@, input_offset as nat, gate_offset as nat, first as nat),
            out@ =~= start + gates.subrange(0, o as int),
        decreases c.num_outputs - o,
    {
        let wire: usize = output_start + o;
        let input: usize = move_wire(wire, c.num_inputs, input_offset, gate_offset);
        let gate: Gate = match c.assert_expected_for_output(wire) {
            Some(expected) => Gate::AssertEq { input, expected, output: first + o },
            None => Gate::AddConst { input, constant: 0, output: first + o },
        };
        proof {
            assert(gate == gates[o as int]);
        }
        out.push(gate);
        o = o + 1;
    }
    proof {
        assert(out@ =~= start + gates);
    }
}

/// Merges two circuits and asserts that their first inputs are equal. The outputs are those of the
/// left circuit, then those of the right.
pub fn merge_same_witness_circuits(c_left: &Circuit, c_right: &Circuit) -> (r: Circuit)
    requires
        mergeable(c_left@, c_right@),
    ensures
        r@ == merged(c_left@, c_right@),
{
    proof {
        circuit::lemma_sequential_in_range(c_left@);
        circuit::lemma_sequential_in_range(c_right@);
    }
    let num_inputs: usize = c_left.num_inputs + c_right.num_inputs;
    let mut gates: Vec<Gate> = Vec::new();
    gates.push(
        Gate::MulConst { input: c_left.num_inputs, constant: 0xffff_ffff, output: num_inputs },
    );
    gates.push(Gate::Add { left: 0, right: num_inputs, output: num_inputs + 1 });
    gates.push(Gate::AssertEq { input: num_inputs + 1, expected: 0, output: num_inputs + 2 });
    proof {
        assert(gates@ =~= link_gates(c_left@, c_right@));
    }
    push_moved(&mut gates, c_left, 0, c_right.num_inputs + 3);
    push_moved(&mut gates, c_right, c_left.num_inputs, c_left.num_wires + 3);
    let first: usize = c_left.num_wires + c_right.num_wires + 3;
    push_copies(&mut gates, c_left, 0, c_right.num_inputs + 3, first);
    push_copies(
        &mut gates,
        c_right,
        c_left.num_inputs,
        c_left.num_wires + 3,
        first + c_left.num_outputs,
    );
    Circuit {
        num_wires: first + c_left.num_outputs + c_right.num_outputs,
        num_inputs,
        num_outputs: c_left.num_outputs + c_right.num_outputs,
        gates,
    }
}

proof fn lemma_moved_injective(
    g: Gate,
    h: Gate,
    n: nat,
    input_offset: nat,
    gate_offset: nat,
    limit: nat,
)
    requires
        g.reads_below(limit as int),
        h.reads_below(limit as int),
        g.target() == limit,
        h.target() == limit,
        n <= limit,
        input_offset <= gate_offset,
        limit + gate_offset <= usize::MAX,
        moved_gate(g, n, input_offset, gate_offset) == moved_gate(h, n, input_offset, gate_offset),
    ensures
        g == h,
{
}

/// Merged circuits with the same left part are equal only if their right parts have the same
/// gates.
pub proof fn lemma_merged_right(l: CircuitModel, r: CircuitModel, s: CircuitModel)
    requires
        mergeable(l, r),
        mergeable(l, s),
        r.num_inputs == s.num_inputs,
        merged(l, r) == merged(l, s),
    ensures
        r.gates == s.gates,
{
    let a = merged(l, r).gates;
    let b = merged(l, s).gates;
    let at = 3 + l.gates.len() as int;
    assert(r.gates.len() == s.gates.len());
    assert forall|i: int| 0 <= i < r.gates.len() implies #[trigger] r.gates[i] == s.gates[i] by {
        let offset = (l.num_wires + 3) as nat;
        assert(a[at + i] == moved_gates(r, l.num_inputs, offset)[i]);
        assert(b[at + i] == moved_gates(s, l.num_inputs, offset)[i]);
        lemma_moved_injective(
            r.gates[i],
            s.gates[i],
            r.num_inputs,
            l.num_inputs,
            offset,
            (r.num_inputs + i) as nat,
        );
    }
    assert(r.gates =~= s.gates);
}

/// A merged circuit has the wires and the gates of both, the inputs of both, three wires for the link and
/// a copy of every output.
pub proof fn lemma_merged_size(l: CircuitModel, r: CircuitModel)
    ensures
        merged(l, r).num_inputs == l.num_inputs + r.num_inputs,
        merged(l, r).num_outputs == l.num_outputs + r.num_outputs,
        merged(l, r).num_wires == l.num_wires + r.num_wires + 3 + l.num_outputs + r.num_outputs,
        merged(l, r).gates.len() == l.gates.len() + r.gates.len() + 3 + l.num_outputs + r.num_outputs,
{
}

} // verus!
