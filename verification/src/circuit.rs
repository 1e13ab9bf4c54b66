//! Arithmetic circuits over words.
//!
//! A gate reads wires and writes one wire; all arithmetic is modulo 2^32. The first
//! `num_inputs` wires carry the witness and the last `num_outputs` wires the output.
//! Evaluating a circuit gives its *trace*: the value of every wire.

use crate::draft;
use crate::draft::Draft;
use crate::error::ErrorModel;
use crate::error::MpcithError;
use crate::ring;
use crate::text;
use vstd::prelude::*;

verus! {

/// A gate.
#[derive(Clone, Copy, Debug, PartialEq, Eq, Structural)]
pub enum Gate {
    /// `output = left + right`
    Add { left: usize, right: usize, output: usize },
    /// `output = left * right`
    Mul { left: usize, right: usize, output: usize },
    /// `output = left XOR right`, bit by bit
    Xor { left: usize, right: usize, output: usize },
    /// `output = input + constant`
    AddConst { input: usize, constant: u32, output: usize },
    /// `output = input * constant`
    MulConst { input: usize, constant: u32, output: usize },
    /// `output = input`, and `input` must equal `expected`
    AssertEq { input: usize, expected: u32, output: usize },
}

impl Gate {
    /// The wire that is written.
    pub open spec fn target(self) -> usize {
        match self {
            Gate::Add { output, .. } => output,
            Gate::Mul { output, .. } => output,
            Gate::Xor { output, .. } => output,
            Gate::AddConst { output, .. } => output,
            Gate::MulConst { output, .. } => output,
            Gate::AssertEq { output, .. } => output,
        }
    }

    /// Whether every wire that is read has an index below `n`.
    pub open spec fn reads_below(self, n: int) -> bool {
        match self {
            Gate::Add { left, right, .. } => left < n && right < n,
            Gate::Mul { left, right, .. } => left < n && right < n,
            Gate::Xor { left, right, .. } => left < n && right < n,
            Gate::AddConst { input, .. } => input < n,
            Gate::MulConst { input, .. } => input < n,
            Gate::AssertEq { input, .. } => input < n,
        }
    }

    /// The value that is written, given the values of the wires.
    pub open spec fn value(self, wires: Seq<u32>) -> u32 {
        match self {
            Gate::Add { left, right, .. } => ring::wrap(wires[left as int] + wires[right as int]),
            Gate::Mul { left, right, .. } => ring::wrap(wires[left as int] * wires[right as int]),
            Gate::Xor { left, right, .. } => wires[left as int] ^ wires[right as int],
            Gate::AddConst { input, constant, .. } => ring::wrap(wires[input as int] + constant),
            Gate::MulConst { input, constant, .. } => ring::wrap(wires[input as int] * constant),
            Gate::AssertEq { input, .. } => wires[input as int],
        }
    }

    /// Whether the assertion, if this is one, is true.
    pub open spec fn holds(self, wires: Seq<u32>) -> bool {
        match self {
            Gate::AssertEq { input, expected, .. } => wires[input as int] == expected,
            _ => true,
        }
    }

    /// Whether this is a multiplication or an exclusive or.
    pub open spec fn nonlinear(self) -> bool {
        self is Mul || self is Xor
    }

    /// The wire that is written.
    pub fn output_wire(&self) -> (r: usize)
        ensures
            r == self.target(),
    {
        match self {
            Gate::Add { output, .. } => *output,
            Gate::Mul { output, .. } => *output,
            Gate::Xor { output, .. } => *output,
            Gate::AddConst { output, .. } => *output,
            Gate::MulConst { output, .. } => *output,
            Gate::AssertEq { output, .. } => *output,
        }
    }

    /// Whether parties that compute on shares have to interact for this gate.
    pub fn is_interactive(&self) -> (r: bool)
        ensures
            r == (self is Mul),
    {
        match self {
            Gate::Mul { .. } => true,
            _ => false,
        }
    }
}

/// A circuit.
#[derive(Debug)]
pub struct Circuit {
    /// Number of wires.
    pub num_wires: usize,
    /// Number of input wires; they come first.
    pub num_inputs: usize,
    /// Number of output wires; they come last.
    pub num_outputs: usize,
    /// Gates, in the order in which they are evaluated.
    pub gates: Vec<Gate>,
}

/// The contents of a [`Circuit`].
#[verifier::ext_equal]
pub struct CircuitModel {
    pub num_wires: nat,
    pub num_inputs: nat,
    pub num_outputs: nat,
    pub gates: Seq<Gate>,
}

impl View for Circuit {
    type V = CircuitModel;

    open spec fn view(&self) -> CircuitModel {
        CircuitModel {
            num_wires: self.num_wires as nat,
            num_inputs: self.num_inputs as nat,
            num_outputs: self.num_outputs as nat,
            gates: self.gates@,
        }
    }
}

/// The wires after the first `n` gates have written to `start`.
pub open spec fn run(gates: Seq<Gate>, n: nat, start: Seq<u32>) -> Seq<u32>
    decreases n,
{
    if n == 0 {
        start
    } else {
        let wires = run(gates, (n - 1) as nat, start);
        wires.update(gates[n - 1].target() as int, gates[n - 1].value(wires))
    }
}

/// The index of the first assertion at or after `from` that is false, if there is one.
pub open spec fn failed_assert(gates: Seq<Gate>, from: nat, start: Seq<u32>) -> Option<nat>
    decreases gates.len() - from,
{
    if from >= gates.len() {
        None
    } else if !gates[from as int].holds(run(gates, from, start)) {
        Some(from)
    } else {
        failed_assert(gates, from + 1, start)
    }
}

/// The input wires and the wires written by the first `n` gates, when each gate writes
/// the wire that follows those before it.
pub open spec fn wire_values(gates: Seq<Gate>, n: nat, witness: Seq<u32>) -> Seq<u32>
    decreases n,
{
    if n == 0 {
        witness
    } else {
        let wires = wire_values(gates, (n - 1) as nat, witness);
        wires.push(gates[n - 1].value(wires))
    }
}

/// Whether the assertions among the first `n` gates are true.
pub open spec fn asserts_hold(gates: Seq<Gate>, n: nat, witness: Seq<u32>) -> bool
    decreases n,
{
    if n == 0 {
        true
    } else {
        asserts_hold(gates, (n - 1) as nat, witness) && gates[n - 1].holds(
            wire_values(gates, (n - 1) as nat, witness),
        )
    }
}

/// Number of multiplications among the first `n` gates.
pub open spec fn count_mul(gates: Seq<Gate>, n: nat) -> nat
    decreases n,
{
    if n == 0 {
        0
    } else {
        count_mul(gates, (n - 1) as nat) + if gates[n - 1] is Mul {
            1nat
        } else {
            0nat
        }
    }
}

/// Number of multiplications and exclusive ors among the first `n` gates.
pub open spec fn count_nonlinear(gates: Seq<Gate>, n: nat) -> nat
    decreases n,
{
    if n == 0 {
        0
    } else {
        count_nonlinear(gates, (n - 1) as nat) + if gates[n - 1].nonlinear() {
            1nat
        } else {
            0nat
        }
    }
}

/// Number of exclusive ors among the first `n` gates.
pub open spec fn count_xor(gates: Seq<Gate>, n: nat) -> nat
    decreases n,
{
    if n == 0 {
        0
    } else {
        count_xor(gates, (n - 1) as nat) + if gates[n - 1] is Xor {
            1nat
        } else {
            0nat
        }
    }
}

/// The asserted wire and the expected value of each assertion among the first `n` gates.
pub open spec fn assert_list(gates: Seq<Gate>, n: nat) -> Seq<(usize, u32)>
    decreases n,
{
    if n == 0 {
        Seq::empty()
    } else {
        let before = assert_list(gates, (n - 1) as nat);
        match gates[n - 1] {
            Gate::AssertEq { input, expected, .. } => before.push((input, expected)),
            _ => before,
        }
    }
}

/// The expected value of the first assertion at or after gate `from` that writes `wire`.
pub open spec fn asserted_output(gates: Seq<Gate>, from: nat, wire: nat) -> Option<u32>
    decreases gates.len() - from,
{
    if from >= gates.len() {
        None
    } else {
        match gates[from as int] {
            Gate::AssertEq { expected, output, .. } => if output == wire {
                Some(expected)
            } else {
                asserted_output(gates, from + 1, wire)
            },
            _ => asserted_output(gates, from + 1, wire),
        }
    }
}

impl CircuitModel {
    /// Every wire index in the circuit exists.
    pub open spec fn in_range(self) -> bool {
        &&& self.num_inputs <= self.num_wires
        &&& forall|i: int|
            0 <= i < self.gates.len() ==> (#[trigger] self.gates[i]).reads_below(
                self.num_wires as int,
            ) && self.gates[i].target() < self.num_wires
    }

    /// Each gate writes the wire after those before it and reads only wires before that.
    pub open spec fn sequential(self) -> bool {
        &&& self.num_wires == self.num_inputs + self.gates.len()
        &&& forall|i: int|
            0 <= i < self.gates.len() ==> (#[trigger] self.gates[i]).target() == self.num_inputs + i
                && self.gates[i].reads_below(self.num_inputs + i)
    }

    /// The circuit has no exclusive-or gate.
    pub open spec fn xor_free(self) -> bool {
        forall|i: int| 0 <= i < self.gates.len() ==> !((#[trigger] self.gates[i]) is Xor)
    }

    /// The wires before the first gate: the witness, then zeros.
    pub open spec fn start(self, witness: Seq<u32>) -> Seq<u32> {
        Seq::new(
            self.num_wires,
            |i: int|
                if i < witness.len() {
                    witness[i]
                } else {
                    0
                },
        )
    }

    /// The wires after the last gate.
    pub open spec fn trace(self, witness: Seq<u32>) -> Seq<u32> {
        run(self.gates, self.gates.len(), self.start(witness))
    }

    /// Whether the witness has the right length and makes every assertion true.
    pub open spec fn accepts(self, witness: Seq<u32>) -> bool {
        &&& witness.len() == self.num_inputs
        &&& failed_assert(self.gates, 0, self.start(witness)) is None
    }

    /// Why an evaluation fails, if it does.
    pub open spec fn evaluation_failure(self, witness: Seq<u32>) -> Option<ErrorModel> {
        if witness.len() != self.num_inputs {
            Some(
                ErrorModel::CircuitError(
                    text::line2(
                        "Expected "@,
                        self.num_inputs,
                        " witness values, got "@,
                        witness.len(),
                        ""@,
                    ),
                ),
            )
        } else {
            match failed_assert(self.gates, 0, self.start(witness)) {
                Some(k) => Some(
                    ErrorModel::CircuitError(
                        assert_message(
                            self.gates[k as int],
                            run(self.gates, k, self.start(witness)),
                        ),
                    ),
                ),
                None => None,
            }
        }
    }

    /// The assertions of the circuit.
    pub open spec fn assertions(self) -> Seq<(usize, u32)> {
        assert_list(self.gates, self.gates.len())
    }

    /// The index of the first output wire.
    pub open spec fn output_start(self) -> int {
        self.num_wires - self.num_outputs
    }
}

/// What is said of a false assertion.
pub open spec fn assert_message(gate: Gate, wires: Seq<u32>) -> Seq<char> {
    match gate {
        Gate::AssertEq { input, expected, .. } => text::line3(
            "AssertEq failed: wire "@,
            input as nat,
            " = "@,
            wires[input as int] as nat,
            ", expected "@,
            expected as nat,
            ""@,
        ),
        _ => Seq::empty(),
    }
}

/// Gates write in place: the number of wires does not change.
pub proof fn lemma_run_len(gates: Seq<Gate>, n: nat, start: Seq<u32>)
    requires
        forall|i: int| 0 <= i < n ==> (#[trigger] gates[i]).target() < start.len(),
    ensures
        run(gates, n, start).len() == start.len(),
    decreases n,
{
    if n > 0 {
        lemma_run_len(gates, (n - 1) as nat, start);
    }
}

/// Each gate of a sequential circuit adds one wire.
pub proof fn lemma_wire_values_len(gates: Seq<Gate>, n: nat, witness: Seq<u32>)
    ensures
        wire_values(gates, n, witness).len() == witness.len() + n,
    decreases n,
{
    if n > 0 {
        lemma_wire_values_len(gates, (n - 1) as nat, witness);
    }
}

/// A gate's value and assertion depend only on the wires that it reads.
pub proof fn lemma_gate_local(gate: Gate, a: Seq<u32>, b: Seq<u32>, n: int)
    requires
        gate.reads_below(n),
        n <= a.len(),
        n <= b.len(),
        forall|i: int| 0 <= i < n ==> a[i] == b[i],
    ensures
        gate.value(a) == gate.value(b),
        gate.holds(a) == gate.holds(b),
{
}

/// In a sequential circuit, the wires written so far are those of [`wire_values`].
pub proof fn lemma_run_is_wire_values(c: CircuitModel, n: nat, witness: Seq<u32>)
    requires
        c.sequential(),
        witness.len() == c.num_inputs,
        n <= c.gates.len(),
    ensures
        run(c.gates, n, c.start(witness)).len() == c.num_wires,
        forall|i: int|
            0 <= i < c.num_inputs + n ==> #[trigger] run(c.gates, n, c.start(witness))[i]
                == wire_values(c.gates, n, witness)[i],
    decreases n,
{
    lemma_run_len(c.gates, n, c.start(witness));
    lemma_wire_values_len(c.gates, n, witness);
    if n > 0 {
        let m = (n - 1) as nat;
        lemma_run_is_wire_values(c, m, witness);
        lemma_wire_values_len(c.gates, m, witness);
        assert(c.gates[n - 1].target() == c.num_inputs + m);
        lemma_gate_local(
            c.gates[n - 1],
            run(c.gates, m, c.start(witness)),
            wire_values(c.gates, m, witness),
            (c.num_inputs + m) as int,
        );
    }
}

/// The trace of a sequential circuit.
pub proof fn lemma_trace(c: CircuitModel, witness: Seq<u32>)
    requires
        c.sequential(),
        witness.len() == c.num_inputs,
    ensures
        c.trace(witness) == wire_values(c.gates, c.gates.len(), witness),
{
    lemma_run_is_wire_values(c, c.gates.len(), witness);
    lemma_wire_values_len(c.gates, c.gates.len(), witness);
    assert(c.trace(witness) =~= wire_values(c.gates, c.gates.len(), witness));
}

proof fn lemma_failed_assert_from(c: CircuitModel, from: nat, witness: Seq<u32>)
    requires
        c.sequential(),
        witness.len() == c.num_inputs,
        from <= c.gates.len(),
        asserts_hold(c.gates, from, witness),
    ensures
        failed_assert(c.gates, from, c.start(witness)) is None <==> asserts_hold(
            c.gates,
            c.gates.len(),
            witness,
        ),
    decreases c.gates.len() - from,
{
    if from < c.gates.len() {
        lemma_run_is_wire_values(c, from, witness);
        lemma_wire_values_len(c.gates, from, witness);
        lemma_gate_local(
            c.gates[from as int],
            run(c.gates, from, c.start(witness)),
            wire_values(c.gates, from, witness),
            (c.num_inputs + from) as int,
        );
        if c.gates[from as int].holds(wire_values(c.gates, from, witness)) {
            lemma_failed_assert_from(c, from + 1, witness);
        } else {
            if asserts_hold(c.gates, c.gates.len(), witness) {
                lemma_asserts_prefix(c.gates, from + 1, c.gates.len(), witness);
            }
        }
    }
}

/// Assertions that hold for more gates hold for fewer.
pub proof fn lemma_asserts_prefix(gates: Seq<Gate>, n: nat, m: nat, witness: Seq<u32>)
    requires
        n <= m,
        asserts_hold(gates, m, witness),
    ensures
        asserts_hold(gates, n, witness),
    decreases m,
{
    if n < m {
        lemma_asserts_prefix(gates, n, (m - 1) as nat, witness);
    }
}

/// A sequential circuit accepts exactly the witnesses that make its assertions true.
pub proof fn lemma_accepts(c: CircuitModel, witness: Seq<u32>)
    requires
        c.sequential(),
        witness.len() == c.num_inputs,
    ensures
        c.accepts(witness) <==> asserts_hold(c.gates, c.gates.len(), witness),
{
    lemma_failed_assert_from(c, 0, witness);
}

/// Each wire is written by one gate: what an assertion expects is what is asserted of its output.
pub proof fn lemma_asserted_at(c: CircuitModel, from: nat, i: int)
    requires
        c.sequential(),
        from <= i < c.gates.len(),
        c.gates[i] is AssertEq,
    ensures
        asserted_output(c.gates, from, (c.num_inputs + i) as nat) == Some(
            c.gates[i]->AssertEq_expected,
        ),
    decreases i - from,
{
    assert(c.gates[from as int].target() == c.num_inputs + from);
    assert(c.gates[i].target() == c.num_inputs + i);
    if from < i {
        lemma_asserted_at(c, from + 1, i);
    }
}

/// Where the assertions are true, an asserted wire has the value that is asserted of it.
pub proof fn lemma_asserted_value(c: CircuitModel, from: nat, wire: nat, witness: Seq<u32>)
    requires
        c.sequential(),
        witness.len() == c.num_inputs,
        asserted_output(c.gates, from, wire) is Some,
        asserts_hold(c.gates, c.gates.len(), witness),
    ensures
        wire < c.num_wires,
        Some(wire_values(c.gates, c.gates.len(), witness)[wire as int]) == asserted_output(
            c.gates,
            from,
            wire,
        ),
    decreases c.gates.len() - from,
{
    let g = c.gates[from as int];
    assert(g.target() == c.num_inputs + from);
    if g is AssertEq && g->AssertEq_output == wire {
        lemma_asserts_prefix(c.gates, from + 1, c.gates.len(), witness);
        lemma_wire_values_len(c.gates, from, witness);
        lemma_wires_kept(c.gates, from + 1, c.gates.len(), witness);
    } else {
        lemma_asserted_value(c, from + 1, wire, witness);
    }
}

/// Later gates leave the wires before them as they are.
pub proof fn lemma_wires_kept(gates: Seq<Gate>, n: nat, m: nat, witness: Seq<u32>)
    requires
        n <= m,
    ensures
        wire_values(gates, m, witness).len() == witness.len() + m,
        forall|i: int|
            0 <= i < witness.len() + n ==> #[trigger] wire_values(gates, m, witness)[i]
                == wire_values(gates, n, witness)[i],
    decreases m,
{
    lemma_wire_values_len(gates, m, witness);
    if n < m {
        lemma_wires_kept(gates, n, (m - 1) as nat, witness);
    }
}

/// A sequential circuit refers to no missing wire.
pub proof fn lemma_sequential_in_range(c: CircuitModel)
    requires
        c.sequential(),
    ensures
        c.in_range(),
{
    assert forall|i: int| 0 <= i < c.gates.len() implies (#[trigger] c.gates[i]).reads_below(
        c.num_wires as int,
    ) && c.gates[i].target() < c.num_wires by {
        assert(c.gates[i].target() == c.num_inputs + i);
    }
}

impl Circuit {
    /// Evaluates the circuit on a witness and returns the value of every wire.
    pub fn evaluate(&self, witness: &[u32]) -> (r: Result<Vec<u32>, MpcithError>)
        requires
            witness@.len() == self.num_inputs ==> self@.in_range(),
        ensures
            match r {
                Ok(trace) => self@.evaluation_failure(witness@) is None && trace@ == self@.trace(
                    witness@,
                ),
                Err(e) => self@.evaluation_failure(witness@) == Some(e@),
            },
            r is Ok <==> self@.accepts(witness@),
    {
        if witness.len() != self.num_inputs {
            return Err(
                MpcithError::CircuitError(
                    text::text2(
                        "Expected ",
                        self.num_inputs,
                        " witness values, got ",
                        witness.len(),
                        "",
                    ),
                ),
            );
        }
        let mut wires: Vec<u32> = Vec::with_capacity(self.num_wires);
        let mut i: usize = 0;
        while i < self.num_wires
            invariant
                i <= self.num_wires,
                wires@.len() == i,
                witness@.len() == self.num_inputs,
                forall|j: int|
                    0 <= j < i ==> #[trigger] wires@[j] == self@.start(witness@)[j],
            decreases self.num_wires - i,
        {
            if i < witness.len() {
                wires.push(witness[i]);
            } else {
                wires.push(0);
            }
            i = i + 1;
        }
        let ghost start = self@.start(witness@);
        proof {
            assert(wires@ =~= start);
        }
        let mut k: usize = 0;
        while k < self.gates.len()
            invariant
                k <= self.gates.len(),
                self@.in_range(),
                witness@.len() == self.num_inputs,
                start == self@.start(witness@),
                wires@ == run(self.gates@, k as nat, start),
                wires@.len() == self.num_wires,
                failed_assert(self.gates@, 0, start) == failed_assert(
                    self.gates@,
                    k as nat,
                    start,
                ),
            decreases self.gates.len() - k,
        {
            let gate: Gate = self.gates[k];
            proof {
                assert(self@.gates[k as int] == gate);
                assert(gate.reads_below(self.num_wires as int));
            }
            match gate {
                Gate::Add { left, right, output } => {
                    proof {
                        ring::lemma_wrapping_ops(wires@[left as int], wires@[right as int]);
                    }
                    wires[output] = wires[left].wrapping_add(wires[right]);
                },
                Gate::Mul { left, right, output } => {
                    proof {
                        ring::lemma_wrapping_ops(wires@[left as int], wires@[right as int]);
                    }
                    wires[output] = wires[left].wrapping_mul(wires[right]);
                },
                Gate::Xor { left, right, output } => {
                    wires[output] = wires[left] ^ wires[right];
                },
                Gate::AddConst { input, constant, output } => {
                    proof {
                        ring::lemma_wrapping_ops(wires@[input as int], constant);
                    }
                    wires[output] = wires[input].wrapping_add(constant);
                },
                Gate::MulConst { input, constant, output } => {
                    proof {
                        ring::lemma_wrapping_ops(wires@[input as int], constant);
                    }
                    wires[output] = wires[input].wrapping_mul(constant);
                },
                Gate::AssertEq { input, expected, output } => {
                    let value: u32 = wires[input];
                    if value != expected {
                        return Err(
                            MpcithError::CircuitError(
                                text::text3(
                                    "AssertEq failed: wire ",
                                    input,
                                    " = ",
                                    value as usize,
                                    ", expected ",
                                    expected as usize,
                                    "",
                                ),
                            ),
                        );
                    }
                    wires[output] = value;
                },
            }
            k = k + 1;
        }
        Ok(wires)
    }

    /// The output wires of a trace.
    pub fn outputs<'a>(&self, trace: &'a [u32]) -> (r: &'a [u32])
        requires
            self.num_outputs <= self.num_wires,
            self.num_wires - self.num_outputs <= trace@.len(),
        ensures
            r@ == trace@.subrange(self@.output_start(), trace@.len() as int),
    {
        vstd::slice::slice_subrange(trace, self.num_wires - self.num_outputs, trace.len())
    }

    /// Number of multiplications.
    pub fn num_mul_gates(&self) -> (r: usize)
        ensures
            r == count_mul(self.gates@, self.gates@.len()),
    {
        let mut count: usize = 0;
        let mut i: usize = 0;
        while i < self.gates.len()
            invariant
                i <= self.gates.len(),
                count == count_mul(self.gates@, i as nat),
                count <= i,
            decreases self.gates.len() - i,
        {
            if self.gates[i].is_interactive() {
                count = count + 1;
            }
            i = i + 1;
        }
        count
    }

    /// The asserted wire and the expected value of every assertion, in order.
    pub fn assert_constraints(&self) -> (r: Vec<(usize, u32)>)
        ensures
            r@ == self@.assertions(),
    {
        let mut out: Vec<(usize, u32)> = Vec::new();
        let mut i: usize = 0;
        while i < self.gates.len()
            invariant
                i <= self.gates.len(),
                out@ == assert_list(self.gates@, i as nat),
            decreases self.gates.len() - i,
        {
            if let Gate::AssertEq { input, expected, .. } = self.gates[i] {
                out.push((input, expected));
            }
            i = i + 1;
        }
        out
    }

    /// The value that the circuit itself asserts for `wire`, if an assertion writes it.
    pub fn assert_expected_for_output(&self, wire: usize) -> (r: Option<u32>)
        ensures
            r == asserted_output(self.gates@, 0, wire as nat),
    {
        let mut i: usize = 0;
        while i < self.gates.len()
            invariant
                i <= self.gates.len(),
                asserted_output(self.gates@, 0, wire as nat) == asserted_output(
                    self.gates@,
                    i as nat,
                    wire as nat,
                ),
            decreases self.gates.len() - i,
        {
            if let Gate::AssertEq { expected, output, .. } = self.gates[i] {
                if output == wire {
                    return Some(expected);
                }
            }
            i = i + 1;
        }
        None
    }
}

impl Clone for Circuit {
    fn clone(&self) -> (r: Self)
        ensures
            r@ == self@,
    {
        let mut gates: Vec<Gate> = Vec::with_capacity(self.gates.len());
        let mut i: usize = 0;
        while i < self.gates.len()
            invariant
                i <= self.gates.len(),
                gates@ == self.gates@.subrange(0, i as int),
            decreases self.gates.len() - i,
        {
            gates.push(self.gates[i]);
            i = i + 1;
        }
        proof {
            assert(gates@ =~= self.gates@);
        }
        Circuit {
            num_wires: self.num_wires,
            num_inputs: self.num_inputs,
            num_outputs: self.num_outputs,
            gates,
        }
    }
}

/// Builds a circuit gate by gate.
///
/// Gates are numbered as they are appended: each writes the wire after the last one.
#[derive(Debug)]
pub struct CircuitBuilder {
    num_inputs: usize,
    reserved: usize,
    gates: Vec<Gate>,
}

impl View for CircuitBuilder {
    type V = Draft;

    closed spec fn view(&self) -> Draft {
        Draft {
            inputs: self.num_inputs as nat,
            reserved: self.reserved as nat,
            gates: self.gates@,
        }
    }
}

impl Default for CircuitBuilder {
    fn default() -> (r: Self)
        ensures
            r@ == (Draft { inputs: 0, reserved: 0, gates: Seq::empty() }),
    {
        CircuitBuilder::new(0)
    }
}

impl CircuitBuilder {
    /// A builder with `num_inputs` input wires.
    pub fn new(num_inputs: usize) -> (r: Self)
        ensures
            r@ == (Draft {
                inputs: num_inputs as nat,
                reserved: num_inputs as nat,
                gates: Seq::empty(),
            }),
    {
        CircuitBuilder { num_inputs, reserved: num_inputs, gates: Vec::new() }
    }

    /// A builder with `num_inputs` input wires and room for `num_xors` exclusive ors.
    ///
    /// Each exclusive or takes 64 further input wires, which come after the others: the bits
    /// of its left operand, then the bits of its right operand.
    pub fn new_with_reserved_xor_inputs(num_inputs: usize, num_xors: usize) -> (r: Self)
        requires
            num_inputs + 64 * num_xors <= usize::MAX,
        ensures
            r@ == (Draft {
                inputs: (num_inputs + 64 * num_xors) as nat,
                reserved: num_inputs as nat,
                gates: Seq::empty(),
            }),
    {
        CircuitBuilder {
            num_inputs: num_inputs + 64 * num_xors,
            reserved: num_inputs,
            gates: Vec::new(),
        }
    }

    fn push(&mut self, gate: Gate)
        ensures
            final(self)@ == old(self)@.gate(gate),
    {
        self.gates.push(gate);
    }

    fn next_wire(&self) -> (r: usize)
        requires
            self@.next() <= usize::MAX,
        ensures
            r == self@.next(),
    {
        self.num_inputs + self.gates.len()
    }

    /// Appends an addition and returns its output wire.
    pub fn add(&mut self, left: usize, right: usize) -> (r: usize)
        requires
            old(self)@.next() < usize::MAX,
        ensures
            r == old(self)@.next(),
            final(self)@ == old(self)@.add(left, right),
    {
        let output: usize = self.next_wire();
        self.push(Gate::Add { left, right, output });
        output
    }

    /// Appends a multiplication and returns its output wire.
    pub fn mul(&mut self, left: usize, right: usize) -> (r: usize)
        requires
            old(self)@.next() < usize::MAX,
        ensures
            r == old(self)@.next(),
            final(self)@ == old(self)@.mul(left, right),
    {
        let output: usize = self.next_wire();
        self.push(Gate::Mul { left, right, output });
        output
    }

    /// Appends the addition of a constant and returns its output wire.
    pub fn add_const(&mut self, input: usize, constant: u32) -> (r: usize)
        requires
            old(self)@.next() < usize::MAX,
        ensures
            r == old(self)@.next(),
            final(self)@ == old(self)@.add_const(input, constant),
    {
        let output: usize = self.next_wire();
        self.push(Gate::AddConst { input, constant, output });
        output
    }

    /// Appends the multiplication by a constant and returns its output wire.
    pub fn mul_const(&mut self, input: usize, constant: u32) -> (r: usize)
        requires
            old(self)@.next() < usize::MAX,
        ensures
            r == old(self)@.next(),
            final(self)@ == old(self)@.mul_const(input, constant),
    {
        let output: usize = self.next_wire();
        self.push(Gate::MulConst { input, constant, output });
        output
    }

    /// Appends an assertion and returns its output wire.
    pub fn assert_eq(&mut self, input: usize, expected: u32) -> (r: usize)
        requires
            old(self)@.next() < usize::MAX,
        ensures
            r == old(self)@.next(),
            final(self)@ == old(self)@.assert_eq(input, expected),
    {
        let output: usize = self.next_wire();
        self.push(Gate::AssertEq { input, expected, output });
        output
    }

    /// Appends the exclusive or of two words and returns its output wire.
    ///
    /// If 64 reserved input wires are left, the words are taken apart into the next 64 of them, put
    /// together bit by bit with additions and multiplications, and added up again, so that every
    /// step is checked like any other gate. Otherwise one exclusive-or gate is appended; a circuit
    /// with such a gate can be evaluated, but not proved: verifiers refuse it.
    pub fn xor(&mut self, left: usize, right: usize) -> (r: usize)
        requires
            if old(self)@.reserved + 64 <= old(self)@.inputs {
                old(self)@.next() + draft::xor_size() <= usize::MAX
            } else {
                old(self)@.next() < usize::MAX
            },
        ensures
            if old(self)@.reserved + 64 <= old(self)@.inputs {
                (final(self)@, r) == draft::xor(old(self)@, left, right)
            } else {
                &&& r == old(self)@.next()
                &&& final(self)@ == old(self)@.xor_gate(left, right)
            },
    {
        if self.reserved > self.num_inputs || self.num_inputs - self.reserved < 64 {
            let output: usize = self.next_wire();
            self.push(Gate::Xor { left, right, output });
            return output;
        }
        let ghost start = self@;
        let a: Vec<usize> = wire_list(self.reserved, 32);
        let b: Vec<usize> = wire_list(self.reserved + 32, 32);
        let ghost d1 = draft::bit_decompose(start, left, a@);
        let ghost d2 = draft::bit_decompose(d1, right, b@);
        proof {
            draft::lemma_bit_decompose_next(start, left, a@);
            draft::lemma_bit_decompose_next(d1, right, b@);
        }
        bit_decompose_on(self, left, &a);
        bit_decompose_on(self, right, &b);
        let mut outs: Vec<usize> = Vec::new();
        let mut i: usize = 0;
        while i < 32
            invariant
                i <= 32,
                a@.len() == 32,
                b@.len() == 32,
                self@ == draft::xor_bits(d2, a@, b@, i as nat).0,
                outs@ == draft::xor_bits(d2, a@, b@, i as nat).1,
                outs@.len() == i,
                self@.next() == d2.next() + 4 * i,
                d2.next() + 190 <= usize::MAX,
                d2.reserved == start.reserved,
                d2.inputs == start.inputs,
                self@.reserved == start.reserved,
                self@.inputs == start.inputs,
            decreases 32 - i,
        {
            let product: usize = self.mul(a[i], b[i]);
            let twice: usize = self.mul_const(product, 0xffff_fffe);
            let sum: usize = self.add(a[i], b[i]);
            let out: usize = self.add(sum, twice);
            outs.push(out);
            i = i + 1;
        }
        let out: usize = weigh_on(self, &outs);
        self.reserved = self.reserved + 64;
        out
    }

    /// Finishes the circuit.
    pub fn build(self, num_outputs: usize) -> (r: Circuit)
        requires
            self@.next() <= usize::MAX,
        ensures
            r@ == self@.build(num_outputs as nat),
    {
        Circuit {
            num_wires: self.num_inputs + self.gates.len(),
            num_inputs: self.num_inputs,
            num_outputs,
            gates: self.gates,
        }
    }
}

/// The list of `count` wires from `first` on.
pub fn wire_list(first: usize, count: usize) -> (r: Vec<usize>)
    requires
        first + count <= usize::MAX,
    ensures
        r@ == draft::wire_range(first as nat, count as nat),
{
    let mut out: Vec<usize> = Vec::new();
    let mut i: usize = 0;
    while i < count
        invariant
            i <= count,
            first + count <= usize::MAX,
            out@ =~= draft::wire_range(first as nat, i as nat),
        decreases count - i,
    {
        out.push(first + i);
        i = i + 1;
    }
    out
}

fn weigh_on(builder: &mut CircuitBuilder, wires: &[usize]) -> (r: usize)
    requires
        wires@.len() >= 1,
        old(builder)@.next() + 2 * (wires@.len() - 1) <= usize::MAX,
    ensures
        (final(builder)@, r) == draft::weigh(old(builder)@, wires@, wires@.len()),
        final(builder)@.next() == old(builder)@.next() + 2 * (wires@.len() - 1),
        final(builder)@.inputs == old(builder)@.inputs,
        final(builder)@.reserved == old(builder)@.reserved,
{
    let ghost start = builder@;
    let mut sum: usize = wires[0];
    let mut weight: u32 = 1;
    let mut i: usize = 1;
    proof {
        vstd::arithmetic::power2::lemma2_to64();
    }
    while i < wires.len()
        invariant
            1 <= i <= wires.len(),
            start.next() + 2 * (wires@.len() - 1) <= usize::MAX,
            (builder@, sum) == draft::weigh(start, wires@, i as nat),
            builder@.next() == start.next() + 2 * (i - 1),
            builder@.inputs == start.inputs,
            builder@.reserved == start.reserved,
            weight == ring::wrap(vstd::arithmetic::power2::pow2((i - 1) as nat) as int),
        decreases wires.len() - i,
    {
        proof {
            let p = vstd::arithmetic::power2::pow2((i - 1) as nat) as int;
            vstd::arithmetic::power2::lemma_pow2_unfold(i as nat);
            ring::lemma_wrap_add(p, p);
            ring::lemma_wrapping_ops(weight, weight);
        }
        weight = weight.wrapping_add(weight);
        let term: usize = builder.mul_const(wires[i], weight);
        sum = builder.add(sum, term);
        i = i + 1;
    }
    sum
}

/// Asserts that the wires in `bits` carry the binary notation of the value on wire `value`,
/// least significant bit first.
pub fn bit_decompose_on(builder: &mut CircuitBuilder, value: usize, bits: &[usize])
    requires
        old(builder)@.next() + draft::bit_decompose_size(bits@.len()) <= usize::MAX,
    ensures
        final(builder)@ == draft::bit_decompose(old(builder)@, value, bits@),
{
    if bits.len() == 0 {
        return ;
    }
    let ghost start = builder@;
    let mut i: usize = 0;
    while i < bits.len()
        invariant
            i <= bits.len(),
            start.next() + draft::bit_decompose_size(bits@.len()) <= usize::MAX,
            builder@ == draft::bool_checks(start, bits@, i as nat),
            builder@.next() == start.next() + 3 * i,
        decreases bits.len() - i,
    {
        let minus_one: usize = builder.add_const(bits[i], 0xffff_ffff);
        let product: usize = builder.mul(bits[i], minus_one);
        let checked: usize = builder.assert_eq(product, 0);
        i = i + 1;
    }
    let sum: usize = weigh_on(builder, bits);
    let negated: usize = builder.mul_const(sum, 0xffff_ffff);
    let difference: usize = builder.add(value, negated);
    let checked: usize = builder.assert_eq(difference, 0);
}

/// The first wires of a trace carry the witness, and every gate writes what it computes: sums and
/// products modulo 2^32, exclusive ors, and copies.
pub proof fn lemma_trace_wires(c: CircuitModel, witness: Seq<u32>, k: int)
    requires
        c.sequential(),
        witness.len() == c.num_inputs,
        0 <= k < c.gates.len(),
    ensures
        c.trace(witness).len() == c.num_wires,
        forall|i: int| 0 <= i < c.num_inputs ==> #[trigger] c.trace(witness)[i] == witness[i],
        ({
            let t = c.trace(witness);
            let out = t[c.num_inputs + k];
            match c.gates[k] {
                Gate::Add { left, right, .. } => out as int == (t[left as int] + t[right as int])
                    % 0x1_0000_0000,
                Gate::Mul { left, right, .. } => out as int == (t[left as int] * t[right as int])
                    % 0x1_0000_0000,
                Gate::Xor { left, right, .. } => out == t[left as int] ^ t[right as int],
                Gate::AddConst { input, constant, .. } => out as int == (t[input as int] + constant)
                    % 0x1_0000_0000,
                Gate::MulConst { input, constant, .. } => out as int == (t[input as int] * constant)
                    % 0x1_0000_0000,
                Gate::AssertEq { input, .. } => out == t[input as int],
            }
        }),
{
    let g = c.gates;
    lemma_trace(c, witness);
    lemma_wires_kept(g, 0, g.len(), witness);
    lemma_wires_kept(g, k as nat, g.len(), witness);
    lemma_wires_kept(g, (k + 1) as nat, g.len(), witness);
    lemma_wire_values_len(g, k as nat, witness);
    let before = wire_values(g, k as nat, witness);
    assert(g[k].target() == c.num_inputs + k && g[k].reads_below(c.num_inputs + k));
    assert(wire_values(g, (k + 1) as nat, witness) == before.push(g[k].value(before)));
    lemma_gate_local(g[k], before, c.trace(witness), c.num_inputs + k);
    assert(c.trace(witness)[c.num_inputs + k] == g[k].value(before));
}

/// A witness is accepted exactly if there is one word for each input and every asserted wire of the
/// trace carries the word that is asserted of it.
pub proof fn lemma_accepts_assertions(c: CircuitModel, witness: Seq<u32>)
    requires
        c.sequential(),
    ensures
        c.accepts(witness) <==> {
            &&& witness.len() == c.num_inputs
            &&& forall|k: int|
                0 <= k < c.gates.len() ==> match #[trigger] c.gates[k] {
                    Gate::AssertEq { input, expected, .. } => c.trace(witness)[input as int]
                        == expected,
                    _ => true,
                }
        },
{
    if witness.len() == c.num_inputs {
        lemma_accepts(c, witness);
        lemma_trace(c, witness);
        lemma_asserts_each(c, c.gates.len(), witness);
    }
}

proof fn lemma_asserts_each(c: CircuitModel, n: nat, witness: Seq<u32>)
    requires
        c.sequential(),
        witness.len() == c.num_inputs,
        n <= c.gates.len(),
    ensures
        asserts_hold(c.gates, n, witness) <==> forall|k: int|
            0 <= k < n ==> match #[trigger] c.gates[k] {
                Gate::AssertEq { input, expected, .. } => wire_values(
                    c.gates,
                    c.gates.len(),
                    witness,
                )[input as int] == expected,
                _ => true,
            },
    decreases n,
{
    if n > 0 {
        let m = (n - 1) as nat;
        lemma_asserts_each(c, m, witness);
        lemma_wires_kept(c.gates, m, c.gates.len(), witness);
        lemma_wire_values_len(c.gates, m, witness);
        assert(c.gates[m as int].reads_below(c.num_inputs + m as int));
        lemma_gate_local(
            c.gates[m as int],
            wire_values(c.gates, m, witness),
            wire_values(c.gates, c.gates.len(), witness),
            c.num_inputs + m as int,
        );
    }
}

/// An evaluation fails at the first false assertion, and a witness of the wrong length before that.
pub proof fn lemma_first_false(c: CircuitModel, witness: Seq<u32>, from: nat)
    ensures
        match failed_assert(c.gates, from, c.start(witness)) {
            Some(k) => {
                &&& from <= k < c.gates.len()
                &&& c.gates[k as int] is AssertEq
                &&& run(c.gates, k, c.start(witness))[c.gates[k as int]->AssertEq_input as int]
                    != c.gates[k as int]->AssertEq_expected
                &&& forall|j: int|
                    from <= j < k ==> match #[trigger] c.gates[j] {
                        Gate::AssertEq { input, expected, .. } => run(
                            c.gates,
                            j as nat,
                            c.start(witness),
                        )[input as int] == expected,
                        _ => true,
                    }
            },
            None => forall|j: int|
                from <= j < c.gates.len() ==> match #[trigger] c.gates[j] {
                    Gate::AssertEq { input, expected, .. } => run(
                        c.gates,
                        j as nat,
                        c.start(witness),
                    )[input as int] == expected,
                    _ => true,
                },
        },
        witness.len() != c.num_inputs ==> c.evaluation_failure(witness) == Some(
            ErrorModel::CircuitError(
                "Expected "@ + text::decimal(c.num_inputs) + " witness values, got "@
                    + text::decimal(witness.len()) + ""@,
            ),
        ),
    decreases c.gates.len() - from,
{
    if from < c.gates.len() && c.gates[from as int].holds(run(c.gates, from, c.start(witness))) {
        lemma_first_false(c, witness, from + 1);
    }
}

/// Gates are counted and assertions listed one by one.
pub proof fn lemma_counts(gates: Seq<Gate>, n: nat)
    ensures
        count_mul(gates, 0) == 0 && count_xor(gates, 0) == 0 && count_nonlinear(gates, 0) == 0,
        assert_list(gates, 0) == Seq::<(usize, u32)>::empty(),
        count_mul(gates, n + 1) == count_mul(gates, n) + if gates[n as int] is Mul {
            1int
        } else {
            0
        },
        count_xor(gates, n + 1) == count_xor(gates, n) + if gates[n as int] is Xor {
            1int
        } else {
            0
        },
        count_nonlinear(gates, n) == count_mul(gates, n) + count_xor(gates, n),
        match gates[n as int] {
            Gate::AssertEq { input, expected, .. } => assert_list(gates, n + 1) == assert_list(
                gates,
                n,
            ).push((input, expected)),
            _ => assert_list(gates, n + 1) == assert_list(gates, n),
        },
    decreases n,
{
    if n > 0 {
        lemma_counts(gates, (n - 1) as nat);
    }
}

/// A wire has an asserted value exactly if an assertion writes it.
pub proof fn lemma_asserted_exactly(c: CircuitModel, wire: nat)
    requires
        c.sequential(),
    ensures
        asserted_output(c.gates, 0, wire) is Some <==> {
            &&& c.num_inputs <= wire < c.num_wires
            &&& c.gates[wire - c.num_inputs] is AssertEq
        },
        asserted_output(c.gates, 0, wire) is Some ==> asserted_output(c.gates, 0, wire) == Some(
            c.gates[wire - c.num_inputs]->AssertEq_expected,
        ),
{
    if c.num_inputs <= wire < c.num_wires && c.gates[wire - c.num_inputs] is AssertEq {
        lemma_asserted_at(c, 0, wire - c.num_inputs);
    } else {
        lemma_not_asserted(c, 0, wire);
    }
}

proof fn lemma_not_asserted(c: CircuitModel, from: nat, wire: nat)
    requires
        c.sequential(),
        !(c.num_inputs <= wire < c.num_wires && c.gates[wire - c.num_inputs] is AssertEq),
    ensures
        asserted_output(c.gates, from, wire) is None,
    decreases c.gates.len() - from,
{
    if from < c.gates.len() {
        assert(c.gates[from as int].target() == c.num_inputs + from);
        lemma_not_asserted(c, from + 1, wire);
    }
}

/// The outputs of a circuit are its last wires.
pub proof fn lemma_outputs_last(c: CircuitModel)
    ensures
        c.output_start() + c.num_outputs == c.num_wires,
{
}

/// An evaluation starts with the witness and zeros, and each gate writes one wire: the sum, the product
/// modulo 2^32, the exclusive or, or a copy of what it reads.
pub proof fn lemma_run_steps(c: CircuitModel, witness: Seq<u32>, n: nat, i: int)
    requires
        0 <= i < c.num_wires,
    ensures
        c.trace(witness) == run(c.gates, c.gates.len(), c.start(witness)),
        run(c.gates, 0, c.start(witness)) == c.start(witness),
        c.start(witness).len() == c.num_wires,
        c.start(witness)[i] == if i < witness.len() {
            witness[i]
        } else {
            0
        },
        ({
            let before = run(c.gates, n, c.start(witness));
            let written = |x: int| (x % 0x1_0000_0000) as u32;
            run(c.gates, n + 1, c.start(witness)) == match c.gates[n as int] {
                Gate::Add { left, right, output } => before.update(
                    output as int,
                    written(before[left as int] + before[right as int]),
                ),
                Gate::Mul { left, right, output } => before.update(
                    output as int,
                    written(before[left as int] * before[right as int]),
                ),
                Gate::Xor { left, right, output } => before.update(
                    output as int,
                    before[left as int] ^ before[right as int],
                ),
                Gate::AddConst { input, constant, output } => before.update(
                    output as int,
                    written(before[input as int] + constant),
                ),
                Gate::MulConst { input, constant, output } => before.update(
                    output as int,
                    written(before[input as int] * constant),
                ),
                Gate::AssertEq { input, output, .. } => before.update(
                    output as int,
                    before[input as int],
                ),
            }
        }),
{
}

/// Which wires a gate reads and writes.
pub proof fn lemma_gate_wires(gate: Gate, n: int)
    ensures
        match gate {
            Gate::Add { left, right, output } => gate.target() == output && (gate.reads_below(n)
                <==> left < n && right < n),
            Gate::Mul { left, right, output } => gate.target() == output && (gate.reads_below(n)
                <==> left < n && right < n),
            Gate::Xor { left, right, output } => gate.target() == output && (gate.reads_below(n)
                <==> left < n && right < n),
            Gate::AddConst { input, output, .. } => gate.target() == output && (gate.reads_below(n)
                <==> input < n),
            Gate::MulConst { input, output, .. } => gate.target() == output && (gate.reads_below(n)
                <==> input < n),
            Gate::AssertEq { input, output, .. } => gate.target() == output && (gate.reads_below(n)
                <==> input < n),
        },
{
}

/// What is said of a false assertion: its wire, the value of the wire, and the value that is expected.
pub proof fn lemma_assert_message(input: usize, expected: u32, output: usize, wires: Seq<u32>)
    ensures
        assert_message(Gate::AssertEq { input, expected, output }, wires)
            == "AssertEq failed: wire "@ + text::decimal(input as nat) + " = "@ + text::decimal(
            wires[input as int] as nat,
        ) + ", expected "@ + text::decimal(expected as nat) + ""@,
{
}

} // verus!
