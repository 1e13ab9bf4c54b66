//! Circuits under construction, and the arithmetic of their building blocks.
//!
//! A [`Draft`] is the model of a [`crate::circuit::CircuitBuilder`]. Each building block
//! is a function from drafts to drafts, with a lemma that says which witnesses its
//! assertions admit and what its wires carry.

use crate::bits;
use crate::circuit::CircuitModel;
use crate::circuit::Gate;
use crate::circuit;
use crate::ring;
use vstd::arithmetic::power2::*;
use vstd::prelude::*;

verus! {

/// Input wires and the gates appended so far.
#[verifier::ext_equal]
pub struct Draft {
    /// Number of input wires.
    pub inputs: nat,
    /// The first input wire that no exclusive or has taken yet.
    pub reserved: nat,
    /// The gates.
    pub gates: Seq<Gate>,
}

/// The wires of `old` carry the same values in `new`.
pub open spec fn keeps(old: Seq<u32>, new: Seq<u32>) -> bool {
    &&& old.len() <= new.len()
    &&& forall|i: int| 0 <= i < old.len() ==> #[trigger] new[i] == old[i]
}

/// The values of the given wires.
pub open spec fn pick(values: Seq<u32>, wires: Seq<usize>) -> Seq<u32> {
    Seq::new(wires.len(), |i: int| values[wires[i] as int])
}

/// Input wires and no gates.
pub open spec fn blank(inputs: nat) -> Draft {
    Draft { inputs, reserved: inputs, gates: Seq::empty() }
}

/// `count` words from position `at` on.
pub open spec fn part(w: Seq<u32>, at: nat, count: nat) -> Seq<u32> {
    w.subrange(at as int, (at + count) as int)
}

/// Every wire in the list has an index below `n`.
pub open spec fn all_below(wires: Seq<usize>, n: int) -> bool {
    forall|i: int| 0 <= i < wires.len() ==> #[trigger] wires[i] < n
}

/// `count` wires from `first` on.
pub open spec fn wire_range(first: nat, count: nat) -> Seq<usize> {
    Seq::new(count, |i: int| (first + i) as usize)
}

impl Draft {
    /// The wire that the next gate writes.
    pub open spec fn next(self) -> nat {
        self.inputs + self.gates.len()
    }

    /// One more gate.
    pub open spec fn gate(self, g: Gate) -> Draft {
        Draft { gates: self.gates.push(g), ..self }
    }

    pub open spec fn add(self, left: usize, right: usize) -> Draft {
        self.gate(Gate::Add { left, right, output: self.next() as usize })
    }

    pub open spec fn mul(self, left: usize, right: usize) -> Draft {
        self.gate(Gate::Mul { left, right, output: self.next() as usize })
    }

    pub open spec fn xor_gate(self, left: usize, right: usize) -> Draft {
        self.gate(Gate::Xor { left, right, output: self.next() as usize })
    }

    pub open spec fn add_const(self, input: usize, constant: u32) -> Draft {
        self.gate(Gate::AddConst { input, constant, output: self.next() as usize })
    }

    pub open spec fn mul_const(self, input: usize, constant: u32) -> Draft {
        self.gate(Gate::MulConst { input, constant, output: self.next() as usize })
    }

    pub open spec fn assert_eq(self, input: usize, expected: u32) -> Draft {
        self.gate(Gate::AssertEq { input, expected, output: self.next() as usize })
    }

    /// The finished circuit.
    pub open spec fn build(self, num_outputs: nat) -> CircuitModel {
        CircuitModel {
            num_wires: self.next(),
            num_inputs: self.inputs,
            num_outputs,
            gates: self.gates,
        }
    }

    /// Each gate writes the wire after those before it, reads only earlier wires, and is
    /// no exclusive-or gate.
    pub open spec fn wf(self) -> bool {
        &&& self.next() <= usize::MAX
        &&& forall|i: int|
            0 <= i < self.gates.len() ==> (#[trigger] self.gates[i]).target() == self.inputs + i
                && self.gates[i].reads_below(self.inputs + i) && !(self.gates[i] is Xor)
    }

    /// The value of every wire.
    pub open spec fn values(self, witness: Seq<u32>) -> Seq<u32> {
        circuit::wire_values(self.gates, self.gates.len(), witness)
    }

    /// Whether the assertions made so far are true.
    pub open spec fn holds(self, witness: Seq<u32>) -> bool {
        circuit::asserts_hold(self.gates, self.gates.len(), witness)
    }

    /// `later` has the gates of `self` and possibly more.
    pub open spec fn grows_to(self, later: Draft) -> bool {
        &&& later.inputs == self.inputs
        &&& self.gates.len() <= later.gates.len()
        &&& self.gates =~= later.gates.subrange(0, self.gates.len() as int)
    }
}

proof fn lemma_prefix_values(a: Seq<Gate>, b: Seq<Gate>, n: nat, witness: Seq<u32>)
    requires
        n <= a.len(),
        n <= b.len(),
        forall|i: int| 0 <= i < n ==> a[i] == b[i],
    ensures
        circuit::wire_values(a, n, witness) == circuit::wire_values(b, n, witness),
        circuit::asserts_hold(a, n, witness) == circuit::asserts_hold(b, n, witness),
    decreases n,
{
    if n > 0 {
        lemma_prefix_values(a, b, (n - 1) as nat, witness);
    }
}

/// A gate adds one wire and possibly one assertion.
pub proof fn lemma_gate(d: Draft, g: Gate, witness: Seq<u32>)
    requires
        witness.len() == d.inputs,
    ensures
        d.values(witness).len() == d.next(),
        d.gate(g).values(witness) == d.values(witness).push(g.value(d.values(witness))),
        keeps(d.values(witness), d.gate(g).values(witness)),
        d.gate(g).holds(witness) == (d.holds(witness) && g.holds(d.values(witness))),
{
    let e = d.gate(g);
    lemma_prefix_values(d.gates, e.gates, d.gates.len(), witness);
    circuit::lemma_wire_values_len(d.gates, d.gates.len(), witness);
}

/// A well-formed draft stays so when a gate is appended that reads earlier wires and
/// writes the next one.
pub proof fn lemma_gate_wf(d: Draft, g: Gate)
    requires
        d.wf(),
        d.next() < usize::MAX,
        g.reads_below(d.next() as int),
        g.target() == d.next(),
        !(g is Xor),
    ensures
        d.gate(g).wf(),
        d.gate(g).next() == d.next() + 1,
        d.grows_to(d.gate(g)),
{
}

/// A finished draft is a sequential circuit without exclusive-or gates that accepts the
/// witnesses for which all assertions are true.
pub proof fn lemma_build(d: Draft, num_outputs: nat, witness: Seq<u32>)
    requires
        d.wf(),
    ensures
        d.build(num_outputs).sequential(),
        d.build(num_outputs).xor_free(),
        witness.len() == d.inputs ==> (d.build(num_outputs).accepts(witness) <==> d.holds(witness)),
        witness.len() == d.inputs ==> d.build(num_outputs).trace(witness) == d.values(witness),
{
    let c = d.build(num_outputs);
    assert(c.sequential());
    if witness.len() == d.inputs {
        circuit::lemma_accepts(c, witness);
        circuit::lemma_trace(c, witness);
    }
}

// ----------------------------------------------------------------------------
// Bits
// ----------------------------------------------------------------------------

/// Asserts that wire `b` carries a bit: `b * (b - 1) == 0`.
pub open spec fn bool_check(d: Draft, b: usize) -> Draft {
    let d1 = d.add_const(b, 0xffff_ffff);
    let d2 = d1.mul(b, d.next() as usize);
    d2.assert_eq(d1.next() as usize, 0)
}

/// Asserts that the first `n` of the wires carry bits.
pub open spec fn bool_checks(d: Draft, wires: Seq<usize>, n: nat) -> Draft
    decreases n,
{
    if n == 0 {
        d
    } else {
        bool_check(bool_checks(d, wires, (n - 1) as nat), wires[n - 1])
    }
}

/// Adds up the first `n` wires, each times its power of two, and returns the wire of the
/// sum.
pub open spec fn weigh(d: Draft, wires: Seq<usize>, n: nat) -> (Draft, usize)
    decreases n,
{
    if n <= 1 {
        (d, wires[0])
    } else {
        let (e, sum) = weigh(d, wires, (n - 1) as nat);
        let e1 = e.mul_const(wires[n - 1], ring::wrap(pow2((n - 1) as nat) as int));
        let e2 = e1.add(sum, e.next() as usize);
        (e2, e1.next() as usize)
    }
}

/// Asserts that two wires carry the same value: `a - b == 0`.
pub open spec fn equal_check(d: Draft, a: usize, b: usize) -> Draft {
    let d1 = d.mul_const(b, 0xffff_ffff);
    let d2 = d1.add(a, d.next() as usize);
    d2.assert_eq(d1.next() as usize, 0)
}

/// Asserts that the wires carry the binary notation of the value on wire `value`, least
/// significant bit first. No wires, no assertions.
pub open spec fn bit_decompose(d: Draft, value: usize, wires: Seq<usize>) -> Draft {
    if wires.len() == 0 {
        d
    } else {
        let d1 = bool_checks(d, wires, wires.len());
        let (d2, sum) = weigh(d1, wires, wires.len());
        equal_check(d2, value, sum)
    }
}

/// Number of gates of [`bit_decompose`].
pub open spec fn bit_decompose_size(n: nat) -> nat {
    if n == 0 {
        0
    } else {
        5 * n + 1
    }
}

proof fn lemma_bool_check(d: Draft, b: usize, w: Seq<u32>)
    requires
        d.wf(),
        w.len() == d.inputs,
        b < d.next(),
        d.next() + 3 <= usize::MAX,
    ensures
        bool_check(d, b).wf(),
        d.grows_to(bool_check(d, b)),
        bool_check(d, b).reserved == d.reserved,
        bool_check(d, b).next() == d.next() + 3,
        keeps(d.values(w), bool_check(d, b).values(w)),
        bool_check(d, b).holds(w) <==> d.holds(w) && d.values(w)[b as int] <= 1,
{
    let g1 = Gate::AddConst { input: b, constant: 0xffff_ffff, output: d.next() as usize };
    let d1 = d.gate(g1);
    let g2 = Gate::Mul { left: b, right: d.next() as usize, output: d1.next() as usize };
    let d2 = d1.gate(g2);
    let g3 = Gate::AssertEq { input: d1.next() as usize, expected: 0, output: d2.next() as usize };
    lemma_gate(d, g1, w);
    lemma_gate_wf(d, g1);
    lemma_gate(d1, g2, w);
    lemma_gate_wf(d1, g2);
    lemma_gate(d2, g3, w);
    lemma_gate_wf(d2, g3);
    bits::lemma_boolean(d.values(w)[b as int]);
}

proof fn lemma_bool_checks(d: Draft, wires: Seq<usize>, n: nat, w: Seq<u32>)
    requires
        d.wf(),
        w.len() == d.inputs,
        n <= wires.len(),
        all_below(wires, d.next() as int),
        d.next() + 3 * n <= usize::MAX,
    ensures
        bool_checks(d, wires, n).wf(),
        d.grows_to(bool_checks(d, wires, n)),
        bool_checks(d, wires, n).reserved == d.reserved,
        bool_checks(d, wires, n).next() == d.next() + 3 * n,
        keeps(d.values(w), bool_checks(d, wires, n).values(w)),
        d.values(w).len() == d.next(),
        bool_checks(d, wires, n).holds(w) <==> d.holds(w) && bits::all_bits(
            pick(d.values(w), wires),
            n,
        ),
    decreases n,
{
    circuit::lemma_wire_values_len(d.gates, d.gates.len(), w);
    if n > 0 {
        let m = (n - 1) as nat;
        let e = bool_checks(d, wires, m);
        lemma_bool_checks(d, wires, m, w);
        lemma_bool_check(e, wires[n - 1], w);
        let s = pick(d.values(w), wires);
        assert(s[n - 1] == e.values(w)[wires[n - 1] as int]);
        assert(bits::all_bits(s, n) <==> bits::all_bits(s, m) && s[n - 1] <= 1);
        assert(d.gates =~= bool_checks(d, wires, n).gates.subrange(0, d.gates.len() as int));
    }
}

proof fn lemma_weigh(d: Draft, wires: Seq<usize>, n: nat, w: Seq<u32>)
    requires
        d.wf(),
        w.len() == d.inputs,
        1 <= n <= wires.len(),
        all_below(wires, d.next() as int),
        d.next() + 2 * (n - 1) <= usize::MAX,
    ensures
        weigh(d, wires, n).0.wf(),
        d.grows_to(weigh(d, wires, n).0),
        weigh(d, wires, n).0.reserved == d.reserved,
        weigh(d, wires, n).0.next() == d.next() + 2 * (n - 1),
        weigh(d, wires, n).1 < weigh(d, wires, n).0.next(),
        keeps(d.values(w), weigh(d, wires, n).0.values(w)),
        d.values(w).len() == d.next(),
        weigh(d, wires, n).0.values(w).len() == weigh(d, wires, n).0.next(),
        weigh(d, wires, n).0.holds(w) == d.holds(w),
        weigh(d, wires, n).0.values(w)[weigh(d, wires, n).1 as int] == ring::wrap(
            bits::bits_value(pick(d.values(w), wires), n),
        ),
    decreases n,
{
    circuit::lemma_wire_values_len(d.gates, d.gates.len(), w);
    let s = pick(d.values(w), wires);
    if n == 1 {
        lemma2_to64();
        reveal_with_fuel(bits::bits_value, 2);
        assert(bits::bits_value(s, 1) == s[0]);
        assert(wires[0] < d.next());
    } else {
        let m = (n - 1) as nat;
        lemma_weigh(d, wires, m, w);
        let (e, sum) = weigh(d, wires, m);
        let c = ring::wrap(pow2(m) as int);
        let g1 = Gate::MulConst { input: wires[n - 1], constant: c, output: e.next() as usize };
        let e1 = e.gate(g1);
        let g2 = Gate::Add { left: sum, right: e.next() as usize, output: e1.next() as usize };
        assert(wires[n - 1] < d.next());
        lemma_gate(e, g1, w);
        lemma_gate_wf(e, g1);
        lemma_gate(e1, g2, w);
        lemma_gate_wf(e1, g2);
        let e2 = e1.gate(g2);
        let x = s[n - 1] as int;
        assert(e.values(w)[wires[n - 1] as int] == x);
        ring::lemma_wrap_mul(x, pow2(m) as int);
        assert(e1.values(w)[e.next() as int] == ring::wrap(x * pow2(m)));
        ring::lemma_wrap_add(bits::bits_value(s, m), x * pow2(m));
        assert(e2.values(w)[e1.next() as int] == ring::wrap(
            ring::wrap(bits::bits_value(s, m)) + ring::wrap(x * pow2(m)),
        ));
        assert(d.gates =~= e2.gates.subrange(0, d.gates.len() as int));
    }
}

/// [`equal_check`] asserts equality.
pub proof fn lemma_equal_check(d: Draft, a: usize, b: usize, w: Seq<u32>)
    requires
        d.wf(),
        w.len() == d.inputs,
        a < d.next(),
        b < d.next(),
        d.next() + 3 <= usize::MAX,
    ensures
        equal_check(d, a, b).wf(),
        d.grows_to(equal_check(d, a, b)),
        equal_check(d, a, b).reserved == d.reserved,
        equal_check(d, a, b).next() == d.next() + 3,
        keeps(d.values(w), equal_check(d, a, b).values(w)),
        equal_check(d, a, b).holds(w) <==> d.holds(w) && d.values(w)[a as int] == d.values(
            w,
        )[b as int],
{
    let g1 = Gate::MulConst { input: b, constant: 0xffff_ffff, output: d.next() as usize };
    let d1 = d.gate(g1);
    let g2 = Gate::Add { left: a, right: d.next() as usize, output: d1.next() as usize };
    let d2 = d1.gate(g2);
    let g3 = Gate::AssertEq { input: d1.next() as usize, expected: 0, output: d2.next() as usize };
    lemma_gate(d, g1, w);
    lemma_gate_wf(d, g1);
    lemma_gate(d1, g2, w);
    lemma_gate_wf(d1, g2);
    lemma_gate(d2, g3, w);
    lemma_gate_wf(d2, g3);
    let x = d.values(w)[a as int];
    let y = d.values(w)[b as int];
    ring::lemma_negate(y);
    ring::lemma_wrap_add(x as int, -(y as int));
    assert(d2.values(w)[d1.next() as int] == ring::wrap(x - y));
    ring::lemma_difference(x, y);
}

/// [`bit_decompose`] asserts that the wires are bits that add up to the value, modulo
/// 2^32.
pub proof fn lemma_bit_decompose(d: Draft, value: usize, wires: Seq<usize>, w: Seq<u32>)
    requires
        d.wf(),
        w.len() == d.inputs,
        value < d.next(),
        all_below(wires, d.next() as int),
        d.next() + bit_decompose_size(wires.len()) <= usize::MAX,
    ensures
        bit_decompose(d, value, wires).wf(),
        d.grows_to(bit_decompose(d, value, wires)),
        bit_decompose(d, value, wires).reserved == d.reserved,
        bit_decompose(d, value, wires).next() == d.next() + bit_decompose_size(wires.len()),
        keeps(d.values(w), bit_decompose(d, value, wires).values(w)),
        wires.len() > 0 ==> (bit_decompose(d, value, wires).holds(w) <==> {
            &&& d.holds(w)
            &&& bits::all_bits(pick(d.values(w), wires), wires.len())
            &&& d.values(w)[value as int] == ring::wrap(
                bits::bits_value(pick(d.values(w), wires), wires.len()),
            )
        }),
        wires.len() == 0 ==> bit_decompose(d, value, wires) == d,
{
    if wires.len() > 0 {
        let n = wires.len();
        let d1 = bool_checks(d, wires, n);
        lemma_bool_checks(d, wires, n, w);
        lemma_weigh(d1, wires, n, w);
        let (d2, sum) = weigh(d1, wires, n);
        lemma_equal_check(d2, value, sum, w);
        let s = pick(d.values(w), wires);
        let t = pick(d1.values(w), wires);
        assert(s =~= t) by {
            assert forall|i: int| 0 <= i < n implies s[i] == t[i] by {
                assert(wires[i] < d.next());
            }
        }
        let d3 = equal_check(d2, value, sum);
        assert(d.gates =~= d3.gates.subrange(0, d.gates.len() as int));
    }
}

proof fn lemma_bool_checks_next(d: Draft, wires: Seq<usize>, n: nat)
    ensures
        bool_checks(d, wires, n).next() == d.next() + 3 * n,
        bool_checks(d, wires, n).inputs == d.inputs,
        bool_checks(d, wires, n).reserved == d.reserved,
    decreases n,
{
    if n > 0 {
        lemma_bool_checks_next(d, wires, (n - 1) as nat);
    }
}

proof fn lemma_weigh_next(d: Draft, wires: Seq<usize>, n: nat)
    requires
        n >= 1,
    ensures
        weigh(d, wires, n).0.next() == d.next() + 2 * (n - 1),
        weigh(d, wires, n).0.inputs == d.inputs,
        weigh(d, wires, n).0.reserved == d.reserved,
    decreases n,
{
    if n > 1 {
        lemma_weigh_next(d, wires, (n - 1) as nat);
    }
}

/// Number of gates of [`bit_decompose`], whatever the wires.
pub proof fn lemma_bit_decompose_next(d: Draft, value: usize, wires: Seq<usize>)
    ensures
        bit_decompose(d, value, wires).next() == d.next() + bit_decompose_size(wires.len()),
        bit_decompose(d, value, wires).inputs == d.inputs,
        bit_decompose(d, value, wires).reserved == d.reserved,
{
    if wires.len() > 0 {
        lemma_bool_checks_next(d, wires, wires.len());
        lemma_weigh_next(bool_checks(d, wires, wires.len()), wires, wires.len());
    }
}

// ----------------------------------------------------------------------------
// Exclusive or
// ----------------------------------------------------------------------------

/// The exclusive or of two bits: `a + b - 2ab`; the result is the last wire.
pub open spec fn xor_bit(d: Draft, a: usize, b: usize) -> Draft {
    let d1 = d.mul(a, b);
    let d2 = d1.mul_const(d.next() as usize, 0xffff_fffe);
    let d3 = d2.add(a, b);
    d3.add(d2.next() as usize, d1.next() as usize)
}

/// The exclusive or of the first `n` pairs of bits, and the wires of the results.
pub open spec fn xor_bits(d: Draft, a: Seq<usize>, b: Seq<usize>, n: nat) -> (Draft, Seq<usize>)
    decreases n,
{
    if n == 0 {
        (d, Seq::empty())
    } else {
        let (e, outs) = xor_bits(d, a, b, (n - 1) as nat);
        (xor_bit(e, a[n - 1], b[n - 1]), outs.push((e.next() + 3) as usize))
    }
}

/// The exclusive or of two words by way of their bits. The bits are taken from the next 64
/// reserved input wires: 32 for `left`, then 32 for `right`.
pub open spec fn xor(d: Draft, left: usize, right: usize) -> (Draft, usize) {
    let a = wire_range(d.reserved, 32);
    let b = wire_range(d.reserved + 32, 32);
    let d1 = bit_decompose(d, left, a);
    let d2 = bit_decompose(d1, right, b);
    let (d3, outs) = xor_bits(d2, a, b, 32);
    let (d4, sum) = weigh(d3, outs, 32);
    (Draft { reserved: d.reserved + 64, ..d4 }, sum)
}

/// Number of gates of [`xor`].
pub open spec fn xor_size() -> nat {
    512
}

proof fn lemma_xor_bit(d: Draft, a: usize, b: usize, w: Seq<u32>)
    requires
        d.wf(),
        w.len() == d.inputs,
        a < d.next(),
        b < d.next(),
        d.next() + 4 <= usize::MAX,
        d.values(w)[a as int] <= 1,
        d.values(w)[b as int] <= 1,
    ensures
        xor_bit(d, a, b).values(w)[(d.next() + 3) as int] == d.values(w)[a as int] ^ d.values(w)[b as int],
{
    lemma_xor_bit_shape(d, a, b, w);
    let x = d.values(w)[a as int];
    let y = d.values(w)[b as int];
    let p = x * y;
    bits::lemma_xor_bit(x, y);
    assert(0 <= p <= 1) by (nonlinear_arith)
        requires
            p == x * y,
            x <= 1,
            y <= 1,
    ;
    assert(ring::wrap(p * 0xffff_fffe) == ring::wrap(-2 * p)) by {
        ring::lemma_wrap_shift(-2 * p, p);
        assert(p * 0xffff_fffe == -2 * p + p * 0x1_0000_0000) by (nonlinear_arith);
    }
    ring::lemma_wrap_add(x + y, -2 * p);
}

proof fn lemma_xor_bit_shape(d: Draft, a: usize, b: usize, w: Seq<u32>)
    requires
        d.wf(),
        w.len() == d.inputs,
        a < d.next(),
        b < d.next(),
        d.next() + 4 <= usize::MAX,
    ensures
        xor_bit(d, a, b).wf(),
        d.grows_to(xor_bit(d, a, b)),
        xor_bit(d, a, b).reserved == d.reserved,
        xor_bit(d, a, b).next() == d.next() + 4,
        keeps(d.values(w), xor_bit(d, a, b).values(w)),
        xor_bit(d, a, b).holds(w) == d.holds(w),
        xor_bit(d, a, b).values(w)[(d.next() + 3) as int] == ring::wrap(
            ring::wrap(d.values(w)[a as int] + d.values(w)[b as int]) + ring::wrap(
                ring::wrap(d.values(w)[a as int] * d.values(w)[b as int]) * 0xffff_fffe,
            ),
        ),
{
    let g1 = Gate::Mul { left: a, right: b, output: d.next() as usize };
    let d1 = d.gate(g1);
    let g2 = Gate::MulConst {
        input: d.next() as usize,
        constant: 0xffff_fffe,
        output: d1.next() as usize,
    };
    let d2 = d1.gate(g2);
    let g3 = Gate::Add { left: a, right: b, output: d2.next() as usize };
    let d3 = d2.gate(g3);
    let g4 = Gate::Add {
        left: d2.next() as usize,
        right: d1.next() as usize,
        output: d3.next() as usize,
    };
    lemma_gate(d, g1, w);
    lemma_gate_wf(d, g1);
    lemma_gate(d1, g2, w);
    lemma_gate_wf(d1, g2);
    lemma_gate(d2, g3, w);
    lemma_gate_wf(d2, g3);
    lemma_gate(d3, g4, w);
    lemma_gate_wf(d3, g4);
    assert(d.gates =~= xor_bit(d, a, b).gates.subrange(0, d.gates.len() as int));
}

proof fn lemma_xor_bits(d: Draft, a: Seq<usize>, b: Seq<usize>, n: nat, w: Seq<u32>)
    requires
        d.wf(),
        w.len() == d.inputs,
        n <= a.len(),
        n <= b.len(),
        all_below(a, d.next() as int),
        all_below(b, d.next() as int),
        d.next() + 4 * n <= usize::MAX,
    ensures
        xor_bits(d, a, b, n).0.wf(),
        d.grows_to(xor_bits(d, a, b, n).0),
        xor_bits(d, a, b, n).0.reserved == d.reserved,
        xor_bits(d, a, b, n).0.next() == d.next() + 4 * n,
        xor_bits(d, a, b, n).1.len() == n,
        all_below(xor_bits(d, a, b, n).1, xor_bits(d, a, b, n).0.next() as int),
        keeps(d.values(w), xor_bits(d, a, b, n).0.values(w)),
        d.values(w).len() == d.next(),
        xor_bits(d, a, b, n).0.holds(w) == d.holds(w),
        bits::all_bits(pick(d.values(w), a), n) && bits::all_bits(pick(d.values(w), b), n) ==> (
        forall|i: int|
            0 <= i < n ==> #[trigger] pick(
                xor_bits(d, a, b, n).0.values(w),
                xor_bits(d, a, b, n).1,
            )[i] == d.values(w)[a[i] as int] ^ d.values(w)[b[i] as int]),
    decreases n,
{
    circuit::lemma_wire_values_len(d.gates, d.gates.len(), w);
    if n > 0 {
        let m = (n - 1) as nat;
        lemma_xor_bits(d, a, b, m, w);
        let (e, outs) = xor_bits(d, a, b, m);
        circuit::lemma_wire_values_len(e.gates, e.gates.len(), w);
        assert(a[m as int] < d.next() && b[m as int] < d.next());
        lemma_xor_bit_shape(e, a[m as int], b[m as int], w);
        let f = xor_bit(e, a[m as int], b[m as int]);
        assert(d.gates =~= f.gates.subrange(0, d.gates.len() as int));
        let sa = pick(d.values(w), a);
        let sb = pick(d.values(w), b);
        if bits::all_bits(sa, n) && bits::all_bits(sb, n) {
            assert(bits::all_bits(sa, m) && bits::all_bits(sb, m));
            assert(sa[m as int] <= 1 && sb[m as int] <= 1);
            lemma_xor_bit(e, a[m as int], b[m as int], w);
            let outs2 = xor_bits(d, a, b, n).1;
            assert forall|i: int| 0 <= i < n implies #[trigger] pick(f.values(w), outs2)[i]
                == d.values(w)[a[i] as int] ^ d.values(w)[b[i] as int] by {
                if i < m {
                    assert(outs[i] < e.next());
                    assert(pick(e.values(w), outs)[i] == e.values(w)[outs[i] as int]);
                }
            }
        }
        assert forall|i: int| 0 <= i < n implies #[trigger] xor_bits(d, a, b, n).1[i]
            < f.next() by {
            if i < m {
                assert(outs[i] < e.next());
            }
        }
    }
}

/// Whether the words are the bits of `x`, least significant first, and there are enough of them.
pub open spec fn is_binary(x: u32, s: Seq<u32>) -> bool {
    &&& x < pow2(s.len())
    &&& forall|i: int| 0 <= i < s.len() ==> #[trigger] s[i] == bits::bit(x as nat, i as nat)
}

/// A word has one binary notation of a given length.
pub proof fn lemma_is_binary(x: u32, s: Seq<u32>)
    requires
        s.len() <= 32,
    ensures
        is_binary(x, s) <==> bits::all_bits(s, s.len()) && x == ring::wrap(
            bits::bits_value(s, s.len()),
        ),
        is_binary(x, s) ==> x == bits::bits_value(s, s.len()),
{
    let n = s.len();
    lemma2_to64();
    lemma_pow2_pos(n);
    if n < 32 {
        lemma_pow2_strictly_increases(n, 32);
    }
    if is_binary(x, s) {
        bits::lemma_bits_of(x as nat, s, n);
        vstd::arithmetic::div_mod::lemma_small_mod(x as nat, pow2(n));
    }
    if bits::all_bits(s, n) && x == ring::wrap(bits::bits_value(s, n)) {
        bits::lemma_bits_bound(s, n);
        assert forall|i: int| 0 <= i < n implies #[trigger] s[i] == bits::bit(
            x as nat,
            i as nat,
        ) by {
            bits::lemma_bits_unique(s, n, i as nat);
        }
    }
}

proof fn lemma_xor_shape(d: Draft, left: usize, right: usize, w: Seq<u32>)
    requires
        d.wf(),
        w.len() == d.inputs,
        left < d.next(),
        right < d.next(),
        d.reserved + 64 <= d.inputs,
        d.next() + xor_size() <= usize::MAX,
    ensures
        xor(d, left, right).0.wf(),
        d.grows_to(xor(d, left, right).0),
        xor(d, left, right).0.next() == d.next() + xor_size(),
        xor(d, left, right).1 < xor(d, left, right).0.next(),
        keeps(d.values(w), xor(d, left, right).0.values(w)),
        xor(d, left, right).0.holds(w) == bit_decompose(
            bit_decompose(d, left, wire_range(d.reserved, 32)),
            right,
            wire_range(d.reserved + 32, 32),
        ).holds(w),
{
    let a = wire_range(d.reserved, 32);
    let b = wire_range(d.reserved + 32, 32);
    let d1 = bit_decompose(d, left, a);
    lemma_bit_decompose(d, left, a, w);
    let d2 = bit_decompose(d1, right, b);
    lemma_bit_decompose(d1, right, b, w);
    lemma_xor_bits(d2, a, b, 32, w);
    let (d3, outs) = xor_bits(d2, a, b, 32);
    lemma_weigh(d3, outs, 32, w);
    let (d4, sum) = weigh(d3, outs, 32);
    let e = xor(d, left, right).0;
    assert(e.gates == d4.gates);
    assert(d.gates =~= e.gates.subrange(0, d.gates.len() as int));
}

proof fn lemma_xor_sum(d: Draft, x: u32, y: u32, a: Seq<usize>, b: Seq<usize>, w: Seq<u32>)
    requires
        d.wf(),
        w.len() == d.inputs,
        a.len() == 32,
        b.len() == 32,
        all_below(a, d.next() as int),
        all_below(b, d.next() as int),
        d.next() + 190 <= usize::MAX,
        is_binary(x, pick(d.values(w), a)),
        is_binary(y, pick(d.values(w), b)),
    ensures
        ({
            let (e, outs) = xor_bits(d, a, b, 32);
            let (f, sum) = weigh(e, outs, 32);
            f.values(w)[sum as int] == x ^ y
        }),
{
    let sa = pick(d.values(w), a);
    let sb = pick(d.values(w), b);
    lemma_is_binary(x, sa);
    lemma_is_binary(y, sb);
    lemma_xor_bits(d, a, b, 32, w);
    let (e, outs) = xor_bits(d, a, b, 32);
    lemma_weigh(e, outs, 32, w);
    let so = pick(e.values(w), outs);
    let z = x ^ y;
    assert forall|i: int| 0 <= i < 32 implies #[trigger] so[i] == bits::bit(z as nat, i as nat) by {
        bits::lemma_bit_of_xor(x, y, i as u32);
        assert(sa[i] == d.values(w)[a[i] as int]);
        assert(sb[i] == d.values(w)[b[i] as int]);
    }
    bits::lemma_bits_of(z as nat, so, 32);
    lemma2_to64();
    ring::lemma_wrap_word(z);
}

/// [`xor`] asserts that the reserved wires carry the bits of the two words; its result wire
/// then carries their exclusive or.
pub proof fn lemma_xor(d: Draft, left: usize, right: usize, w: Seq<u32>)
    requires
        d.wf(),
        w.len() == d.inputs,
        left < d.next(),
        right < d.next(),
        d.reserved + 64 <= d.inputs,
        d.next() + xor_size() <= usize::MAX,
    ensures
        xor(d, left, right).0.wf(),
        d.grows_to(xor(d, left, right).0),
        xor(d, left, right).0.reserved == d.reserved + 64,
        xor(d, left, right).0.next() == d.next() + xor_size(),
        xor(d, left, right).1 < xor(d, left, right).0.next(),
        keeps(d.values(w), xor(d, left, right).0.values(w)),
        xor(d, left, right).0.holds(w) <==> {
            &&& d.holds(w)
            &&& is_binary(
                d.values(w)[left as int],
                part(w, d.reserved, 32),
            )
            &&& is_binary(
                d.values(w)[right as int],
                part(w, d.reserved + 32, 32),
            )
        },
        xor(d, left, right).0.holds(w) ==> xor(d, left, right).0.values(w)[xor(
            d,
            left,
            right,
        ).1 as int] == d.values(w)[left as int] ^ d.values(w)[right as int],
{
    lemma_xor_shape(d, left, right, w);
    let a = wire_range(d.reserved, 32);
    let b = wire_range(d.reserved + 32, 32);
    let x = d.values(w)[left as int];
    let y = d.values(w)[right as int];
    let wa = part(w, d.reserved, 32);
    let wb = part(w, d.reserved + 32, 32);
    let d1 = bit_decompose(d, left, a);
    lemma_bit_decompose(d, left, a, w);
    let d2 = bit_decompose(d1, right, b);
    lemma_bit_decompose(d1, right, b, w);
    lemma_inputs_first(d, w);
    lemma_inputs_first(d1, w);
    lemma_inputs_first(d2, w);
    assert(pick(d.values(w), a) =~= wa);
    assert(pick(d1.values(w), b) =~= wb);
    assert(pick(d2.values(w), a) =~= wa);
    assert(pick(d2.values(w), b) =~= wb);
    lemma_is_binary(x, wa);
    lemma_is_binary(y, wb);
    if d2.holds(w) {
        lemma_xor_sum(d2, x, y, a, b, w);
    }
}

/// The first wires carry the witness.
pub proof fn lemma_inputs_first(d: Draft, w: Seq<u32>)
    requires
        w.len() == d.inputs,
    ensures
        keeps(w, d.values(w)),
        d.values(w).len() == d.next(),
    decreases d.gates.len(),
{
    lemma_wire_values_keep(d.gates, d.gates.len(), w);
    circuit::lemma_wire_values_len(d.gates, d.gates.len(), w);
}

/// The witness stays on the first wires.
pub proof fn lemma_wire_values_keep(gates: Seq<Gate>, n: nat, w: Seq<u32>)
    ensures
        keeps(w, circuit::wire_values(gates, n, w)),
    decreases n,
{
    if n > 0 {
        lemma_wire_values_keep(gates, (n - 1) as nat, w);
    }
}

/// Every step of a builder appends one gate, which writes the next free wire.
pub proof fn lemma_steps(d: Draft, left: usize, right: usize, x: u32, num_outputs: nat)
    ensures
        ({
            let output = (d.inputs + d.gates.len()) as usize;
            let same = |e: Draft| e.inputs == d.inputs && e.reserved == d.reserved;
            &&& same(d.add(left, right)) && d.add(left, right).gates == d.gates.push(
                Gate::Add { left, right, output },
            )
            &&& same(d.mul(left, right)) && d.mul(left, right).gates == d.gates.push(
                Gate::Mul { left, right, output },
            )
            &&& same(d.xor_gate(left, right)) && d.xor_gate(left, right).gates == d.gates.push(
                Gate::Xor { left, right, output },
            )
            &&& same(d.add_const(left, x)) && d.add_const(left, x).gates == d.gates.push(
                Gate::AddConst { input: left, constant: x, output },
            )
            &&& same(d.mul_const(left, x)) && d.mul_const(left, x).gates == d.gates.push(
                Gate::MulConst { input: left, constant: x, output },
            )
            &&& same(d.assert_eq(left, x)) && d.assert_eq(left, x).gates == d.gates.push(
                Gate::AssertEq { input: left, expected: x, output },
            )
            &&& d.next() == d.inputs + d.gates.len()
            &&& d.build(num_outputs) == (CircuitModel {
                num_wires: d.inputs + d.gates.len(),
                num_inputs: d.inputs,
                num_outputs,
                gates: d.gates,
            })
        }),
{
}

} // verus!
