//! The circuit that asserts that a word lies in a range.
//!
//! Let `x` be the word, `width = hi - lo`, `shifted = x - lo` and `slack = width - shifted`. The
//! circuit asserts that `shifted` and `slack` have no more bits than `width`. As long as `width`
//! is below 2^31, their sum cannot wrap around, so it is `width`, and `x` lies between `lo` and
//! `hi`. For wider ranges the assertion would say nothing, so there is no such circuit.

use crate::bits;
use crate::circuit::CircuitModel;
use crate::circuit::Gate;
use crate::draft;
use crate::draft::Draft;
use crate::ring;
use vstd::arithmetic::power2::*;
use vstd::prelude::*;

verus! {

/// The first `n` bits of `x`.
pub open spec fn bit_seq(x: nat, n: nat) -> Seq<u32> {
    Seq::new(n, |i: int| bits::bit(x, i as nat))
}

/// Number of bits for the distance to either end of a range.
pub open spec fn range_bits(lo: u32, hi: u32) -> nat {
    bits::bit_length(ring::wrap(hi - lo) as nat)
}

/// The witness for a value: the value, its bits, and the bits of its distances to the two ends.
pub open spec fn range_witness(x: u32, lo: u32, hi: u32) -> Seq<u32> {
    let width = ring::wrap(hi - lo);
    let k = range_bits(lo, hi);
    let shifted = ring::wrap(x - lo);
    let slack = ring::wrap(width - shifted);
    seq![x] + bit_seq(x as nat, 32) + bit_seq(shifted as nat, k) + bit_seq(slack as nat, k)
}

/// The bits of the value.
pub open spec fn value_part(lo: u32, hi: u32) -> Draft {
    draft::bit_decompose(
        draft::blank(33 + 2 * range_bits(lo, hi)),
        0,
        draft::wire_range(1, 32),
    )
}

/// The distance to the lower end, and its bits.
pub open spec fn shifted_part(lo: u32, hi: u32) -> Draft {
    let d = value_part(lo, hi);
    draft::bit_decompose(
        d.add_const(0, ring::wrap(-(lo as int))),
        d.next() as usize,
        draft::wire_range(33, range_bits(lo, hi)),
    )
}

/// The distance to the upper end, and its bits.
pub open spec fn slack_part(lo: u32, hi: u32) -> Draft {
    let k = range_bits(lo, hi);
    let shifted = value_part(lo, hi).next() as usize;
    let d = shifted_part(lo, hi);
    let d1 = d.mul_const(shifted, 0xffff_ffff);
    let d2 = d1.add_const(d.next() as usize, ring::wrap(hi - lo));
    draft::bit_decompose(d2, d1.next() as usize, draft::wire_range(33 + k, k))
}

/// The whole circuit; its output is zero.
pub open spec fn range_draft(lo: u32, hi: u32) -> Draft {
    let d = slack_part(lo, hi);
    d.mul_const(0, 0).assert_eq(d.next() as usize, 0)
}

/// The circuit that asserts `lo <= x <= hi` for input 0.
pub open spec fn range_circuit(lo: u32, hi: u32) -> CircuitModel {
    range_draft(lo, hi).build(1)
}

proof fn lemma_value_part(lo: u32, hi: u32, w: Seq<u32>)
    requires
        range_bits(lo, hi) <= 31,
        w.len() == 33 + 2 * range_bits(lo, hi),
    ensures
        value_part(lo, hi).wf(),
        value_part(lo, hi).inputs == w.len(),
        value_part(lo, hi).next() == w.len() + 161,
        draft::keeps(w, value_part(lo, hi).values(w)),
        value_part(lo, hi).holds(w) <==> draft::is_binary(w[0], draft::part(w, 1, 32)),
{
    let d = draft::blank(w.len());
    let wires = draft::wire_range(1, 32);
    assert(d.wf());
    draft::lemma_bit_decompose(d, 0, wires, w);
    draft::lemma_inputs_first(value_part(lo, hi), w);
    assert(draft::pick(d.values(w), wires) =~= draft::part(w, 1, 32));
    draft::lemma_is_binary(w[0], draft::part(w, 1, 32));
}

proof fn lemma_shifted_part(lo: u32, hi: u32, w: Seq<u32>)
    requires
        range_bits(lo, hi) <= 31,
        w.len() == 33 + 2 * range_bits(lo, hi),
    ensures
        shifted_part(lo, hi).wf(),
        shifted_part(lo, hi).inputs == w.len(),
        shifted_part(lo, hi).next() == w.len() + 163 + 5 * range_bits(lo, hi),
        draft::keeps(w, shifted_part(lo, hi).values(w)),
        shifted_part(lo, hi).values(w)[value_part(lo, hi).next() as int] == ring::wrap(w[0] - lo),
        shifted_part(lo, hi).holds(w) <==> value_part(lo, hi).holds(w) && draft::is_binary(
            ring::wrap(w[0] - lo),
            draft::part(w, 33, range_bits(lo, hi)),
        ),
{
    let k = range_bits(lo, hi);
    bits::lemma_bit_length(ring::wrap(hi - lo) as nat);
    lemma_value_part(lo, hi, w);
    let d = value_part(lo, hi);
    let g = Gate::AddConst {
        input: 0,
        constant: ring::wrap(-(lo as int)),
        output: d.next() as usize,
    };
    draft::lemma_gate(d, g, w);
    draft::lemma_gate_wf(d, g);
    ring::lemma_wrap_add(w[0] as int, -(lo as int));
    let d1 = d.gate(g);
    let wires = draft::wire_range(33, k);
    draft::lemma_bit_decompose(d1, d.next() as usize, wires, w);
    draft::lemma_inputs_first(d1, w);
    draft::lemma_inputs_first(shifted_part(lo, hi), w);
    assert(draft::pick(d1.values(w), wires) =~= draft::part(w, 33, k));
    draft::lemma_is_binary(ring::wrap(w[0] - lo), draft::part(w, 33, k));
}

proof fn lemma_slack_part(lo: u32, hi: u32, w: Seq<u32>)
    requires
        range_bits(lo, hi) <= 31,
        w.len() == 33 + 2 * range_bits(lo, hi),
    ensures
        slack_part(lo, hi).wf(),
        slack_part(lo, hi).inputs == w.len(),
        slack_part(lo, hi).next() == w.len() + 166 + 10 * range_bits(lo, hi),
        draft::keeps(w, slack_part(lo, hi).values(w)),
        slack_part(lo, hi).holds(w) <==> shifted_part(lo, hi).holds(w) && draft::is_binary(
            ring::wrap(ring::wrap(hi - lo) - ring::wrap(w[0] - lo)),
            draft::part(w, 33 + range_bits(lo, hi), range_bits(lo, hi)),
        ),
{
    let k = range_bits(lo, hi);
    let width = ring::wrap(hi - lo);
    bits::lemma_bit_length(width as nat);
    lemma_value_part(lo, hi, w);
    lemma_shifted_part(lo, hi, w);
    let shifted = value_part(lo, hi).next() as usize;
    let d = shifted_part(lo, hi);
    let g1 = Gate::MulConst { input: shifted, constant: 0xffff_ffff, output: d.next() as usize };
    let d1 = d.gate(g1);
    let g2 = Gate::AddConst {
        input: d.next() as usize,
        constant: width,
        output: d1.next() as usize,
    };
    let d2 = d1.gate(g2);
    draft::lemma_gate(d, g1, w);
    draft::lemma_gate_wf(d, g1);
    draft::lemma_gate(d1, g2, w);
    draft::lemma_gate_wf(d1, g2);
    let s = ring::wrap(w[0] - lo);
    ring::lemma_negate(s);
    ring::lemma_wrap_add(-(s as int), width as int);
    let slack = ring::wrap(width - s);
    assert(d2.values(w)[d1.next() as int] == slack);
    let wires = draft::wire_range(33 + k, k);
    draft::lemma_bit_decompose(d2, d1.next() as usize, wires, w);
    draft::lemma_inputs_first(d2, w);
    draft::lemma_inputs_first(slack_part(lo, hi), w);
    assert(draft::pick(d2.values(w), wires) =~= draft::part(w, 33 + k, k));
    draft::lemma_is_binary(slack, draft::part(w, 33 + k, k));
}

/// The shape of the circuit, and what its assertions say.
pub proof fn lemma_range_draft(lo: u32, hi: u32, w: Seq<u32>)
    requires
        range_bits(lo, hi) <= 31,
        w.len() == 33 + 2 * range_bits(lo, hi),
    ensures
        range_draft(lo, hi).wf(),
        range_draft(lo, hi).inputs == w.len(),
        range_draft(lo, hi).next() == w.len() + 168 + 10 * range_bits(lo, hi),
        range_draft(lo, hi).holds(w) <==> {
            &&& draft::is_binary(w[0], draft::part(w, 1, 32))
            &&& draft::is_binary(
                ring::wrap(w[0] - lo),
                draft::part(w, 33, range_bits(lo, hi)),
            )
            &&& draft::is_binary(
                ring::wrap(ring::wrap(hi - lo) - ring::wrap(w[0] - lo)),
                draft::part(w, 33 + range_bits(lo, hi), range_bits(lo, hi)),
            )
        },
{
    lemma_value_part(lo, hi, w);
    lemma_shifted_part(lo, hi, w);
    lemma_slack_part(lo, hi, w);
    let d = slack_part(lo, hi);
    let g1 = Gate::MulConst { input: 0, constant: 0, output: d.next() as usize };
    let d1 = d.gate(g1);
    let g2 = Gate::AssertEq { input: d.next() as usize, expected: 0, output: d1.next() as usize };
    draft::lemma_gate(d, g1, w);
    draft::lemma_gate_wf(d, g1);
    draft::lemma_gate(d1, g2, w);
    draft::lemma_gate_wf(d1, g2);
    assert(w[0] * 0u32 == 0) by (nonlinear_arith);
}

/// Where the parts of the circuit end.
pub proof fn lemma_range_sizes(lo: u32, hi: u32)
    requires
        range_bits(lo, hi) <= 31,
    ensures
        value_part(lo, hi).next() == 194 + 2 * range_bits(lo, hi),
        shifted_part(lo, hi).next() == 196 + 7 * range_bits(lo, hi),
        slack_part(lo, hi).next() == 199 + 12 * range_bits(lo, hi),
{
    let w = Seq::new(33 + 2 * range_bits(lo, hi), |i: int| 0u32);
    lemma_value_part(lo, hi, w);
    lemma_shifted_part(lo, hi, w);
    lemma_slack_part(lo, hi, w);
}

/// The width of a supported range has at most 31 bits.
pub proof fn lemma_range_bits(lo: u32, hi: u32)
    requires
        lo <= hi,
        hi - lo < 0x8000_0000,
    ensures
        1 <= range_bits(lo, hi) <= 31,
        ring::wrap(hi - lo) == hi - lo,
{
    let width = (hi - lo) as nat;
    bits::lemma_bit_length(width);
    lemma2_to64();
    if bits::bit_length(width) > 31 {
        if bits::bit_length(width) - 1 > 31 {
            lemma_pow2_strictly_increases(31, (bits::bit_length(width) - 1) as nat);
        }
    }
}

/// The circuit accepts a witness exactly if its value lies in the range and the rest of it is
/// what belongs to the value.
pub proof fn lemma_range_circuit(lo: u32, hi: u32, w: Seq<u32>)
    requires
        lo <= hi,
        hi - lo < 0x8000_0000,
    ensures
        range_circuit(lo, hi).sequential(),
        range_circuit(lo, hi).xor_free(),
        range_circuit(lo, hi).num_inputs == 33 + 2 * range_bits(lo, hi),
        range_circuit(lo, hi).num_wires <= 1000,
        range_circuit(lo, hi).accepts(w) <==> {
            &&& w.len() == 33 + 2 * range_bits(lo, hi)
            &&& lo <= w[0] <= hi
            &&& w == range_witness(w[0], lo, hi)
        },
{
    let k = range_bits(lo, hi);
    lemma_range_bits(lo, hi);
    let sample = Seq::new(33 + 2 * k, |i: int| 0u32);
    lemma_range_draft(lo, hi, sample);
    draft::lemma_build(range_draft(lo, hi), 1, sample);
    if w.len() == 33 + 2 * k {
        lemma_range_draft(lo, hi, w);
        draft::lemma_build(range_draft(lo, hi), 1, w);
        let x = w[0];
        let shifted = ring::wrap(x - lo);
        let width = ring::wrap(hi - lo);
        let slack = ring::wrap(width - shifted);
        let a = draft::part(w, 1, 32);
        let b = draft::part(w, 33, k);
        let c = draft::part(w, 33 + k, k);
        lemma_in_range(x, lo, hi);
        if range_draft(lo, hi).holds(w) {
            assert(a =~= bit_seq(x as nat, 32));
            assert(b =~= bit_seq(shifted as nat, k));
            assert(c =~= bit_seq(slack as nat, k));
            assert(w =~= seq![x] + a + b + c);
        }
        if lo <= x <= hi && w == range_witness(x, lo, hi) {
            lemma2_to64();
            assert(a =~= bit_seq(x as nat, 32));
            assert(b =~= bit_seq(shifted as nat, k));
            assert(c =~= bit_seq(slack as nat, k));
        }
    }
}

/// A value lies in the range exactly if both distances have few bits.
proof fn lemma_in_range(x: u32, lo: u32, hi: u32)
    requires
        lo <= hi,
        hi - lo < 0x8000_0000,
    ensures
        ({
            let width = ring::wrap(hi - lo);
            let shifted = ring::wrap(x - lo);
            let slack = ring::wrap(width - shifted);
            lo <= x <= hi <==> shifted < pow2(range_bits(lo, hi)) && slack < pow2(
                range_bits(lo, hi),
            )
        }),
{
    let k = range_bits(lo, hi);
    lemma_range_bits(lo, hi);
    bits::lemma_bit_length(ring::wrap(hi - lo) as nat);
    lemma2_to64();
    if k < 31 {
        lemma_pow2_strictly_increases(k, 31);
    }
    let width = ring::wrap(hi - lo);
    let shifted = ring::wrap(x - lo);
    let slack = ring::wrap(width - shifted);
    if x < lo {
        ring::lemma_wrap_shift(x - lo, 1);
    }
    if width < shifted {
        ring::lemma_wrap_shift(width - shifted, 1);
    }
}

} // verus!
