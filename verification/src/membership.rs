//! The circuit that asserts that a word is a leaf of a Merkle tree.
//!
//! The witness is the leaf, its index, the bits of the index and the siblings on the way to the
//! root. The circuit asserts that the bits are those of the index, that the index is below the
//! number of members, and that leaf and siblings hash to the root.
//!
//! The bound on the index matters because the tree is filled up with zeros to a power of two: the
//! zeros have paths too, but they are no members. With `pad = 2^depth - members`, the index is
//! below the number of members exactly if adding `pad` to it gives no carry out of the highest
//! bit. The carry is computed bit by bit.

use crate::bits;
use crate::circuit;
use crate::circuit::CircuitModel;
use crate::circuit::Gate;
use crate::draft;
use crate::draft::Draft;
use crate::merkle;
use crate::mimc;
use crate::ring;
use crate::tree;
use vstd::arithmetic::div_mod::*;
use vstd::arithmetic::power2::*;
use vstd::prelude::*;

verus! {

/// The carry of adding `pad` to the number on the first `n` wires, and the gates that compute it.
/// No wire stands for a carry that is always zero.
pub open spec fn carry_chain(d: Draft, wires: Seq<usize>, pad: nat, n: nat) -> (
    Draft,
    Option<usize>,
)
    decreases n,
{
    if n == 0 {
        (d, None)
    } else {
        let (e, carry) = carry_chain(d, wires, pad, (n - 1) as nat);
        let b = wires[n - 1];
        match carry {
            None => if bits::bit(pad, (n - 1) as nat) == 0 {
                (e, None)
            } else {
                (e, Some(b))
            },
            Some(c) => if bits::bit(pad, (n - 1) as nat) == 0 {
                (e.mul(c, b), Some(e.next() as usize))
            } else {
                let e1 = e.mul_const(b, 0xffff_ffff);
                let e2 = e1.add_const(e.next() as usize, 1);
                let e3 = e2.mul(c, e1.next() as usize);
                let e4 = e3.add(b, e2.next() as usize);
                (e4, Some(e3.next() as usize))
            },
        }
    }
}

/// Asserts that adding `pad` to the number on the wires gives no carry.
pub open spec fn no_carry(d: Draft, wires: Seq<usize>, pad: nat) -> Draft {
    let (e, carry) = carry_chain(d, wires, pad, wires.len());
    match carry {
        None => e,
        Some(c) => e.assert_eq(c, 0),
    }
}

/// One minus a bit; the result is the last wire.
pub open spec fn complement(d: Draft, b: usize) -> Draft {
    d.mul_const(b, 0xffff_ffff).add_const(d.next() as usize, 1)
}

/// `a * x + b * y`; the result is the last wire.
pub open spec fn combination(d: Draft, a: usize, x: usize, b: usize, y: usize) -> Draft {
    let d1 = d.mul(a, x);
    let d2 = d1.mul(b, y);
    d2.add(d.next() as usize, d1.next() as usize)
}

/// One step towards the root: puts the current value and the sibling in the order that the bit
/// says, and hashes them. Returns the wire of the hash.
pub open spec fn level(d: Draft, current: usize, b: usize, sibling: usize) -> (Draft, usize) {
    let d1 = complement(d, b);
    let not_b = (d.next() + 1) as usize;
    let d2 = combination(d1, not_b, current, b, sibling);
    let d3 = combination(d2, b, current, not_b, sibling);
    let (d4, out, _) = mimc::mimc_gates(
        d3,
        (d1.next() + 2) as usize,
        (d2.next() + 2) as usize,
        64,
    );
    (d4, out)
}

/// Number of gates of [`level`].
pub open spec fn level_size() -> nat {
    266
}

/// The first `n` steps from the leaf on wire 0 towards the root.
pub open spec fn walk(d: Draft, path_bits: Seq<usize>, siblings: Seq<usize>, n: nat) -> (
    Draft,
    usize,
)
    decreases n,
{
    if n == 0 {
        (d, 0)
    } else {
        let (e, current) = walk(d, path_bits, siblings, (n - 1) as nat);
        level(e, current, path_bits[n - 1], siblings[n - 1])
    }
}

/// The index, its bits and its bound.
pub open spec fn index_part(depth: nat, members: nat) -> Draft {
    let wires = draft::wire_range(2, depth);
    no_carry(
        draft::bit_decompose(draft::blank(2 + 2 * depth), 1, wires),
        wires,
        (pow2(depth) - members) as nat,
    )
}

/// The whole circuit.
pub open spec fn membership_draft(root: u32, depth: nat, members: nat) -> Draft {
    let (d, current) = walk(
        index_part(depth, members),
        draft::wire_range(2, depth),
        draft::wire_range(2 + depth, depth),
        depth,
    );
    d.assert_eq(current, root)
}

/// The circuit that asserts that input 0 is a leaf of the tree with the given root, at an index
/// below the number of members.
pub open spec fn membership_circuit(root: u32, depth: nat, members: nat) -> CircuitModel {
    membership_draft(root, depth, members).build(1)
}

/// What the circuit asserts of a witness.
pub open spec fn is_membership_witness(root: u32, depth: nat, members: nat, w: Seq<u32>) -> bool {
    let path_bits = draft::part(w, 2, depth);
    let index = bits::bits_value(path_bits, depth);
    &&& w.len() == 2 + 2 * depth
    &&& bits::all_bits(path_bits, depth)
    &&& depth > 0 ==> w[1] == index
    &&& index < members
    &&& tree::fold(
        w[0],
        index as nat,
        draft::part(w, 2 + depth, depth),
        depth,
        merkle::combine(),
    ) == root
}

/// The carry of adding `pad` to the first `n` bits of `s`.
spec fn carry_value(s: Seq<u32>, pad: nat, n: nat) -> int {
    (bits::bits_value(s, n) + pad % pow2(n)) / (pow2(n) as int)
}

proof fn lemma_complement(d: Draft, b: usize, w: Seq<u32>)
    requires
        d.wf(),
        w.len() == d.inputs,
        b < d.next(),
        d.next() + 2 <= usize::MAX,
    ensures
        complement(d, b).wf(),
        d.grows_to(complement(d, b)),
        complement(d, b).next() == d.next() + 2,
        draft::keeps(d.values(w), complement(d, b).values(w)),
        complement(d, b).holds(w) == d.holds(w),
        d.values(w)[b as int] <= 1 ==> complement(d, b).values(w)[d.next() + 1int] == 1
            - d.values(w)[b as int],
{
    let g1 = Gate::MulConst { input: b, constant: 0xffff_ffff, output: d.next() as usize };
    let d1 = d.gate(g1);
    let g2 = Gate::AddConst { input: d.next() as usize, constant: 1, output: d1.next() as usize };
    draft::lemma_gate(d, g1, w);
    draft::lemma_gate_wf(d, g1);
    draft::lemma_gate(d1, g2, w);
    draft::lemma_gate_wf(d1, g2);
    let x = d.values(w)[b as int];
    ring::lemma_negate(x);
    ring::lemma_wrap_add(-(x as int), 1);
    assert(d.gates =~= d1.gate(g2).gates.subrange(0, d.gates.len() as int));
}

proof fn lemma_combination(d: Draft, a: usize, x: usize, b: usize, y: usize, w: Seq<u32>)
    requires
        d.wf(),
        w.len() == d.inputs,
        a < d.next(),
        x < d.next(),
        b < d.next(),
        y < d.next(),
        d.next() + 3 <= usize::MAX,
    ensures
        combination(d, a, x, b, y).wf(),
        d.grows_to(combination(d, a, x, b, y)),
        combination(d, a, x, b, y).next() == d.next() + 3,
        draft::keeps(d.values(w), combination(d, a, x, b, y).values(w)),
        combination(d, a, x, b, y).holds(w) == d.holds(w),
        combination(d, a, x, b, y).values(w)[d.next() + 2int] == ring::wrap(
            ring::wrap(d.values(w)[a as int] * d.values(w)[x as int]) + ring::wrap(
                d.values(w)[b as int] * d.values(w)[y as int],
            ),
        ),
{
    let g1 = Gate::Mul { left: a, right: x, output: d.next() as usize };
    let d1 = d.gate(g1);
    let g2 = Gate::Mul { left: b, right: y, output: d1.next() as usize };
    let d2 = d1.gate(g2);
    let g3 = Gate::Add {
        left: d.next() as usize,
        right: d1.next() as usize,
        output: d2.next() as usize,
    };
    draft::lemma_gate(d, g1, w);
    draft::lemma_gate_wf(d, g1);
    draft::lemma_gate(d1, g2, w);
    draft::lemma_gate_wf(d1, g2);
    draft::lemma_gate(d2, g3, w);
    draft::lemma_gate_wf(d2, g3);
    assert(d.gates =~= d2.gate(g3).gates.subrange(0, d.gates.len() as int));
}

/// Multiplying by a bit keeps or clears.
proof fn lemma_bit_times(b: u32, x: u32)
    requires
        b <= 1,
    ensures
        ring::wrap(b * x) == if b == 1 {
            x
        } else {
            0
        },
{
    assert(b * x == if b == 1 { x as int } else { 0int }) by (nonlinear_arith)
        requires
            b <= 1,
    ;
}

proof fn lemma_level(d: Draft, current: usize, b: usize, sibling: usize, w: Seq<u32>)
    requires
        d.wf(),
        w.len() == d.inputs,
        current < d.next(),
        b < d.next(),
        sibling < d.next(),
        d.next() + level_size() <= usize::MAX,
    ensures
        ({
            let (e, out) = level(d, current, b, sibling);
            let bit = d.values(w)[b as int];
            let x = d.values(w)[current as int];
            let y = d.values(w)[sibling as int];
            &&& e.wf()
            &&& d.grows_to(e)
            &&& e.next() == d.next() + level_size()
            &&& out < e.next()
            &&& draft::keeps(d.values(w), e.values(w))
            &&& e.values(w).len() == e.next()
            &&& e.holds(w) == d.holds(w)
            &&& bit <= 1 ==> e.values(w)[out as int] == if bit == 0 {
                mimc::mimc_pair(x, y)
            } else {
                mimc::mimc_pair(y, x)
            }
        }),
{
    circuit::lemma_wire_values_len(d.gates, d.gates.len(), w);
    let bit = d.values(w)[b as int];
    let x = d.values(w)[current as int];
    let y = d.values(w)[sibling as int];
    let d1 = complement(d, b);
    let not_b = (d.next() + 1) as usize;
    let d2 = combination(d1, not_b, current, b, sibling);
    let d3 = combination(d2, b, current, not_b, sibling);
    let left = (d1.next() + 2) as usize;
    let right = (d2.next() + 2) as usize;
    lemma_complement(d, b, w);
    lemma_combination(d1, not_b, current, b, sibling, w);
    lemma_combination(d2, b, current, not_b, sibling, w);
    circuit::lemma_wire_values_len(d1.gates, d1.gates.len(), w);
    circuit::lemma_wire_values_len(d2.gates, d2.gates.len(), w);
    mimc::lemma_mimc_gates(d3, left, right, 64, w);
    let (e, out, _) = mimc::mimc_gates(d3, left, right, 64);
    assert(d.gates =~= e.gates.subrange(0, d.gates.len() as int));
    if bit <= 1 {
        let nb = (1 - bit) as u32;
        lemma_bit_times(nb, x);
        lemma_bit_times(bit, y);
        lemma_bit_times(bit, x);
        lemma_bit_times(nb, y);
        ring::lemma_wrap_word(x);
        ring::lemma_wrap_word(y);
        assert(d1.values(w)[not_b as int] == nb);
        assert(d3.values(w)[left as int] == if bit == 0 {
            x
        } else {
            y
        });
        assert(d3.values(w)[right as int] == if bit == 0 {
            y
        } else {
            x
        });
    }
}

proof fn lemma_carry_shape(d: Draft, wires: Seq<usize>, pad: nat, n: nat, w: Seq<u32>)
    requires
        d.wf(),
        w.len() == d.inputs,
        n <= wires.len(),
        draft::all_below(wires, d.next() as int),
        d.next() + 4 * n <= usize::MAX,
    ensures
        ({
            let (e, carry) = carry_chain(d, wires, pad, n);
            &&& e.wf()
            &&& d.grows_to(e)
            &&& d.next() <= e.next() <= d.next() + 4 * n
            &&& carry matches Some(c) ==> c < e.next()
            &&& draft::keeps(d.values(w), e.values(w))
            &&& e.values(w).len() == e.next()
            &&& e.holds(w) == d.holds(w)
        }),
    decreases n,
{
    circuit::lemma_wire_values_len(d.gates, d.gates.len(), w);
    if n > 0 {
        let m = (n - 1) as nat;
        lemma_carry_shape(d, wires, pad, m, w);
        let (e, carry) = carry_chain(d, wires, pad, m);
        let b = wires[m as int];
        assert(b < d.next());
        match carry {
            None => {},
            Some(c) => {
                if bits::bit(pad, m) == 0 {
                    let g = Gate::Mul { left: c, right: b, output: e.next() as usize };
                    draft::lemma_gate(e, g, w);
                    draft::lemma_gate_wf(e, g);
                    let f = e.gate(g);
                    circuit::lemma_wire_values_len(f.gates, f.gates.len(), w);
                    assert(d.gates =~= f.gates.subrange(0, d.gates.len() as int));
                } else {
                    lemma_complement(e, b, w);
                    let e2 = complement(e, b);
                    let not_b = (e.next() + 1) as usize;
                    let g3 = Gate::Mul { left: c, right: not_b, output: e2.next() as usize };
                    let e3 = e2.gate(g3);
                    let g4 = Gate::Add {
                        left: b,
                        right: e2.next() as usize,
                        output: e3.next() as usize,
                    };
                    draft::lemma_gate(e2, g3, w);
                    draft::lemma_gate_wf(e2, g3);
                    draft::lemma_gate(e3, g4, w);
                    draft::lemma_gate_wf(e3, g4);
                    let f = e3.gate(g4);
                    circuit::lemma_wire_values_len(f.gates, f.gates.len(), w);
                    assert(d.gates =~= f.gates.subrange(0, d.gates.len() as int));
                    assert(f == carry_chain(d, wires, pad, n).0);
                }
            },
        }
    }
}

/// How the carry moves on by one bit.
proof fn lemma_carry_step(s: Seq<u32>, pad: nat, m: nat)
    requires
        bits::all_bits(s, m + 1),
    ensures
        0 <= carry_value(s, pad, m) <= 1,
        carry_value(s, pad, m + 1) == (carry_value(s, pad, m) + s[m as int] + bits::bit(pad, m))
            / 2,
        (pad % pow2(m) == 0) ==> carry_value(s, pad, m) == 0,
        pad % pow2(m + 1) == pad % pow2(m) + bits::bit(pad, m) * pow2(m),
{
    let p = pow2(m) as int;
    lemma_pow2_pos(m);
    lemma_pow2_unfold(m + 1);
    bits::lemma_bits_bound(s, m);
    let v = bits::bits_value(s, m);
    let q = (pad % pow2(m)) as int;
    lemma_mod_bound(pad as int, p);
    let total = v + q;
    let c = carry_value(s, pad, m);
    let rest = total % p;
    lemma_fundamental_div_mod(total, p);
    lemma_mod_bound(total, p);
    assert(0 <= c <= 1) by (nonlinear_arith)
        requires
            total == p * c + rest,
            0 <= rest < p,
            0 <= total < 2 * p,
    ;
    let b = s[m as int] as int;
    let t = bits::bit(pad, m) as int;
    lemma_mod_breakdown(pad as int, p, 2);
    assert(p * 2 == pow2(m + 1));
    assert(pad % pow2(m + 1) == q + t * p) by {
        assert(p * ((pad as int / p) % 2) == ((pad as int / p) % 2) * p) by (nonlinear_arith);
    }
    let all = v + b * p + q + t * p;
    let sum = c + b + t;
    assert(all == (2 * p) * (sum / 2) + (p * (sum % 2) + rest)) by (nonlinear_arith)
        requires
            all == v + b * p + q + t * p,
            v + q == p * c + rest,
            sum == c + b + t,
            sum == 2 * (sum / 2) + sum % 2,
    ;
    assert(s[m as int] <= 1);
    let low = p * (sum % 2) + rest;
    assert(0 <= low < 2 * p) by (nonlinear_arith)
        requires
            low == p * (sum % 2) + rest,
            0 <= sum % 2 <= 1,
            0 <= rest < p,
    ;
    lemma_fundamental_div_mod_converse(all, 2 * p, sum / 2, low);
    if q == 0 {
        lemma_basic_div(v, p);
    }
}

proof fn lemma_carry_chain(d: Draft, wires: Seq<usize>, pad: nat, n: nat, w: Seq<u32>)
    requires
        d.wf(),
        w.len() == d.inputs,
        n <= wires.len(),
        draft::all_below(wires, d.next() as int),
        d.next() + 4 * n <= usize::MAX,
        bits::all_bits(draft::pick(d.values(w), wires), n),
    ensures
        ({
            let (e, carry) = carry_chain(d, wires, pad, n);
            let s = draft::pick(d.values(w), wires);
            match carry {
                None => pad % pow2(n) == 0,
                Some(c) => e.values(w)[c as int] == carry_value(s, pad, n),
            }
        }),
    decreases n,
{
    lemma_carry_shape(d, wires, pad, n, w);
    if n == 0 {
        lemma2_to64();
    } else {
        let m = (n - 1) as nat;
        let s = draft::pick(d.values(w), wires);
        lemma_carry_chain(d, wires, pad, m, w);
        lemma_carry_shape(d, wires, pad, m, w);
        lemma_carry_step(s, pad, m);
        circuit::lemma_wire_values_len(d.gates, d.gates.len(), w);
        let (e, carry) = carry_chain(d, wires, pad, m);
        let b = wires[m as int];
        let bv = s[m as int];
        assert(b < d.next());
        assert(e.values(w)[b as int] == bv && bv <= 1);
        match carry {
            None => {
                if bits::bit(pad, m) == 0 {
                    assert(0 * pow2(m) == 0);
                }
            },
            Some(c) => {
                let cv = e.values(w)[c as int];
                if bits::bit(pad, m) == 0 {
                    let g = Gate::Mul { left: c, right: b, output: e.next() as usize };
                    draft::lemma_gate(e, g, w);
                    lemma_bit_times(cv, bv);
                } else {
                    lemma_complement(e, b, w);
                    let e2 = complement(e, b);
                    let not_b = (e.next() + 1) as usize;
                    let g3 = Gate::Mul { left: c, right: not_b, output: e2.next() as usize };
                    let e3 = e2.gate(g3);
                    let g4 = Gate::Add {
                        left: b,
                        right: e2.next() as usize,
                        output: e3.next() as usize,
                    };
                    circuit::lemma_wire_values_len(e2.gates, e2.gates.len(), w);
                    draft::lemma_gate(e2, g3, w);
                    draft::lemma_gate(e3, g4, w);
                    lemma_bit_times(cv, (1 - bv) as u32);
                    let f = e3.gate(g4);
                    assert(f == carry_chain(d, wires, pad, n).0);
                    assert(f.values(w)[e3.next() as int] == ring::wrap(
                        bv + ring::wrap(cv * (1 - bv)),
                    ));
                }
            },
        }
    }
}

proof fn lemma_no_carry(d: Draft, wires: Seq<usize>, pad: nat, w: Seq<u32>)
    requires
        d.wf(),
        w.len() == d.inputs,
        draft::all_below(wires, d.next() as int),
        d.next() + 4 * wires.len() + 1 <= usize::MAX,
        pad < pow2(wires.len()),
        d.holds(w) ==> bits::all_bits(draft::pick(d.values(w), wires), wires.len()),
    ensures
        no_carry(d, wires, pad).wf(),
        d.grows_to(no_carry(d, wires, pad)),
        no_carry(d, wires, pad).next() <= d.next() + 4 * wires.len() + 1,
        draft::keeps(d.values(w), no_carry(d, wires, pad).values(w)),
        no_carry(d, wires, pad).holds(w) <==> d.holds(w) && bits::bits_value(
            draft::pick(d.values(w), wires),
            wires.len(),
        ) + pad < pow2(wires.len()),
{
    let n = wires.len();
    let p = pow2(n) as int;
    lemma_pow2_pos(n);
    lemma_carry_shape(d, wires, pad, n, w);
    let (e, carry) = carry_chain(d, wires, pad, n);
    lemma_small_mod(pad, pow2(n));
    if let Some(c) = carry {
        let g = Gate::AssertEq { input: c, expected: 0, output: e.next() as usize };
        draft::lemma_gate(e, g, w);
        draft::lemma_gate_wf(e, g);
        assert(d.gates =~= e.gate(g).gates.subrange(0, d.gates.len() as int));
    }
    if d.holds(w) {
        let s = draft::pick(d.values(w), wires);
        lemma_carry_chain(d, wires, pad, n, w);
        bits::lemma_bits_bound(s, n);
        let total = bits::bits_value(s, n) + pad;
        if total < p {
            lemma_basic_div(total, p);
        } else {
            lemma_div_is_ordered(p, total, p);
            lemma_div_by_self(p);
        }
    }
}

proof fn lemma_index_part(depth: nat, members: nat, w: Seq<u32>)
    requires
        depth <= 31,
        1 <= members <= pow2(depth),
        w.len() == 2 + 2 * depth,
    ensures
        index_part(depth, members).wf(),
        index_part(depth, members).inputs == w.len(),
        index_part(depth, members).next() <= w.len() + 9 * depth + 2,
        draft::keeps(w, index_part(depth, members).values(w)),
        index_part(depth, members).holds(w) <==> {
            let path_bits = draft::part(w, 2, depth);
            let index = bits::bits_value(path_bits, depth);
            &&& bits::all_bits(path_bits, depth)
            &&& depth > 0 ==> w[1] == index
            &&& index < members
        },
{
    let d = draft::blank(w.len());
    let wires = draft::wire_range(2, depth);
    assert(d.wf());
    draft::lemma_bit_decompose(d, 1, wires, w);
    let e = draft::bit_decompose(d, 1, wires);
    draft::lemma_inputs_first(e, w);
    let s = draft::part(w, 2, depth);
    assert(draft::pick(d.values(w), wires) =~= s);
    assert(draft::pick(e.values(w), wires) =~= s);
    draft::lemma_is_binary(w[1], s);
    lemma_no_carry(e, wires, (pow2(depth) - members) as nat, w);
    draft::lemma_inputs_first(index_part(depth, members), w);
    lemma2_to64();
    if bits::all_bits(s, depth) {
        bits::lemma_bits_bound(s, depth);
        if depth < 32 {
            lemma_pow2_strictly_increases(depth, 32);
        }
    }
}

proof fn lemma_walk(d: Draft, depth: nat, n: nat, w: Seq<u32>)
    requires
        d.wf(),
        w.len() == d.inputs,
        d.inputs == 2 + 2 * depth,
        n <= depth,
        depth <= 31,
        d.next() + level_size() * n <= usize::MAX,
    ensures
        ({
            let (e, out) = walk(
                d,
                draft::wire_range(2, depth),
                draft::wire_range(2 + depth, depth),
                n,
            );
            let path_bits = draft::part(w, 2, depth);
            &&& e.wf()
            &&& d.grows_to(e)
            &&& e.next() == d.next() + level_size() * n
            &&& out < e.next()
            &&& draft::keeps(w, e.values(w))
            &&& e.values(w).len() == e.next()
            &&& e.holds(w) == d.holds(w)
            &&& bits::all_bits(path_bits, depth) ==> e.values(w)[out as int] == tree::fold(
                w[0],
                bits::bits_value(path_bits, depth) as nat,
                draft::part(w, 2 + depth, depth),
                n,
                merkle::combine(),
            )
        }),
    decreases n,
{
    draft::lemma_inputs_first(d, w);
    if n > 0 {
        let m = (n - 1) as nat;
        lemma_walk(d, depth, m, w);
        let bit_wires = draft::wire_range(2, depth);
        let sibling_wires = draft::wire_range(2 + depth, depth);
        let (e, current) = walk(d, bit_wires, sibling_wires, m);
        let b = bit_wires[m as int];
        let y = sibling_wires[m as int];
        lemma_level(e, current, b, y, w);
        let f = level(e, current, b, y).0;
        draft::lemma_inputs_first(f, w);
        assert(d.gates =~= f.gates.subrange(0, d.gates.len() as int));
        let path_bits = draft::part(w, 2, depth);
        let siblings = draft::part(w, 2 + depth, depth);
        if bits::all_bits(path_bits, depth) {
            bits::lemma_bits_unique(path_bits, depth, m);
            assert(e.values(w)[b as int] == path_bits[m as int]);
            assert(e.values(w)[y as int] == siblings[m as int]);
        }
    }
}

/// The circuit accepts exactly the witnesses that are bits of an index below the number of
/// members and a path from the leaf to the root.
pub proof fn lemma_membership_circuit(root: u32, depth: nat, members: nat, w: Seq<u32>)
    requires
        depth <= 31,
        1 <= members <= pow2(depth),
    ensures
        membership_circuit(root, depth, members).sequential(),
        membership_circuit(root, depth, members).xor_free(),
        membership_circuit(root, depth, members).num_inputs == 2 + 2 * depth,
        membership_circuit(root, depth, members).num_wires <= 10000,
        membership_circuit(root, depth, members).num_wires >= 1,
        membership_circuit(root, depth, members).accepts(w) <==> is_membership_witness(
            root,
            depth,
            members,
            w,
        ),
{
    lemma_membership_shape(root, depth, members, Seq::new(2 + 2 * depth, |i: int| 0u32));
    if w.len() == 2 + 2 * depth {
        lemma_membership_shape(root, depth, members, w);
        lemma_index_part(depth, members, w);
        let d = index_part(depth, members);
        lemma_walk(d, depth, depth, w);
        let (e, current) = walk(
            d,
            draft::wire_range(2, depth),
            draft::wire_range(2 + depth, depth),
            depth,
        );
        let g = Gate::AssertEq { input: current, expected: root, output: e.next() as usize };
        draft::lemma_gate(e, g, w);
    }
}

proof fn lemma_membership_shape(root: u32, depth: nat, members: nat, w: Seq<u32>)
    requires
        depth <= 31,
        1 <= members <= pow2(depth),
        w.len() == 2 + 2 * depth,
    ensures
        membership_draft(root, depth, members).wf(),
        membership_draft(root, depth, members).next() <= 10000,
        membership_draft(root, depth, members).inputs == 2 + 2 * depth,
        membership_circuit(root, depth, members).sequential(),
        membership_circuit(root, depth, members).xor_free(),
        membership_circuit(root, depth, members).accepts(w) <==> membership_draft(
            root,
            depth,
            members,
        ).holds(w),
{
    lemma_index_part(depth, members, w);
    let d = index_part(depth, members);
    lemma_walk(d, depth, depth, w);
    let (e, current) = walk(
        d,
        draft::wire_range(2, depth),
        draft::wire_range(2 + depth, depth),
        depth,
    );
    let g = Gate::AssertEq { input: current, expected: root, output: e.next() as usize };
    draft::lemma_gate(e, g, w);
    draft::lemma_gate_wf(e, g);
    draft::lemma_build(membership_draft(root, depth, members), 1, w);
}

/// Another number of members gives other gates.
pub proof fn lemma_members_matter(root: u32, depth: nat, few: nat, many: nat)
    requires
        depth <= 31,
        1 <= few < many <= pow2(depth),
    ensures
        membership_circuit(root, depth, few).gates != membership_circuit(root, depth, many).gates,
{
    // the index `few` is below one number and not below the other
    let path_bits = Seq::new(depth, |i: int| bits::bit(few, i as nat));
    let w = seq![0u32, few as u32] + path_bits + Seq::new(depth, |i: int| 0u32);
    lemma2_to64();
    lemma_pow2_strictly_increases(depth, 32);
    assert(draft::part(w, 2, depth) =~= path_bits);
    bits::lemma_bits_of(few, path_bits, depth);
    lemma_small_mod(few, pow2(depth));
    lemma_index_part(depth, few, w);
    lemma_index_part(depth, many, w);
    let a = index_part(depth, few);
    let b = index_part(depth, many);
    assert(w[1] == few);
    assert(!a.holds(w) && b.holds(w));
    lemma_walk(a, depth, depth, w);
    lemma_walk(b, depth, depth, w);
    let x = membership_circuit(root, depth, few).gates;
    let y = membership_circuit(root, depth, many).gates;
    if x == y {
        assert(a.gates.len() == b.gates.len());
        assert(a.gates =~= x.subrange(0, a.gates.len() as int));
        assert(b.gates =~= y.subrange(0, b.gates.len() as int));
    }
}

} // verus!
