//! The MiMC Feistel hash on pairs of words, natively and as a circuit.
//!
//! A round maps `(left, right)` to `(right, left + (right + c)^3)`, where `c` is the
//! constant of the round.

use crate::circuit::CircuitBuilder;
use crate::circuit::Gate;
use crate::circuit;
use crate::draft;
use crate::draft::Draft;
use crate::encoding;
use crate::hash;
use crate::ring;
use vstd::prelude::*;

verus! {

/// Number of rounds in a Merkle tree.
pub const MIMC_ROUNDS: usize = 64;

/// The bytes that are hashed for block `block` of eight round constants.
pub open spec fn constant_input(block: nat) -> Seq<u8> {
    encoding::ascii("mimc-mpcith-zk-v1"@) + encoding::word(block as u32)
}

/// The constant of round `i`.
pub open spec fn mimc_constant(i: nat) -> u32 {
    encoding::word_at(hash::blake3_digest(constant_input(i / 8)), 4 * (i % 8) as int)
}

/// The third power of a word.
pub open spec fn cube(x: u32) -> u32 {
    ring::wrap(ring::wrap(x * x) * x)
}

/// The pair after `rounds` rounds.
pub open spec fn mimc(left: u32, right: u32, rounds: nat) -> (u32, u32)
    decreases rounds,
{
    if rounds == 0 {
        (left, right)
    } else {
        let (a, b) = mimc(left, right, (rounds - 1) as nat);
        (b, ring::wrap(a + cube(ring::wrap(b + mimc_constant((rounds - 1) as nat)))))
    }
}

/// The hash of a pair that Merkle trees use.
pub open spec fn mimc_pair(left: u32, right: u32) -> u32 {
    mimc(left, right, 64).0
}

/// The first `num_rounds` round constants.
pub fn mimc_constants(num_rounds: usize) -> (r: Vec<u32>)
    requires
        num_rounds <= 0x7_ffff_fff8,
    ensures
        r@ == Seq::new(num_rounds as nat, |i: int| mimc_constant(i as nat)),
        r@.len() == num_rounds,
{
    let mut constants: Vec<u32> = Vec::with_capacity(num_rounds);
    let mut counter: u32 = 0;
    while constants.len() < num_rounds
        invariant
            constants@.len() <= num_rounds,
            num_rounds <= 0x7_ffff_fff8,
            constants@.len() < num_rounds ==> constants@.len() == 8 * counter,
            forall|i: int|
                0 <= i < constants@.len() ==> #[trigger] constants@[i] == mimc_constant(i as nat),
        decreases num_rounds - constants.len(),
    {
        let mut input: Vec<u8> = Vec::new();
        encoding::push_bytes(&mut input, "mimc-mpcith-zk-v1".as_bytes());
        encoding::push_word(&mut input, counter);
        proof {
            assert(input@ =~= constant_input(counter as nat));
        }
        let digest: [u8; 32] = hash::blake3_hash(&input);
        let mut i: usize = 0;
        while i < 8 && constants.len() < num_rounds
            invariant
                i <= 8,
                constants@.len() == 8 * counter + i,
                constants@.len() <= num_rounds,
                digest@ == hash::blake3_digest(constant_input(counter as nat)),
                forall|j: int|
                    0 <= j < constants@.len() ==> #[trigger] constants@[j] == mimc_constant(
                        j as nat,
                    ),
            decreases 8 - i,
        {
            proof {
                let n = constants@.len();
                assert(n / 8 == counter && n % 8 == i);
            }
            constants.push(encoding::read_word(&digest, 4 * i));
            i = i + 1;
        }
        counter = counter + 1;
    }
    proof {
        assert(constants@ =~= Seq::new(num_rounds as nat, |i: int| mimc_constant(i as nat)));
    }
    constants
}

/// The hash of a pair of words.
pub fn mimc_hash_native(left: u32, right: u32, num_rounds: usize) -> (r: (u32, u32))
    requires
        num_rounds <= 0x7_ffff_fff8,
    ensures
        r == mimc(left, right, num_rounds as nat),
{
    let constants: Vec<u32> = mimc_constants(num_rounds);
    let mut a: u32 = left;
    let mut b: u32 = right;
    let mut i: usize = 0;
    while i < num_rounds
        invariant
            i <= num_rounds,
            constants@ == Seq::new(num_rounds as nat, |j: int| mimc_constant(j as nat)),
            (a, b) == mimc(left, right, i as nat),
        decreases num_rounds - i,
    {
        let c: u32 = constants[i];
        let t: u32 = b.wrapping_add(c);
        let square: u32 = t.wrapping_mul(t);
        let power: u32 = square.wrapping_mul(t);
        let next: u32 = a.wrapping_add(power);
        proof {
            ring::lemma_wrapping_ops(b, c);
            ring::lemma_wrapping_ops(t, t);
            ring::lemma_wrapping_ops(square, t);
            ring::lemma_wrapping_ops(a, power);
        }
        a = b;
        b = next;
        i = i + 1;
    }
    (a, b)
}

/// The gates of one round on the wires `left` and `right`; the new right word is on the last
/// wire.
pub open spec fn mimc_round(d: Draft, left: usize, right: usize, c: u32) -> Draft {
    let d1 = d.add_const(right, c);
    let d2 = d1.mul(d.next() as usize, d.next() as usize);
    let d3 = d2.mul(d1.next() as usize, d.next() as usize);
    d3.add(left, d2.next() as usize)
}

/// The gates of `n` rounds, and the wires of the two words.
pub open spec fn mimc_rounds(d: Draft, left: usize, right: usize, n: nat) -> (Draft, usize, usize)
    decreases n,
{
    if n == 0 {
        (d, left, right)
    } else {
        let (e, a, b) = mimc_rounds(d, left, right, (n - 1) as nat);
        (mimc_round(e, a, b, mimc_constant((n - 1) as nat)), b, (e.next() + 3) as usize)
    }
}

/// The gates of the hash: the rounds, then a copy of each word.
pub open spec fn mimc_gates(d: Draft, left: usize, right: usize, n: nat) -> (Draft, usize, usize) {
    let (e, a, b) = mimc_rounds(d, left, right, n);
    let e1 = e.mul_const(a, 1);
    (e1.mul_const(b, 1), e.next() as usize, e1.next() as usize)
}

proof fn lemma_mimc_round(d: Draft, left: usize, right: usize, c: u32, w: Seq<u32>)
    requires
        d.wf(),
        w.len() == d.inputs,
        left < d.next(),
        right < d.next(),
        d.next() + 4 <= usize::MAX,
    ensures
        mimc_round(d, left, right, c).wf(),
        d.grows_to(mimc_round(d, left, right, c)),
        mimc_round(d, left, right, c).reserved == d.reserved,
        mimc_round(d, left, right, c).next() == d.next() + 4,
        draft::keeps(d.values(w), mimc_round(d, left, right, c).values(w)),
        mimc_round(d, left, right, c).holds(w) == d.holds(w),
        mimc_round(d, left, right, c).values(w)[d.next() + 3int] == ring::wrap(
            d.values(w)[left as int] + cube(ring::wrap(d.values(w)[right as int] + c)),
        ),
{
    let t = d.next() as usize;
    let g1 = Gate::AddConst { input: right, constant: c, output: t };
    let d1 = d.gate(g1);
    let g2 = Gate::Mul { left: t, right: t, output: d1.next() as usize };
    let d2 = d1.gate(g2);
    let g3 = Gate::Mul { left: d1.next() as usize, right: t, output: d2.next() as usize };
    let d3 = d2.gate(g3);
    let g4 = Gate::Add { left, right: d2.next() as usize, output: d3.next() as usize };
    draft::lemma_gate(d, g1, w);
    draft::lemma_gate_wf(d, g1);
    draft::lemma_gate(d1, g2, w);
    draft::lemma_gate_wf(d1, g2);
    draft::lemma_gate(d2, g3, w);
    draft::lemma_gate_wf(d2, g3);
    draft::lemma_gate(d3, g4, w);
    draft::lemma_gate_wf(d3, g4);
    assert(d.gates =~= d3.gate(g4).gates.subrange(0, d.gates.len() as int));
}

proof fn lemma_mimc_rounds(d: Draft, left: usize, right: usize, n: nat, w: Seq<u32>)
    requires
        d.wf(),
        w.len() == d.inputs,
        left < d.next(),
        right < d.next(),
        d.next() + 4 * n <= usize::MAX,
    ensures
        ({
            let (e, a, b) = mimc_rounds(d, left, right, n);
            &&& e.wf()
            &&& d.grows_to(e)
            &&& e.reserved == d.reserved
            &&& e.next() == d.next() + 4 * n
            &&& a < e.next()
            &&& b < e.next()
            &&& draft::keeps(d.values(w), e.values(w))
            &&& e.values(w).len() == e.next()
            &&& e.holds(w) == d.holds(w)
            &&& (e.values(w)[a as int], e.values(w)[b as int]) == mimc(
                d.values(w)[left as int],
                d.values(w)[right as int],
                n,
            )
        }),
    decreases n,
{
    circuit::lemma_wire_values_len(d.gates, d.gates.len(), w);
    if n > 0 {
        let m = (n - 1) as nat;
        lemma_mimc_rounds(d, left, right, m, w);
        let (e, a, b) = mimc_rounds(d, left, right, m);
        lemma_mimc_round(e, a, b, mimc_constant(m), w);
        let f = mimc_round(e, a, b, mimc_constant(m));
        circuit::lemma_wire_values_len(f.gates, f.gates.len(), w);
        assert(d.gates =~= f.gates.subrange(0, d.gates.len() as int));
    }
}

/// The circuit computes the hash: its two result wires carry what [`mimc`] gives on the values
/// of its two argument wires.
pub proof fn lemma_mimc_gates(d: Draft, left: usize, right: usize, n: nat, w: Seq<u32>)
    requires
        d.wf(),
        w.len() == d.inputs,
        left < d.next(),
        right < d.next(),
        d.next() + 4 * n + 2 <= usize::MAX,
    ensures
        ({
            let (e, a, b) = mimc_gates(d, left, right, n);
            &&& e.wf()
            &&& d.grows_to(e)
            &&& e.reserved == d.reserved
            &&& e.next() == d.next() + 4 * n + 2
            &&& a == e.next() - 2
            &&& b == e.next() - 1
            &&& draft::keeps(d.values(w), e.values(w))
            &&& e.values(w).len() == e.next()
            &&& e.holds(w) == d.holds(w)
            &&& (e.values(w)[a as int], e.values(w)[b as int]) == mimc(
                d.values(w)[left as int],
                d.values(w)[right as int],
                n,
            )
        }),
{
    lemma_mimc_rounds(d, left, right, n, w);
    let (e, a, b) = mimc_rounds(d, left, right, n);
    let g1 = Gate::MulConst { input: a, constant: 1, output: e.next() as usize };
    let e1 = e.gate(g1);
    let g2 = Gate::MulConst { input: b, constant: 1, output: e1.next() as usize };
    draft::lemma_gate(e, g1, w);
    draft::lemma_gate_wf(e, g1);
    draft::lemma_gate(e1, g2, w);
    draft::lemma_gate_wf(e1, g2);
    let e2 = e1.gate(g2);
    circuit::lemma_wire_values_len(e2.gates, e2.gates.len(), w);
    let x = e.values(w)[a as int];
    let y = e.values(w)[b as int];
    ring::lemma_times_one(x);
    ring::lemma_times_one(y);
    assert(e1.values(w)[e.next() as int] == x);
    assert(e2.values(w)[e1.next() as int] == y);
    assert(d.gates =~= e2.gates.subrange(0, d.gates.len() as int));
}

/// Appends the hash of two wires and returns the wires of the two result words, which are the
/// last two wires.
pub fn build_mimc_hash(
    builder: &mut CircuitBuilder,
    left_wire: usize,
    right_wire: usize,
    num_rounds: usize,
) -> (r: (usize, usize))
    requires
        num_rounds <= 0x7_ffff_fff8,
        old(builder)@.next() + 4 * num_rounds + 2 <= usize::MAX,
    ensures
        (final(builder)@, r.0, r.1) == mimc_gates(
            old(builder)@,
            left_wire,
            right_wire,
            num_rounds as nat,
        ),
        final(builder)@.next() == old(builder)@.next() + 4 * num_rounds + 2,
{
    let ghost start = builder@;
    let constants: Vec<u32> = mimc_constants(num_rounds);
    let mut a: usize = left_wire;
    let mut b: usize = right_wire;
    let mut i: usize = 0;
    while i < num_rounds
        invariant
            i <= num_rounds,
            constants@ == Seq::new(num_rounds as nat, |j: int| mimc_constant(j as nat)),
            start.next() + 4 * num_rounds + 2 <= usize::MAX,
            builder@.next() == start.next() + 4 * i,
            (builder@, a, b) == mimc_rounds(start, left_wire, right_wire, i as nat),
        decreases num_rounds - i,
    {
        let t: usize = builder.add_const(b, constants[i]);
        let square: usize = builder.mul(t, t);
        let power: usize = builder.mul(square, t);
        let next: usize = builder.add(a, power);
        a = b;
        b = next;
        i = i + 1;
    }
    let left_out: usize = builder.mul_const(a, 1);
    let right_out: usize = builder.mul_const(b, 1);
    (left_out, right_out)
}

/// Every round counts: one more round puts the right word on the left and adds to the left word the
/// third power of the right word plus the constant of that round. Without rounds nothing changes.
pub proof fn lemma_round(left: u32, right: u32, n: nat)
    ensures
        mimc(left, right, 0) == (left, right),
        mimc(left, right, n + 1).0 == mimc(left, right, n).1,
        ({
            let (a, b) = mimc(left, right, n);
            let t = b + mimc_constant(n);
            mimc(left, right, n + 1).1 as int == (a + t * t * t) % 0x1_0000_0000
        }),
{
    let (a, b) = mimc(left, right, n);
    let t = b + mimc_constant(n);
    lemma_cube(ring::wrap(t));
    ring::lemma_wrap_mul(t, t);
    ring::lemma_wrap_mul(t * t, t);
    ring::lemma_wrap_mul(ring::wrap(t) as int * ring::wrap(t), ring::wrap(t) as int);
    assert(cube(ring::wrap(t)) == ring::wrap(t * t * t));
    ring::lemma_wrap_add(a as int, t * t * t);
}

proof fn lemma_cube(x: u32)
    ensures
        cube(x) == ring::wrap(x * x * x),
{
    ring::lemma_wrap_mul(x * x, x as int);
}

/// Rounds can be undone: no two pairs have the same result.
pub proof fn lemma_rounds_injective(a: u32, b: u32, c: u32, d: u32, n: nat)
    requires
        mimc(a, b, n) == mimc(c, d, n),
    ensures
        a == c && b == d,
    decreases n,
{
    if n > 0 {
        let m = (n - 1) as nat;
        let (x, y) = mimc(a, b, m);
        let (u, v) = mimc(c, d, m);
        let p = cube(ring::wrap(y + mimc_constant(m)));
        assert(y == v);
        assert(ring::wrap(x + p) == ring::wrap(u + p));
        ring::lemma_wrap_sub(x + p, p as int);
        ring::lemma_wrap_sub(u + p, p as int);
        ring::lemma_wrap_word(x);
        ring::lemma_wrap_word(u);
        lemma_rounds_injective(a, b, c, d, m);
    }
}

/// The constant of a round is a word of the BLAKE3 digest of a fixed text and a counter: each digest
/// gives eight.
pub proof fn lemma_constant(counter: u32, k: nat)
    requires
        k < 8,
    ensures
        mimc_constant(8 * counter as nat + k) == vstd::bytes::spec_u32_from_le_bytes(
            hash::blake3_digest(
                vstd::utf8::encode_utf8("mimc-mpcith-zk-v1"@) + vstd::bytes::spec_u32_to_le_bytes(
                    counter,
                ),
            ).subrange(4 * k as int, 4 * k + 4int),
        ),
{
    let i = 8 * counter as nat + k;
    assert(i / 8 == counter && i % 8 == k);
}

/// A Merkle tree combines two words to the left word after 64 rounds.
pub proof fn lemma_pair(left: u32, right: u32)
    ensures
        mimc_pair(left, right) == mimc(left, right, 64).0,
        MIMC_ROUNDS == 64,
{
}

} // verus!
