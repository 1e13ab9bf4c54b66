//! Emulation of a multi-party evaluation of a circuit.
//!
//! Every wire is shared among the parties. Additions, and additions and multiplications with
//! constants, are computed share by share. For a multiplication each party combines its shares
//! with the sums of the shares of the parties on its right (see [`crate::product`]) and adds a
//! share of zero:
//!
//! `z_p = x_p * y_p + x_p * y_right + x_right * y_p + r_p`
//!
//! where `r_p` is the difference between a word drawn from the party's own seed and one drawn
//! from the seed of the next party. With three parties the party on the right is the next one.
//! An exclusive or is put together and shared again with fresh randomness.
//!
//! All randomness of a party comes from its seed, so that the shares of an opened party can be
//! recomputed from the seed, the outputs of its non-linear gates and, for the last party, its
//! shares of the inputs.

use crate::circuit::Circuit;
use crate::circuit::CircuitModel;
use crate::circuit::Gate;
use crate::circuit;
use crate::encoding;
use crate::error::ErrorModel;
use crate::error::MpcithError;
use crate::hash;
use crate::product;
use crate::ring;
use crate::sharing::PartyRng;
use crate::sharing::PartySeed;
use crate::sharing::SharedTrace;
use crate::sharing::Sharing;
use crate::sharing;
use vstd::prelude::*;

verus! {

/// The word at position `i` of the randomness that a party's input shares are taken from.
pub open spec fn party_word(seed: Seq<u8>, i: nat) -> u32 {
    hash::chacha20_stream_word(
        hash::blake3_digest(seed + encoding::ascii("mpcith-party-share"@)),
        i,
    )
}

/// The domain of the words that shares of zero are made of, for the non-linear gate `idx`.
pub open spec fn zero_share_domain_bytes(idx: nat) -> Seq<u8> {
    encoding::ascii("mpcith-zero-share"@) + encoding::size(idx)
}

/// The word that a seed contributes to the shares of zero of the non-linear gate `idx`.
pub open spec fn zero_word(seed: Seq<u8>, idx: nat) -> u32 {
    hash::chacha20_stream_word(hash::blake3_digest(seed + zero_share_domain_bytes(idx)), 0)
}

/// The share of zero of a party whose next neighbour has seed `next`.
pub open spec fn zero_share_word(own: Seq<u8>, next: Seq<u8>, idx: nat) -> u32 {
    ring::wrap(zero_word(own, idx) - zero_word(next, idx))
}

/// The words of all parties for the non-linear gate `idx`.
pub open spec fn zero_words(seeds: Seq<Seq<u8>>, idx: nat) -> Seq<u32> {
    Seq::new(seeds.len(), |p: int| zero_word(seeds[p], idx))
}

/// The shares of input `i` with the given value.
pub open spec fn input_shares(seeds: Seq<Seq<u8>>, i: nat, value: u32) -> Seq<u32> {
    sharing::additive_shares(
        value,
        Seq::new((seeds.len() - 1) as nat, |p: int| party_word(seeds[p], i)),
    )
}

/// The shares of the wire that a gate writes. `idx` is the number of non-linear gates before it,
/// and `fresh` the randomness for exclusive ors, of which part `xor_idx` is for this gate.
pub open spec fn gate_shares(
    gate: Gate,
    wires: Seq<Seq<u32>>,
    seeds: Seq<Seq<u8>>,
    idx: nat,
    fresh: Seq<u32>,
    xor_idx: nat,
) -> Seq<u32> {
    match gate {
        Gate::Add { left, right, .. } => sharing::added(wires[left as int], wires[right as int]),
        Gate::Mul { left, right, .. } => product::product_shares(
            wires[left as int],
            wires[right as int],
            product::differences(zero_words(seeds, idx)),
        ),
        Gate::Xor { left, right, .. } => sharing::additive_shares(
            ring::wrap(ring::total(wires[left as int])) ^ ring::wrap(
                ring::total(wires[right as int]),
            ),
            fresh.subrange(
                xor_idx * (seeds.len() - 1),
                xor_idx * (seeds.len() - 1) + seeds.len() - 1,
            ),
        ),
        Gate::AddConst { input, constant, .. } => sharing::shifted(wires[input as int], constant),
        Gate::MulConst { input, constant, .. } => sharing::scaled(wires[input as int], constant),
        Gate::AssertEq { input, .. } => wires[input as int],
    }
}

/// The shares of the inputs and of the wires that the first `n` gates write.
pub open spec fn shared(
    gates: Seq<Gate>,
    n: nat,
    witness: Seq<u32>,
    seeds: Seq<Seq<u8>>,
    fresh: Seq<u32>,
) -> Seq<Seq<u32>>
    decreases n,
{
    if n == 0 {
        Seq::new(witness.len(), |i: int| input_shares(seeds, i as nat, witness[i]))
    } else {
        let m = (n - 1) as nat;
        let wires = shared(gates, m, witness, seeds, fresh);
        wires.push(
            gate_shares(
                gates[n - 1],
                wires,
                seeds,
                circuit::count_nonlinear(gates, m),
                fresh,
                circuit::count_xor(gates, m),
            ),
        )
    }
}

/// The outputs of the non-linear gates among the first `n`, in order.
pub open spec fn nonlinear_outputs(gates: Seq<Gate>, n: nat, wires: Seq<u32>) -> Seq<u32>
    decreases n,
{
    if n == 0 {
        Seq::empty()
    } else {
        let before = nonlinear_outputs(gates, (n - 1) as nat, wires);
        if gates[n - 1].nonlinear() {
            before.push(wires[gates[n - 1].target() as int])
        } else {
            before
        }
    }
}

/// The seeds in a list.
pub open spec fn seed_bytes(seeds: Seq<PartySeed>) -> Seq<Seq<u8>> {
    Seq::new(seeds.len(), |p: int| seeds[p].0@)
}

/// A party's view of an evaluation.
#[derive(Debug)]
pub struct PartyView {
    /// Which party.
    pub party_idx: usize,
    /// Its seed. It is not part of a serialized proof: the verifier grows it from the co-path.
    pub seed: [u8; 32],
    /// Its shares of the outputs of the non-linear gates, in order.
    pub mul_output_shares: Vec<u32>,
    /// Its shares of the inputs, if it is the last party: they do not follow from its seed. Empty
    /// for all other parties.
    pub residual_input_shares: Vec<u32>,
    /// Its shares of all wires, to detect tampering. They are not part of a serialized proof and
    /// are then empty.
    pub wire_shares: Vec<u32>,
}

/// The contents of a [`PartyView`].
#[verifier::ext_equal]
pub struct ViewModel {
    pub party_idx: nat,
    pub seed: Seq<u8>,
    pub mul_output_shares: Seq<u32>,
    pub residual_input_shares: Seq<u32>,
    pub wire_shares: Seq<u32>,
}

impl View for PartyView {
    type V = ViewModel;

    open spec fn view(&self) -> ViewModel {
        ViewModel {
            party_idx: self.party_idx as nat,
            seed: self.seed@,
            mul_output_shares: self.mul_output_shares@,
            residual_input_shares: self.residual_input_shares@,
            wire_shares: self.wire_shares@,
        }
    }
}

impl ViewModel {
    /// The bytes that a commitment to the view is made of, with the seed given.
    pub open spec fn committed(self, seed: Seq<u8>) -> Seq<u8> {
        seed + encoding::words(self.mul_output_shares, self.mul_output_shares.len())
            + encoding::words(self.residual_input_shares, self.residual_input_shares.len())
    }
}

/// The view of party `p`, given the shares of all wires.
pub open spec fn honest_view(
    c: CircuitModel,
    wires: Seq<Seq<u32>>,
    seeds: Seq<Seq<u8>>,
    p: int,
) -> ViewModel {
    let own = sharing::column(wires, p);
    ViewModel {
        party_idx: p as nat,
        seed: seeds[p],
        mul_output_shares: nonlinear_outputs(c.gates, c.gates.len(), own),
        residual_input_shares: if p == seeds.len() - 1 {
            own.subrange(0, c.num_inputs as int)
        } else {
            Seq::empty()
        },
        wire_shares: own,
    }
}

/// The share that a party computes for a gate from its other shares; the outputs of non-linear
/// gates are given.
pub open spec fn share_value(gate: Gate, shares: Seq<u32>, p: int, muls: Seq<u32>, idx: nat) -> u32 {
    match gate {
        Gate::Add { left, right, .. } => ring::wrap(shares[left as int] + shares[right as int]),
        Gate::Mul { .. } => muls[idx as int],
        Gate::Xor { .. } => muls[idx as int],
        Gate::AddConst { input, constant, .. } => if p == 0 {
            ring::wrap(shares[input as int] + constant)
        } else {
            shares[input as int]
        },
        Gate::MulConst { input, constant, .. } => ring::wrap(shares[input as int] * constant),
        Gate::AssertEq { input, .. } => shares[input as int],
    }
}

/// A party's shares after the first `n` gates.
pub open spec fn run_shares(
    gates: Seq<Gate>,
    n: nat,
    start: Seq<u32>,
    p: int,
    muls: Seq<u32>,
) -> Seq<u32>
    decreases n,
{
    if n == 0 {
        start
    } else {
        let m = (n - 1) as nat;
        let shares = run_shares(gates, m, start, p, muls);
        shares.update(
            gates[n - 1].target() as int,
            share_value(gates[n - 1], shares, p, muls, circuit::count_nonlinear(gates, m)),
        )
    }
}

/// A party's shares before the first gate: those of the inputs, then zeros. The last party's are
/// given; those of the others come from their seeds.
pub open spec fn start_shares(
    c: CircuitModel,
    seed: Seq<u8>,
    p: int,
    num_parties: int,
    residual: Seq<u32>,
) -> Seq<u32> {
    Seq::new(
        c.num_wires,
        |i: int|
            if i >= c.num_inputs {
                0
            } else if p == num_parties - 1 && residual.len() > 0 {
                residual[i]
            } else {
                party_word(seed, i as nat)
            },
    )
}

/// A party's shares of all wires, from what is opened of it.
pub open spec fn recomputed(
    c: CircuitModel,
    seed: Seq<u8>,
    p: int,
    num_parties: int,
    muls: Seq<u32>,
    residual: Seq<u32>,
) -> Seq<u32> {
    run_shares(c.gates, c.gates.len(), start_shares(c, seed, p, num_parties, residual), p, muls)
}

/// Whether a party's shares around a gate fit together. A multiplication can only be checked if
/// the seed of the next party and the sums of the shares on the right are known.
pub open spec fn gate_consistent(
    gate: Gate,
    shares: Seq<u32>,
    p: int,
    seed: Seq<u8>,
    next: Option<(Seq<u8>, Seq<u32>)>,
    idx: nat,
) -> bool {
    match gate {
        Gate::Add { left, right, output } => shares[output as int] == ring::wrap(
            shares[left as int] + shares[right as int],
        ),
        Gate::Mul { left, right, output } => match next {
            Some((next_seed, right_shares)) => shares[output as int] == product::product_share(
                shares[left as int],
                shares[right as int],
                right_shares[left as int],
                right_shares[right as int],
                zero_share_word(seed, next_seed, idx),
            ),
            None => true,
        },
        Gate::Xor { .. } => true,
        Gate::AddConst { input, constant, output } => shares[output as int] == if p == 0 {
            ring::wrap(shares[input as int] + constant)
        } else {
            shares[input as int]
        },
        Gate::MulConst { input, constant, output } => shares[output as int] == ring::wrap(
            shares[input as int] * constant,
        ),
        Gate::AssertEq { .. } => true,
    }
}

/// Whether a party's shares fit together at every gate.
pub open spec fn view_consistent(
    gates: Seq<Gate>,
    shares: Seq<u32>,
    p: int,
    seed: Seq<u8>,
    next: Option<(Seq<u8>, Seq<u32>)>,
) -> bool {
    forall|i: int|
        0 <= i < gates.len() ==> gate_consistent(
            #[trigger] gates[i],
            shares,
            p,
            seed,
            next,
            circuit::count_nonlinear(gates, i as nat),
        )
}

/// For every wire, the sum of the shares of the parties on the right of `p`.
pub open spec fn right_column(wires: Seq<Seq<u32>>, p: int) -> Seq<u32> {
    Seq::new(wires.len(), |w: int| product::right_share(wires[w], p))
}

// ----------------------------------------------------------------------------
// Laws
// ----------------------------------------------------------------------------

/// The shares of zero of all parties add up to zero.
pub proof fn lemma_zero_shares(seeds: Seq<Seq<u8>>, idx: nat)
    requires
        seeds.len() > 0,
    ensures
        ring::wrap(ring::total(product::differences(zero_words(seeds, idx)))) == 0,
{
    product::lemma_differences(zero_words(seeds, idx));
}

/// The shares that a gate writes add up to the value that it writes.
pub proof fn lemma_gate_shares(
    gate: Gate,
    wires: Seq<Seq<u32>>,
    values: Seq<u32>,
    seeds: Seq<Seq<u8>>,
    idx: nat,
    fresh: Seq<u32>,
    xor_idx: nat,
)
    requires
        seeds.len() >= 1,
        wires.len() == values.len(),
        gate.reads_below(wires.len() as int),
        gate is Xor ==> (xor_idx + 1) * (seeds.len() - 1) <= fresh.len(),
        forall|w: int|
            0 <= w < wires.len() ==> (#[trigger] wires[w]).len() == seeds.len() && ring::wrap(
                ring::total(wires[w]),
            ) == values[w],
    ensures
        gate_shares(gate, wires, seeds, idx, fresh, xor_idx).len() == seeds.len(),
        ring::wrap(ring::total(gate_shares(gate, wires, seeds, idx, fresh, xor_idx)))
            == gate.value(values),
{
    match gate {
        Gate::Add { left, right, .. } => {
            let x = wires[left as int];
            let y = wires[right as int];
            sharing::lemma_added(x, y);
        },
        Gate::Mul { left, right, .. } => {
            let x = wires[left as int];
            let y = wires[right as int];
            lemma_zero_shares(seeds, idx);
            product::lemma_product_shares(x, y, product::differences(zero_words(seeds, idx)));
        },
        Gate::Xor { left, right, .. } => {
            let x = wires[left as int];
            let y = wires[right as int];
            let n = (seeds.len() - 1) as int;
            assert((xor_idx + 1) * n == xor_idx * n + n) by (nonlinear_arith);
            assert(xor_idx * n >= 0) by (nonlinear_arith)
                requires
                    n >= 0,
            ;
            sharing::lemma_additive_shares(
                ring::wrap(ring::total(x)) ^ ring::wrap(ring::total(y)),
                fresh.subrange(xor_idx * n, xor_idx * n + n),
            );
        },
        Gate::AddConst { input, constant, .. } => {
            let x = wires[input as int];
            sharing::lemma_shifted(x, constant);
        },
        Gate::MulConst { input, constant, .. } => {
            let x = wires[input as int];
            sharing::lemma_scaled(x, constant);
        },
        Gate::AssertEq { input, .. } => {
            let x = wires[input as int];
            assert(x.len() == seeds.len());
        },
    }
}

/// The emulation computes what the circuit computes: the shares of each wire add up to its value.
pub proof fn lemma_shared(
    c: CircuitModel,
    n: nat,
    witness: Seq<u32>,
    seeds: Seq<Seq<u8>>,
    fresh: Seq<u32>,
)
    requires
        c.sequential(),
        witness.len() == c.num_inputs,
        seeds.len() >= 1,
        n <= c.gates.len(),
        circuit::count_xor(c.gates, c.gates.len()) * (seeds.len() - 1) <= fresh.len(),
    ensures
        shared(c.gates, n, witness, seeds, fresh).len() == c.num_inputs + n,
        forall|w: int|
            0 <= w < c.num_inputs + n ==> (#[trigger] shared(
                c.gates,
                n,
                witness,
                seeds,
                fresh,
            )[w]).len() == seeds.len() && ring::wrap(
                ring::total(shared(c.gates, n, witness, seeds, fresh)[w]),
            ) == circuit::wire_values(c.gates, n, witness)[w],
    decreases n,
{
    circuit::lemma_wire_values_len(c.gates, n, witness);
    if n == 0 {
        assert forall|w: int| 0 <= w < witness.len() implies (#[trigger] shared(
            c.gates,
            0,
            witness,
            seeds,
            fresh,
        )[w]).len() == seeds.len() && ring::wrap(
            ring::total(shared(c.gates, 0, witness, seeds, fresh)[w]),
        ) == witness[w] by {
            sharing::lemma_additive_shares(
                witness[w],
                Seq::new((seeds.len() - 1) as nat, |p: int| party_word(seeds[p], w as nat)),
            );
        }
    } else {
        let m = (n - 1) as nat;
        lemma_shared(c, m, witness, seeds, fresh);
        circuit::lemma_wire_values_len(c.gates, m, witness);
        if c.gates[n - 1] is Xor {
            lemma_count_xor(c.gates, n, c.gates.len());
            let k = (seeds.len() - 1) as int;
            assert((circuit::count_xor(c.gates, m) + 1) * k <= circuit::count_xor(
                c.gates,
                c.gates.len(),
            ) * k) by (nonlinear_arith)
                requires
                    circuit::count_xor(c.gates, m) + 1 <= circuit::count_xor(
                        c.gates,
                        c.gates.len(),
                    ),
                    k >= 0,
            ;
        }
        lemma_gate_shares(
            c.gates[n - 1],
            shared(c.gates, m, witness, seeds, fresh),
            circuit::wire_values(c.gates, m, witness),
            seeds,
            circuit::count_nonlinear(c.gates, m),
            fresh,
            circuit::count_xor(c.gates, m),
        );
    }
}

proof fn lemma_count_xor(gates: Seq<Gate>, n: nat, m: nat)
    requires
        n <= m,
    ensures
        circuit::count_xor(gates, n) <= circuit::count_xor(gates, m),
    decreases m,
{
    if n < m {
        lemma_count_xor(gates, n, (m - 1) as nat);
    }
}

proof fn lemma_shared_prefix(
    gates: Seq<Gate>,
    n: nat,
    m: nat,
    witness: Seq<u32>,
    seeds: Seq<Seq<u8>>,
    fresh: Seq<u32>,
)
    requires
        n <= m,
    ensures
        shared(gates, n, witness, seeds, fresh).len() == witness.len() + n,
        shared(gates, m, witness, seeds, fresh).len() == witness.len() + m,
        forall|w: int|
            0 <= w < witness.len() + n ==> #[trigger] shared(gates, m, witness, seeds, fresh)[w]
                == shared(gates, n, witness, seeds, fresh)[w],
    decreases m,
{
    if m > 0 {
        if n < m {
            lemma_shared_prefix(gates, n, (m - 1) as nat, witness, seeds, fresh);
        } else {
            lemma_shared_prefix(gates, (n - 1) as nat, (m - 1) as nat, witness, seeds, fresh);
        }
    }
}

proof fn lemma_nonlinear_outputs(gates: Seq<Gate>, n: nat, wires: Seq<u32>)
    ensures
        nonlinear_outputs(gates, n, wires).len() == circuit::count_nonlinear(gates, n),
    decreases n,
{
    if n > 0 {
        lemma_nonlinear_outputs(gates, (n - 1) as nat, wires);
    }
}

proof fn lemma_nonlinear_output_at(gates: Seq<Gate>, k: nat, n: nat, wires: Seq<u32>)
    requires
        k < n,
        gates[k as int].nonlinear(),
    ensures
        circuit::count_nonlinear(gates, k) < circuit::count_nonlinear(gates, n),
        nonlinear_outputs(gates, n, wires)[circuit::count_nonlinear(gates, k) as int]
            == wires[gates[k as int].target() as int],
    decreases n,
{
    lemma_nonlinear_outputs(gates, (n - 1) as nat, wires);
    if k < n - 1 {
        lemma_nonlinear_output_at(gates, k, (n - 1) as nat, wires);
    }
}

proof fn lemma_recomputed_prefix(
    c: CircuitModel,
    k: nat,
    witness: Seq<u32>,
    seeds: Seq<Seq<u8>>,
    fresh: Seq<u32>,
    p: int,
)
    requires
        c.sequential(),
        witness.len() == c.num_inputs,
        seeds.len() >= 2,
        circuit::count_xor(c.gates, c.gates.len()) * (seeds.len() - 1) <= fresh.len(),
        0 <= p < seeds.len(),
        k <= c.gates.len(),
    ensures
        ({
            let wires = shared(c.gates, c.gates.len(), witness, seeds, fresh);
            let view = honest_view(c, wires, seeds, p);
            let start = start_shares(
                c,
                seeds[p],
                p,
                seeds.len() as int,
                view.residual_input_shares,
            );
            let s = run_shares(c.gates, k, start, p, view.mul_output_shares);
            &&& s.len() == c.num_wires
            &&& forall|w: int| 0 <= w < c.num_inputs + k ==> #[trigger] s[w] == wires[w][p]
        }),
    decreases k,
{
    let total = c.gates.len();
    let wires = shared(c.gates, total, witness, seeds, fresh);
    let view = honest_view(c, wires, seeds, p);
    let start = start_shares(c, seeds[p], p, seeds.len() as int, view.residual_input_shares);
    lemma_shared(c, total, witness, seeds, fresh);
    lemma_shared_prefix(c.gates, k, total, witness, seeds, fresh);
    if k == 0 {
        assert forall|w: int| 0 <= w < c.num_inputs implies #[trigger] start[w] == wires[w][p] by {
            assert(wires[w] == shared(c.gates, 0, witness, seeds, fresh)[w]);
            assert(wires[w] == input_shares(seeds, w as nat, witness[w]));
            if p == seeds.len() - 1 {
                assert(view.residual_input_shares[w] == sharing::column(wires, p)[w]);
            }
        }
    } else {
        let m = (k - 1) as nat;
        lemma_recomputed_prefix(c, m, witness, seeds, fresh, p);
        lemma_shared_prefix(c.gates, m, total, witness, seeds, fresh);
        lemma_shared(c, m, witness, seeds, fresh);
        let before = shared(c.gates, m, witness, seeds, fresh);
        let g = c.gates[m as int];
        let out = c.num_inputs + m;
        let idx = circuit::count_nonlinear(c.gates, m);
        let s = run_shares(c.gates, m, start, p, view.mul_output_shares);
        assert(g.target() == out && g.reads_below(out as int));
        assert(wires[out as int] == shared(c.gates, k, witness, seeds, fresh)[out as int]);
        assert(wires[out as int] == gate_shares(
            g,
            before,
            seeds,
            idx,
            fresh,
            circuit::count_xor(c.gates, m),
        ));
        let value = share_value(g, s, p, view.mul_output_shares, idx);
        if g.nonlinear() {
            lemma_nonlinear_output_at(c.gates, m, total, sharing::column(wires, p));
        } else {
            match g {
                Gate::Add { left, right, .. } => {
                    assert(s[left as int] == wires[left as int][p]);
                    assert(s[right as int] == wires[right as int][p]);
                    assert(before[left as int].len() == seeds.len());
                },
                Gate::AddConst { input, .. } => {
                    assert(s[input as int] == wires[input as int][p]);
                    assert(before[input as int].len() == seeds.len());
                },
                Gate::MulConst { input, .. } => {
                    assert(s[input as int] == wires[input as int][p]);
                    assert(before[input as int].len() == seeds.len());
                },
                Gate::AssertEq { input, .. } => {
                    assert(s[input as int] == wires[input as int][p]);
                },
                _ => {},
            }
        }
        assert(value == wires[out as int][p]);
    }
}

/// What is opened of an honest party determines its shares of all wires.
pub proof fn lemma_recomputed_honest(
    c: CircuitModel,
    witness: Seq<u32>,
    seeds: Seq<Seq<u8>>,
    fresh: Seq<u32>,
    p: int,
)
    requires
        c.sequential(),
        witness.len() == c.num_inputs,
        seeds.len() >= 2,
        circuit::count_xor(c.gates, c.gates.len()) * (seeds.len() - 1) <= fresh.len(),
        0 <= p < seeds.len(),
    ensures
        ({
            let wires = shared(c.gates, c.gates.len(), witness, seeds, fresh);
            let view = honest_view(c, wires, seeds, p);
            &&& recomputed(
                c,
                view.seed,
                p,
                seeds.len() as int,
                view.mul_output_shares,
                view.residual_input_shares,
            ) == view.wire_shares
            &&& view.mul_output_shares.len() == circuit::count_nonlinear(c.gates, c.gates.len())
        }),
{
    let wires = shared(c.gates, c.gates.len(), witness, seeds, fresh);
    let view = honest_view(c, wires, seeds, p);
    lemma_recomputed_prefix(c, c.gates.len(), witness, seeds, fresh, p);
    lemma_shared(c, c.gates.len(), witness, seeds, fresh);
    lemma_nonlinear_outputs(c.gates, c.gates.len(), view.wire_shares);
    assert(recomputed(
        c,
        view.seed,
        p,
        seeds.len() as int,
        view.mul_output_shares,
        view.residual_input_shares,
    ) =~= view.wire_shares);
}

/// The shares of an honest party fit together at every gate, whether or not the parties on its
/// right are known.
pub proof fn lemma_honest_consistent(
    c: CircuitModel,
    witness: Seq<u32>,
    seeds: Seq<Seq<u8>>,
    fresh: Seq<u32>,
    p: int,
)
    requires
        c.sequential(),
        witness.len() == c.num_inputs,
        seeds.len() >= 2,
        circuit::count_xor(c.gates, c.gates.len()) * (seeds.len() - 1) <= fresh.len(),
        0 <= p < seeds.len(),
    ensures
        ({
            let wires = shared(c.gates, c.gates.len(), witness, seeds, fresh);
            let own = sharing::column(wires, p);
            let next = seeds[(p + 1) % (seeds.len() as int)];
            &&& view_consistent(c.gates, own, p, seeds[p], Some((next, right_column(wires, p))))
            &&& view_consistent(c.gates, own, p, seeds[p], None)
        }),
{
    let total = c.gates.len();
    let wires = shared(c.gates, total, witness, seeds, fresh);
    let own = sharing::column(wires, p);
    let n = seeds.len() as int;
    let next = Some((seeds[(p + 1) % n], right_column(wires, p)));
    lemma_shared(c, total, witness, seeds, fresh);
    assert forall|i: int| 0 <= i < total implies gate_consistent(
        #[trigger] c.gates[i],
        own,
        p,
        seeds[p],
        next,
        circuit::count_nonlinear(c.gates, i as nat),
    ) && gate_consistent(
        c.gates[i],
        own,
        p,
        seeds[p],
        None,
        circuit::count_nonlinear(c.gates, i as nat),
    ) by {
        let m = i as nat;
        let g = c.gates[i];
        let out = c.num_inputs + m;
        lemma_shared_prefix(c.gates, m, total, witness, seeds, fresh);
        lemma_shared_prefix(c.gates, m + 1, total, witness, seeds, fresh);
        let before = shared(c.gates, m, witness, seeds, fresh);
        assert(g.target() == out && g.reads_below(out as int));
        assert(wires[out as int] == shared(c.gates, m + 1, witness, seeds, fresh)[out as int]);
        let idx = circuit::count_nonlinear(c.gates, m);
        assert(wires[out as int] == gate_shares(
            g,
            before,
            seeds,
            idx,
            fresh,
            circuit::count_xor(c.gates, m),
        ));
        match g {
            Gate::Add { left, right, .. } => {
                assert(wires[left as int] == before[left as int]);
                assert(wires[right as int] == before[right as int]);
                assert(wires[left as int].len() == n);
            },
            Gate::Mul { left, right, .. } => {
                assert(wires[left as int] == before[left as int]);
                assert(wires[right as int] == before[right as int]);
                assert(wires[left as int].len() == n);
                let zeros = product::differences(zero_words(seeds, idx));
                assert(zeros[p] == zero_share_word(seeds[p], seeds[(p + 1) % n], idx));
            },
            Gate::Xor { .. } => {},
            Gate::AddConst { input, .. } => {
                assert(wires[input as int] == before[input as int]);
                assert(wires[input as int].len() == n);
            },
            Gate::MulConst { input, .. } => {
                assert(wires[input as int] == before[input as int]);
                assert(wires[input as int].len() == n);
            },
            Gate::AssertEq { .. } => {},
        }
    }
}

// ----------------------------------------------------------------------------
// Code
// ----------------------------------------------------------------------------

fn zero_share_domain(nonlinear_idx: usize) -> (r: Vec<u8>)
    ensures
        r@ == zero_share_domain_bytes(nonlinear_idx as nat),
{
    let mut domain: Vec<u8> = Vec::new();
    encoding::push_bytes(&mut domain, "mpcith-zero-share".as_bytes());
    encoding::push_size(&mut domain, nonlinear_idx);
    proof {
        assert(domain@ =~= zero_share_domain_bytes(nonlinear_idx as nat));
    }
    domain
}

fn zero_share_contribution(seed: &[u8; 32], nonlinear_idx: usize) -> (r: u32)
    ensures
        r == zero_word(seed@, nonlinear_idx as nat),
{
    let domain: Vec<u8> = zero_share_domain(nonlinear_idx);
    let mut rng: PartyRng = PartySeed(*seed).to_rng(&domain);
    rng.next_u32()
}

/// The words of a party for the first `count` non-linear gates.
pub open spec fn zero_list(seed: Seq<u8>, count: nat) -> Seq<u32> {
    Seq::new(count, |i: int| zero_word(seed, i as nat))
}

/// Draws the words of a party for the first `count` non-linear gates.
pub fn draw_zero_words(seed: &[u8; 32], count: usize) -> (r: Vec<u32>)
    ensures
        r@ == zero_list(seed@, count as nat),
{
    let ghost all = zero_list(seed@, count as nat);
    let mut words: Vec<u32> = Vec::with_capacity(count);
    let mut i: usize = 0;
    while i < count
        invariant
            i <= count,
            all == zero_list(seed@, count as nat),
            words@ =~= all.subrange(0, i as int),
        decreases count - i,
    {
        words.push(zero_share_contribution(seed, i));
        i = i + 1;
    }
    proof {
        assert(words@ =~= all);
    }
    words
}

impl PartyView {
    /// The bytes that a commitment to the view is made of.
    pub fn to_commitment_bytes(&self) -> (r: Vec<u8>)
        ensures
            r@ == self@.committed(self.seed@),
    {
        self.to_commitment_bytes_with_seed(&self.seed)
    }

    /// The bytes that a commitment to the view is made of, with the seed given.
    pub fn to_commitment_bytes_with_seed(&self, seed: &[u8; 32]) -> (r: Vec<u8>)
        ensures
            r@ == self@.committed(seed@),
    {
        let mut bytes: Vec<u8> = Vec::new();
        encoding::push_block(&mut bytes, seed);
        encoding::push_words(&mut bytes, &self.mul_output_shares);
        encoding::push_words(&mut bytes, &self.residual_input_shares);
        proof {
            assert(bytes@ =~= self@.committed(seed@));
        }
        bytes
    }
}

impl Clone for PartyView {
    fn clone(&self) -> (r: Self)
        ensures
            r@ == self@,
    {
        PartyView {
            party_idx: self.party_idx,
            seed: self.seed,
            mul_output_shares: encoding::copy_words(&self.mul_output_shares),
            residual_input_shares: encoding::copy_words(&self.residual_input_shares),
            wire_shares: encoding::copy_words(&self.wire_shares),
        }
    }
}

/// The result of an emulation.
#[derive(Debug)]
pub struct MpcExecution {
    /// The view of each party.
    pub views: Vec<PartyView>,
    /// The shares of every wire.
    pub shared_trace: SharedTrace,
    /// The words on the output wires.
    pub output_values: Vec<u32>,
}

impl Clone for MpcExecution {
    fn clone(&self) -> (r: Self)
        ensures
            r.views@.len() == self.views@.len(),
            forall|p: int|
                0 <= p < self.views@.len() ==> (#[trigger] r.views@[p])@ == self.views@[p]@,
            sharing::sharings(r.shared_trace.wires@) == sharing::sharings(self.shared_trace.wires@),
            r.shared_trace.num_parties == self.shared_trace.num_parties,
            r.output_values@ == self.output_values@,
    {
        let mut views: Vec<PartyView> = Vec::with_capacity(self.views.len());
        let mut p: usize = 0;
        while p < self.views.len()
            invariant
                p <= self.views@.len(),
                views@.len() == p,
                forall|q: int| 0 <= q < p ==> (#[trigger] views@[q])@ == self.views@[q]@,
            decreases self.views@.len() - p,
        {
            views.push(self.views[p].clone());
            p = p + 1;
        }
        MpcExecution {
            views,
            shared_trace: self.shared_trace.clone(),
            output_values: encoding::copy_words(&self.output_values),
        }
    }
}

/// The sum of the shares of the parties on the right of `p`.
pub fn right_total(shares: &[u32], p: usize) -> (r: u32)
    requires
        p < shares@.len(),
    ensures
        r == product::right_share(shares@, p as int),
{
    let n: usize = shares.len();
    let ghost f = |q: int|
        if product::on_right(p as int, q, n as int) {
            shares@[q] as int
        } else {
            0
        };
    let mut sum: u32 = 0;
    let mut q: usize = 0;
    while q < n
        invariant
            p < n,
            q <= n,
            n == shares@.len(),
            f == (|q: int|
                if product::on_right(p as int, q, n as int) {
                    shares@[q] as int
                } else {
                    0
                }),
            sum == ring::wrap(ring::sigma(q as nat, f)),
        decreases n - q,
    {
        if product::is_on_right(p, q, n) {
            proof {
                ring::lemma_wrapping_ops(sum, shares@[q as int]);
                ring::lemma_wrap_add(ring::sigma(q as nat, f), shares@[q as int] as int);
            }
            sum = sum.wrapping_add(shares[q]);
        }
        q = q + 1;
    }
    proof {
        assert(ring::sigma(n as nat, f) == product::right_sum(shares@, p as int)) by {
            ring::lemma_sigma_ext(
                n as nat,
                f,
                |q: int|
                    if product::on_right(p as int, q, shares@.len() as int) {
                        shares@[q] as int
                    } else {
                        0
                    },
            );
        }
    }
    sum
}

fn emulate_mul(x: &Sharing, y: &Sharing, party_seeds: &[PartySeed], nonlinear_idx: usize) -> (r:
    Sharing)
    requires
        x.shares@.len() == party_seeds@.len(),
        y.shares@.len() == party_seeds@.len(),
        party_seeds@.len() >= 1,
    ensures
        r.shares@ == product::product_shares(
            x.shares@,
            y.shares@,
            product::differences(zero_words(seed_bytes(party_seeds@), nonlinear_idx as nat)),
        ),
{
    let n: usize = party_seeds.len();
    let ghost seeds = seed_bytes(party_seeds@);
    let ghost words = zero_words(seeds, nonlinear_idx as nat);
    let ghost expected = product::product_shares(
        x.shares@,
        y.shares@,
        product::differences(words),
    );
    let mut contributions: Vec<u32> = Vec::with_capacity(n);
    let mut i: usize = 0;
    while i < n
        invariant
            i <= n,
            n == party_seeds@.len(),
            seeds == seed_bytes(party_seeds@),
            words == zero_words(seeds, nonlinear_idx as nat),
            contributions@ =~= words.subrange(0, i as int),
        decreases n - i,
    {
        contributions.push(zero_share_contribution(&party_seeds[i].0, nonlinear_idx));
        i = i + 1;
    }
    proof {
        assert(contributions@ =~= words);
    }
    let mut shares: Vec<u32> = Vec::with_capacity(n);
    let mut p: usize = 0;
    while p < n
        invariant
            p <= n,
            n >= 1,
            n == party_seeds@.len(),
            n == words.len(),
            contributions@ == words,
            x.shares@.len() == n,
            y.shares@.len() == n,
            expected == product::product_shares(
                x.shares@,
                y.shares@,
                product::differences(words),
            ),
            shares@ =~= expected.subrange(0, p as int),
        decreases n - p,
    {
        let next: usize = if p + 1 == n {
            0
        } else {
            p + 1
        };
        proof {
            if p + 1 == n {
                vstd::arithmetic::div_mod::lemma_mod_self_0(n as int);
            } else {
                vstd::arithmetic::div_mod::lemma_small_mod((p + 1) as nat, n as nat);
            }
            ring::lemma_wrapping_ops(words[p as int], words[next as int]);
        }
        let zero: u32 = contributions[p].wrapping_sub(contributions[next]);
        let xr: u32 = right_total(&x.shares, p);
        let yr: u32 = right_total(&y.shares, p);
        shares.push(product::multiply_share(x.shares[p], y.shares[p], xr, yr, zero));
        p = p + 1;
    }
    proof {
        assert(shares@ =~= expected);
    }
    Sharing { shares }
}

/// Shares a witness and evaluates a circuit on the shares.
///
/// `xor_randomness` is used for exclusive-or gates only: one word per gate and party but the last.
pub fn run_mpc_emulation(
    circuit: &Circuit,
    witness: &[u32],
    party_seeds: &[PartySeed],
    xor_randomness: &[u32],
) -> (r: Result<MpcExecution, MpcithError>)
    requires
        circuit@.sequential(),
        circuit@.num_outputs <= circuit@.num_wires,
        witness@.len() == circuit@.num_inputs,
        party_seeds@.len() >= 2,
        circuit::count_xor(circuit@.gates, circuit@.gates.len()) * (party_seeds@.len() - 1)
            <= xor_randomness@.len(),
    ensures
        match r {
            Ok(exec) => {
                let seeds = seed_bytes(party_seeds@);
                let wires = shared(
                    circuit@.gates,
                    circuit@.gates.len(),
                    witness@,
                    seeds,
                    xor_randomness@,
                );
                &&& sharing::sharings(exec.shared_trace.wires@) == wires
                &&& exec.shared_trace.num_parties == party_seeds@.len()
                &&& exec.views@.len() == party_seeds@.len()
                &&& forall|p: int|
                    0 <= p < party_seeds@.len() ==> (#[trigger] exec.views@[p])@ == honest_view(
                        circuit@,
                        wires,
                        seeds,
                        p,
                    )
                &&& exec.output_values@ == circuit@.trace(witness@).subrange(
                    circuit@.output_start(),
                    circuit@.num_wires as int,
                )
            },
            Err(_) => false,
        },
{
    let n: usize = party_seeds.len();
    let ghost c = circuit@;
    let ghost seeds = seed_bytes(party_seeds@);
    let ghost fresh = xor_randomness@;
    let available: usize = xor_randomness.len();
    let mut trace: SharedTrace = SharedTrace::new(circuit.num_wires, n);
    share_inputs(witness, party_seeds, &mut trace);
    let mut nonlinear_idx: usize = 0;
    let mut xor_idx: usize = 0;
    let mut used: usize = 0;
    let mut k: usize = 0;
    while k < circuit.gates.len()
        invariant
            k <= circuit.gates.len(),
            n == party_seeds@.len(),
            n >= 2,
            c == circuit@,
            c.sequential(),
            witness@.len() == c.num_inputs,
            seeds == seed_bytes(party_seeds@),
            fresh == xor_randomness@,
            available == fresh.len(),
            circuit::count_xor(c.gates, c.gates.len()) * (n - 1) <= fresh.len(),
            sharing::sharings(trace.wires@) == shared(c.gates, k as nat, witness@, seeds, fresh),
            trace.num_parties == n,
            nonlinear_idx == circuit::count_nonlinear(c.gates, k as nat),
            nonlinear_idx <= k,
            xor_idx == circuit::count_xor(c.gates, k as nat),
            xor_idx <= k,
            used == xor_idx * (n - 1),
        decreases circuit.gates.len() - k,
    {
        let gate: Gate = circuit.gates[k];
        let ghost before = sharing::sharings(trace.wires@);
        proof {
            lemma_shared(c, k as nat, witness@, seeds, fresh);
            assert(c.gates[k as int] == gate);
            assert(gate.reads_below(c.num_inputs + k));
            assert forall|w: int| 0 <= w < trace.wires@.len() implies (#[trigger] trace.wires@[w]).shares@
                == before[w] && before[w].len() == n by {
                assert(before[w].len() == seeds.len());
            }
        }
        let next: Sharing = match gate {
            Gate::Add { left, right, .. } => trace.wires[left].add(&trace.wires[right]),
            Gate::Mul { left, right, .. } => {
                let product: Sharing = emulate_mul(
                    &trace.wires[left],
                    &trace.wires[right],
                    party_seeds,
                    nonlinear_idx,
                );
                nonlinear_idx = nonlinear_idx + 1;
                product
            },
            Gate::Xor { left, right, .. } => {
                let x: u32 = trace.wires[left].reconstruct();
                let y: u32 = trace.wires[right].reconstruct();
                proof {
                    lemma_count_xor(c.gates, (k + 1) as nat, c.gates.len());
                    assert((xor_idx + 1) * (n - 1) <= fresh.len()) by (nonlinear_arith)
                        requires
                            xor_idx + 1 <= circuit::count_xor(c.gates, c.gates.len()),
                            circuit::count_xor(c.gates, c.gates.len()) * (n - 1) <= fresh.len(),
                            n >= 2,
                    ;
                    assert((xor_idx + 1) * (n - 1) == xor_idx * (n - 1) + (n - 1))
                        by (nonlinear_arith);
                }
                let words: &[u32] = vstd::slice::slice_subrange(
                    xor_randomness,
                    used,
                    used + (n - 1),
                );
                let again: Sharing = Sharing::share(x ^ y, n, words);
                proof {
                    assert(words@.subrange(0, n - 1) =~= words@);
                    assert(fresh.subrange(
                        xor_idx * (seeds.len() - 1),
                        xor_idx * (seeds.len() - 1) + seeds.len() - 1,
                    ) =~= words@);
                }
                nonlinear_idx = nonlinear_idx + 1;
                xor_idx = xor_idx + 1;
                used = used + (n - 1);
                again
            },
            Gate::AddConst { input, constant, .. } => trace.wires[input].add_const(constant),
            Gate::MulConst { input, constant, .. } => trace.wires[input].mul_const(constant),
            Gate::AssertEq { input, .. } => trace.wires[input].clone(),
        };
        proof {
            assert(next.shares@ == gate_shares(
                gate,
                before,
                seeds,
                circuit::count_nonlinear(c.gates, k as nat),
                fresh,
                circuit::count_xor(c.gates, k as nat),
            ));
        }
        trace.wires.push(next);
        proof {
            assert(sharing::sharings(trace.wires@) =~= before.push(next.shares@));
        }
        k = k + 1;
    }
    let ghost wires = sharing::sharings(trace.wires@);
    proof {
        lemma_shared(c, c.gates.len(), witness@, seeds, fresh);
        circuit::lemma_trace(c, witness@);
        circuit::lemma_wire_values_len(c.gates, c.gates.len(), witness@);
        assert forall|w: int| 0 <= w < trace.wires@.len() implies (#[trigger] trace.wires@[w]).shares@
            == wires[w] && wires[w].len() == n && trace.wires@[w].value() == c.trace(
            witness@,
        )[w] by {
            assert(wires[w].len() == seeds.len());
        }
    }
    let output_values: Vec<u32> = output_words(circuit, &trace);
    proof {
        assert(output_values@ =~= c.trace(witness@).subrange(
            c.output_start(),
            c.num_wires as int,
        ));
    }
    let views: Vec<PartyView> = collect_views(circuit, &trace, party_seeds);
    Ok(MpcExecution { views, shared_trace: trace, output_values })
}

/// The words that a party takes from its seed for the first `count` inputs.
pub open spec fn party_words(seed: Seq<u8>, count: nat) -> Seq<u32> {
    Seq::new(count, |i: int| party_word(seed, i as nat))
}

fn draw_party_words(seed: &PartySeed, count: usize) -> (r: Vec<u32>)
    ensures
        r@ == party_words(seed.0@, count as nat),
{
    let rng: PartyRng = seed.to_rng("mpcith-party-share".as_bytes());
    let words: Vec<u32> = rng.peek_words(count);
    proof {
        assert(words@ =~= party_words(seed.0@, count as nat));
    }
    words
}

fn share_inputs(witness: &[u32], party_seeds: &[PartySeed], trace: &mut SharedTrace)
    requires
        party_seeds@.len() >= 2,
        old(trace).wires@.len() == 0,
    ensures
        sharing::sharings(final(trace).wires@) == Seq::new(
            witness@.len(),
            |i: int| input_shares(seed_bytes(party_seeds@), i as nat, witness@[i]),
        ),
        final(trace).num_parties == old(trace).num_parties,
{
    let n: usize = party_seeds.len();
    let ghost seeds = seed_bytes(party_seeds@);
    let ghost parties = trace.num_parties;
    let count: usize = witness.len();
    let mut words: Vec<Vec<u32>> = Vec::with_capacity(n);
    let mut p: usize = 0;
    while p < n - 1
        invariant
            p <= n - 1,
            n == party_seeds@.len(),
            seeds == seed_bytes(party_seeds@),
            words@.len() == p,
            forall|q: int|
                0 <= q < p ==> (#[trigger] words@[q])@ == party_words(seeds[q], count as nat),
        decreases n - p,
    {
        words.push(draw_party_words(&party_seeds[p], count));
        p = p + 1;
    }
    let mut i: usize = 0;
    while i < count
        invariant
            i <= count,
            count == witness@.len(),
            n == party_seeds@.len(),
            n >= 2,
            seeds == seed_bytes(party_seeds@),
            words@.len() == n - 1,
            forall|q: int|
                0 <= q < n - 1 ==> (#[trigger] words@[q])@ == party_words(seeds[q], count as nat),
            trace.num_parties == parties,
            trace.wires@.len() == i,
            forall|w: int|
                0 <= w < i ==> (#[trigger] trace.wires@[w]).shares@ == input_shares(
                    seeds,
                    w as nat,
                    witness@[w],
                ),
        decreases count - i,
    {
        let ghost drawn = Seq::new((n - 1) as nat, |q: int| party_word(seeds[q], i as nat));
        let mut row: Vec<u32> = Vec::with_capacity(n);
        let mut q: usize = 0;
        while q < n - 1
            invariant
                q <= n - 1,
                i < count,
                words@.len() == n - 1,
                forall|q: int|
                    0 <= q < n - 1 ==> (#[trigger] words@[q])@ == party_words(
                        seeds[q],
                        count as nat,
                    ),
                drawn == Seq::new((n - 1) as nat, |q: int| party_word(seeds[q], i as nat)),
                row@ =~= drawn.subrange(0, q as int),
            decreases n - q,
        {
            proof {
                assert(words@[q as int]@ == party_words(seeds[q as int], count as nat));
            }
            row.push(words[q][i]);
            q = q + 1;
        }
        let sharing: Sharing = Sharing::share(witness[i], n, &row);
        proof {
            assert(row@ =~= drawn);
            assert(row@.subrange(0, n - 1) =~= drawn);
        }
        trace.wires.push(sharing);
        i = i + 1;
    }
    proof {
        assert(sharing::sharings(trace.wires@) =~= Seq::new(
            witness@.len(),
            |i: int| input_shares(seeds, i as nat, witness@[i]),
        ));
    }
}

fn output_words(circuit: &Circuit, trace: &SharedTrace) -> (r: Vec<u32>)
    requires
        circuit.num_outputs <= circuit.num_wires,
        circuit.num_wires <= trace.wires@.len(),
    ensures
        r@ == Seq::new(
            circuit.num_outputs as nat,
            |i: int| trace.wires@[circuit@.output_start() + i].value(),
        ),
{
    let start: usize = circuit.num_wires - circuit.num_outputs;
    let mut out: Vec<u32> = Vec::with_capacity(circuit.num_outputs);
    let mut i: usize = 0;
    while i < circuit.num_outputs
        invariant
            i <= circuit.num_outputs,
            circuit.num_outputs <= circuit.num_wires,
            circuit.num_wires <= trace.wires@.len(),
            start == circuit@.output_start(),
            out@.len() == i,
            forall|j: int|
                0 <= j < i ==> #[trigger] out@[j] == trace.wires@[start + j].value(),
        decreases circuit.num_outputs - i,
    {
        out.push(trace.reconstruct_wire(start + i));
        i = i + 1;
    }
    proof {
        assert(out@ =~= Seq::new(
            circuit.num_outputs as nat,
            |i: int| trace.wires@[circuit@.output_start() + i].value(),
        ));
    }
    out
}

fn collect_views(circuit: &Circuit, trace: &SharedTrace, party_seeds: &[PartySeed]) -> (r: Vec<
    PartyView,
>)
    requires
        circuit@.sequential(),
        trace.wires@.len() == circuit@.num_wires,
        party_seeds@.len() >= 1,
        forall|w: int|
            0 <= w < trace.wires@.len() ==> (#[trigger] trace.wires@[w]).shares@.len()
                == party_seeds@.len(),
    ensures
        r@.len() == party_seeds@.len(),
        forall|p: int|
            0 <= p < party_seeds@.len() ==> (#[trigger] r@[p])@ == honest_view(
                circuit@,
                sharing::sharings(trace.wires@),
                seed_bytes(party_seeds@),
                p,
            ),
{
    let n: usize = party_seeds.len();
    let ghost c = circuit@;
    let ghost wires = sharing::sharings(trace.wires@);
    let ghost seeds = seed_bytes(party_seeds@);
    let mut views: Vec<PartyView> = Vec::with_capacity(n);
    let mut p: usize = 0;
    while p < n
        invariant
            p <= n,
            n == party_seeds@.len(),
            c == circuit@,
            c.sequential(),
            wires == sharing::sharings(trace.wires@),
            wires.len() == c.num_wires,
            seeds == seed_bytes(party_seeds@),
            forall|w: int|
                0 <= w < trace.wires@.len() ==> (#[trigger] trace.wires@[w]).shares@.len() == n,
            views@.len() == p,
            forall|q: int|
                0 <= q < p ==> (#[trigger] views@[q])@ == honest_view(c, wires, seeds, q),
        decreases n - p,
    {
        let wire_shares: Vec<u32> = trace.party_view(p);
        let mut mul_output_shares: Vec<u32> = Vec::new();
        let mut k: usize = 0;
        while k < circuit.gates.len()
            invariant
                k <= circuit.gates.len(),
                c == circuit@,
                c.sequential(),
                wire_shares@.len() == c.num_wires,
                mul_output_shares@ == nonlinear_outputs(c.gates, k as nat, wire_shares@),
            decreases circuit.gates.len() - k,
        {
            proof {
                assert(c.gates[k as int].target() == c.num_inputs + k);
            }
            match circuit.gates[k] {
                Gate::Mul { output, .. } => {
                    mul_output_shares.push(wire_shares[output]);
                },
                Gate::Xor { output, .. } => {
                    mul_output_shares.push(wire_shares[output]);
                },
                _ => {},
            }
            k = k + 1;
        }
        let residual_input_shares: Vec<u32> = if p == n - 1 {
            encoding::copy_words(
                vstd::slice::slice_subrange(wire_shares.as_slice(), 0, circuit.num_inputs),
            )
        } else {
            Vec::new()
        };
        let view: PartyView = PartyView {
            party_idx: p,
            seed: party_seeds[p].0,
            mul_output_shares,
            residual_input_shares,
            wire_shares,
        };
        proof {
            assert(view@ =~= honest_view(c, wires, seeds, p as int));
        }
        views.push(view);
        p = p + 1;
    }
    views
}

/// Recomputes a party's shares of all wires from its seed, the outputs of its non-linear gates
/// and, for the last party, its shares of the inputs.
pub fn recompute_linear_shares(
    circuit: &Circuit,
    seed: &[u8; 32],
    party_idx: usize,
    num_parties: usize,
    mul_output_shares: &[u32],
    residual_input_shares: &[u32],
) -> (r: Vec<u32>)
    requires
        circuit@.in_range(),
        num_parties >= 1,
        circuit::count_nonlinear(circuit@.gates, circuit@.gates.len()) <= mul_output_shares@.len(),
        party_idx == num_parties - 1 && residual_input_shares@.len() > 0
            ==> residual_input_shares@.len() >= circuit@.num_inputs,
    ensures
        r@ == recomputed(
            circuit@,
            seed@,
            party_idx as int,
            num_parties as int,
            mul_output_shares@,
            residual_input_shares@,
        ),
        r@.len() == circuit@.num_wires,
{
    let ghost c = circuit@;
    let ghost p = party_idx as int;
    let ghost start = start_shares(c, seed@, p, num_parties as int, residual_input_shares@);
    let is_residual: bool = party_idx == num_parties - 1 && residual_input_shares.len() > 0;
    let words: Vec<u32> = if is_residual {
        Vec::new()
    } else {
        draw_party_words(&PartySeed(*seed), circuit.num_inputs)
    };
    let mut shares: Vec<u32> = Vec::with_capacity(circuit.num_wires);
    let mut i: usize = 0;
    while i < circuit.num_wires
        invariant
            i <= circuit.num_wires,
            c == circuit@,
            p == party_idx,
            start == start_shares(c, seed@, p, num_parties as int, residual_input_shares@),
            is_residual == (p == num_parties - 1 && residual_input_shares@.len() > 0),
            is_residual ==> residual_input_shares@.len() >= c.num_inputs,
            !is_residual ==> words@ == party_words(seed@, c.num_inputs),
            shares@ =~= start.subrange(0, i as int),
        decreases circuit.num_wires - i,
    {
        if i >= circuit.num_inputs {
            shares.push(0);
        } else if is_residual {
            shares.push(residual_input_shares[i]);
        } else {
            shares.push(words[i]);
        }
        i = i + 1;
    }
    proof {
        assert(shares@ =~= start);
    }
    let mut nonlinear_idx: usize = 0;
    let mut k: usize = 0;
    while k < circuit.gates.len()
        invariant
            k <= circuit.gates.len(),
            c == circuit@,
            c.in_range(),
            p == party_idx,
            circuit::count_nonlinear(c.gates, c.gates.len()) <= mul_output_shares@.len(),
            shares@ == run_shares(c.gates, k as nat, start, p, mul_output_shares@),
            shares@.len() == c.num_wires,
            nonlinear_idx == circuit::count_nonlinear(c.gates, k as nat),
            nonlinear_idx <= k,
        decreases circuit.gates.len() - k,
    {
        let gate: Gate = circuit.gates[k];
        proof {
            assert(c.gates[k as int] == gate);
            assert(gate.reads_below(c.num_wires as int) && gate.target() < c.num_wires);
            lemma_count_nonlinear(c.gates, (k + 1) as nat, c.gates.len());
        }
        match gate {
            Gate::Add { left, right, output } => {
                proof {
                    ring::lemma_wrapping_ops(shares@[left as int], shares@[right as int]);
                }
                shares[output] = shares[left].wrapping_add(shares[right]);
            },
            Gate::Mul { output, .. } => {
                shares[output] = mul_output_shares[nonlinear_idx];
                nonlinear_idx = nonlinear_idx + 1;
            },
            Gate::Xor { output, .. } => {
                shares[output] = mul_output_shares[nonlinear_idx];
                nonlinear_idx = nonlinear_idx + 1;
            },
            Gate::AddConst { input, constant, output } => {
                proof {
                    ring::lemma_wrapping_ops(shares@[input as int], constant);
                }
                if party_idx == 0 {
                    shares[output] = shares[input].wrapping_add(constant);
                } else {
                    shares[output] = shares[input];
                }
            },
            Gate::MulConst { input, constant, output } => {
                proof {
                    ring::lemma_wrapping_ops(shares@[input as int], constant);
                }
                shares[output] = shares[input].wrapping_mul(constant);
            },
            Gate::AssertEq { input, output, .. } => {
                shares[output] = shares[input];
            },
        }
        k = k + 1;
    }
    shares
}

proof fn lemma_count_nonlinear(gates: Seq<Gate>, n: nat, m: nat)
    requires
        n <= m,
    ensures
        circuit::count_nonlinear(gates, n) <= circuit::count_nonlinear(gates, m),
    decreases m,
{
    if n < m {
        lemma_count_nonlinear(gates, n, (m - 1) as nat);
    }
}

/// What `next_opened` of [`verify_party_view`] says.
pub open spec fn opened_right(next_opened: Option<(&[u8; 32], &[u32])>) -> Option<
    (Seq<u8>, Seq<u32>),
> {
    match next_opened {
        Some((seed, shares)) => Some((seed@, shares@)),
        None => None,
    }
}

fn count_nonlinear_gates(circuit: &Circuit) -> (r: usize)
    ensures
        r == circuit::count_nonlinear(circuit@.gates, circuit@.gates.len()),
{
    let mut count: usize = 0;
    let mut k: usize = 0;
    while k < circuit.gates.len()
        invariant
            k <= circuit.gates@.len(),
            count <= k,
            count == circuit::count_nonlinear(circuit@.gates, k as nat),
        decreases circuit.gates@.len() - k,
    {
        match circuit.gates[k] {
            Gate::Mul { .. } => {
                count = count + 1;
            },
            Gate::Xor { .. } => {
                count = count + 1;
            },
            _ => {},
        }
        k = k + 1;
    }
    count
}

/// The wires at which a party's shares are looked at exist: those of linear gates, and those of
/// multiplications if they are checked.
pub open spec fn own_shares_suffice(gates: Seq<Gate>, len: nat, multiplications: bool) -> bool {
    forall|i: int|
        0 <= i < gates.len() ==> match #[trigger] gates[i] {
            Gate::Xor { .. } => true,
            Gate::AssertEq { .. } => true,
            Gate::Mul { .. } => multiplications ==> gates[i].reads_below(len as int)
                && gates[i].target() < len,
            _ => gates[i].reads_below(len as int) && gates[i].target() < len,
        }
}

/// The wires at which the shares of the parties on the right are looked at exist: those that
/// multiplications read.
pub open spec fn right_shares_suffice(gates: Seq<Gate>, len: nat) -> bool {
    forall|i: int|
        0 <= i < gates.len() && (#[trigger] gates[i] is Mul) ==> gates[i].reads_below(len as int)
}

/// Checks that a party's shares fit together at every gate.
///
/// `next_opened` holds the seed of the next party and, for every wire, the sum of the shares of
/// the parties on the right of this one (with three parties: the shares of the next party). If
/// one of them is hidden it is `None`, and multiplications cannot be checked for this party.
/// Exclusive ors and assertions are not checked here.
pub fn verify_party_view(
    circuit: &Circuit,
    wire_shares: &[u32],
    party_idx: usize,
    party_seed: &[u8; 32],
    next_opened: Option<(&[u8; 32], &[u32])>,
) -> (r: Result<(), MpcithError>)
    requires
        own_shares_suffice(circuit@.gates, wire_shares@.len(), next_opened is Some),
        next_opened matches Some((_, shares)) ==> right_shares_suffice(
            circuit@.gates,
            shares@.len(),
        ),
    ensures
        match r {
            Ok(_) => view_consistent(
                circuit@.gates,
                wire_shares@,
                party_idx as int,
                party_seed@,
                opened_right(next_opened),
            ),
            Err(e) => {
                &&& !view_consistent(
                    circuit@.gates,
                    wire_shares@,
                    party_idx as int,
                    party_seed@,
                    opened_right(next_opened),
                )
                &&& e@ == ErrorModel::ConsistencyCheckFailed(party_idx as nat)
            },
        },
{
    match next_opened {
        Some((next_seed, right_shares)) => {
            let count: usize = count_nonlinear_gates(circuit);
            let own_words: Vec<u32> = draw_zero_words(party_seed, count);
            let next_words: Vec<u32> = draw_zero_words(next_seed, count);
            check_party_view(
                circuit,
                wire_shares,
                party_idx,
                Some((&own_words, &next_words, right_shares)),
                Ghost(party_seed@),
                Ghost(next_seed@),
            )
        },
        None => check_party_view(
            circuit,
            wire_shares,
            party_idx,
            None,
            Ghost(party_seed@),
            Ghost(Seq::empty()),
        ),
    }
}

/// Checks that a party's shares fit together at every gate, as [`verify_party_view`] does, with the
/// words that its seed and that of the next party give for the multiplications.
pub(crate) fn check_party_view(
    circuit: &Circuit,
    wire_shares: &[u32],
    party_idx: usize,
    right: Option<(&[u32], &[u32], &[u32])>,
    Ghost(seed): Ghost<Seq<u8>>,
    Ghost(next_seed): Ghost<Seq<u8>>,
) -> (r: Result<(), MpcithError>)
    requires
        own_shares_suffice(circuit@.gates, wire_shares@.len(), right is Some),
        right matches Some((own_words, next_words, shares)) ==> {
            let count = circuit::count_nonlinear(circuit@.gates, circuit@.gates.len());
            &&& own_words@ == zero_list(seed, count)
            &&& next_words@ == zero_list(next_seed, count)
            &&& right_shares_suffice(circuit@.gates, shares@.len())
        },
    ensures
        match r {
            Ok(_) => view_consistent(
                circuit@.gates,
                wire_shares@,
                party_idx as int,
                seed,
                match right {
                    Some((_, _, shares)) => Some((next_seed, shares@)),
                    None => None,
                },
            ),
            Err(e) => {
                &&& !view_consistent(
                    circuit@.gates,
                    wire_shares@,
                    party_idx as int,
                    seed,
                    match right {
                        Some((_, _, shares)) => Some((next_seed, shares@)),
                        None => None,
                    },
                )
                &&& e@ == ErrorModel::ConsistencyCheckFailed(party_idx as nat)
            },
        },
{
    let ghost c = circuit@;
    let ghost next = match right {
        Some((_, _, shares)) => Some((next_seed, shares@)),
        None => None,
    };
    let mut nonlinear_idx: usize = 0;
    let mut k: usize = 0;
    while k < circuit.gates.len()
        invariant
            k <= circuit.gates.len(),
            c == circuit@,
            own_shares_suffice(c.gates, wire_shares@.len(), right is Some),
            right matches Some((own_words, next_words, shares)) ==> {
                let count = circuit::count_nonlinear(c.gates, c.gates.len());
                &&& own_words@ == zero_list(seed, count)
                &&& next_words@ == zero_list(next_seed, count)
                &&& right_shares_suffice(c.gates, shares@.len())
            },
            next == match right {
                Some((_, _, shares)) => Some((next_seed, shares@)),
                None => None,
            },
            nonlinear_idx == circuit::count_nonlinear(c.gates, k as nat),
            nonlinear_idx <= k,
            forall|i: int|
                0 <= i < k ==> gate_consistent(
                    #[trigger] c.gates[i],
                    wire_shares@,
                    party_idx as int,
                    seed,
                    next,
                    circuit::count_nonlinear(c.gates, i as nat),
                ),
        decreases circuit.gates.len() - k,
    {
        let gate: Gate = circuit.gates[k];
        proof {
            assert(c.gates[k as int] == gate);
            lemma_count_nonlinear(c.gates, (k + 1) as nat, c.gates.len());
        }
        let consistent: bool = match gate {
            Gate::Add { left, right, output } => {
                proof {
                    ring::lemma_wrapping_ops(wire_shares@[left as int], wire_shares@[right as int]);
                }
                wire_shares[output] == wire_shares[left].wrapping_add(wire_shares[right])
            },
            Gate::Mul { left, right: other, output } => {
                let ok: bool = match right {
                    Some((own_words, next_words, right_shares)) => {
                        let own: u32 = own_words[nonlinear_idx];
                        let following: u32 = next_words[nonlinear_idx];
                        proof {
                            ring::lemma_wrapping_ops(own, following);
                        }
                        let expected: u32 = product::multiply_share(
                            wire_shares[left],
                            wire_shares[other],
                            right_shares[left],
                            right_shares[other],
                            own.wrapping_sub(following),
                        );
                        wire_shares[output] == expected
                    },
                    None => true,
                };
                nonlinear_idx = nonlinear_idx + 1;
                ok
            },
            Gate::Xor { .. } => {
                nonlinear_idx = nonlinear_idx + 1;
                true
            },
            Gate::AddConst { input, constant, output } => {
                proof {
                    ring::lemma_wrapping_ops(wire_shares@[input as int], constant);
                }
                let expected: u32 = if party_idx == 0 {
                    wire_shares[input].wrapping_add(constant)
                } else {
                    wire_shares[input]
                };
                wire_shares[output] == expected
            },
            Gate::MulConst { input, constant, output } => {
                proof {
                    ring::lemma_wrapping_ops(wire_shares@[input as int], constant);
                }
                wire_shares[output] == wire_shares[input].wrapping_mul(constant)
            },
            Gate::AssertEq { .. } => true,
        };
        proof {
            assert(consistent == gate_consistent(
                c.gates[k as int],
                wire_shares@,
                party_idx as int,
                seed,
                next,
                circuit::count_nonlinear(c.gates, k as nat),
            ));
        }
        if !consistent {
            return Err(MpcithError::ConsistencyCheckFailed(party_idx));
        }
        k = k + 1;
    }
    Ok(())
}

// ----------------------------------------------------------------------------
// What shares are made of
// ----------------------------------------------------------------------------

/// The words of a party come from ChaCha20 key streams: those of its input shares from one, and that
/// of each non-linear gate from one of its own. The keys are BLAKE3 digests of the seed with a text,
/// and with the number of that one.
pub proof fn lemma_words_from_seeds(seed: Seq<u8>, i: nat, idx: nat)
    ensures
        party_word(seed, i) == hash::chacha20_stream_word(
            hash::blake3_digest(seed + vstd::utf8::encode_utf8("mpcith-party-share"@)),
            i,
        ),
        zero_word(seed, idx) == hash::chacha20_stream_word(
            hash::blake3_digest(
                seed + (vstd::utf8::encode_utf8("mpcith-zero-share"@)
                    + vstd::bytes::spec_u64_to_le_bytes(idx as u64)),
            ),
            0,
        ),
{
}

/// Later gates leave the shares of the wires before them as they are.
proof fn lemma_shared_kept(
    gates: Seq<Gate>,
    n: nat,
    m: nat,
    witness: Seq<u32>,
    seeds: Seq<Seq<u8>>,
    fresh: Seq<u32>,
)
    requires
        n <= m,
    ensures
        shared(gates, m, witness, seeds, fresh).len() == witness.len() + m,
        forall|w: int|
            0 <= w < witness.len() + n ==> #[trigger] shared(gates, m, witness, seeds, fresh)[w]
                == shared(gates, n, witness, seeds, fresh)[w],
    decreases m,
{
    if m > 0 {
        let k = (m - 1) as nat;
        if n < m {
            lemma_shared_kept(gates, n, k, witness, seeds, fresh);
        } else {
            lemma_shared_kept(gates, k, k, witness, seeds, fresh);
        }
    }
}

/// The share of an input is a word of the party's own key stream, at the position of the input, for
/// every party but the last; all shares of an input add up to the witness modulo 2^32.
pub proof fn lemma_input_shares(
    c: CircuitModel,
    witness: Seq<u32>,
    seeds: Seq<Seq<u8>>,
    fresh: Seq<u32>,
    i: int,
)
    requires
        seeds.len() >= 1,
        0 <= i < witness.len(),
    ensures
        ({
            let wires = shared(c.gates, c.gates.len(), witness, seeds, fresh);
            &&& wires[i].len() == seeds.len()
            &&& forall|p: int|
                0 <= p < seeds.len() - 1 ==> #[trigger] wires[i][p] == hash::chacha20_stream_word(
                    hash::blake3_digest(
                        seeds[p] + vstd::utf8::encode_utf8("mpcith-party-share"@),
                    ),
                    i as nat,
                )
            &&& ring::total(wires[i]) % 0x1_0000_0000 == witness[i]
        }),
{
    lemma_shared_kept(c.gates, 0, c.gates.len(), witness, seeds, fresh);
    let words = Seq::new((seeds.len() - 1) as nat, |p: int| party_word(seeds[p], i as nat));
    sharing::lemma_additive_shares(witness[i], words);
    let wires = shared(c.gates, c.gates.len(), witness, seeds, fresh);
    assert(wires[i] == sharing::additive_shares(witness[i], words));
}

/// Every party computes its share of what a gate writes from its shares of what is read. Of a
/// product it accounts for its own term, the cross terms with the parties on its right, and the
/// difference between its own word and that of the next party.
pub proof fn lemma_gate_share(
    c: CircuitModel,
    witness: Seq<u32>,
    seeds: Seq<Seq<u8>>,
    k: int,
    p: int,
)
    requires
        c.sequential(),
        c.xor_free(),
        witness.len() == c.num_inputs,
        seeds.len() >= 1,
        circuit::count_xor(c.gates, c.gates.len()) == 0,
        0 <= k < c.gates.len(),
        0 <= p < seeds.len(),
    ensures
        ({
            let wires = shared(c.gates, c.gates.len(), witness, seeds, Seq::empty());
            let out = wires[c.num_inputs + k][p] as int;
            let idx = circuit::count_nonlinear(c.gates, k as nat);
            match c.gates[k] {
                Gate::Add { left, right, .. } => out == (wires[left as int][p]
                    + wires[right as int][p]) % 0x1_0000_0000,
                Gate::Mul { left, right, .. } => {
                    let x = wires[left as int];
                    let y = wires[right as int];
                    let zero = zero_word(seeds[p], idx) - zero_word(
                        seeds[(p + 1) % (seeds.len() as int)],
                        idx,
                    );
                    out == (x[p] * y[p] + x[p] * product::right_sum(y, p) + product::right_sum(x, p)
                        * y[p] + zero) % 0x1_0000_0000
                },
                Gate::Xor { .. } => true,
                Gate::AddConst { input, constant, .. } => out == if p == 0 {
                    (wires[input as int][p] + constant) % 0x1_0000_0000
                } else {
                    wires[input as int][p] as int
                },
                Gate::MulConst { input, constant, .. } => out == (wires[input as int][p] * constant)
                    % 0x1_0000_0000,
                Gate::AssertEq { input, .. } => out == wires[input as int][p],
            }
        }),
{
    let g = c.gates;
    let fresh = Seq::<u32>::empty();
    let wires = shared(g, g.len(), witness, seeds, fresh);
    let before = shared(g, k as nat, witness, seeds, fresh);
    let idx = circuit::count_nonlinear(g, k as nat);
    assert(0 * (seeds.len() - 1) == 0);
    lemma_shared(c, g.len(), witness, seeds, fresh);
    lemma_shared_kept(g, k as nat, g.len(), witness, seeds, fresh);
    lemma_shared_kept(g, (k + 1) as nat, g.len(), witness, seeds, fresh);
    lemma_shared_kept(g, k as nat, k as nat, witness, seeds, fresh);
    assert(g[k].target() == c.num_inputs + k && g[k].reads_below(c.num_inputs + k));
    let made = gate_shares(g[k], before, seeds, idx, fresh, circuit::count_xor(g, k as nat));
    assert(wires[c.num_inputs + k] == made);
    match g[k] {
        Gate::Add { left, right, .. } => {
            assert(wires[left as int] == before[left as int]);
            assert(wires[right as int] == before[right as int]);
            assert(wires[left as int].len() == seeds.len());
        },
        Gate::Mul { left, right, .. } => {
            let x = wires[left as int];
            let y = wires[right as int];
            assert(x == before[left as int] && y == before[right as int]);
            assert(x.len() == seeds.len() && y.len() == seeds.len());
            let n = seeds.len() as int;
            let words = zero_words(seeds, idx);
            vstd::arithmetic::div_mod::lemma_mod_bound(p + 1, n);
            assert(words[p] == zero_word(seeds[p], idx));
            assert(words[(p + 1) % n] == zero_word(seeds[(p + 1) % n], idx));
            let zero = words[p] - words[(p + 1) % n];
            let xr = product::right_sum(x, p);
            let yr = product::right_sum(y, p);
            ring::lemma_wrap_mul(x[p] as int, yr);
            ring::lemma_wrap_mul(xr, y[p] as int);
            let a = x[p] * y[p];
            let b = x[p] * ring::wrap(yr);
            let d = ring::wrap(xr) * y[p];
            ring::lemma_wrap_add(a, b);
            ring::lemma_wrap_add(a, x[p] * yr);
            ring::lemma_wrap_add(a + b, d);
            ring::lemma_wrap_add(a + x[p] * yr, d);
            ring::lemma_wrap_add(a + x[p] * yr, xr * y[p]);
            ring::lemma_wrap_add(a + b + d, zero);
            ring::lemma_wrap_add(a + x[p] * yr + xr * y[p], zero);
            assert(ring::wrap(a + b) == ring::wrap(a + x[p] * yr));
            assert(ring::wrap(a + b + d) == ring::wrap(a + x[p] * yr + d));
            assert(ring::wrap(a + x[p] * yr + d) == ring::wrap(a + x[p] * yr + xr * y[p]));
        },
        Gate::Xor { .. } => {},
        Gate::AddConst { input, .. } => {
            assert(wires[input as int] == before[input as int]);
            assert(wires[input as int].len() == seeds.len());
        },
        Gate::MulConst { input, .. } => {
            assert(wires[input as int] == before[input as int]);
            assert(wires[input as int].len() == seeds.len());
        },
        Gate::AssertEq { input, .. } => {
            assert(wires[input as int] == before[input as int]);
        },
    }
}

/// A view holds the party's shares of what the non-linear gates write, in their order, and its shares
/// of the inputs if it is the last party. A commitment is made from the seed and both lists.
pub proof fn lemma_view_contents(
    c: CircuitModel,
    wires: Seq<Seq<u32>>,
    seeds: Seq<Seq<u8>>,
    p: int,
    n: nat,
    own: Seq<u32>,
    seed: Seq<u8>,
)
    ensures
        ({
            let v = honest_view(c, wires, seeds, p);
            &&& v.party_idx == p as nat
            &&& v.seed == seeds[p]
            &&& v.wire_shares == Seq::new(wires.len(), |w: int| wires[w][p])
            &&& v.mul_output_shares == nonlinear_outputs(c.gates, c.gates.len(), v.wire_shares)
            &&& v.residual_input_shares == if p == seeds.len() - 1 {
                v.wire_shares.subrange(0, c.num_inputs as int)
            } else {
                Seq::empty()
            }
            &&& v.committed(seed) == seed + encoding::words(
                v.mul_output_shares,
                v.mul_output_shares.len(),
            ) + encoding::words(v.residual_input_shares, v.residual_input_shares.len())
        }),
        nonlinear_outputs(c.gates, 0, own) == Seq::<u32>::empty(),
        nonlinear_outputs(c.gates, n + 1, own) == match c.gates[n as int] {
            Gate::Mul { output, .. } => nonlinear_outputs(c.gates, n, own).push(own[output as int]),
            Gate::Xor { output, .. } => nonlinear_outputs(c.gates, n, own).push(own[output as int]),
            _ => nonlinear_outputs(c.gates, n, own),
        },
{
    assert(sharing::column(wires, p) =~= Seq::new(wires.len(), |w: int| wires[w][p]));
}

proof fn lemma_run_kept(
    c: CircuitModel,
    k: nat,
    m: nat,
    start: Seq<u32>,
    p: int,
    muls: Seq<u32>,
)
    requires
        c.sequential(),
        start.len() == c.num_wires,
        k <= m <= c.gates.len(),
    ensures
        run_shares(c.gates, m, start, p, muls).len() == c.num_wires,
        forall|w: int|
            0 <= w < c.num_inputs + k ==> #[trigger] run_shares(c.gates, m, start, p, muls)[w]
                == run_shares(c.gates, k, start, p, muls)[w],
    decreases m,
{
    if m > 0 {
        if k < m {
            lemma_run_kept(c, k, (m - 1) as nat, start, p, muls);
        } else {
            lemma_run_kept(c, (m - 1) as nat, (m - 1) as nat, start, p, muls);
        }
        assert(c.gates[m - 1].target() == c.num_inputs + m - 1);
    }
}

/// What a verifier recomputes of an opened party: input shares from its seed, or as given for the last
/// party, given shares of what non-linear gates write, and all others as the party computes them.
pub proof fn lemma_recomputed_shares(
    c: CircuitModel,
    seed: Seq<u8>,
    p: int,
    n: int,
    muls: Seq<u32>,
    residual: Seq<u32>,
    k: int,
)
    requires
        c.sequential(),
        0 <= k < c.gates.len(),
    ensures
        ({
            let own = recomputed(c, seed, p, n, muls, residual);
            let out = own[c.num_inputs + k] as int;
            &&& own.len() == c.num_wires
            &&& forall|i: int|
                0 <= i < c.num_inputs ==> #[trigger] own[i] == if p == n - 1 && residual.len() > 0 {
                    residual[i]
                } else {
                    hash::chacha20_stream_word(
                        hash::blake3_digest(seed + vstd::utf8::encode_utf8("mpcith-party-share"@)),
                        i as nat,
                    )
                }
            &&& match c.gates[k] {
                Gate::Add { left, right, .. } => out == (own[left as int] + own[right as int])
                    % 0x1_0000_0000,
                Gate::Mul { .. } => out == muls[circuit::count_nonlinear(
                    c.gates,
                    k as nat,
                ) as int],
                Gate::Xor { .. } => out == muls[circuit::count_nonlinear(
                    c.gates,
                    k as nat,
                ) as int],
                Gate::AddConst { input, constant, .. } => out == if p == 0 {
                    (own[input as int] + constant) % 0x1_0000_0000
                } else {
                    own[input as int] as int
                },
                Gate::MulConst { input, constant, .. } => out == (own[input as int] * constant)
                    % 0x1_0000_0000,
                Gate::AssertEq { input, .. } => out == own[input as int],
            }
        }),
{
    let start = start_shares(c, seed, p, n, residual);
    lemma_run_kept(c, 0, c.gates.len(), start, p, muls);
    lemma_run_kept(c, k as nat, c.gates.len(), start, p, muls);
    lemma_run_kept(c, (k + 1) as nat, c.gates.len(), start, p, muls);
    lemma_run_kept(c, k as nat, k as nat, start, p, muls);
    let own = recomputed(c, seed, p, n, muls, residual);
    let here = run_shares(c.gates, k as nat, start, p, muls);
    let next = run_shares(c.gates, (k + 1) as nat, start, p, muls);
    assert(c.gates[k].target() == c.num_inputs + k && c.gates[k].reads_below(c.num_inputs + k));
    assert(own[c.num_inputs + k] == next[c.num_inputs + k]);
    assert forall|i: int| 0 <= i < c.num_inputs implies #[trigger] own[i] == start[i] by {}
    match c.gates[k] {
        Gate::Add { left, right, .. } => {
            assert(own[left as int] == here[left as int]);
            assert(own[right as int] == here[right as int]);
        },
        Gate::AddConst { input, .. } => {
            assert(own[input as int] == here[input as int]);
        },
        Gate::MulConst { input, .. } => {
            assert(own[input as int] == here[input as int]);
        },
        Gate::AssertEq { input, .. } => {
            assert(own[input as int] == here[input as int]);
        },
        _ => {},
    }
}

/// A view is consistent exactly if at every gate the party's share is what the party must compute; at
/// multiplications, if what is on the right of the party is known.
pub proof fn lemma_consistent_exactly(
    gates: Seq<Gate>,
    shares: Seq<u32>,
    p: int,
    seed: Seq<u8>,
    next: Option<(Seq<u8>, Seq<u32>)>,
)
    ensures
        view_consistent(gates, shares, p, seed, next) <==> forall|k: int|
            0 <= k < gates.len() ==> match #[trigger] gates[k] {
                Gate::Add { left, right, output } => shares[output as int] as int == (
                shares[left as int] + shares[right as int]) % 0x1_0000_0000,
                Gate::Mul { left, right, output } => match next {
                    Some((next_seed, sums)) => {
                        let idx = circuit::count_nonlinear(gates, k as nat);
                        let x = shares[left as int];
                        let y = shares[right as int];
                        shares[output as int] as int == (x * y + x * sums[right as int]
                            + sums[left as int] * y + (zero_word(seed, idx) - zero_word(
                            next_seed,
                            idx,
                        ))) % 0x1_0000_0000
                    },
                    None => true,
                },
                Gate::Xor { .. } => true,
                Gate::AddConst { input, constant, output } => shares[output as int] as int == if p
                    == 0 {
                    (shares[input as int] + constant) % 0x1_0000_0000
                } else {
                    shares[input as int] as int
                },
                Gate::MulConst { input, constant, output } => shares[output as int] as int == (
                shares[input as int] * constant) % 0x1_0000_0000,
                Gate::AssertEq { .. } => true,
            },
{
    assert forall|k: int| 0 <= k < gates.len() implies match #[trigger] gates[k] {
        Gate::Mul { left, right, .. } => match next {
            Some((next_seed, sums)) => {
                let idx = circuit::count_nonlinear(gates, k as nat);
                let x = shares[left as int];
                let y = shares[right as int];
                let zero = zero_word(seed, idx) - zero_word(next_seed, idx);
                product::product_share(
                    x,
                    y,
                    sums[left as int],
                    sums[right as int],
                    zero_share_word(seed, next_seed, idx),
                ) as int == (x * y + x * sums[right as int] + sums[left as int] * y + zero)
                    % 0x1_0000_0000
            },
            None => true,
        },
        _ => true,
    } by {
        if let Gate::Mul { left, right, .. } = gates[k] {
            if let Some((next_seed, sums)) = next {
                let idx = circuit::count_nonlinear(gates, k as nat);
                let x = shares[left as int];
                let y = shares[right as int];
                let zero = zero_word(seed, idx) - zero_word(next_seed, idx);
                ring::lemma_wrap_add(
                    x * y + x * sums[right as int] + sums[left as int] * y,
                    zero,
                );
            }
        }
    }
    if view_consistent(gates, shares, p, seed, next) {
        assert forall|k: int| 0 <= k < gates.len() implies gate_consistent(
            #[trigger] gates[k],
            shares,
            p,
            seed,
            next,
            circuit::count_nonlinear(gates, k as nat),
        ) by {}
    }
}

/// Each exclusive or has random words of its own: the shares of what it writes, of all parties but the
/// last, are the words that follow those of the exclusive ors before it.
pub proof fn lemma_xor_share(
    c: CircuitModel,
    witness: Seq<u32>,
    seeds: Seq<Seq<u8>>,
    fresh: Seq<u32>,
    k: int,
    p: int,
)
    requires
        c.sequential(),
        witness.len() == c.num_inputs,
        seeds.len() >= 2,
        0 <= k < c.gates.len(),
        c.gates[k] is Xor,
        0 <= p < seeds.len() - 1,
        circuit::count_xor(c.gates, c.gates.len()) * (seeds.len() - 1) <= fresh.len(),
    ensures
        shared(c.gates, c.gates.len(), witness, seeds, fresh)[c.num_inputs + k][p]
            == fresh[circuit::count_xor(c.gates, k as nat) * (seeds.len() - 1) + p],
{
    let g = c.gates;
    let n = seeds.len() - 1;
    let x = circuit::count_xor(g, k as nat) as int;
    let all = circuit::count_xor(g, g.len()) as int;
    lemma_shared_kept(g, (k + 1) as nat, g.len(), witness, seeds, fresh);
    lemma_shared_kept(g, k as nat, k as nat, witness, seeds, fresh);
    lemma_count_xor(g, (k + 1) as nat, g.len());
    assert(x + 1 <= all);
    assert(0 <= x * n && x * n + n <= all * n) by (nonlinear_arith)
        requires
            0 <= x,
            x + 1 <= all,
            n >= 1,
    ;
    assert(fresh.subrange(x * n, x * n + n)[p] == fresh[x * n + p]);
}

} // verus!
