//! Soundness: a prover that can answer whichever party is hidden knows a witness, or has found a
//! collision of BLAKE3.

use crate::checks;
use crate::circuit;
use crate::circuit::CircuitModel;
use crate::circuit::Gate;
use crate::commit_merkle;
use crate::commitment;
use crate::completeness;
use crate::encoding;
use crate::hash;
use crate::mpc;
use crate::mpc::ViewModel;
use crate::predicate;
use crate::predicate::CompoundModel;
use crate::predicate::PredicateModel;
use crate::product;
use crate::protocol;
use crate::protocol::OpenedModel;
use crate::protocol::ProofModel;
use crate::protocol::RandomnessModel;
use crate::protocol::RepetitionModel;
use crate::ring;
use crate::sharing;
use crate::tree;
use crate::validation;
use crate::verification;
use vstd::arithmetic::div_mod::*;
use vstd::prelude::*;

verus! {

/// For every party a proof whose repetition `rep` hides that party and is accepted. The prover said
/// the same in all of them before the hidden party was known.
pub open spec fn answers(proofs: Seq<ProofModel>, c: CircuitModel, n: nat, rep: nat) -> bool {
    &&& proofs.len() == n
    &&& forall|h: int|
        0 <= h < n ==> {
            let p = #[trigger] proofs[h];
            &&& p.circuit == c
            &&& rep < p.repetitions.len()
            &&& p.repetitions[rep as int].hidden_party == h
            &&& p.repetitions[rep as int].message == proofs[0].repetitions[rep as int].message
            &&& protocol::rep_shape_failure(p, n, rep) is None
            &&& protocol::opened_then_sums(p, n, rep) is None
        }
}

/// Proofs `h` and `k` open the same of party `q`.
pub open spec fn same_opening(
    proofs: Seq<ProofModel>,
    c: CircuitModel,
    n: nat,
    rep: nat,
    h: int,
    k: int,
    q: int,
) -> bool {
    let a = proofs[h].repetitions[rep as int];
    let b = proofs[k].repetitions[rep as int];
    &&& protocol::opened_seeds(a, n)[q] == protocol::opened_seeds(b, n)[q]
    &&& opened_by(proofs, c, n, rep, h, q) == opened_by(proofs, c, n, rep, k, q)
}

/// What is opened of a party is the same in all proofs that open it.
pub open spec fn agree(proofs: Seq<ProofModel>, c: CircuitModel, n: nat, rep: nat) -> bool {
    forall|h: int, k: int, q: int|
        0 <= h < n && 0 <= k < n && 0 <= q < n && q != h && q != k ==> #[trigger] same_opening(
            proofs,
            c,
            n,
            rep,
            h,
            k,
            q,
        )
}

/// The shares of party `q` that proof `h` opens.
pub open spec fn opened_by(
    proofs: Seq<ProofModel>,
    c: CircuitModel,
    n: nat,
    rep: nat,
    h: int,
    q: int,
) -> Seq<u32> {
    protocol::opened_shares(c, proofs[h].repetitions[rep as int], n, q as nat)
}

/// A party other than `q`: the one before it.
spec fn before(q: int, n: nat) -> int {
    if q == 0 {
        n - 1
    } else {
        q - 1
    }
}

/// The shares of all wires and parties, as they are opened.
pub open spec fn opened_table(
    proofs: Seq<ProofModel>,
    c: CircuitModel,
    n: nat,
    rep: nat,
) -> Seq<Seq<u32>> {
    Seq::new(
        c.num_wires,
        |w: int|
            Seq::new(
                n,
                |q: int|
                    opened_by(
                        proofs,
                        c,
                        n,
                        rep,
                        if q == 0 {
                            n - 1
                        } else {
                            q - 1
                        },
                        q,
                    )[w],
            ),
    )
}

/// The witness that the opened shares add up to.
pub open spec fn extracted(
    proofs: Seq<ProofModel>,
    c: CircuitModel,
    n: nat,
    rep: nat,
) -> Seq<u32> {
    Seq::new(
        c.num_inputs,
        |i: int| ring::wrap(ring::total(opened_table(proofs, c, n, rep)[i])),
    )
}

/// The seeds of all parties, as they are opened.
spec fn opened_seed_list(proofs: Seq<ProofModel>, n: nat, rep: nat) -> Seq<Seq<u8>> {
    Seq::new(
        n,
        |q: int| protocol::opened_seeds(proofs[before(q, n)].repetitions[rep as int], n)[q],
    )
}

/// The gates that follow do not change the wires of a sequential circuit that are already written.
proof fn lemma_run_shares_prefix(
    c: CircuitModel,
    k: nat,
    m: nat,
    start: Seq<u32>,
    p: int,
    muls: Seq<u32>,
)
    requires
        c.sequential(),
        start.len() == c.num_wires,
        k <= m <= c.gates.len(),
    ensures
        mpc::run_shares(c.gates, m, start, p, muls).len() == c.num_wires,
        forall|w: int|
            0 <= w < c.num_inputs + k ==> #[trigger] mpc::run_shares(c.gates, m, start, p, muls)[w]
                == mpc::run_shares(c.gates, k, start, p, muls)[w],
    decreases m,
{
    if m > 0 {
        if k < m {
            lemma_run_shares_prefix(c, k, (m - 1) as nat, start, p, muls);
        } else {
            lemma_run_shares_prefix(c, (m - 1) as nat, (m - 1) as nat, start, p, muls);
        }
        assert(c.gates[m - 1].target() == c.num_inputs + m - 1);
    }
}

/// In recomputed shares, an assertion writes the share that it reads.
proof fn lemma_assert_copies(
    c: CircuitModel,
    seed: Seq<u8>,
    p: int,
    n: int,
    muls: Seq<u32>,
    residual: Seq<u32>,
)
    requires
        c.sequential(),
    ensures
        ({
            let own = mpc::recomputed(c, seed, p, n, muls, residual);
            &&& own.len() == c.num_wires
            &&& forall|k: int|
                0 <= k < c.gates.len() ==> match #[trigger] c.gates[k] {
                    Gate::AssertEq { input, .. } => own[c.num_inputs + k] == own[input as int],
                    _ => true,
                }
        }),
{
    let own = mpc::recomputed(c, seed, p, n, muls, residual);
    let start = mpc::start_shares(c, seed, p, n, residual);
    lemma_run_shares_prefix(c, 0, c.gates.len(), start, p, muls);
    assert forall|k: int| 0 <= k < c.gates.len() implies match #[trigger] c.gates[k] {
        Gate::AssertEq { input, .. } => own[c.num_inputs + k] == own[input as int],
        _ => true,
    } by {
        let here = mpc::run_shares(c.gates, k as nat, start, p, muls);
        let next = mpc::run_shares(c.gates, (k + 1) as nat, start, p, muls);
        lemma_run_shares_prefix(c, k as nat, c.gates.len(), start, p, muls);
        lemma_run_shares_prefix(c, (k + 1) as nat, c.gates.len(), start, p, muls);
        lemma_run_shares_prefix(c, k as nat, k as nat, start, p, muls);
        assert(c.gates[k].target() == c.num_inputs + k);
        assert(c.gates[k].reads_below(c.num_inputs + k));
        if let Gate::AssertEq { input, .. } = c.gates[k] {
            assert(next[c.num_inputs + k] == here[input as int]);
            assert(own[c.num_inputs + k] == next[c.num_inputs + k]);
            assert(own[input as int] == here[input as int]);
        }
    }
}

/// If the shares of all parties fit together at every gate, the sums of the shares are the values
/// of the wires.
proof fn lemma_consistent_values(
    c: CircuitModel,
    wires: Seq<Seq<u32>>,
    seeds: Seq<Seq<u8>>,
    m: nat,
)
    requires
        c.sequential(),
        c.xor_free(),
        seeds.len() >= 1,
        wires.len() == c.num_wires,
        forall|w: int| 0 <= w < wires.len() ==> (#[trigger] wires[w]).len() == seeds.len(),
        forall|q: int|
            #![trigger seeds[q]]
            0 <= q < seeds.len() ==> mpc::view_consistent(
                c.gates,
                sharing::column(wires, q),
                q,
                seeds[q],
                Some((seeds[(q + 1) % (seeds.len() as int)], mpc::right_column(wires, q))),
            ),
        forall|k: int|
            0 <= k < c.gates.len() ==> match #[trigger] c.gates[k] {
                Gate::AssertEq { input, .. } => wires[c.num_inputs + k] == wires[input as int],
                _ => true,
            },
        m <= c.gates.len(),
    ensures
        ({
            let witness = Seq::new(
                c.num_inputs,
                |i: int| ring::wrap(ring::total(wires[i])),
            );
            let values = circuit::wire_values(c.gates, m, witness);
            &&& values.len() == c.num_inputs + m
            &&& forall|w: int|
                0 <= w < c.num_inputs + m ==> #[trigger] values[w] == ring::wrap(
                    ring::total(wires[w]),
                )
        }),
    decreases m,
{
    let witness = Seq::new(c.num_inputs, |i: int| ring::wrap(ring::total(wires[i])));
    circuit::lemma_wire_values_len(c.gates, m, witness);
    if m > 0 {
        let k = m - 1;
        lemma_consistent_values(c, wires, seeds, k as nat);
        let gate = c.gates[k];
        let here = circuit::wire_values(c.gates, k as nat, witness);
        let sums = Seq::new(c.num_wires, |w: int| ring::wrap(ring::total(wires[w])));
        let idx = circuit::count_nonlinear(c.gates, k as nat);
        assert(gate.target() == c.num_inputs + k && gate.reads_below(c.num_inputs + k));
        let made = mpc::gate_shares(gate, wires, seeds, idx, Seq::empty(), 0);
        lemma_gate_made(c, wires, seeds, k);
        mpc::lemma_gate_shares(gate, wires, sums, seeds, idx, Seq::empty(), 0);
        circuit::lemma_gate_local(gate, here, sums, c.num_inputs + k);
    }
}

/// The shares on the wire that a gate writes are those that it makes.
proof fn lemma_gate_made(
    c: CircuitModel,
    wires: Seq<Seq<u32>>,
    seeds: Seq<Seq<u8>>,
    k: int,
)
    requires
        c.sequential(),
        c.xor_free(),
        seeds.len() >= 1,
        wires.len() == c.num_wires,
        forall|w: int| 0 <= w < wires.len() ==> (#[trigger] wires[w]).len() == seeds.len(),
        forall|q: int|
            #![trigger seeds[q]]
            0 <= q < seeds.len() ==> mpc::view_consistent(
                c.gates,
                sharing::column(wires, q),
                q,
                seeds[q],
                Some((seeds[(q + 1) % (seeds.len() as int)], mpc::right_column(wires, q))),
            ),
        0 <= k < c.gates.len(),
        match c.gates[k] {
            Gate::AssertEq { input, .. } => wires[c.num_inputs + k] == wires[input as int],
            _ => true,
        },
    ensures
        wires[c.num_inputs + k] == mpc::gate_shares(
            c.gates[k],
            wires,
            seeds,
            circuit::count_nonlinear(c.gates, k as nat),
            Seq::empty(),
            0,
        ),
{
    let gate = c.gates[k];
    let n = seeds.len();
    let idx = circuit::count_nonlinear(c.gates, k as nat);
    let target = wires[c.num_inputs + k];
    let made = mpc::gate_shares(gate, wires, seeds, idx, Seq::empty(), 0);
    assert(gate.target() == c.num_inputs + k && gate.reads_below(c.num_inputs + k));
    assert(target.len() == n);
    assert(made.len() == n) by {
        match gate {
            Gate::Add { left, right, .. } => {
                assert(wires[left as int].len() == n);
            },
            Gate::Mul { left, right, .. } => {
                assert(wires[left as int].len() == n);
            },
            Gate::Xor { .. } => {},
            Gate::AddConst { input, .. } => {
                assert(wires[input as int].len() == n);
            },
            Gate::MulConst { input, .. } => {
                assert(wires[input as int].len() == n);
            },
            Gate::AssertEq { input, .. } => {
                assert(wires[input as int].len() == n);
            },
        }
    }
    assert forall|q: int| 0 <= q < n implies #[trigger] target[q] == made[q] by {
        let own = sharing::column(wires, q);
        let right = mpc::right_column(wires, q);
        let next = seeds[(q + 1) % (n as int)];
        assert(mpc::view_consistent(c.gates, own, q, seeds[q], Some((next, right))));
        assert(mpc::gate_consistent(gate, own, q, seeds[q], Some((next, right)), idx));
        assert(own[c.num_inputs + k] == target[q]);
        if let Gate::Mul { left, right: other, .. } = gate {
            lemma_mod_bound(q + 1, n as int);
            let words = mpc::zero_words(seeds, idx);
            assert(words[(q + 1) % (n as int)] == mpc::zero_word(next, idx));
        }
    }
    assert(target =~= made);
}

/// Every assertion is in the list of assertions.
proof fn lemma_listed(gates: Seq<Gate>, k: nat, n: nat) -> (g: int)
    requires
        k < n <= gates.len(),
        gates[k as int] is AssertEq,
    ensures
        0 <= g < circuit::assert_list(gates, n).len(),
        match gates[k as int] {
            Gate::AssertEq { input, expected, .. } => circuit::assert_list(gates, n)[g] == (
                input,
                expected,
            ),
            _ => true,
        },
    decreases n,
{
    let before = circuit::assert_list(gates, (n - 1) as nat);
    if k == n - 1 {
        before.len() as int
    } else {
        let g = lemma_listed(gates, k, (n - 1) as nat);
        assert(circuit::assert_list(gates, n)[g] == before[g]);
        g
    }
}

/// If the sums of the shares have the asserted values, the assertions hold.
proof fn lemma_asserts_from_sums(
    c: CircuitModel,
    wires: Seq<Seq<u32>>,
    witness: Seq<u32>,
    m: nat,
)
    requires
        c.sequential(),
        witness.len() == c.num_inputs,
        m <= c.gates.len(),
        forall|g: int|
            0 <= g < c.assertions().len() ==> ring::wrap(
                ring::total(wires[(#[trigger] c.assertions()[g]).0 as int]),
            ) == c.assertions()[g].1,
        forall|k: nat, w: int|
            #![trigger circuit::wire_values(c.gates, k, witness)[w]]
            k <= c.gates.len() && 0 <= w < c.num_inputs + k ==> circuit::wire_values(
                c.gates,
                k,
                witness,
            )[w] == ring::wrap(ring::total(wires[w])),
    ensures
        circuit::asserts_hold(c.gates, m, witness),
    decreases m,
{
    if m > 0 {
        let k = (m - 1) as nat;
        lemma_asserts_from_sums(c, wires, witness, k);
        let gate = c.gates[k as int];
        assert(gate.reads_below(c.num_inputs + k as int));
        if let Gate::AssertEq { input, expected, .. } = gate {
            let g = lemma_listed(c.gates, k, c.gates.len());
            assert(c.assertions()[g] == (input, expected));
            assert(circuit::wire_values(c.gates, k, witness)[input as int] == ring::wrap(
                ring::total(wires[input as int]),
            ));
        }
    }
}

/// What the answer that hides the party before `q` says of `q`.
proof fn lemma_party(
    proofs: Seq<ProofModel>,
    c: CircuitModel,
    n: nat,
    rep: nat,
    q: int,
)
    requires
        c.sequential(),
        n >= 3,
        answers(proofs, c, n, rep),
        agree(proofs, c, n, rep),
        0 <= q < n,
    ensures
        ({
            let wires = opened_table(proofs, c, n, rep);
            let seeds = opened_seed_list(proofs, n, rep);
            let own = sharing::column(wires, q);
            let message = proofs[0].repetitions[rep as int].message;
            &&& own == opened_by(proofs, c, n, rep, before(q, n), q)
            &&& mpc::view_consistent(
                c.gates,
                own,
                q,
                seeds[q],
                Some((seeds[(q + 1) % (n as int)], mpc::right_column(wires, q))),
            )
            &&& forall|g: int|
                0 <= g < c.assertions().len() ==> message.assert_shares[g][q] == own[(
                #[trigger] c.assertions()[g]).0 as int]
            &&& forall|k: int|
                0 <= k < c.gates.len() ==> match #[trigger] c.gates[k] {
                    Gate::AssertEq { input, .. } => own[c.num_inputs + k] == own[input as int],
                    _ => true,
                }
        }),
{
    let wires = opened_table(proofs, c, n, rep);
    let seeds = opened_seed_list(proofs, n, rep);
    let own = sharing::column(wires, q);
    let h = before(q, n);
    let p = proofs[h];
    let r = p.repetitions[rep as int];
    let views = r.opened_views;
    let shown = opened_by(proofs, c, n, rep, h, q);
    validation::lemma_repetition_shape(p, n, rep as int);
    assert(protocol::opened_before(views, views.len() as int, q as nat));
    let i = choose|i: int| 0 <= i < views.len() && (#[trigger] views[i]).view.party_idx == q as nat;
    checks::lemma_none_fails(protocol::opened_checks(c, r, n, rep), 0, views.len(), i);
    assert(protocol::opened_failure(c, r, n, rep, i) is None);
    let v = views[protocol::position_of(views, q as nat, 0) as int].view;
    lemma_assert_copies(
        c,
        protocol::opened_seeds(r, n)[q],
        q,
        n as int,
        v.mul_output_shares,
        v.residual_input_shares,
    );
    assert(own =~= shown);
    // the right of the party
    let next = (q + 1) % (n as int);
    lemma_mod_bound(q + 1, n as int);
    lemma_around(q, n);
    assert(same_opening(proofs, c, n, rep, h, before(next, n), next));
    let visible = protocol::opened_wires(c, r, n);
    assert forall|w: int| 0 <= w < c.num_wires implies #[trigger] product::right_share(
        visible[w],
        q,
    ) == product::right_share(wires[w], q) by {
        assert forall|o: int|
            0 <= o < n && product::on_right(q, o, n as int) implies visible[w][o]
            == wires[w][o] by {
            assert(o != h);
            assert(same_opening(proofs, c, n, rep, h, before(o, n), o));
        }
        completeness::lemma_right_share(visible[w], wires[w], q);
    }
    assert(mpc::right_column(visible, q) =~= mpc::right_column(wires, q));
    // the public shares
    let f = protocol::assert_share_checks(c, r, rep, q as nat, shown);
    assert forall|g: int| 0 <= g < c.assertions().len() implies r.message.assert_shares[g][q]
        == own[(#[trigger] c.assertions()[g]).0 as int] by {
        checks::lemma_none_fails(f, 0, c.assertions().len(), g);
    }
}

/// Around a table of three or more, the party before is neither the next one nor on the right.
proof fn lemma_around(q: int, n: nat)
    requires
        n >= 3,
        0 <= q < n,
    ensures
        !product::on_right(q, before(q, n), n as int),
        before(q, n) != (q + 1) % (n as int),
        before((q + 1) % (n as int), n) == q,
        0 <= before(q, n) < n,
        before(q, n) != q,
{
    if q + 1 < n {
        lemma_small_mod((q + 1) as nat, n);
    } else {
        lemma_mod_self_0(n as int);
    }
    if q == 0 {
        lemma_small_mod((n - 1) as nat, n);
    } else {
        lemma_mod_add_multiples_vanish(-1, n as int);
        lemma_small_mod((n - 1) as nat, n);
        assert((before(q, n) - q) % (n as int) == n - 1);
    }
}

/// The shares that all answers open of the asserted wires add up to the asserted values.
proof fn lemma_asserted_sums(
    proofs: Seq<ProofModel>,
    c: CircuitModel,
    n: nat,
    rep: nat,
    g: int,
)
    requires
        c.sequential(),
        n >= 3,
        answers(proofs, c, n, rep),
        agree(proofs, c, n, rep),
        0 <= g < c.assertions().len(),
    ensures
        ring::wrap(
            ring::total(opened_table(proofs, c, n, rep)[c.assertions()[g].0 as int]),
        ) == c.assertions()[g].1,
{
    let wires = opened_table(proofs, c, n, rep);
    let p = proofs[0];
    let r = p.repetitions[rep as int];
    let wire = c.assertions()[g].0 as int;
    let row = r.message.assert_shares[g];
    verification::lemma_asserted_wires_of(c);
    validation::lemma_repetition_shape(p, n, rep as int);
    assert(row.len() == n);
    assert forall|q: int| 0 <= q < n implies row[q] == wires[wire][q] by {
        lemma_party(proofs, c, n, rep, q);
        assert(sharing::column(wires, q)[wire] == wires[wire][q]);
    }
    assert(row =~= wires[wire]);
    checks::lemma_none_fails(
        protocol::assert_sum_checks(c, r, rep),
        0,
        c.assertions().len(),
        g,
    );
    assert(protocol::assert_sum_failure(c, r, rep, g) is None);
}

/// In the shares that all answers open, an assertion writes the shares that it reads.
proof fn lemma_opened_copies(
    proofs: Seq<ProofModel>,
    c: CircuitModel,
    n: nat,
    rep: nat,
    k: int,
)
    requires
        c.sequential(),
        n >= 3,
        answers(proofs, c, n, rep),
        agree(proofs, c, n, rep),
        0 <= k < c.gates.len(),
    ensures
        match c.gates[k] {
            Gate::AssertEq { input, .. } => opened_table(proofs, c, n, rep)[c.num_inputs + k]
                == opened_table(proofs, c, n, rep)[input as int],
            _ => true,
        },
{
    let wires = opened_table(proofs, c, n, rep);
    if let Gate::AssertEq { input, .. } = c.gates[k] {
        let a = wires[c.num_inputs + k];
        let b = wires[input as int];
        assert(c.gates[k].reads_below(c.num_inputs + k));
        assert forall|q: int| 0 <= q < n implies a[q] == b[q] by {
            lemma_party(proofs, c, n, rep, q);
            let own = sharing::column(wires, q);
            assert(own[c.num_inputs + k] == own[input as int]);
        }
        assert(a =~= b);
    }
}

/// The values of the wires for the extracted witness are the sums of the opened shares.
proof fn lemma_extracted_values(
    proofs: Seq<ProofModel>,
    c: CircuitModel,
    n: nat,
    rep: nat,
    k: nat,
)
    requires
        c.sequential(),
        c.xor_free(),
        n >= 3,
        answers(proofs, c, n, rep),
        agree(proofs, c, n, rep),
        k <= c.gates.len(),
    ensures
        forall|w: int|
            0 <= w < c.num_inputs + k ==> #[trigger] circuit::wire_values(
                c.gates,
                k,
                extracted(proofs, c, n, rep),
            )[w] == ring::wrap(ring::total(opened_table(proofs, c, n, rep)[w])),
{
    let wires = opened_table(proofs, c, n, rep);
    let seeds = opened_seed_list(proofs, n, rep);
    assert forall|q: int| #![trigger seeds[q]] 0 <= q < n implies mpc::view_consistent(
        c.gates,
        sharing::column(wires, q),
        q,
        seeds[q],
        Some((seeds[(q + 1) % (n as int)], mpc::right_column(wires, q))),
    ) by {
        lemma_party(proofs, c, n, rep, q);
    }
    assert forall|k: int| 0 <= k < c.gates.len() implies match #[trigger] c.gates[k] {
        Gate::AssertEq { input, .. } => wires[c.num_inputs + k] == wires[input as int],
        _ => true,
    } by {
        lemma_opened_copies(proofs, c, n, rep, k);
    }
    lemma_consistent_values(c, wires, seeds, k);
    assert(extracted(proofs, c, n, rep) =~= Seq::new(
        c.num_inputs,
        |i: int| ring::wrap(ring::total(wires[i])),
    ));
}

/// If a prover can answer whichever party is hidden, having said the same before, and what it opens
/// of each party is always the same, then the shares that it opens add up to a witness that the
/// circuit accepts.
pub proof fn lemma_extraction(proofs: Seq<ProofModel>, c: CircuitModel, n: nat, rep: nat)
    requires
        c.sequential(),
        c.xor_free(),
        n >= 3,
        answers(proofs, c, n, rep),
        agree(proofs, c, n, rep),
    ensures
        c.accepts(extracted(proofs, c, n, rep)),
{
    let wires = opened_table(proofs, c, n, rep);
    let witness = extracted(proofs, c, n, rep);
    assert forall|g: int| 0 <= g < c.assertions().len() implies ring::wrap(
        ring::total(wires[(#[trigger] c.assertions()[g]).0 as int]),
    ) == c.assertions()[g].1 by {
        lemma_asserted_sums(proofs, c, n, rep, g);
    }
    assert forall|k: nat, w: int|
        #![trigger circuit::wire_values(c.gates, k, witness)[w]]
        k <= c.gates.len() && 0 <= w < c.num_inputs + k implies circuit::wire_values(
        c.gates,
        k,
        witness,
    )[w] == ring::wrap(ring::total(wires[w])) by {
        lemma_extracted_values(proofs, c, n, rep, k);
    }
    lemma_asserts_from_sums(c, wires, witness, c.gates.len());
    circuit::lemma_accepts(c, witness);
}

/// The view of party `q` that a repetition opens.
pub open spec fn view_of(r: RepetitionModel, q: nat) -> OpenedModel {
    r.opened_views[protocol::position_of(r.opened_views, q, 0) as int]
}

/// The bytes that the commitment to party `q` is made from, as they are opened.
pub open spec fn committed_bytes(r: RepetitionModel, n: nat, rep: nat, q: nat) -> Seq<u8> {
    let v = view_of(r, q);
    let seed = protocol::opened_seeds(r, n)[q as int];
    commitment::view_domain(rep, q) + v.randomness + (seed + v.view.committed(seed))
}

/// The commitment to party `q`, as it is opened.
pub open spec fn leaf_of(r: RepetitionModel, n: nat, rep: nat, q: nat) -> Seq<u8> {
    hash::blake3_derived_key("mpcith-zk commitment v1"@, committed_bytes(r, n, rep, q))
}

/// While party `q` is checked in two repetitions, two different byte strings are hashed to the same
/// BLAKE3 key or digest: for its commitments, or at the same level on the ways to the roots.
pub open spec fn openings_collide(
    a: RepetitionModel,
    b: RepetitionModel,
    n: nat,
    rep: nat,
    q: nat,
) -> bool {
    ||| commitment::keys_collide(committed_bytes(a, n, rep, q), committed_bytes(b, n, rep, q))
    ||| exists|level: nat|
        level < tree::tree_depth(n) && #[trigger] commit_merkle::paths_collide(
            leaf_of(a, n, rep, q),
            view_of(a, q).auth_path,
            leaf_of(b, n, rep, q),
            view_of(b, q).auth_path,
            q,
            level,
        )
}

/// Two of the proofs collide at a party that both open.
pub open spec fn collision(proofs: Seq<ProofModel>, n: nat, rep: nat) -> bool {
    exists|h: int, k: int, q: int|
        0 <= h < n && 0 <= k < n && 0 <= q < n && q != h && q != k && #[trigger] openings_collide(
            proofs[h].repetitions[rep as int],
            proofs[k].repetitions[rep as int],
            n,
            rep,
            q as nat,
        )
}

/// The siblings and the randomness in repetition `rep` of all proofs are blocks of 32 bytes.
pub open spec fn all_whole(proofs: Seq<ProofModel>, rep: nat) -> bool {
    forall|h: int|
        0 <= h < proofs.len() ==> protocol::whole_blocks(
            (#[trigger] proofs[h]).repetitions[rep as int],
        )
}

/// What an accepted repetition opens of a party leads to the root.
proof fn lemma_under_root(p: ProofModel, n: nat, rep: nat, q: nat)
    requires
        rep < p.repetitions.len(),
        protocol::rep_shape_failure(p, n, rep) is None,
        protocol::opened_then_sums(p, n, rep) is None,
        protocol::whole_blocks(p.repetitions[rep as int]),
        q < n,
        q != p.repetitions[rep as int].hidden_party,
    ensures
        ({
            let r = p.repetitions[rep as int];
            let v = view_of(r, q);
            &&& v.auth_path.len() == tree::tree_depth(n)
            &&& v.randomness.len() == 32
            &&& forall|k: int| 0 <= k < v.auth_path.len() ==> (#[trigger] v.auth_path[k]).len() == 32
            &&& v.view.mul_output_shares.len() == circuit::count_mul(
                p.circuit.gates,
                p.circuit.gates.len(),
            )
            &&& v.view.residual_input_shares.len() == if q == n - 1 {
                p.circuit.num_inputs
            } else {
                0
            }
            &&& tree::fold(
                leaf_of(r, n, rep, q),
                q,
                v.auth_path,
                tree::tree_depth(n),
                commit_merkle::combine(),
            ) == r.message.commitment_root
        }),
{
    let r = p.repetitions[rep as int];
    let views = r.opened_views;
    validation::lemma_repetition_shape(p, n, rep as int);
    assert(protocol::opened_before(views, views.len() as int, q));
    let i = choose|i: int| 0 <= i < views.len() && (#[trigger] views[i]).view.party_idx == q;
    verification::lemma_position(views, i, 0);
    checks::lemma_none_fails(protocol::opened_checks(p.circuit, r, n, rep), 0, views.len(), i);
    assert(protocol::opened_failure(p.circuit, r, n, rep, i) is None);
    assert(views[i] == view_of(r, q));
}

/// The bytes of a seed, twice, and of two lists of words tell the seed and the words, if the lengths
/// of the lists are known.
proof fn lemma_view_bytes(
    seed: Seq<u8>,
    v: ViewModel,
    other_seed: Seq<u8>,
    w: ViewModel,
)
    requires
        v.mul_output_shares.len() == w.mul_output_shares.len(),
        v.residual_input_shares.len() == w.residual_input_shares.len(),
        seed + v.committed(seed) == other_seed + w.committed(other_seed),
    ensures
        seed == other_seed,
        v.mul_output_shares == w.mul_output_shares,
        v.residual_input_shares == w.residual_input_shares,
{
    let muls = v.mul_output_shares.len();
    let rest = v.residual_input_shares.len();
    encoding::lemma_words_len(v.mul_output_shares, muls);
    encoding::lemma_words_len(w.mul_output_shares, muls);
    encoding::lemma_words_len(v.residual_input_shares, rest);
    encoding::lemma_words_len(w.residual_input_shares, rest);
    let a = seed + v.committed(seed);
    let b = other_seed + w.committed(other_seed);
    assert(a.len() == 2 * seed.len() + 4 * muls + 4 * rest);
    assert(b.len() == 2 * other_seed.len() + 4 * muls + 4 * rest);
    let s = seed.len() as int;
    let m = 2 * s + 4 * muls;
    assert(seed =~= a.subrange(0, s));
    assert(other_seed =~= b.subrange(0, s));
    assert(encoding::words(v.mul_output_shares, muls) =~= a.subrange(2 * s, m));
    assert(encoding::words(w.mul_output_shares, muls) =~= b.subrange(2 * s, m));
    assert(encoding::words(v.residual_input_shares, rest) =~= a.subrange(m, a.len() as int));
    assert(encoding::words(w.residual_input_shares, rest) =~= b.subrange(m, b.len() as int));
    encoding::lemma_same_words(v.mul_output_shares, w.mul_output_shares);
    encoding::lemma_same_words(v.residual_input_shares, w.residual_input_shares);
}

/// What two answers open of a party is the same, or they collide there.
proof fn lemma_openings_bind(
    proofs: Seq<ProofModel>,
    c: CircuitModel,
    n: nat,
    rep: nat,
    h: int,
    k: int,
    q: int,
)
    requires
        answers(proofs, c, n, rep),
        all_whole(proofs, rep),
        0 <= h < n,
        0 <= k < n,
        0 <= q < n,
        q != h,
        q != k,
    ensures
        same_opening(proofs, c, n, rep, h, k, q) || openings_collide(
            proofs[h].repetitions[rep as int],
            proofs[k].repetitions[rep as int],
            n,
            rep,
            q as nat,
        ),
{
    let a = proofs[h].repetitions[rep as int];
    let b = proofs[k].repetitions[rep as int];
    let p = q as nat;
    lemma_under_root(proofs[h], n, rep, p);
    lemma_under_root(proofs[k], n, rep, p);
    let v = view_of(a, p);
    let w = view_of(b, p);
    let x = leaf_of(a, n, rep, p);
    let y = leaf_of(b, n, rep, p);
    commit_merkle::lemma_paths_bind(x, v.auth_path, y, w.auth_path, p, tree::tree_depth(n));
    if x == y {
        let s = protocol::opened_seeds(a, n)[q];
        let t = protocol::opened_seeds(b, n)[q];
        commitment::lemma_commitments_bind(
            commitment::view_domain(rep, p),
            v.randomness,
            s + v.view.committed(s),
            w.randomness,
            t + w.view.committed(t),
            x,
        );
        if !openings_collide(a, b, n, rep, p) {
            lemma_view_bytes(s, v.view, t, w.view);
        }
    }
}

/// The commitments bind the prover: if it can answer whichever party is hidden, what it opens of each
/// party is always the same, or two of its answers show a BLAKE3 collision.
pub proof fn lemma_answers_agree(proofs: Seq<ProofModel>, c: CircuitModel, n: nat, rep: nat)
    requires
        answers(proofs, c, n, rep),
        all_whole(proofs, rep),
    ensures
        agree(proofs, c, n, rep) || collision(proofs, n, rep),
{
    if !collision(proofs, n, rep) {
        assert forall|h: int, k: int, q: int|
            0 <= h < n && 0 <= k < n && 0 <= q < n && q != h && q != k implies #[trigger]
        same_opening(proofs, c, n, rep, h, k, q) by {
            lemma_openings_bind(proofs, c, n, rep, h, k, q);
        }
    }
}

/// Soundness: if a prover can answer whichever party is hidden, having said the same before, then the
/// shares that it opens add up to a witness that the circuit accepts, or two of its answers show a
/// BLAKE3 collision. A prover with neither is therefore refused for at least one choice of the
/// hidden party.
pub proof fn lemma_soundness(proofs: Seq<ProofModel>, c: CircuitModel, n: nat, rep: nat)
    requires
        c.sequential(),
        c.xor_free(),
        n >= 3,
        answers(proofs, c, n, rep),
        all_whole(proofs, rep),
    ensures
        c.accepts(extracted(proofs, c, n, rep)) || collision(proofs, n, rep),
{
    lemma_answers_agree(proofs, c, n, rep);
    if agree(proofs, c, n, rep) {
        lemma_extraction(proofs, c, n, rep);
    }
}

/// Soundness for a predicate: a prover that can answer whichever party is hidden knows a witness
/// that the predicate accepts, or shows a BLAKE3 collision.
pub proof fn lemma_predicate_soundness(
    proofs: Seq<ProofModel>,
    predicate: PredicateModel,
    n: nat,
    rep: nat,
)
    requires
        predicate.failure() is None,
        n >= 3,
        answers(proofs, predicate.compiled().circuit, n, rep),
        all_whole(proofs, rep),
    ensures
        predicate.accepted(extracted(proofs, predicate.compiled().circuit, n, rep)) || collision(
            proofs,
            n,
            rep,
        ),
{
    let c = predicate.compiled().circuit;
    predicate::lemma_predicate_circuit(predicate, extracted(proofs, c, n, rep));
    lemma_soundness(proofs, c, n, rep);
}

/// Soundness for a compound predicate: a prover that can answer whichever party is hidden knows a
/// witness that the predicate accepts, or shows a BLAKE3 collision.
pub proof fn lemma_compound_soundness(
    proofs: Seq<ProofModel>,
    predicate: CompoundModel,
    n: nat,
    rep: nat,
)
    requires
        predicate.failure() is None,
        predicate.fits(),
        n >= 3,
        answers(proofs, predicate.compiled().circuit, n, rep),
        all_whole(proofs, rep),
    ensures
        predicate.accepted(extracted(proofs, predicate.compiled().circuit, n, rep)) || collision(
            proofs,
            n,
            rep,
        ),
{
    let c = predicate.compiled().circuit;
    predicate::lemma_compound_circuit(predicate, extracted(proofs, c, n, rep));
    lemma_soundness(proofs, c, n, rep);
}

/// Proofs of an honest prover that say the same and of which each hides another party in
/// repetition `rep`.
pub open spec fn honest_family(
    proofs: Seq<ProofModel>,
    c: CircuitModel,
    witness: Seq<u32>,
    rnd: RandomnessModel,
    n: nat,
    rep: nat,
) -> bool {
    &&& proofs.len() == n
    &&& forall|h: int|
        0 <= h < n ==> {
            let p = #[trigger] proofs[h];
            &&& p.circuit == c
            &&& p.expected_outputs == c.trace(witness).subrange(
                c.output_start(),
                c.num_wires as int,
            )
            &&& rep < p.repetitions.len()
            &&& p.repetitions[rep as int] == protocol::honest_repetition(
                c,
                witness,
                rnd,
                n,
                rep as int,
                h as nat,
            )
        }
}

proof fn lemma_honest_agree(
    proofs: Seq<ProofModel>,
    c: CircuitModel,
    witness: Seq<u32>,
    rnd: RandomnessModel,
    n: nat,
    rep: nat,
)
    requires
        completeness::provable(c),
        witness.len() == c.num_inputs,
        n >= 3,
        honest_family(proofs, c, witness, rnd, n, rep),
    ensures
        agree(proofs, c, n, rep),
{
    assert forall|h: int, k: int, q: int|
        0 <= h < n && 0 <= k < n && 0 <= q < n && q != h && q != k implies #[trigger] same_opening(
        proofs,
        c,
        n,
        rep,
        h,
        k,
        q,
    ) by {
        assert(proofs[h].circuit == c && proofs[k].circuit == c);
        completeness::lemma_honest_opened(c, witness, rnd, n, rep as int, h as nat, q);
        completeness::lemma_honest_opened(c, witness, rnd, n, rep as int, k as nat, q);
    }
}

/// An honest prover with a witness can answer whichever party is hidden, and always opens the same
/// of each party.
pub proof fn lemma_honest_answers(
    proofs: Seq<ProofModel>,
    c: CircuitModel,
    witness: Seq<u32>,
    rnd: RandomnessModel,
    n: nat,
    rep: nat,
)
    requires
        completeness::provable(c),
        c.accepts(witness),
        n >= 3,
        honest_family(proofs, c, witness, rnd, n, rep),
    ensures
        answers(proofs, c, n, rep),
        agree(proofs, c, n, rep),
{
    lemma_honest_agree(proofs, c, witness, rnd, n, rep);
    let message = protocol::honest_message(c, witness, rnd, n, rep as int);
    assert(proofs[0].repetitions[rep as int].message == message);
    assert forall|h: int| 0 <= h < n implies {
        let p = #[trigger] proofs[h];
        &&& p.circuit == c
        &&& rep < p.repetitions.len()
        &&& p.repetitions[rep as int].hidden_party == h
        &&& p.repetitions[rep as int].message == proofs[0].repetitions[rep as int].message
        &&& protocol::rep_shape_failure(p, n, rep) is None
        &&& protocol::opened_then_sums(p, n, rep) is None
    } by {
        let p = proofs[h];
        completeness::lemma_honest_shape(p, c, witness, rnd, n, rep as int, h as nat);
        completeness::lemma_honest_contents(p, c, witness, rnd, n, rep as int, h as nat);
    }
}

} // verus!
