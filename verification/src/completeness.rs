//! Completeness: what an honest prover makes is accepted.

use crate::checks;
use crate::circuit;
use crate::circuit::CircuitModel;
use crate::commit_merkle;
use crate::encoding;
use crate::fiat_shamir;
use crate::mpc;
use crate::params;
use crate::params::ProofParams;
use crate::predicate;
use crate::predicate::CompoundModel;
use crate::predicate::PredicateModel;
use crate::product;
use crate::proofs;
use crate::protocol;
use crate::protocol::MAX_PROOF_CIRCUIT_WIRES;
use crate::protocol::ProofModel;
use crate::protocol::RandomnessModel;
use crate::ring;
use crate::seed_tree;
use crate::sharing;
use crate::tree;
use crate::variants;
use crate::verification;
use vstd::prelude::*;

verus! {

/// A circuit that a prover can work on and a verifier looks at.
pub open spec fn provable(c: CircuitModel) -> bool {
    &&& c.sequential()
    &&& c.xor_free()
    &&& 1 <= c.num_wires <= MAX_PROOF_CIRCUIT_WIRES
    &&& c.num_outputs <= c.num_wires
}

/// The shares of every wire have one entry per party and add up to the value of the wire.
proof fn lemma_wires(
    c: CircuitModel,
    witness: Seq<u32>,
    rnd: RandomnessModel,
    n: nat,
    rep: int,
)
    requires
        c.sequential(),
        c.xor_free(),
        witness.len() == c.num_inputs,
        n >= 2,
    ensures
        ({
            let wires = protocol::honest_wires(c, witness, rnd, n, rep);
            &&& wires.len() == c.num_wires
            &&& forall|w: int|
                0 <= w < wires.len() ==> (#[trigger] wires[w]).len() == n && ring::wrap(
                    ring::total(wires[w]),
                ) == c.trace(witness)[w]
        }),
        circuit::count_xor(c.gates, c.gates.len()) == 0,
        protocol::honest_seeds(rnd, n, rep).len() == n,
{
    let seeds = protocol::honest_seeds(rnd, n, rep);
    verification::lemma_only_muls(c.gates, c.gates.len());
    assert(0 * (n - 1) == 0);
    mpc::lemma_shared(c, c.gates.len(), witness, seeds, Seq::empty());
    circuit::lemma_trace(c, witness);
}

/// An honest repetition has the right shape.
pub proof fn lemma_honest_shape(
    p: ProofModel,
    c: CircuitModel,
    witness: Seq<u32>,
    rnd: RandomnessModel,
    n: nat,
    rep: int,
    hidden: nat,
)
    requires
        provable(c),
        witness.len() == c.num_inputs,
        n >= 2,
        hidden < n,
        p.circuit == c,
        0 <= rep < p.repetitions.len(),
        p.repetitions[rep] == protocol::honest_repetition(c, witness, rnd, n, rep, hidden),
    ensures
        protocol::rep_shape_failure(p, n, rep as nat) is None,
{
    let r = p.repetitions[rep];
    let views = r.opened_views;
    let seeds = protocol::honest_seeds(rnd, n, rep);
    lemma_wires(c, witness, rnd, n, rep);
    verification::lemma_only_muls(c.gates, c.gates.len());
    let f = protocol::view_shape_checks(p, n, rep as nat);
    assert forall|i: int| 0 <= i < views.len() implies #[trigger] f(i) is None by {
        let q = protocol::nth_opened(hidden, i);
        assert(views[i] == protocol::honest_opened(c, witness, rnd, n, rep, q));
        assert(0 * (n - 1) == 0);
        mpc::lemma_recomputed_honest(c, witness, seeds, Seq::empty(), q);
        if protocol::opened_before(views, i, q as nat) {
            let j = choose|j: int|
                0 <= j < i && (#[trigger] views[j]).view.party_idx == q as nat;
            assert(views[j] == protocol::honest_opened(
                c,
                witness,
                rnd,
                n,
                rep,
                protocol::nth_opened(hidden, j),
            ));
            assert(false);
        }
    }
    checks::lemma_all_pass(f, 0, views.len());
    let g = protocol::missing_checks(p, rep as nat);
    assert forall|q: int| 0 <= q < n implies #[trigger] g(q) is None by {
        if q != hidden {
            let i = if q < hidden {
                q
            } else {
                q - 1
            };
            assert(protocol::nth_opened(hidden, i) == q);
            assert(views[i] == protocol::honest_opened(c, witness, rnd, n, rep, q));
            assert(views[i].view.party_idx == q as nat);
            assert(protocol::opened_before(views, views.len() as int, q as nat));
        }
    }
    checks::lemma_all_pass(g, 0, n);
    verification::lemma_asserted_wires_of(c);
    let wires = protocol::honest_wires(c, witness, rnd, n, rep);
    assert forall|g: int| 0 <= g < r.message.assert_shares.len() implies (
    #[trigger] r.message.assert_shares[g]).len() == n by {
        assert(r.message.assert_shares[g] == wires[c.assertions()[g].0 as int]);
    }
    assert forall|o: int| 0 <= o < r.message.output_shares.len() implies (
    #[trigger] r.message.output_shares[o]).len() == n by {
        assert(r.message.output_shares[o] == wires[c.output_start() + o]);
    }
}

/// What a verifier learns of the opened parties of an honest repetition is what they computed.
pub proof fn lemma_honest_opened(
    c: CircuitModel,
    witness: Seq<u32>,
    rnd: RandomnessModel,
    n: nat,
    rep: int,
    hidden: nat,
    q: int,
)
    requires
        provable(c),
        witness.len() == c.num_inputs,
        n >= 2,
        hidden < n,
        0 <= q < n,
        q != hidden,
    ensures
        ({
            let r = protocol::honest_repetition(c, witness, rnd, n, rep, hidden);
            &&& protocol::opened_seeds(r, n)[q] == protocol::honest_seeds(rnd, n, rep)[q]
            &&& protocol::opened_shares(c, r, n, q as nat) == sharing::column(
                protocol::honest_wires(c, witness, rnd, n, rep),
                q,
            )
        }),
{
    let r = protocol::honest_repetition(c, witness, rnd, n, rep, hidden);
    let views = r.opened_views;
    let seeds = protocol::honest_seeds(rnd, n, rep);
    lemma_wires(c, witness, rnd, n, rep);
    seed_tree::lemma_co_path_round_trip(rnd.root_seeds[rep], n, hidden);
    let i = if q < hidden {
        q
    } else {
        q - 1
    };
    assert(protocol::nth_opened(hidden, i) == q);
    assert(views[i] == protocol::honest_opened(c, witness, rnd, n, rep, q));
    assert forall|j: int, k: int| 0 <= j < k < views.len() implies (
    #[trigger] views[j]).view.party_idx != (#[trigger] views[k]).view.party_idx by {
        assert(views[j].view.party_idx == protocol::nth_opened(hidden, j));
        assert(views[k].view.party_idx == protocol::nth_opened(hidden, k));
    }
    verification::lemma_position(views, i, 0);
    assert(0 * (n - 1) == 0);
    mpc::lemma_recomputed_honest(c, witness, seeds, Seq::empty(), q);
}

/// An honest repetition opens every party but the hidden one, and its co-path gives no seed for the
/// hidden one.
pub proof fn lemma_hidden_stays_hidden(
    c: CircuitModel,
    witness: Seq<u32>,
    rnd: RandomnessModel,
    n: nat,
    rep: int,
    hidden: nat,
)
    requires
        hidden < n,
    ensures
        ({
            let r = protocol::honest_repetition(c, witness, rnd, n, rep, hidden);
            &&& r.opened_views.len() == n - 1
            &&& forall|i: int|
                0 <= i < r.opened_views.len() ==> (#[trigger] r.opened_views[i]).view.party_idx
                    != hidden
            &&& protocol::opened_seeds(r, n)[hidden as int] == encoding::zero_block()
        }),
{
    seed_tree::lemma_co_path_round_trip(rnd.root_seeds[rep], n, hidden);
}

/// The sums over the right of a party only need the shares of the parties there.
pub proof fn lemma_right_share(x: Seq<u32>, y: Seq<u32>, p: int)
    requires
        x.len() == y.len(),
        forall|q: int|
            0 <= q < x.len() && product::on_right(p, q, x.len() as int) ==> x[q] == y[q],
    ensures
        product::right_share(x, p) == product::right_share(y, p),
{
    let n = x.len();
    ring::lemma_sigma_ext(
        n,
        |q: int|
            if product::on_right(p, q, n as int) {
                x[q] as int
            } else {
                0
            },
        |q: int|
            if product::on_right(p, q, n as int) {
                y[q] as int
            } else {
                0
            },
    );
}

/// The opened views of an honest repetition are accepted.
proof fn lemma_honest_views(
    c: CircuitModel,
    witness: Seq<u32>,
    rnd: RandomnessModel,
    n: nat,
    rep: int,
    hidden: nat,
    i: int,
)
    requires
        provable(c),
        witness.len() == c.num_inputs,
        n >= 3,
        hidden < n,
        0 <= rep,
        0 <= i < n - 1,
    ensures
        protocol::opened_failure(
            c,
            protocol::honest_repetition(c, witness, rnd, n, rep, hidden),
            n,
            rep as nat,
            i,
        ) is None,
{
    let r = protocol::honest_repetition(c, witness, rnd, n, rep, hidden);
    let q = protocol::nth_opened(hidden, i);
    let seeds = protocol::honest_seeds(rnd, n, rep);
    let wires = protocol::honest_wires(c, witness, rnd, n, rep);
    let own = sharing::column(wires, q);
    let leaves = protocol::honest_leaves(c, witness, rnd, n, rep);
    let full = tree::padded(leaves, encoding::zero_block());
    let depth = tree::tree_depth(n);
    lemma_wires(c, witness, rnd, n, rep);
    lemma_honest_opened(c, witness, rnd, n, rep, hidden, q);
    assert(r.opened_views[i] == protocol::honest_opened(c, witness, rnd, n, rep, q));
    // the commitment
    tree::lemma_tree_depth(n);
    tree::lemma_fold_path(full, depth, q as nat, commit_merkle::combine());
    assert(full[q] == leaves[q]);
    // the shares
    assert(0 * (n - 1) == 0);
    mpc::lemma_honest_consistent(c, witness, seeds, Seq::empty(), q);
    if !product::on_right(q, hidden as int, n as int) {
        lemma_known_right(c, witness, rnd, n, rep, hidden, q);
    }
    // the public shares
    verification::lemma_asserted_wires_of(c);
    let f = protocol::assert_share_checks(c, r, rep as nat, q as nat, own);
    assert forall|g: int| 0 <= g < c.assertions().len() implies #[trigger] f(g) is None by {
        assert(r.message.assert_shares[g] == wires[c.assertions()[g].0 as int]);
    }
    checks::lemma_all_pass(f, 0, c.assertions().len());
    let h = protocol::output_share_checks(c, r, rep as nat, q as nat, own);
    assert forall|o: int| 0 <= o < c.num_outputs implies #[trigger] h(o) is None by {
        assert(r.message.output_shares[o] == wires[c.output_start() + o]);
    }
    checks::lemma_all_pass(h, 0, c.num_outputs);
}

/// What a verifier knows of the right of a party of an honest repetition.
proof fn lemma_known_right(
    c: CircuitModel,
    witness: Seq<u32>,
    rnd: RandomnessModel,
    n: nat,
    rep: int,
    hidden: nat,
    q: int,
)
    requires
        provable(c),
        witness.len() == c.num_inputs,
        n >= 3,
        hidden < n,
        0 <= q < n,
        q != hidden,
        !product::on_right(q, hidden as int, n as int),
    ensures
        protocol::known_right(
            c,
            protocol::honest_repetition(c, witness, rnd, n, rep, hidden),
            n,
            q as nat,
        ) == Some(
            (
                protocol::honest_seeds(rnd, n, rep)[(q + 1) % (n as int)],
                mpc::right_column(protocol::honest_wires(c, witness, rnd, n, rep), q),
            ),
        ),
{
    let r = protocol::honest_repetition(c, witness, rnd, n, rep, hidden);
    let wires = protocol::honest_wires(c, witness, rnd, n, rep);
    let shown = protocol::opened_wires(c, r, n);
    lemma_wires(c, witness, rnd, n, rep);
    let next = (q + 1) % (n as int);
    vstd::arithmetic::div_mod::lemma_mod_bound(q + 1, n as int);
    verification::lemma_next_on_right(q, n as int);
    lemma_honest_opened(c, witness, rnd, n, rep, hidden, next);
    assert forall|w: int| 0 <= w < c.num_wires implies #[trigger] product::right_share(shown[w], q)
        == product::right_share(wires[w], q) by {
        assert(wires[w].len() == n);
        assert forall|p: int|
            0 <= p < n && product::on_right(q, p, n as int) implies shown[w][p] == wires[w][p] by {
            lemma_honest_opened(c, witness, rnd, n, rep, hidden, p);
        }
        lemma_right_share(shown[w], wires[w], q);
    }
    assert(mpc::right_column(shown, q) =~= mpc::right_column(wires, q));
}

/// Where every assertion holds, the asserted wires have the asserted values.
proof fn lemma_asserted_values(c: CircuitModel, n: nat, witness: Seq<u32>)
    requires
        c.sequential(),
        witness.len() == c.num_inputs,
        n <= c.gates.len(),
        circuit::asserts_hold(c.gates, n, witness),
    ensures
        ({
            let values = circuit::wire_values(c.gates, n, witness);
            let list = circuit::assert_list(c.gates, n);
            &&& values.len() == c.num_inputs + n
            &&& forall|g: int|
                0 <= g < list.len() ==> (#[trigger] list[g]).0 < values.len()
                    && values[list[g].0 as int] == list[g].1
        }),
    decreases n,
{
    circuit::lemma_wire_values_len(c.gates, n, witness);
    if n > 0 {
        let m = (n - 1) as nat;
        lemma_asserted_values(c, m, witness);
        let before = circuit::wire_values(c.gates, m, witness);
        let values = circuit::wire_values(c.gates, n, witness);
        let gate = c.gates[n - 1];
        assert(gate.reads_below((c.num_inputs + m) as int));
        assert(values == before.push(gate.value(before)));
        assert(gate.holds(before));
        let list = circuit::assert_list(c.gates, n);
        let old_list = circuit::assert_list(c.gates, m);
        assert forall|g: int| 0 <= g < list.len() implies (#[trigger] list[g]).0 < values.len()
            && values[list[g].0 as int] == list[g].1 by {
            if g < old_list.len() {
                assert(list[g] == old_list[g]);
            }
        }
    }
}

/// The contents of an honest repetition are accepted.
pub proof fn lemma_honest_contents(
    p: ProofModel,
    c: CircuitModel,
    witness: Seq<u32>,
    rnd: RandomnessModel,
    n: nat,
    rep: int,
    hidden: nat,
)
    requires
        provable(c),
        c.accepts(witness),
        n >= 3,
        hidden < n,
        p.circuit == c,
        p.expected_outputs == c.trace(witness).subrange(c.output_start(), c.num_wires as int),
        0 <= rep < p.repetitions.len(),
        p.repetitions[rep] == protocol::honest_repetition(c, witness, rnd, n, rep, hidden),
    ensures
        protocol::opened_then_sums(p, n, rep as nat) is None,
{
    let r = p.repetitions[rep];
    let wires = protocol::honest_wires(c, witness, rnd, n, rep);
    let values = circuit::wire_values(c.gates, c.gates.len(), witness);
    lemma_wires(c, witness, rnd, n, rep);
    circuit::lemma_accepts(c, witness);
    circuit::lemma_trace(c, witness);
    lemma_asserted_values(c, c.gates.len(), witness);
    let f = protocol::opened_checks(c, r, n, rep as nat);
    assert forall|i: int| 0 <= i < r.opened_views.len() implies #[trigger] f(i) is None by {
        lemma_honest_views(c, witness, rnd, n, rep, hidden, i);
    }
    checks::lemma_all_pass(f, 0, r.opened_views.len());
    let g = protocol::assert_sum_checks(c, r, rep as nat);
    assert forall|k: int| 0 <= k < c.assertions().len() implies #[trigger] g(k) is None by {
        let wire = c.assertions()[k].0 as int;
        assert(r.message.assert_shares[k] == wires[wire]);
        assert(ring::wrap(ring::total(wires[wire])) == values[wire]);
    }
    checks::lemma_all_pass(g, 0, c.assertions().len());
    let h = protocol::output_sum_checks(p, rep as nat);
    assert forall|o: int| 0 <= o < c.num_outputs implies #[trigger] h(o) is None by {
        let wire = c.output_start() + o;
        assert(r.message.output_shares[o] == wires[wire]);
        assert(ring::wrap(ring::total(wires[wire])) == values[wire]);
        if circuit::asserted_output(c.gates, 0, wire as nat) is Some {
            circuit::lemma_asserted_value(c, 0, wire as nat, witness);
        }
    }
    checks::lemma_all_pass(h, 0, c.num_outputs);
}

/// What an honest proof publishes about whole wires is public anyway: where the circuit asserts its
/// outputs, they are the constants that it asserts, whatever the witness, and all rows of shares
/// that are published for all parties add up to such constants.
pub proof fn lemma_published_values(
    c: CircuitModel,
    witness: Seq<u32>,
    public_inputs: Seq<u32>,
    params: ProofParams,
    rnd: RandomnessModel,
)
    requires
        c.sequential(),
        c.xor_free(),
        c.num_outputs <= c.num_wires,
        variants::outputs_asserted(c),
        c.accepts(witness),
        params::params_failure(params) is None,
    ensures
        ({
            let p = protocol::honest_proof(c, witness, public_inputs, params, rnd);
            let asserted = |o: int|
                circuit::asserted_output(c.gates, 0, (c.output_start() + o) as nat);
            &&& p.expected_outputs.len() == c.num_outputs
            &&& forall|o: int|
                0 <= o < c.num_outputs ==> Some(#[trigger] p.expected_outputs[o]) == asserted(o)
            &&& forall|rep: int, o: int|
                0 <= rep < p.repetitions.len() && 0 <= o < c.num_outputs ==> Some(
                    ring::wrap(
                        ring::total(#[trigger] p.repetitions[rep].message.output_shares[o]),
                    ),
                ) == asserted(o)
            &&& forall|rep: int, g: int|
                0 <= rep < p.repetitions.len() && 0 <= g < c.assertions().len() ==> ring::wrap(
                    ring::total(#[trigger] p.repetitions[rep].message.assert_shares[g]),
                ) == c.assertions()[g].1
        }),
{
    let p = protocol::honest_proof(c, witness, public_inputs, params, rnd);
    let n = params.num_parties as nat;
    let values = circuit::wire_values(c.gates, c.gates.len(), witness);
    circuit::lemma_accepts(c, witness);
    circuit::lemma_trace(c, witness);
    circuit::lemma_wire_values_len(c.gates, c.gates.len(), witness);
    lemma_asserted_values(c, c.gates.len(), witness);
    let asserted = |o: int| circuit::asserted_output(c.gates, 0, (c.output_start() + o) as nat);
    assert forall|o: int| 0 <= o < c.num_outputs implies Some(#[trigger] p.expected_outputs[o])
        == asserted(o) && Some(values[c.output_start() + o]) == asserted(o) by {
        let wire = (c.output_start() + o) as nat;
        assert(circuit::asserted_output(c.gates, 0, wire) is Some);
        circuit::lemma_asserted_value(c, 0, wire, witness);
    }
    assert forall|rep: int, o: int|
        0 <= rep < p.repetitions.len() && 0 <= o < c.num_outputs implies Some(
        ring::wrap(ring::total(#[trigger] p.repetitions[rep].message.output_shares[o])),
    ) == asserted(o) by {
        let wires = protocol::honest_wires(c, witness, rnd, n, rep);
        let wire = c.output_start() + o;
        lemma_wires(c, witness, rnd, n, rep);
        assert(p.repetitions[rep].message.output_shares[o] == wires[wire]);
        assert(p.expected_outputs[o] == values[wire]);
    }
    assert forall|rep: int, g: int|
        0 <= rep < p.repetitions.len() && 0 <= g < c.assertions().len() implies ring::wrap(
        ring::total(#[trigger] p.repetitions[rep].message.assert_shares[g]),
    ) == c.assertions()[g].1 by {
        let wires = protocol::honest_wires(c, witness, rnd, n, rep);
        let wire = c.assertions()[g].0 as int;
        lemma_wires(c, witness, rnd, n, rep);
        assert(p.repetitions[rep].message.assert_shares[g] == wires[wire]);
    }
}

/// Completeness: whatever the random choices, a proof that an honest prover makes with a witness
/// that the circuit accepts is accepted.
pub proof fn lemma_completeness(
    c: CircuitModel,
    witness: Seq<u32>,
    public_inputs: Seq<u32>,
    params: ProofParams,
    rnd: RandomnessModel,
)
    requires
        provable(c),
        c.accepts(witness),
        params::params_failure(params) is None,
    ensures
        protocol::verification_failure(
            protocol::honest_proof(c, witness, public_inputs, params, rnd),
            public_inputs,
            params,
        ) is None,
{
    let p = protocol::honest_proof(c, witness, public_inputs, params, rnd);
    let n = params.num_parties as nat;
    let messages = protocol::honest_messages(c, witness, rnd, params);
    let hidden = protocol::hidden_parties(messages, public_inputs, p.circuit_hash, params);
    assert(protocol::messages_of(p.repetitions) =~= messages);
    fiat_shamir::lemma_challenges_in_range(
        protocol::transcript(messages, messages.len()),
        public_inputs,
        p.circuit_hash,
        params.num_repetitions as nat,
        n,
    );
    circuit::lemma_sequential_in_range(c);
    circuit::lemma_trace(c, witness);
    circuit::lemma_wire_values_len(c.gates, c.gates.len(), witness);
    // the shape
    assert(protocol::dimension_failure(p) is None);
    let f = protocol::gate_checks(c);
    assert forall|i: int| 0 <= i < c.gates.len() implies #[trigger] f(i) is None by {
        assert(c.gates[i].reads_below(c.num_wires as int));
    }
    checks::lemma_all_pass(f, 0, c.gates.len());
    let g = protocol::rep_shape_checks(p, n);
    assert forall|rep: int| 0 <= rep < p.repetitions.len() implies #[trigger] g(rep) is None by {
        assert(hidden[rep] < n);
        lemma_honest_shape(p, c, witness, rnd, n, rep, hidden[rep] as nat);
    }
    checks::lemma_all_pass(g, 0, p.repetitions.len());
    assert(protocol::shape_failure(p, n) is None);
    // the contents
    let h = protocol::rep_checks(p, public_inputs, params);
    assert forall|rep: int| 0 <= rep < p.repetitions.len() implies #[trigger] h(rep) is None by {
        assert(hidden[rep] < n);
        lemma_honest_contents(p, c, witness, rnd, n, rep, hidden[rep] as nat);
    }
    checks::lemma_all_pass(h, 0, p.repetitions.len());
}

/// A proof that an honest prover makes of a predicate is accepted as a proof of that predicate.
pub proof fn lemma_predicate_completeness(
    predicate: PredicateModel,
    witness: Seq<u32>,
    public_inputs: Seq<u32>,
    params: ProofParams,
    rnd: RandomnessModel,
)
    requires
        predicate.failure() is None,
        predicate.accepted(witness),
        params::params_failure(params) is None,
    ensures
        proofs::predicate_verification_failure(
            predicate,
            protocol::honest_proof(
                predicate.compiled().circuit,
                witness,
                public_inputs,
                params,
                rnd,
            ),
            public_inputs,
            params,
        ) is None,
{
    predicate::lemma_predicate_circuit(predicate, witness);
    lemma_completeness(predicate.compiled().circuit, witness, public_inputs, params, rnd);
}

/// A proof that an honest prover makes of a compound predicate is accepted as a proof of that
/// predicate, unless the circuit is larger than a verifier looks at.
pub proof fn lemma_compound_completeness(
    predicate: CompoundModel,
    witness: Seq<u32>,
    public_inputs: Seq<u32>,
    params: ProofParams,
    rnd: RandomnessModel,
)
    requires
        predicate.failure() is None,
        predicate.fits(),
        predicate.compiled().circuit.num_wires <= MAX_PROOF_CIRCUIT_WIRES,
        predicate.accepted(witness),
        params::params_failure(params) is None,
    ensures
        proofs::compound_verification_failure(
            predicate,
            protocol::honest_proof(
                predicate.compiled().circuit,
                witness,
                public_inputs,
                params,
                rnd,
            ),
            public_inputs,
            params,
        ) is None,
{
    predicate::lemma_compound_circuit(predicate, witness);
    lemma_completeness(predicate.compiled().circuit, witness, public_inputs, params, rnd);
}

} // verus!
