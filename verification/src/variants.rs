//! Changes to a proof that do not matter.
//!
//! The order of the opened views is free. The seeds in the views and the shares of all wires need
//! not be sent: the verifier finds them by itself. And the outputs that the prover gives do not
//! count where the circuit asserts them.

use crate::checks;
use crate::circuit;
use crate::circuit::CircuitModel;
use crate::merge;
use crate::mpc::ViewModel;
use crate::params::ProofParams;
use crate::predicate;
use crate::predicate::CompoundModel;
use crate::predicate::PredicateModel;
use crate::protocol;
use crate::protocol::OpenedModel;
use crate::protocol::ProofModel;
use crate::protocol::RepetitionModel;
use crate::validation;
use crate::verification;
use vstd::prelude::*;

verus! {

/// `b` opens the same view as `a`, possibly with another seed and without the shares of all wires.
pub open spec fn same_view(a: OpenedModel, b: OpenedModel) -> bool {
    &&& b.view.party_idx == a.view.party_idx
    &&& b.view.mul_output_shares == a.view.mul_output_shares
    &&& b.view.residual_input_shares == a.view.residual_input_shares
    &&& b.randomness == a.randomness
    &&& b.auth_path == a.auth_path
    &&& b.view.wire_shares == a.view.wire_shares || b.view.wire_shares.len() == 0
}

/// `s` opens the same views as `r`, possibly in another order: view `i` of `s` is view `to(i)` of
/// `r`, and `back` undoes `to`.
pub open spec fn same_views(
    r: RepetitionModel,
    s: RepetitionModel,
    to: spec_fn(int) -> int,
    back: spec_fn(int) -> int,
) -> bool {
    let n = r.opened_views.len();
    &&& s.hidden_party == r.hidden_party
    &&& s.message == r.message
    &&& s.co_path == r.co_path
    &&& s.opened_views.len() == n
    &&& forall|i: int|
        0 <= i < n ==> {
            &&& 0 <= #[trigger] to(i) < n
            &&& back(to(i)) == i
        }
    &&& forall|i: int|
        0 <= i < n ==> {
            &&& 0 <= #[trigger] back(i) < n
            &&& to(back(i)) == i
        }
    &&& forall|i: int|
        0 <= i < n ==> same_view(r.opened_views[to(i)], #[trigger] s.opened_views[i])
}

/// `q` is `p` with the views of every repetition in another order, other seeds or without the
/// shares of all wires.
pub open spec fn same_proof(
    p: ProofModel,
    q: ProofModel,
    to: spec_fn(int) -> spec_fn(int) -> int,
    back: spec_fn(int) -> spec_fn(int) -> int,
) -> bool {
    &&& q.public_inputs == p.public_inputs
    &&& q.expected_outputs == p.expected_outputs
    &&& q.circuit == p.circuit
    &&& q.circuit_hash == p.circuit_hash
    &&& q.num_circuit_wires == p.num_circuit_wires
    &&& q.num_circuit_outputs == p.num_circuit_outputs
    &&& q.repetitions.len() == p.repetitions.len()
    &&& forall|rep: int|
        0 <= rep < p.repetitions.len() ==> same_views(
            p.repetitions[rep],
            #[trigger] q.repetitions[rep],
            to(rep),
            back(rep),
        )
}

proof fn lemma_same_shape(
    p: ProofModel,
    q: ProofModel,
    n: nat,
    rep: int,
    to: spec_fn(int) -> int,
    back: spec_fn(int) -> int,
)
    requires
        p.circuit == q.circuit,
        0 <= rep < p.repetitions.len(),
        0 <= rep < q.repetitions.len(),
        same_views(p.repetitions[rep], q.repetitions[rep], to, back),
        validation::repetition_fits(p, n, rep),
    ensures
        validation::repetition_fits(q, n, rep),
{
    let r = p.repetitions[rep];
    let s = q.repetitions[rep];
    let count = r.opened_views.len();
    assert forall|i: int| 0 <= i < count implies same_view(
        r.opened_views[to(i)],
        #[trigger] s.opened_views[i],
    ) && 0 <= to(i) < count by {}
    assert forall|i: int, j: int| 0 <= i < j < count implies (
    #[trigger] s.opened_views[i]).view.party_idx != (#[trigger] s.opened_views[j]).view.party_idx by {
        assert(back(to(i)) == i && back(to(j)) == j);
        let a = r.opened_views[to(i)];
        let b = r.opened_views[to(j)];
        assert(a.view.party_idx != b.view.party_idx);
    }
    assert forall|o: nat| o < n && o != s.hidden_party implies #[trigger] protocol::opened_before(
        s.opened_views,
        s.opened_views.len() as int,
        o,
    ) by {
        assert(protocol::opened_before(r.opened_views, count as int, o));
        let j = choose|j: int|
            0 <= j < count && (#[trigger] r.opened_views[j]).view.party_idx == o;
        assert(to(back(j)) == j);
        assert(same_view(r.opened_views[to(back(j))], s.opened_views[back(j)]));
        assert(s.opened_views[back(j)].view.party_idx == o);
    }
}

proof fn lemma_same_shares(
    p: ProofModel,
    q: ProofModel,
    n: nat,
    rep: int,
    to: spec_fn(int) -> int,
    back: spec_fn(int) -> int,
    party: nat,
)
    requires
        p.circuit == q.circuit,
        0 <= rep < p.repetitions.len(),
        0 <= rep < q.repetitions.len(),
        same_views(p.repetitions[rep], q.repetitions[rep], to, back),
        validation::repetition_fits(p, n, rep),
        party < n,
        party != p.repetitions[rep].hidden_party,
    ensures
        protocol::opened_shares(p.circuit, q.repetitions[rep], n, party)
            == protocol::opened_shares(p.circuit, p.repetitions[rep], n, party),
{
    let r = p.repetitions[rep];
    let s = q.repetitions[rep];
    let count = r.opened_views.len();
    lemma_same_shape(p, q, n, rep, to, back);
    assert(protocol::opened_before(r.opened_views, count as int, party));
    let j = choose|j: int|
        0 <= j < count && (#[trigger] r.opened_views[j]).view.party_idx == party;
    let i = back(j);
    assert(to(back(j)) == j);
    assert(same_view(r.opened_views[to(i)], s.opened_views[i]));
    verification::lemma_position(r.opened_views, j, 0);
    verification::lemma_position(s.opened_views, i, 0);
}

proof fn lemma_same_opened(
    p: ProofModel,
    q: ProofModel,
    n: nat,
    rep: int,
    to: spec_fn(int) -> int,
    back: spec_fn(int) -> int,
    i: int,
)
    requires
        p.circuit == q.circuit,
        0 <= rep < p.repetitions.len(),
        0 <= rep < q.repetitions.len(),
        same_views(p.repetitions[rep], q.repetitions[rep], to, back),
        validation::repetition_fits(p, n, rep),
        0 <= i < p.repetitions[rep].opened_views.len(),
        protocol::opened_failure(p.circuit, p.repetitions[rep], n, rep as nat, to(i)) is None,
    ensures
        protocol::opened_failure(p.circuit, q.repetitions[rep], n, rep as nat, i) is None,
{
    let c = p.circuit;
    let r = p.repetitions[rep];
    let s = q.repetitions[rep];
    let a = r.opened_views[to(i)];
    let b = s.opened_views[i];
    let party = a.view.party_idx;
    assert(same_view(a, b));
    assert(0 <= to(i) < r.opened_views.len());
    lemma_same_shares(p, q, n, rep, to, back, party);
    let own = protocol::opened_shares(c, r, n, party);
    let seed = protocol::opened_seeds(r, n)[party as int];
    assert(a.view.committed(seed) == b.view.committed(seed));
    let x = protocol::opened_wires(c, r, n);
    let y = protocol::opened_wires(c, s, n);
    assert forall|w: int| 0 <= w < c.num_wires implies #[trigger] x[w] == y[w] by {
        assert forall|o: int| 0 <= o < n implies x[w][o] == y[w][o] by {
            if o != r.hidden_party {
                lemma_same_shares(p, q, n, rep, to, back, o as nat);
            }
        }
        assert(x[w] =~= y[w]);
    }
    assert(x =~= y);
    assert(protocol::known_right(c, r, n, party) == protocol::known_right(c, s, n, party));
    let f = protocol::assert_share_checks(c, r, rep as nat, party, own);
    let g = protocol::assert_share_checks(c, s, rep as nat, party, own);
    assert(f =~= g);
    let f2 = protocol::output_share_checks(c, r, rep as nat, party, own);
    let g2 = protocol::output_share_checks(c, s, rep as nat, party, own);
    assert(f2 =~= g2);
}

proof fn lemma_same_contents(
    p: ProofModel,
    q: ProofModel,
    n: nat,
    rep: int,
    to: spec_fn(int) -> int,
    back: spec_fn(int) -> int,
)
    requires
        p.circuit == q.circuit,
        p.expected_outputs == q.expected_outputs,
        0 <= rep < p.repetitions.len(),
        0 <= rep < q.repetitions.len(),
        same_views(p.repetitions[rep], q.repetitions[rep], to, back),
        validation::repetition_fits(p, n, rep),
        protocol::opened_then_sums(p, n, rep as nat) is None,
    ensures
        protocol::opened_then_sums(q, n, rep as nat) is None,
{
    let c = p.circuit;
    let r = p.repetitions[rep];
    let s = q.repetitions[rep];
    let count = r.opened_views.len();
    let f = protocol::opened_checks(c, r, n, rep as nat);
    let g = protocol::opened_checks(c, s, n, rep as nat);
    assert forall|i: int| 0 <= i < count implies #[trigger] g(i) is None by {
        assert(0 <= to(i) < count);
        checks::lemma_none_fails(f, 0, count, to(i));
        lemma_same_opened(p, q, n, rep, to, back, i);
    }
    checks::lemma_all_pass(g, 0, count);
    assert(protocol::assert_sum_checks(c, r, rep as nat) =~= protocol::assert_sum_checks(
        c,
        s,
        rep as nat,
    ));
    assert(protocol::output_sum_checks(p, rep as nat) =~= protocol::output_sum_checks(
        q,
        rep as nat,
    ));
}

/// If a proof is accepted, so is one that opens the same views in another order, with other seeds,
/// or without the shares of all wires.
pub proof fn lemma_same_proof(
    p: ProofModel,
    q: ProofModel,
    to: spec_fn(int) -> spec_fn(int) -> int,
    back: spec_fn(int) -> spec_fn(int) -> int,
    public_inputs: Seq<u32>,
    params: ProofParams,
)
    requires
        same_proof(p, q, to, back),
        protocol::verification_failure(p, public_inputs, params) is None,
    ensures
        protocol::verification_failure(q, public_inputs, params) is None,
{
    let n = params.num_parties as nat;
    let count = p.repetitions.len();
    protocol::lemma_accepted(p, public_inputs, params);
    validation::lemma_shape(p, n);
    assert(protocol::dimension_failure(q) == protocol::dimension_failure(p));
    let g = protocol::rep_shape_checks(q, n);
    assert forall|rep: int| 0 <= rep < count implies #[trigger] g(rep) is None by {
        assert(same_views(p.repetitions[rep], q.repetitions[rep], to(rep), back(rep)));
        assert(validation::repetition_fits(p, n, rep));
        lemma_same_shape(p, q, n, rep, to(rep), back(rep));
        validation::lemma_repetition_fits(q, n, rep);
    }
    checks::lemma_all_pass(g, 0, count);
    assert(protocol::shape_failure(q, n) is None);
    assert forall|rep: int| 0 <= rep < count implies #[trigger] q.repetitions[rep].message
        == p.repetitions[rep].message by {
        assert(same_views(p.repetitions[rep], q.repetitions[rep], to(rep), back(rep)));
    }
    assert(protocol::messages_of(q.repetitions) =~= protocol::messages_of(p.repetitions));
    let h = protocol::rep_checks(q, public_inputs, params);
    assert forall|rep: int| 0 <= rep < count implies #[trigger] h(rep) is None by {
        assert(same_views(p.repetitions[rep], q.repetitions[rep], to(rep), back(rep)));
        assert(validation::repetition_fits(p, n, rep));
        lemma_same_contents(p, q, n, rep, to(rep), back(rep));
    }
    checks::lemma_all_pass(h, 0, count);
}

/// An opened view as it is sent: without the seed and without the shares of all wires.
pub open spec fn sent_view(v: OpenedModel, blank_seed: Seq<u8>) -> OpenedModel {
    OpenedModel {
        view: ViewModel { seed: blank_seed, wire_shares: Seq::empty(), ..v.view },
        ..v
    }
}

/// A repetition as it is sent.
pub open spec fn sent_repetition(r: RepetitionModel, blank_seed: Seq<u8>) -> RepetitionModel {
    RepetitionModel {
        opened_views: Seq::new(
            r.opened_views.len(),
            |i: int| sent_view(r.opened_views[i], blank_seed),
        ),
        ..r
    }
}

/// A proof as it is sent.
pub open spec fn sent_proof(p: ProofModel, blank_seed: Seq<u8>) -> ProofModel {
    ProofModel {
        repetitions: Seq::new(
            p.repetitions.len(),
            |rep: int| sent_repetition(p.repetitions[rep], blank_seed),
        ),
        ..p
    }
}

/// If a proof is accepted, so is what is sent of it.
pub proof fn lemma_sent_proof(
    p: ProofModel,
    blank_seed: Seq<u8>,
    public_inputs: Seq<u32>,
    params: ProofParams,
)
    requires
        protocol::verification_failure(p, public_inputs, params) is None,
    ensures
        protocol::verification_failure(
            sent_proof(p, blank_seed),
            public_inputs,
            params,
        ) is None,
{
    let q = sent_proof(p, blank_seed);
    let same = |i: int| i;
    let all = |rep: int| same;
    assert(same_proof(p, q, all, all)) by {
        assert forall|rep: int| 0 <= rep < p.repetitions.len() implies same_views(
            p.repetitions[rep],
            #[trigger] q.repetitions[rep],
            all(rep),
            all(rep),
        ) by {
            let r = p.repetitions[rep];
            assert(q.repetitions[rep] == sent_repetition(r, blank_seed));
        }
    }
    lemma_same_proof(p, q, all, all, public_inputs, params);
}

/// Whether the circuit asserts all of its outputs.
pub open spec fn outputs_asserted(c: CircuitModel) -> bool {
    forall|o: int|
        0 <= o < c.num_outputs ==> (#[trigger] circuit::asserted_output(
            c.gates,
            0,
            (c.output_start() + o) as nat,
        )) is Some
}

/// Where the circuit asserts all of its outputs, the outputs that the prover gives do not count:
/// with any others, the proof is accepted or refused in the same way.
pub proof fn lemma_given_outputs_inert(
    p: ProofModel,
    given: Seq<u32>,
    public_inputs: Seq<u32>,
    params: ProofParams,
)
    requires
        outputs_asserted(p.circuit),
        given.len() == p.expected_outputs.len(),
    ensures
        protocol::verification_failure(
            (ProofModel { expected_outputs: given, ..p }),
            public_inputs,
            params,
        ) == protocol::verification_failure(p, public_inputs, params),
{
    let q = ProofModel { expected_outputs: given, ..p };
    let n = params.num_parties as nat;
    assert(protocol::dimension_failure(p) == protocol::dimension_failure(q));
    assert forall|rep: nat| #[trigger] protocol::rep_shape_failure(q, n, rep)
        == protocol::rep_shape_failure(p, n, rep) by {
        assert(protocol::view_shape_checks(q, n, rep) =~= protocol::view_shape_checks(p, n, rep));
        assert(protocol::missing_checks(q, rep) =~= protocol::missing_checks(p, rep));
    }
    assert(protocol::rep_shape_checks(q, n) =~= protocol::rep_shape_checks(p, n));
    assert(protocol::shape_failure(q, n) == protocol::shape_failure(p, n));
    assert forall|rep: nat| #[trigger] protocol::opened_then_sums(q, n, rep)
        == protocol::opened_then_sums(p, n, rep) by {
        let f = protocol::output_sum_checks(p, rep);
        let g = protocol::output_sum_checks(q, rep);
        assert forall|o: int| 0 <= o < p.circuit.num_outputs implies #[trigger] f(o) == g(o) by {
            assert(circuit::asserted_output(
                p.circuit.gates,
                0,
                (p.circuit.output_start() + o) as nat,
            ) is Some);
        }
        checks::lemma_first_some_ext(f, g, 0, p.circuit.num_outputs);
    }
    assert(protocol::rep_checks(q, public_inputs, params) =~= protocol::rep_checks(
        p,
        public_inputs,
        params,
    ));
}

/// The circuit of every single predicate asserts its output.
pub proof fn lemma_predicate_outputs(p: PredicateModel)
    requires
        p.failure() is None,
    ensures
        outputs_asserted(p.compiled().circuit),
{
    let c = p.compiled().circuit;
    predicate::lemma_predicate_circuit(p, Seq::empty());
    assert(c.gates.len() > 0 && c.gates.last() is AssertEq) by {
        match p {
            PredicateModel::AdditionCheck { .. } => {},
            PredicateModel::MultiplicationCheck { .. } => {},
            PredicateModel::XorCheck { .. } => {},
            PredicateModel::RangeCheck { .. } => {},
            PredicateModel::SetMembership { .. } => {},
        }
    }
    circuit::lemma_asserted_at(c, 0, c.gates.len() - 1);
}

/// The circuit of every compound predicate asserts all of its outputs.
pub proof fn lemma_compound_outputs(c: CompoundModel)
    requires
        c.failure() is None,
        c.fits(),
    ensures
        outputs_asserted(c.compiled().circuit),
    decreases c,
{
    match c {
        CompoundModel::Single(p) => {
            lemma_predicate_outputs(p);
        },
        CompoundModel::And(l, r) => {
            lemma_compound_outputs(*l);
            lemma_compound_outputs(*r);
            predicate::lemma_compound_circuit(*l, Seq::empty());
            predicate::lemma_compound_circuit(*r, Seq::empty());
            merge::lemma_merged_outputs_asserted(l.compiled().circuit, r.compiled().circuit);
        },
    }
}

/// The outputs of a conjunction are those of its left part, then those of its right part.
pub proof fn lemma_conjunction_outputs(l: CompoundModel, r: CompoundModel, w: Seq<u32>)
    requires
        CompoundModel::And(Box::new(l), Box::new(r)).failure() is None,
        CompoundModel::And(Box::new(l), Box::new(r)).fits(),
        w.len() == l.compiled().circuit.num_inputs + r.compiled().circuit.num_inputs,
    ensures
        ({
            let a = l.compiled().circuit;
            let b = r.compiled().circuit;
            let c = CompoundModel::And(Box::new(l), Box::new(r)).compiled().circuit;
            let cut = a.num_inputs as int;
            c.trace(w).subrange(c.output_start(), c.num_wires as int) == a.trace(
                w.subrange(0, cut),
            ).subrange(a.output_start(), a.num_wires as int) + b.trace(
                w.subrange(cut, w.len() as int),
            ).subrange(b.output_start(), b.num_wires as int)
        }),
{
    predicate::lemma_compound_circuit(l, Seq::empty());
    predicate::lemma_compound_circuit(r, Seq::empty());
    merge::lemma_merged_outputs(l.compiled().circuit, r.compiled().circuit, w);
}

} // verus!
