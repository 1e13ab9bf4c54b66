//! The shape of a proof: everything that is checked before any of its contents is used.

use crate::checks;
use crate::circuit;
use crate::circuit::Circuit;
use crate::circuit::Gate;
use crate::error::MpcithError;
use crate::params::ProofParams;
use crate::proofs;
use crate::proofs::OpenedView;
use crate::proofs::Proof;
use crate::proofs::RepetitionProof;
use crate::protocol;
use crate::protocol::ProofModel;
use crate::protocol::MAX_PROOF_CIRCUIT_GATES;
use crate::protocol::MAX_PROOF_CIRCUIT_WIRES;
use crate::text::join;
use crate::text::text1;
use crate::text::text2;
use crate::text::text3;
use crate::text::text4;
use crate::tree;
use vstd::prelude::*;

verus! {

/// What follows from the shape of a circuit.
pub open spec fn circuit_fits(p: ProofModel) -> bool {
    &&& p.circuit.in_range()
    &&& p.circuit.xor_free()
    &&& p.circuit.num_outputs <= p.circuit.num_wires
    &&& p.expected_outputs.len() == p.circuit.num_outputs
}

/// What follows from the shape of a repetition.
pub open spec fn repetition_fits(p: ProofModel, num_parties: nat, rep: int) -> bool {
    let r = p.repetitions[rep];
    let views = r.opened_views;
    &&& r.hidden_party < num_parties
    &&& views.len() == num_parties - 1
    &&& forall|i: int|
        0 <= i < views.len() ==> {
            let v = #[trigger] views[i];
            &&& v.view.party_idx < num_parties
            &&& v.view.party_idx != r.hidden_party
            &&& v.view.mul_output_shares.len() == circuit::count_mul(
                p.circuit.gates,
                p.circuit.gates.len(),
            )
            &&& v.view.residual_input_shares.len() == if v.view.party_idx == num_parties - 1 {
                p.circuit.num_inputs
            } else {
                0
            }
            &&& v.auth_path.len() == tree::tree_depth(num_parties)
        }
    &&& forall|i: int, j: int|
        0 <= i < j < views.len() ==> (#[trigger] views[i]).view.party_idx != (
        #[trigger] views[j]).view.party_idx
    &&& forall|q: nat|
        q < num_parties && q != r.hidden_party ==> #[trigger] protocol::opened_before(
            views,
            views.len() as int,
            q,
        )
    &&& r.co_path.len() == tree::tree_depth(num_parties)
    &&& r.message.assert_shares.len() == p.circuit.assertions().len()
    &&& r.message.output_shares.len() == p.circuit.num_outputs
    &&& protocol::rows_ok(r.message.assert_shares, num_parties)
    &&& protocol::rows_ok(r.message.output_shares, num_parties)
}

/// A proof of the right shape can be read without leaving any of its lists.
pub proof fn lemma_shape(p: ProofModel, num_parties: nat)
    requires
        protocol::shape_failure(p, num_parties) is None,
    ensures
        circuit_fits(p),
        forall|rep: int|
            0 <= rep < p.repetitions.len() ==> #[trigger] repetition_fits(p, num_parties, rep),
{
    let c = p.circuit;
    assert forall|i: int| 0 <= i < c.gates.len() implies protocol::gate_failure(
        c,
        i,
    ) is None && (#[trigger] c.gates[i]).reads_below(c.num_wires as int) && c.gates[i].target()
        < c.num_wires && !(c.gates[i] is Xor) by {
        checks::lemma_none_fails(protocol::gate_checks(c), 0, c.gates.len(), i);
    }
    assert forall|rep: int| 0 <= rep < p.repetitions.len() implies #[trigger] repetition_fits(
        p,
        num_parties,
        rep,
    ) by {
        checks::lemma_none_fails(
            protocol::rep_shape_checks(p, num_parties),
            0,
            p.repetitions.len(),
            rep,
        );
        lemma_repetition_shape(p, num_parties, rep);
    }
}

/// A repetition of the right shape can be read without leaving any of its lists.
pub proof fn lemma_repetition_shape(p: ProofModel, num_parties: nat, rep: int)
    requires
        0 <= rep < p.repetitions.len(),
        protocol::rep_shape_failure(p, num_parties, rep as nat) is None,
    ensures
        repetition_fits(p, num_parties, rep),
{
    let r = p.repetitions[rep];
    let views = r.opened_views;
    let n = views.len();
    assert forall|i: int| 0 <= i < n implies protocol::view_shape_failure(
        p,
        num_parties,
        rep as nat,
        i,
    ) is None && #[trigger] views[i] == views[i] by {
        checks::lemma_none_fails(
            protocol::view_shape_checks(p, num_parties, rep as nat),
            0,
            n,
            i,
        );
    }
    assert forall|i: int, j: int| 0 <= i < j < n implies (#[trigger] views[i]).view.party_idx != (
    #[trigger] views[j]).view.party_idx by {
        if views[i].view.party_idx == views[j].view.party_idx {
            assert(protocol::opened_before(views, j, views[j].view.party_idx));
        }
    }
    assert forall|q: nat| q < num_parties && q != r.hidden_party implies #[trigger]
    protocol::opened_before(views, n as int, q) by {
        checks::lemma_none_fails(
            protocol::missing_checks(p, rep as nat),
            0,
            num_parties,
            q as int,
        );
    }
}

/// A repetition that fits has the right shape.
pub proof fn lemma_repetition_fits(p: ProofModel, num_parties: nat, rep: int)
    requires
        0 <= rep < p.repetitions.len(),
        repetition_fits(p, num_parties, rep),
    ensures
        protocol::rep_shape_failure(p, num_parties, rep as nat) is None,
{
    let r = p.repetitions[rep];
    let views = r.opened_views;
    let n = views.len();
    let f = protocol::view_shape_checks(p, num_parties, rep as nat);
    assert forall|i: int| 0 <= i < n implies #[trigger] f(i) is None by {
        let v = views[i];
        if protocol::opened_before(views, i, v.view.party_idx) {
            let j = choose|j: int|
                0 <= j < i && (#[trigger] views[j]).view.party_idx == v.view.party_idx;
            assert(views[j].view.party_idx != views[i].view.party_idx);
        }
    }
    checks::lemma_all_pass(f, 0, n);
    let g = protocol::missing_checks(p, rep as nat);
    assert forall|q: int| 0 <= q < num_parties implies #[trigger] g(q) is None by {
        if q != r.hidden_party {
            assert(protocol::opened_before(views, n as int, q as nat));
        }
    }
    checks::lemma_all_pass(g, 0, num_parties);
}

fn malformed(what: &str) -> (r: MpcithError)
    ensures
        r@ == protocol::malformed(what@),
{
    MpcithError::VerificationFailed(join("malformed proof: ", what))
}

fn malformed_in(rep: usize, what: &str) -> (r: MpcithError)
    ensures
        r@ == protocol::malformed_in(rep as nat, what@),
{
    let place: String = text1("repetition ", rep, ": ");
    malformed(join(place.as_str(), what).as_str())
}

fn check_dimensions(proof_data: &Proof) -> (r: Result<(), MpcithError>)
    ensures
        checks::reports(r, protocol::dimension_failure(proof_data@)),
{
    let circuit: &Circuit = &proof_data.circuit;
    if circuit.num_wires == 0 {
        return Err(malformed("circuit declares zero wires"));
    }
    if circuit.num_wires > MAX_PROOF_CIRCUIT_WIRES {
        return Err(
            malformed(
                text2(
                    "circuit.num_wires ",
                    circuit.num_wires,
                    " exceeds maximum ",
                    MAX_PROOF_CIRCUIT_WIRES,
                    "",
                ).as_str(),
            ),
        );
    }
    if circuit.gates.len() > MAX_PROOF_CIRCUIT_GATES {
        return Err(
            malformed(
                text2(
                    "circuit has ",
                    circuit.gates.len(),
                    " gates, exceeding maximum ",
                    MAX_PROOF_CIRCUIT_GATES,
                    "",
                ).as_str(),
            ),
        );
    }
    if circuit.num_inputs > circuit.num_wires {
        return Err(
            malformed(
                text2(
                    "num_inputs ",
                    circuit.num_inputs,
                    " exceeds num_wires ",
                    circuit.num_wires,
                    "",
                ).as_str(),
            ),
        );
    }
    if proof_data.num_circuit_wires != circuit.num_wires || proof_data.num_circuit_outputs
        != circuit.num_outputs {
        return Err(
            malformed(
                text4(
                    "declared dimensions (",
                    proof_data.num_circuit_wires,
                    ", ",
                    proof_data.num_circuit_outputs,
                    ") inconsistent with embedded circuit (",
                    circuit.num_wires,
                    ", ",
                    circuit.num_outputs,
                    ")",
                ).as_str(),
            ),
        );
    }
    if circuit.num_outputs > circuit.num_wires {
        return Err(
            malformed(
                text2(
                    "num_outputs ",
                    circuit.num_outputs,
                    " exceeds num_wires ",
                    circuit.num_wires,
                    "",
                ).as_str(),
            ),
        );
    }
    Ok(())
}

fn check_gate(circuit: &Circuit, i: usize) -> (r: Result<(), MpcithError>)
    requires
        i < circuit.gates@.len(),
    ensures
        checks::reports(r, protocol::gate_failure(circuit@, i as int)),
{
    let n: usize = circuit.num_wires;
    let refs_ok: bool = match circuit.gates[i] {
        Gate::Add { left, right, output } => left < n && right < n && output < n,
        Gate::Mul { left, right, output } => left < n && right < n && output < n,
        Gate::Xor { left, right, output } => left < n && right < n && output < n,
        Gate::AddConst { input, output, .. } => input < n && output < n,
        Gate::MulConst { input, output, .. } => input < n && output < n,
        Gate::AssertEq { input, output, .. } => input < n && output < n,
    };
    if !refs_ok {
        return Err(
            malformed(
                text2("gate ", i, " references a wire outside 0..", circuit.num_wires, "").as_str(),
            ),
        );
    }
    match circuit.gates[i] {
        Gate::Xor { .. } => Err(
            malformed(text1("gate ", i, " is an XOR gate, which cannot be verified").as_str()),
        ),
        _ => Ok(()),
    }
}

fn check_gates(circuit: &Circuit) -> (r: Result<(), MpcithError>)
    ensures
        checks::reports(
            r,
            checks::first_some(protocol::gate_checks(circuit@), 0, circuit@.gates.len()),
        ),
{
    let ghost f = protocol::gate_checks(circuit@);
    let n: usize = circuit.gates.len();
    let mut i: usize = 0;
    while i < n
        invariant
            i <= n,
            n == circuit.gates@.len(),
            f == protocol::gate_checks(circuit@),
            checks::first_some(f, 0, n as nat) == checks::first_some(f, i as nat, n as nat),
        decreases n - i,
    {
        proof {
            assert(f(i as int) == protocol::gate_failure(circuit@, i as int));
        }
        match check_gate(circuit, i) {
            Ok(_) => {},
            Err(e) => {
                return Err(e);
            },
        }
        i = i + 1;
    }
    Ok(())
}

fn check_view(
    proof_data: &Proof,
    num_parties: usize,
    rep: usize,
    i: usize,
    seen: &[bool],
    num_muls: usize,
    depth: usize,
) -> (r: Result<(), MpcithError>)
    requires
        num_parties >= 1,
        rep < proof_data.repetitions@.len(),
        i < proof_data.repetitions@[rep as int].opened_views@.len(),
        seen@.len() == num_parties,
        forall|q: int|
            0 <= q < num_parties ==> #[trigger] seen@[q] == protocol::opened_before(
                proof_data@.repetitions[rep as int].opened_views,
                i as int,
                q as nat,
            ),
        num_muls == circuit::count_mul(
            proof_data.circuit.gates@,
            proof_data.circuit.gates@.len(),
        ),
        depth == tree::tree_depth(num_parties as nat),
    ensures
        checks::reports(
            r,
            protocol::view_shape_failure(
                proof_data@,
                num_parties as nat,
                rep as nat,
                i as int,
            ),
        ),
{
    let repetition: &RepetitionProof = &proof_data.repetitions[rep];
    let opened: &OpenedView = &repetition.opened_views[i];
    let p: usize = opened.view.party_idx;
    proof {
        assert(proof_data@.repetitions[rep as int] == repetition@);
        assert(repetition@.opened_views[i as int] == opened@);
    }
    if p >= num_parties {
        return Err(
            malformed_in(
                rep,
                text2(
                    "opened party index ",
                    p,
                    " out of range (num_parties = ",
                    num_parties,
                    ")",
                ).as_str(),
            ),
        );
    }
    if p == repetition.hidden_party {
        return Err(malformed_in(rep, text1("opened view claims hidden party ", p, "").as_str()));
    }
    if seen[p] {
        return Err(malformed_in(rep, text1("duplicate opened party index ", p, "").as_str()));
    }
    if opened.view.mul_output_shares.len() != num_muls {
        return Err(
            malformed_in(
                rep,
                text3(
                    "party ",
                    p,
                    ": mul_output_shares has length ",
                    opened.view.mul_output_shares.len(),
                    ", expected ",
                    num_muls,
                    "",
                ).as_str(),
            ),
        );
    }
    let residual: usize = if p == num_parties - 1 {
        proof_data.circuit.num_inputs
    } else {
        0
    };
    if opened.view.residual_input_shares.len() != residual {
        return Err(
            malformed_in(
                rep,
                text3(
                    "party ",
                    p,
                    ": residual_input_shares has length ",
                    opened.view.residual_input_shares.len(),
                    ", expected ",
                    residual,
                    "",
                ).as_str(),
            ),
        );
    }
    if opened.commitment_auth_path.len() != depth {
        return Err(
            malformed_in(
                rep,
                text3(
                    "party ",
                    p,
                    ": commitment_auth_path has length ",
                    opened.commitment_auth_path.len(),
                    ", expected ",
                    depth,
                    "",
                ).as_str(),
            ),
        );
    }
    Ok(())
}

/// Checks all opened views of a repetition, and that no party is missing.
fn check_views(
    proof_data: &Proof,
    num_parties: usize,
    rep: usize,
    num_muls: usize,
    depth: usize,
) -> (r: Result<(), MpcithError>)
    requires
        num_parties >= 1,
        rep < proof_data.repetitions@.len(),
        num_muls == circuit::count_mul(
            proof_data.circuit.gates@,
            proof_data.circuit.gates@.len(),
        ),
        depth == tree::tree_depth(num_parties as nat),
    ensures
        checks::reports(
            r,
            match checks::first_some(
                protocol::view_shape_checks(proof_data@, num_parties as nat, rep as nat),
                0,
                proof_data@.repetitions[rep as int].opened_views.len(),
            ) {
                Some(e) => Some(e),
                None => checks::first_some(
                    protocol::missing_checks(proof_data@, rep as nat),
                    0,
                    num_parties as nat,
                ),
            },
        ),
{
    let repetition: &RepetitionProof = &proof_data.repetitions[rep];
    let ghost p = proof_data@;
    let ghost views = p.repetitions[rep as int].opened_views;
    let ghost f = protocol::view_shape_checks(p, num_parties as nat, rep as nat);
    let n: usize = repetition.opened_views.len();
    let mut seen: Vec<bool> = Vec::new();
    let mut k: usize = 0;
    while k < num_parties
        invariant
            k <= num_parties,
            seen@.len() == k,
            forall|q: int| 0 <= q < k ==> #[trigger] seen@[q] == false,
        decreases num_parties - k,
    {
        seen.push(false);
        k = k + 1;
    }
    let mut i: usize = 0;
    while i < n
        invariant
            i <= n,
            n == repetition.opened_views@.len(),
            n == views.len(),
            *repetition == proof_data.repetitions@[rep as int],
            rep < proof_data.repetitions@.len(),
            p == proof_data@,
            views == p.repetitions[rep as int].opened_views,
            views == proofs::opened_models(repetition.opened_views@),
            num_parties >= 1,
            num_muls == circuit::count_mul(
                proof_data.circuit.gates@,
                proof_data.circuit.gates@.len(),
            ),
            depth == tree::tree_depth(num_parties as nat),
            f == protocol::view_shape_checks(p, num_parties as nat, rep as nat),
            checks::first_some(f, 0, n as nat) == checks::first_some(f, i as nat, n as nat),
            seen@.len() == num_parties,
            forall|q: int|
                0 <= q < num_parties ==> #[trigger] seen@[q] == protocol::opened_before(
                    views,
                    i as int,
                    q as nat,
                ),
        decreases n - i,
    {
        proof {
            assert(f(i as int) == protocol::view_shape_failure(
                p,
                num_parties as nat,
                rep as nat,
                i as int,
            ));
        }
        match check_view(proof_data, num_parties, rep, i, &seen, num_muls, depth) {
            Ok(_) => {},
            Err(e) => {
                return Err(e);
            },
        }
        let party: usize = repetition.opened_views[i].view.party_idx;
        let ghost before = seen@;
        proof {
            assert(views[i as int].view.party_idx == party);
        }
        seen.set(party, true);
        proof {
            assert forall|q: int| 0 <= q < num_parties implies #[trigger] seen@[q]
                == protocol::opened_before(views, i + 1, q as nat) by {
                if q == party {
                    assert(views[i as int].view.party_idx == q as nat);
                } else {
                    assert(seen@[q] == before[q]);
                    if protocol::opened_before(views, i + 1, q as nat) {
                        let j = choose|j: int|
                            0 <= j < i + 1 && (#[trigger] views[j]).view.party_idx == q as nat;
                        assert(j < i);
                    }
                    if protocol::opened_before(views, i as int, q as nat) {
                        let j = choose|j: int|
                            0 <= j < i && (#[trigger] views[j]).view.party_idx == q as nat;
                        assert(views[j].view.party_idx == q as nat && j < i + 1);
                    }
                }
            }
        }
        i = i + 1;
    }
    let ghost g = protocol::missing_checks(p, rep as nat);
    let mut q: usize = 0;
    while q < num_parties
        invariant
            q <= num_parties,
            p == proof_data@,
            rep < proof_data.repetitions@.len(),
            *repetition == proof_data.repetitions@[rep as int],
            views == p.repetitions[rep as int].opened_views,
            n == views.len(),
            seen@.len() == num_parties,
            forall|q: int|
                0 <= q < num_parties ==> #[trigger] seen@[q] == protocol::opened_before(
                    views,
                    n as int,
                    q as nat,
                ),
            checks::first_some(f, 0, n as nat) is None,
            g == protocol::missing_checks(p, rep as nat),
            checks::first_some(g, 0, num_parties as nat) == checks::first_some(
                g,
                q as nat,
                num_parties as nat,
            ),
            f == protocol::view_shape_checks(p, num_parties as nat, rep as nat),
        decreases num_parties - q,
    {
        proof {
            assert(g(q as int) == protocol::missing_failure(p, rep as nat, q as int));
            assert(p.repetitions[rep as int] == repetition@);
        }
        if !seen[q] && q != repetition.hidden_party {
            return Err(
                malformed_in(
                    rep,
                    text1("non-hidden party ", q, " missing from opened views").as_str(),
                ),
            );
        }
        q = q + 1;
    }
    Ok(())
}

fn rows_fit(shares: &[Vec<u32>], num_parties: usize) -> (r: bool)
    ensures
        r == protocol::rows_ok(proofs::rows(shares@), num_parties as nat),
{
    let mut i: usize = 0;
    while i < shares.len()
        invariant
            i <= shares@.len(),
            forall|j: int| 0 <= j < i ==> (#[trigger] shares@[j])@.len() == num_parties,
        decreases shares@.len() - i,
    {
        if shares[i].len() != num_parties {
            proof {
                assert(proofs::rows(shares@)[i as int].len() != num_parties);
            }
            return false;
        }
        i = i + 1;
    }
    true
}

fn check_repetition(
    proof_data: &Proof,
    num_parties: usize,
    rep: usize,
    num_muls: usize,
    num_asserts: usize,
    depth: usize,
) -> (r: Result<(), MpcithError>)
    requires
        num_parties >= 1,
        rep < proof_data.repetitions@.len(),
        num_muls == circuit::count_mul(
            proof_data.circuit.gates@,
            proof_data.circuit.gates@.len(),
        ),
        num_asserts == proof_data@.circuit.assertions().len(),
        depth == tree::tree_depth(num_parties as nat),
    ensures
        checks::reports(
            r,
            protocol::rep_shape_failure(proof_data@, num_parties as nat, rep as nat),
        ),
{
    let repetition: &RepetitionProof = &proof_data.repetitions[rep];
    proof {
        assert(proof_data@.repetitions[rep as int] == repetition@);
    }
    if repetition.hidden_party >= num_parties {
        return Err(
            malformed_in(
                rep,
                text2(
                    "hidden_party ",
                    repetition.hidden_party,
                    " out of range (num_parties = ",
                    num_parties,
                    ")",
                ).as_str(),
            ),
        );
    }
    if repetition.opened_views.len() != num_parties - 1 {
        return Err(
            malformed_in(
                rep,
                text2(
                    "expected ",
                    num_parties - 1,
                    " opened views, got ",
                    repetition.opened_views.len(),
                    "",
                ).as_str(),
            ),
        );
    }
    match check_views(proof_data, num_parties, rep, num_muls, depth) {
        Ok(_) => {},
        Err(e) => {
            return Err(e);
        },
    }
    if repetition.co_path.len() != depth {
        return Err(
            malformed_in(
                rep,
                text2(
                    "co_path has length ",
                    repetition.co_path.len(),
                    ", expected ",
                    depth,
                    "",
                ).as_str(),
            ),
        );
    }
    if repetition.assert_shares.len() != num_asserts {
        return Err(
            malformed_in(
                rep,
                text2(
                    "expected ",
                    num_asserts,
                    " AssertEq share rows, got ",
                    repetition.assert_shares.len(),
                    "",
                ).as_str(),
            ),
        );
    }
    if repetition.output_shares.len() != proof_data.circuit.num_outputs {
        return Err(
            malformed_in(
                rep,
                text2(
                    "expected ",
                    proof_data.circuit.num_outputs,
                    " output share rows, got ",
                    repetition.output_shares.len(),
                    "",
                ).as_str(),
            ),
        );
    }
    if !rows_fit(&repetition.assert_shares, num_parties) || !rows_fit(
        &repetition.output_shares,
        num_parties,
    ) {
        return Err(malformed_in(rep, "per-party share row has wrong party count"));
    }
    Ok(())
}

/// Checks the shape of a proof before any of its contents is used: the lengths of all lists and
/// the range of all indexes.
pub fn validate_proof_structure(proof_data: &Proof, params: &ProofParams) -> (r: Result<
    (),
    MpcithError,
>)
    requires
        params.num_parties >= 1,
    ensures
        checks::reports(r, protocol::shape_failure(proof_data@, params.num_parties as nat)),
{
    match check_dimensions(proof_data) {
        Ok(_) => {},
        Err(e) => {
            return Err(e);
        },
    }
    match check_gates(&proof_data.circuit) {
        Ok(_) => {},
        Err(e) => {
            return Err(e);
        },
    }
    if proof_data.expected_outputs.len() != proof_data.circuit.num_outputs {
        return Err(
            malformed(
                text2(
                    "expected_outputs has length ",
                    proof_data.expected_outputs.len(),
                    ", expected ",
                    proof_data.circuit.num_outputs,
                    "",
                ).as_str(),
            ),
        );
    }
    let num_muls: usize = proof_data.circuit.num_mul_gates();
    let num_asserts: usize = proof_data.circuit.assert_constraints().len();
    let depth: usize = tree::depth_for(params.num_parties);
    let ghost f = protocol::rep_shape_checks(proof_data@, params.num_parties as nat);
    let n: usize = proof_data.repetitions.len();
    let mut rep: usize = 0;
    while rep < n
        invariant
            rep <= n,
            n == proof_data.repetitions@.len(),
            params.num_parties >= 1,
            num_muls == circuit::count_mul(
                proof_data.circuit.gates@,
                proof_data.circuit.gates@.len(),
            ),
            num_asserts == proof_data@.circuit.assertions().len(),
            depth == tree::tree_depth(params.num_parties as nat),
            f == protocol::rep_shape_checks(proof_data@, params.num_parties as nat),
            protocol::shape_failure(proof_data@, params.num_parties as nat) == checks::first_some(
                f,
                rep as nat,
                n as nat,
            ),
        decreases n - rep,
    {
        proof {
            assert(f(rep as int) == protocol::rep_shape_failure(
                proof_data@,
                params.num_parties as nat,
                rep as nat,
            ));
        }
        match check_repetition(
            proof_data,
            params.num_parties,
            rep,
            num_muls,
            num_asserts,
            depth,
        ) {
            Ok(_) => {},
            Err(e) => {
                return Err(e);
            },
        }
        rep = rep + 1;
    }
    Ok(())
}

/// A proof has the right shape exactly if its dimensions are right, every gate names wires of the circuit
/// and is no exclusive or, there is an expected value for each output, and every repetition fits.
pub proof fn lemma_shape_exactly(p: ProofModel, n: nat)
    ensures
        protocol::shape_failure(p, n) is None <==> {
            let c = p.circuit;
            &&& 1 <= c.num_wires <= 4194304
            &&& c.gates.len() <= 4194304
            &&& c.num_inputs <= c.num_wires
            &&& c.num_outputs <= c.num_wires
            &&& p.num_circuit_wires == c.num_wires
            &&& p.num_circuit_outputs == c.num_outputs
            &&& forall|i: int|
                0 <= i < c.gates.len() ==> {
                    &&& (#[trigger] c.gates[i]).reads_below(c.num_wires as int)
                    &&& c.gates[i].target() < c.num_wires
                    &&& !(c.gates[i] is Xor)
                }
            &&& p.expected_outputs.len() == c.num_outputs
            &&& forall|rep: int|
                0 <= rep < p.repetitions.len() ==> #[trigger] repetition_fits(p, n, rep)
        },
{
    let c = p.circuit;
    protocol::lemma_dimensions(p);
    if protocol::shape_failure(p, n) is None {
        lemma_shape(p, n);
    }
    if protocol::dimension_failure(p) is None && p.expected_outputs.len() == c.num_outputs {
        if forall|i: int|
            0 <= i < c.gates.len() ==> {
                &&& (#[trigger] c.gates[i]).reads_below(c.num_wires as int)
                &&& c.gates[i].target() < c.num_wires
                &&& !(c.gates[i] is Xor)
            } {
            let f = protocol::gate_checks(c);
            assert forall|i: int| 0 <= i < c.gates.len() implies #[trigger] f(i) is None by {
                assert(c.gates[i].reads_below(c.num_wires as int));
            }
            checks::lemma_all_pass(f, 0, c.gates.len());
        }
        if forall|rep: int|
            0 <= rep < p.repetitions.len() ==> #[trigger] repetition_fits(p, n, rep) {
            let g = protocol::rep_shape_checks(p, n);
            assert forall|rep: int| 0 <= rep < p.repetitions.len() implies #[trigger] g(
                rep,
            ) is None by {
                assert(repetition_fits(p, n, rep));
                lemma_repetition_fits(p, n, rep);
            }
            checks::lemma_all_pass(g, 0, p.repetitions.len());
        }
    }
}

} // verus!
