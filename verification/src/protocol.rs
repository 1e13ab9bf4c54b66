//! What a proof contains, when it is accepted, and which proof an honest prover makes.

use crate::checks;
use crate::circuit;
use crate::circuit::CircuitModel;
use crate::commit_merkle;
use crate::commitment;
use crate::encoding;
use crate::error::ErrorModel;
use crate::fiat_shamir;
use crate::hash;
use crate::mpc;
use crate::mpc::ViewModel;
use crate::params;
use crate::params::ProofParams;
use crate::product;
use crate::ring;
use crate::seed_tree;
use crate::text;
use crate::tree;
use vstd::arithmetic::power2::*;
use vstd::prelude::*;

verus! {

/// The largest number of wires or gates of a circuit that a verifier looks at. It bounds the
/// memory that a hostile proof can make the verifier use.
pub const MAX_PROOF_CIRCUIT_WIRES: usize = 4194304;

/// The largest number of gates of a circuit that a verifier looks at.
pub const MAX_PROOF_CIRCUIT_GATES: usize = 4194304;

/// The contents of an opened view.
#[verifier::ext_equal]
pub struct OpenedModel {
    pub view: ViewModel,
    pub randomness: Seq<u8>,
    pub auth_path: Seq<Seq<u8>>,
}

/// What the prover says in a repetition before it knows which party stays hidden.
#[verifier::ext_equal]
pub struct Message {
    pub commitment_root: Seq<u8>,
    pub assert_shares: Seq<Seq<u32>>,
    pub output_shares: Seq<Seq<u32>>,
}

/// The contents of a repetition.
#[verifier::ext_equal]
pub struct RepetitionModel {
    pub hidden_party: nat,
    pub message: Message,
    pub co_path: Seq<Seq<u8>>,
    pub opened_views: Seq<OpenedModel>,
}

/// The siblings and the randomness of the opened views are blocks of 32 bytes.
pub open spec fn whole_blocks(r: RepetitionModel) -> bool {
    forall|i: int|
        0 <= i < r.opened_views.len() ==> {
            let v = #[trigger] r.opened_views[i];
            &&& v.randomness.len() == 32
            &&& forall|k: int| 0 <= k < v.auth_path.len() ==> (#[trigger] v.auth_path[k]).len() == 32
        }
}

/// The contents of a proof.
#[verifier::ext_equal]
pub struct ProofModel {
    pub public_inputs: Seq<u32>,
    pub expected_outputs: Seq<u32>,
    pub repetitions: Seq<RepetitionModel>,
    pub params: ProofParams,
    pub circuit: CircuitModel,
    pub circuit_hash: Seq<u8>,
    pub num_circuit_wires: nat,
    pub num_circuit_outputs: nat,
}

// ----------------------------------------------------------------------------
// The challenge
// ----------------------------------------------------------------------------

/// The bytes of the first `n` rows of shares.
pub open spec fn rows_bytes(rows: Seq<Seq<u32>>, n: nat) -> Seq<u8>
    decreases n,
{
    if n == 0 {
        Seq::empty()
    } else {
        rows_bytes(rows, (n - 1) as nat) + encoding::words(rows[n - 1], rows[n - 1].len())
    }
}

/// The bytes of the public shares of a repetition.
pub open spec fn public_shares_bytes(
    assert_shares: Seq<Seq<u32>>,
    output_shares: Seq<Seq<u32>>,
) -> Seq<u8> {
    rows_bytes(assert_shares, assert_shares.len()) + rows_bytes(output_shares, output_shares.len())
}

/// The bytes of the first `n` messages.
pub open spec fn transcript(messages: Seq<Message>, n: nat) -> Seq<u8>
    decreases n,
{
    if n == 0 {
        Seq::empty()
    } else {
        let m = messages[n - 1];
        transcript(messages, (n - 1) as nat) + m.commitment_root + public_shares_bytes(
            m.assert_shares,
            m.output_shares,
        )
    }
}

/// The messages of the repetitions.
pub open spec fn messages_of(repetitions: Seq<RepetitionModel>) -> Seq<Message> {
    Seq::new(repetitions.len(), |i: int| repetitions[i].message)
}

/// The hidden party of each repetition.
pub open spec fn hidden_parties(
    messages: Seq<Message>,
    public_inputs: Seq<u32>,
    circuit_hash: Seq<u8>,
    params: ProofParams,
) -> Seq<usize> {
    fiat_shamir::challenges(
        transcript(messages, messages.len()),
        public_inputs,
        circuit_hash,
        params.num_repetitions as nat,
        params.num_parties as nat,
    )
}

// ----------------------------------------------------------------------------
// The shape of a proof
// ----------------------------------------------------------------------------

/// What is said of a proof that has the wrong shape.
pub open spec fn malformed(what: Seq<char>) -> ErrorModel {
    ErrorModel::VerificationFailed("malformed proof: "@ + what)
}

/// What is said of a repetition that has the wrong shape.
pub open spec fn malformed_in(rep: nat, what: Seq<char>) -> ErrorModel {
    malformed(text::line1("repetition "@, rep, ": "@) + what)
}

/// Why a gate is not accepted, if it is not.
pub open spec fn gate_failure(c: CircuitModel, i: int) -> Option<ErrorModel> {
    let gate = c.gates[i];
    if !gate.reads_below(c.num_wires as int) || gate.target() >= c.num_wires {
        Some(
            malformed(
                text::line2(
                    "gate "@,
                    i as nat,
                    " references a wire outside 0.."@,
                    c.num_wires,
                    ""@,
                ),
            ),
        )
    } else if gate is Xor {
        Some(
            malformed(
                text::line1("gate "@, i as nat, " is an XOR gate, which cannot be verified"@),
            ),
        )
    } else {
        None
    }
}

/// The checks of all gates.
pub open spec fn gate_checks(c: CircuitModel) -> spec_fn(int) -> Option<ErrorModel> {
    |i: int| gate_failure(c, i)
}

/// Whether one of the first `n` opened views is that of a party.
pub open spec fn opened_before(views: Seq<OpenedModel>, n: int, party: nat) -> bool {
    exists|j: int| 0 <= j < n && (#[trigger] views[j]).view.party_idx == party
}

/// Why an opened view has the wrong shape, if it has.
pub open spec fn view_shape_failure(
    p: ProofModel,
    num_parties: nat,
    rep: nat,
    i: int,
) -> Option<ErrorModel> {
    let r = p.repetitions[rep as int];
    let v = r.opened_views[i];
    let party = v.view.party_idx;
    let muls = circuit::count_mul(p.circuit.gates, p.circuit.gates.len());
    let residual = if party == num_parties - 1 {
        p.circuit.num_inputs
    } else {
        0
    };
    let depth = tree::tree_depth(num_parties);
    if party >= num_parties {
        Some(
            malformed_in(
                rep,
                text::line2(
                    "opened party index "@,
                    party,
                    " out of range (num_parties = "@,
                    num_parties,
                    ")"@,
                ),
            ),
        )
    } else if party == r.hidden_party {
        Some(malformed_in(rep, text::line1("opened view claims hidden party "@, party, ""@)))
    } else if opened_before(r.opened_views, i, party) {
        Some(malformed_in(rep, text::line1("duplicate opened party index "@, party, ""@)))
    } else if v.view.mul_output_shares.len() != muls {
        Some(
            malformed_in(
                rep,
                text::line3(
                    "party "@,
                    party,
                    ": mul_output_shares has length "@,
                    v.view.mul_output_shares.len(),
                    ", expected "@,
                    muls,
                    ""@,
                ),
            ),
        )
    } else if v.view.residual_input_shares.len() != residual {
        Some(
            malformed_in(
                rep,
                text::line3(
                    "party "@,
                    party,
                    ": residual_input_shares has length "@,
                    v.view.residual_input_shares.len(),
                    ", expected "@,
                    residual,
                    ""@,
                ),
            ),
        )
    } else if v.auth_path.len() != depth {
        Some(
            malformed_in(
                rep,
                text::line3(
                    "party "@,
                    party,
                    ": commitment_auth_path has length "@,
                    v.auth_path.len(),
                    ", expected "@,
                    depth,
                    ""@,
                ),
            ),
        )
    } else {
        None
    }
}

/// The shape checks of all opened views of a repetition.
pub open spec fn view_shape_checks(p: ProofModel, num_parties: nat, rep: nat) -> spec_fn(
    int,
) -> Option<ErrorModel> {
    |i: int| view_shape_failure(p, num_parties, rep, i)
}

/// Why a party is missing, if it is.
pub open spec fn missing_failure(p: ProofModel, rep: nat, party: int) -> Option<ErrorModel> {
    let r = p.repetitions[rep as int];
    if party != r.hidden_party && !opened_before(
        r.opened_views,
        r.opened_views.len() as int,
        party as nat,
    ) {
        Some(
            malformed_in(
                rep,
                text::line1("non-hidden party "@, party as nat, " missing from opened views"@),
            ),
        )
    } else {
        None
    }
}

/// The checks that no party is missing.
pub open spec fn missing_checks(p: ProofModel, rep: nat) -> spec_fn(int) -> Option<ErrorModel> {
    |party: int| missing_failure(p, rep, party)
}

/// Whether every row has one entry per party.
pub open spec fn rows_ok(rows: Seq<Seq<u32>>, num_parties: nat) -> bool {
    forall|i: int| 0 <= i < rows.len() ==> (#[trigger] rows[i]).len() == num_parties
}

/// Why a repetition has the wrong shape, if it has.
pub open spec fn rep_shape_failure(p: ProofModel, num_parties: nat, rep: nat) -> Option<
    ErrorModel,
> {
    let r = p.repetitions[rep as int];
    let asserts = p.circuit.assertions().len();
    let outputs = p.circuit.num_outputs;
    let depth = tree::tree_depth(num_parties);
    if r.hidden_party >= num_parties {
        Some(
            malformed_in(
                rep,
                text::line2(
                    "hidden_party "@,
                    r.hidden_party,
                    " out of range (num_parties = "@,
                    num_parties,
                    ")"@,
                ),
            ),
        )
    } else if r.opened_views.len() != num_parties - 1 {
        Some(
            malformed_in(
                rep,
                text::line2(
                    "expected "@,
                    (num_parties - 1) as nat,
                    " opened views, got "@,
                    r.opened_views.len(),
                    ""@,
                ),
            ),
        )
    } else {
        match checks::first_some(
            view_shape_checks(p, num_parties, rep),
            0,
            r.opened_views.len(),
        ) {
            Some(e) => Some(e),
            None => match checks::first_some(missing_checks(p, rep), 0, num_parties) {
                Some(e) => Some(e),
                None => if r.co_path.len() != depth {
                    Some(
                        malformed_in(
                            rep,
                            text::line2(
                                "co_path has length "@,
                                r.co_path.len(),
                                ", expected "@,
                                depth,
                                ""@,
                            ),
                        ),
                    )
                } else if r.message.assert_shares.len() != asserts {
                    Some(
                        malformed_in(
                            rep,
                            text::line2(
                                "expected "@,
                                asserts,
                                " AssertEq share rows, got "@,
                                r.message.assert_shares.len(),
                                ""@,
                            ),
                        ),
                    )
                } else if r.message.output_shares.len() != outputs {
                    Some(
                        malformed_in(
                            rep,
                            text::line2(
                                "expected "@,
                                outputs,
                                " output share rows, got "@,
                                r.message.output_shares.len(),
                                ""@,
                            ),
                        ),
                    )
                } else if !rows_ok(r.message.assert_shares, num_parties) || !rows_ok(
                    r.message.output_shares,
                    num_parties,
                ) {
                    Some(malformed_in(rep, "per-party share row has wrong party count"@))
                } else {
                    None
                },
            },
        }
    }
}

/// The shape checks of all repetitions.
pub open spec fn rep_shape_checks(p: ProofModel, num_parties: nat) -> spec_fn(int) -> Option<
    ErrorModel,
> {
    |rep: int| rep_shape_failure(p, num_parties, rep as nat)
}

/// Why the dimensions of a proof are wrong, if they are.
pub open spec fn dimension_failure(p: ProofModel) -> Option<ErrorModel> {
    let c = p.circuit;
    if c.num_wires == 0 {
        Some(malformed("circuit declares zero wires"@))
    } else if c.num_wires > MAX_PROOF_CIRCUIT_WIRES {
        Some(
            malformed(
                text::line2(
                    "circuit.num_wires "@,
                    c.num_wires,
                    " exceeds maximum "@,
                    MAX_PROOF_CIRCUIT_WIRES as nat,
                    ""@,
                ),
            ),
        )
    } else if c.gates.len() > MAX_PROOF_CIRCUIT_GATES {
        Some(
            malformed(
                text::line2(
                    "circuit has "@,
                    c.gates.len(),
                    " gates, exceeding maximum "@,
                    MAX_PROOF_CIRCUIT_GATES as nat,
                    ""@,
                ),
            ),
        )
    } else if c.num_inputs > c.num_wires {
        Some(
            malformed(
                text::line2("num_inputs "@, c.num_inputs, " exceeds num_wires "@, c.num_wires, ""@),
            ),
        )
    } else if p.num_circuit_wires != c.num_wires || p.num_circuit_outputs != c.num_outputs {
        Some(
            malformed(
                text::line4(
                    "declared dimensions ("@,
                    p.num_circuit_wires,
                    ", "@,
                    p.num_circuit_outputs,
                    ") inconsistent with embedded circuit ("@,
                    c.num_wires,
                    ", "@,
                    c.num_outputs,
                    ")"@,
                ),
            ),
        )
    } else if c.num_outputs > c.num_wires {
        Some(
            malformed(
                text::line2(
                    "num_outputs "@,
                    c.num_outputs,
                    " exceeds num_wires "@,
                    c.num_wires,
                    ""@,
                ),
            ),
        )
    } else {
        None
    }
}

/// Why a proof has the wrong shape, if it has.
pub open spec fn shape_failure(p: ProofModel, num_parties: nat) -> Option<ErrorModel> {
    match dimension_failure(p) {
        Some(e) => Some(e),
        None => match checks::first_some(gate_checks(p.circuit), 0, p.circuit.gates.len()) {
            Some(e) => Some(e),
            None => if p.expected_outputs.len() != p.circuit.num_outputs {
                Some(
                    malformed(
                        text::line2(
                            "expected_outputs has length "@,
                            p.expected_outputs.len(),
                            ", expected "@,
                            p.circuit.num_outputs,
                            ""@,
                        ),
                    ),
                )
            } else {
                checks::first_some(
                    rep_shape_checks(p, num_parties),
                    0,
                    p.repetitions.len(),
                )
            },
        },
    }
}

// ----------------------------------------------------------------------------
// The checks of a proof
// ----------------------------------------------------------------------------

/// The position of the first opened view at or after `from` that is that of a party.
pub open spec fn position_of(views: Seq<OpenedModel>, party: nat, from: nat) -> nat
    decreases views.len() - from,
{
    if from >= views.len() || views[from as int].view.party_idx == party {
        from
    } else {
        position_of(views, party, from + 1)
    }
}

/// The seeds that the co-path of a repetition gives.
pub open spec fn opened_seeds(r: RepetitionModel, num_parties: nat) -> Seq<Seq<u8>> {
    seed_tree::reconstructed(r.co_path, r.hidden_party, num_parties)
}

/// The shares of all wires of an opened party, from what is opened of it.
pub open spec fn opened_shares(
    c: CircuitModel,
    r: RepetitionModel,
    num_parties: nat,
    party: nat,
) -> Seq<u32> {
    let v = r.opened_views[position_of(r.opened_views, party, 0) as int].view;
    mpc::recomputed(
        c,
        opened_seeds(r, num_parties)[party as int],
        party as int,
        num_parties as int,
        v.mul_output_shares,
        v.residual_input_shares,
    )
}

/// For each wire the shares of all opened parties; zero for the hidden one.
pub open spec fn opened_wires(c: CircuitModel, r: RepetitionModel, num_parties: nat) -> Seq<
    Seq<u32>,
> {
    Seq::new(
        c.num_wires,
        |w: int|
            Seq::new(
                num_parties,
                |q: int|
                    if q == r.hidden_party {
                        0
                    } else {
                        opened_shares(c, r, num_parties, q as nat)[w]
                    },
            ),
    )
}

/// What is known of the parties on the right of an opened party: the seed of the next party and
/// the sums of the shares, unless the hidden party is among them.
pub open spec fn known_right(
    c: CircuitModel,
    r: RepetitionModel,
    num_parties: nat,
    party: nat,
) -> Option<(Seq<u8>, Seq<u32>)> {
    if product::on_right(party as int, r.hidden_party as int, num_parties as int) {
        None
    } else {
        Some(
            (
                opened_seeds(r, num_parties)[((party + 1) % num_parties) as int],
                mpc::right_column(opened_wires(c, r, num_parties), party as int),
            ),
        )
    }
}

/// Why the public share of an assertion does not match an opened view, if it does not.
pub open spec fn assert_share_failure(
    c: CircuitModel,
    r: RepetitionModel,
    rep: nat,
    party: nat,
    own: Seq<u32>,
    g: int,
) -> Option<ErrorModel> {
    if r.message.assert_shares[g][party as int] != own[c.assertions()[g].0 as int] {
        Some(
            ErrorModel::VerificationFailed(
                text::line3(
                    "Repetition "@,
                    rep,
                    ": party "@,
                    party,
                    " assert-share mismatch for gate "@,
                    g as nat,
                    ""@,
                ),
            ),
        )
    } else {
        None
    }
}

/// The checks of the public shares of all assertions against an opened view.
pub open spec fn assert_share_checks(
    c: CircuitModel,
    r: RepetitionModel,
    rep: nat,
    party: nat,
    own: Seq<u32>,
) -> spec_fn(int) -> Option<ErrorModel> {
    |g: int| assert_share_failure(c, r, rep, party, own, g)
}

/// Why the public share of an output does not match an opened view, if it does not.
pub open spec fn output_share_failure(
    c: CircuitModel,
    r: RepetitionModel,
    rep: nat,
    party: nat,
    own: Seq<u32>,
    o: int,
) -> Option<ErrorModel> {
    if r.message.output_shares[o][party as int] != own[c.output_start() + o] {
        Some(
            ErrorModel::VerificationFailed(
                text::line3(
                    "Repetition "@,
                    rep,
                    ": party "@,
                    party,
                    " output-share mismatch for output "@,
                    o as nat,
                    ""@,
                ),
            ),
        )
    } else {
        None
    }
}

/// The checks of the public shares of all outputs against an opened view.
pub open spec fn output_share_checks(
    c: CircuitModel,
    r: RepetitionModel,
    rep: nat,
    party: nat,
    own: Seq<u32>,
) -> spec_fn(int) -> Option<ErrorModel> {
    |o: int| output_share_failure(c, r, rep, party, own, o)
}

/// Why an opened view is not accepted, if it is not: its commitment is not under the root, the
/// shares that come with it are not those that follow from it, its shares do not fit together, or
/// they are not the public ones.
pub open spec fn opened_failure(
    c: CircuitModel,
    r: RepetitionModel,
    num_parties: nat,
    rep: nat,
    i: int,
) -> Option<ErrorModel> {
    let v = r.opened_views[i];
    let party = v.view.party_idx;
    let seed = opened_seeds(r, num_parties)[party as int];
    let leaf = commitment::view_commitment(
        rep,
        party,
        seed,
        v.view.committed(seed),
        v.randomness,
    );
    let own = opened_shares(c, r, num_parties, party);
    if tree::fold(leaf, party, v.auth_path, v.auth_path.len(), commit_merkle::combine())
        != r.message.commitment_root {
        Some(ErrorModel::CommitmentMismatch { party, repetition: rep })
    } else if v.view.wire_shares.len() > 0 && v.view.wire_shares != own {
        Some(ErrorModel::ConsistencyCheckFailed(party))
    } else if !mpc::view_consistent(
        c.gates,
        own,
        party as int,
        seed,
        known_right(c, r, num_parties, party),
    ) {
        Some(ErrorModel::ConsistencyCheckFailed(party))
    } else {
        match checks::first_some(
            assert_share_checks(c, r, rep, party, own),
            0,
            c.assertions().len(),
        ) {
            Some(e) => Some(e),
            None => checks::first_some(
                output_share_checks(c, r, rep, party, own),
                0,
                c.num_outputs,
            ),
        }
    }
}

/// The checks of all opened views of a repetition.
pub open spec fn opened_checks(
    c: CircuitModel,
    r: RepetitionModel,
    num_parties: nat,
    rep: nat,
) -> spec_fn(int) -> Option<ErrorModel> {
    |i: int| opened_failure(c, r, num_parties, rep, i)
}

/// Why an assertion is not true of the public shares, if it is not.
pub open spec fn assert_sum_failure(
    c: CircuitModel,
    r: RepetitionModel,
    rep: nat,
    g: int,
) -> Option<ErrorModel> {
    let sum = ring::wrap(ring::total(r.message.assert_shares[g]));
    let expected = c.assertions()[g].1;
    if sum != expected {
        Some(
            ErrorModel::VerificationFailed(
                text::line4(
                    "Repetition "@,
                    rep,
                    ": AssertEq gate "@,
                    g as nat,
                    " failed (reconstructed "@,
                    sum as nat,
                    ", expected "@,
                    expected as nat,
                    ")"@,
                ),
            ),
        )
    } else {
        None
    }
}

/// The checks of all assertions.
pub open spec fn assert_sum_checks(c: CircuitModel, r: RepetitionModel, rep: nat) -> spec_fn(
    int,
) -> Option<ErrorModel> {
    |g: int| assert_sum_failure(c, r, rep, g)
}

/// The value that an output must have: the one that the circuit asserts, if it asserts one, and
/// the one that the prover gives otherwise.
pub open spec fn required_output(p: ProofModel, o: int) -> u32 {
    match circuit::asserted_output(p.circuit.gates, 0, (p.circuit.output_start() + o) as nat) {
        Some(x) => x,
        None => p.expected_outputs[o],
    }
}

/// Why an output is not what it must be, if it is not.
pub open spec fn output_sum_failure(p: ProofModel, rep: nat, o: int) -> Option<ErrorModel> {
    let sum = ring::wrap(ring::total(p.repetitions[rep as int].message.output_shares[o]));
    let expected = required_output(p, o);
    if sum != expected {
        Some(
            ErrorModel::VerificationFailed(
                text::line4(
                    "Repetition "@,
                    rep,
                    ": output["@,
                    o as nat,
                    "] reconstructed as "@,
                    sum as nat,
                    ", expected "@,
                    expected as nat,
                    ""@,
                ),
            ),
        )
    } else {
        None
    }
}

/// The checks of all outputs.
pub open spec fn output_sum_checks(p: ProofModel, rep: nat) -> spec_fn(int) -> Option<ErrorModel> {
    |o: int| output_sum_failure(p, rep, o)
}

/// Why the contents of a repetition are not accepted, if they are not: an opened view, an assertion
/// or an output is wrong.
pub open spec fn opened_then_sums(p: ProofModel, num_parties: nat, rep: nat) -> Option<ErrorModel> {
    let r = p.repetitions[rep as int];
    match checks::first_some(
        opened_checks(p.circuit, r, num_parties, rep),
        0,
        r.opened_views.len(),
    ) {
        Some(e) => Some(e),
        None => match checks::first_some(
            assert_sum_checks(p.circuit, r, rep),
            0,
            p.circuit.assertions().len(),
        ) {
            Some(e) => Some(e),
            None => checks::first_some(output_sum_checks(p, rep), 0, p.circuit.num_outputs),
        },
    }
}

/// Why a repetition is not accepted, if it is not. `hidden` is the party that must be hidden.
pub open spec fn rep_failure(
    p: ProofModel,
    params: ProofParams,
    rep: nat,
    hidden: nat,
) -> Option<ErrorModel> {
    let r = p.repetitions[rep as int];
    if r.hidden_party != hidden {
        Some(
            ErrorModel::VerificationFailed(
                text::line3(
                    "Repetition "@,
                    rep,
                    ": hidden party mismatch (expected "@,
                    hidden,
                    ", got "@,
                    r.hidden_party,
                    ")"@,
                ),
            ),
        )
    } else {
        opened_then_sums(p, params.num_parties as nat, rep)
    }
}

/// The checks of all repetitions.
pub open spec fn rep_checks(
    p: ProofModel,
    public_inputs: Seq<u32>,
    params: ProofParams,
) -> spec_fn(int) -> Option<ErrorModel> {
    let hidden = hidden_parties(
        messages_of(p.repetitions),
        public_inputs,
        p.circuit_hash,
        params,
    );
    |rep: int| rep_failure(p, params, rep as nat, hidden[rep] as nat)
}

/// Why a proof is not accepted, if it is not. It is accepted exactly if there is no reason.
pub open spec fn verification_failure(
    p: ProofModel,
    public_inputs: Seq<u32>,
    params: ProofParams,
) -> Option<ErrorModel> {
    match params::params_failure(params) {
        Some(e) => Some(e),
        None => if p.public_inputs != public_inputs {
            Some(ErrorModel::VerificationFailed("Public inputs do not match proof"@))
        } else if p.repetitions.len() != params.num_repetitions {
            Some(
                ErrorModel::VerificationFailed(
                    text::line2(
                        "Expected "@,
                        params.num_repetitions as nat,
                        " repetitions, got "@,
                        p.repetitions.len(),
                        ""@,
                    ),
                ),
            )
        } else if fiat_shamir::circuit_digest(p.circuit) != p.circuit_hash {
            Some(
                ErrorModel::VerificationFailed(
                    "Embedded circuit hash does not match proof circuit_hash"@,
                ),
            )
        } else {
            match shape_failure(p, params.num_parties as nat) {
                Some(e) => Some(e),
                None => checks::first_some(
                    rep_checks(p, public_inputs, params),
                    0,
                    p.repetitions.len(),
                ),
            }
        },
    }
}

/// An accepted proof is one for the given public inputs, with the given number of repetitions, and
/// its digest is that of its circuit. Every repetition hides the party that the transcript
/// determines.
pub proof fn lemma_accepted(p: ProofModel, public_inputs: Seq<u32>, params: ProofParams)
    requires
        verification_failure(p, public_inputs, params) is None,
    ensures
        params::params_failure(params) is None,
        p.public_inputs == public_inputs,
        p.repetitions.len() == params.num_repetitions,
        p.circuit_hash == fiat_shamir::circuit_digest(p.circuit),
        shape_failure(p, params.num_parties as nat) is None,
        forall|rep: int|
            #![trigger p.repetitions[rep]]
            0 <= rep < p.repetitions.len() ==> {
                &&& p.repetitions[rep].hidden_party == hidden_parties(
                    messages_of(p.repetitions),
                    public_inputs,
                    p.circuit_hash,
                    params,
                )[rep]
                &&& opened_then_sums(p, params.num_parties as nat, rep as nat) is None
            },
{
    let f = rep_checks(p, public_inputs, params);
    assert forall|rep: int|
        #![trigger p.repetitions[rep]]
        0 <= rep < p.repetitions.len() implies {
        &&& p.repetitions[rep].hidden_party == hidden_parties(
            messages_of(p.repetitions),
            public_inputs,
            p.circuit_hash,
            params,
        )[rep]
        &&& opened_then_sums(p, params.num_parties as nat, rep as nat) is None
    } by {
        checks::lemma_none_fails(f, 0, p.repetitions.len(), rep);
    }
}

/// Trees over the parties can be held in memory.
pub open spec fn params_fit(params: ProofParams) -> bool {
    2 * pow2(tree::tree_depth(params.num_parties as nat)) < usize::MAX
}

// ----------------------------------------------------------------------------
// The honest prover
// ----------------------------------------------------------------------------

/// Why a witness is not accepted, if it is not.
pub open spec fn witness_failure(c: CircuitModel, witness: Seq<u32>) -> Option<ErrorModel> {
    match c.evaluation_failure(witness) {
        Some(e) => Some(
            ErrorModel::InvalidWitness("Witness does not satisfy circuit: "@ + e.message()),
        ),
        None => None,
    }
}

/// The random choices of a prover: for each repetition a root seed and, for each party, the
/// randomness of its commitment.
#[verifier::ext_equal]
pub struct RandomnessModel {
    pub root_seeds: Seq<Seq<u8>>,
    pub openings: Seq<Seq<Seq<u8>>>,
}

/// There is randomness for every repetition and party.
pub open spec fn enough_randomness(rnd: RandomnessModel, params: ProofParams) -> bool {
    &&& rnd.root_seeds.len() == params.num_repetitions
    &&& rnd.openings.len() == params.num_repetitions
    &&& forall|rep: int|
        0 <= rep < params.num_repetitions ==> (#[trigger] rnd.openings[rep]).len()
            == params.num_parties
}

/// The seeds of the parties in a repetition.
pub open spec fn honest_seeds(rnd: RandomnessModel, n: nat, rep: int) -> Seq<Seq<u8>> {
    seed_tree::leaves_of(rnd.root_seeds[rep], n)
}

/// The shares of all wires in a repetition.
pub open spec fn honest_wires(
    c: CircuitModel,
    witness: Seq<u32>,
    rnd: RandomnessModel,
    n: nat,
    rep: int,
) -> Seq<Seq<u32>> {
    mpc::shared(c.gates, c.gates.len(), witness, honest_seeds(rnd, n, rep), Seq::empty())
}

/// The view of a party in a repetition.
pub open spec fn honest_party_view(
    c: CircuitModel,
    witness: Seq<u32>,
    rnd: RandomnessModel,
    n: nat,
    rep: int,
    p: int,
) -> ViewModel {
    mpc::honest_view(
        c,
        honest_wires(c, witness, rnd, n, rep),
        honest_seeds(rnd, n, rep),
        p,
    )
}

/// The commitments to the views in a repetition.
pub open spec fn honest_leaves(
    c: CircuitModel,
    witness: Seq<u32>,
    rnd: RandomnessModel,
    n: nat,
    rep: int,
) -> Seq<Seq<u8>> {
    Seq::new(
        n,
        |p: int|
            {
                let view = honest_party_view(c, witness, rnd, n, rep, p);
                commitment::view_commitment(
                    rep as nat,
                    p as nat,
                    view.seed,
                    view.committed(view.seed),
                    rnd.openings[rep][p],
                )
            },
    )
}

/// The rows of shares that are made public: one per assertion.
pub open spec fn assert_rows(c: CircuitModel, wires: Seq<Seq<u32>>) -> Seq<Seq<u32>> {
    Seq::new(c.assertions().len(), |g: int| wires[c.assertions()[g].0 as int])
}

/// The rows of shares that are made public: one per output.
pub open spec fn output_rows(c: CircuitModel, wires: Seq<Seq<u32>>) -> Seq<Seq<u32>> {
    Seq::new(c.num_outputs, |o: int| wires[c.output_start() + o])
}

/// What the prover says in a repetition before it knows which party stays hidden.
pub open spec fn honest_message(
    c: CircuitModel,
    witness: Seq<u32>,
    rnd: RandomnessModel,
    n: nat,
    rep: int,
) -> Message {
    let wires = honest_wires(c, witness, rnd, n, rep);
    Message {
        commitment_root: commit_merkle::commit_root(honest_leaves(c, witness, rnd, n, rep)),
        assert_shares: assert_rows(c, wires),
        output_shares: output_rows(c, wires),
    }
}

/// What the prover says in all repetitions.
pub open spec fn honest_messages(
    c: CircuitModel,
    witness: Seq<u32>,
    rnd: RandomnessModel,
    params: ProofParams,
) -> Seq<Message> {
    Seq::new(
        params.num_repetitions as nat,
        |rep: int| honest_message(c, witness, rnd, params.num_parties as nat, rep),
    )
}

/// The opened view of a party in a repetition.
pub open spec fn honest_opened(
    c: CircuitModel,
    witness: Seq<u32>,
    rnd: RandomnessModel,
    n: nat,
    rep: int,
    p: int,
) -> OpenedModel {
    OpenedModel {
        view: honest_party_view(c, witness, rnd, n, rep, p),
        randomness: rnd.openings[rep][p],
        auth_path: tree::path(
            tree::padded(honest_leaves(c, witness, rnd, n, rep), encoding::zero_block()),
            tree::tree_depth(n),
            p as nat,
            commit_merkle::combine(),
        ),
    }
}

/// The party at position `i` when all parties but the hidden one are listed in order.
pub open spec fn nth_opened(hidden: nat, i: int) -> int {
    if i < hidden {
        i
    } else {
        i + 1
    }
}

/// A repetition of an honest prover.
pub open spec fn honest_repetition(
    c: CircuitModel,
    witness: Seq<u32>,
    rnd: RandomnessModel,
    n: nat,
    rep: int,
    hidden: nat,
) -> RepetitionModel {
    RepetitionModel {
        hidden_party: hidden,
        message: honest_message(c, witness, rnd, n, rep),
        co_path: seed_tree::co_path_of(rnd.root_seeds[rep], n, hidden),
        opened_views: Seq::new(
            (n - 1) as nat,
            |i: int| honest_opened(c, witness, rnd, n, rep, nth_opened(hidden, i)),
        ),
    }
}

/// The proof that an honest prover makes with the given random choices.
pub open spec fn honest_proof(
    c: CircuitModel,
    witness: Seq<u32>,
    public_inputs: Seq<u32>,
    params: ProofParams,
    rnd: RandomnessModel,
) -> ProofModel {
    let hidden = hidden_parties(
        honest_messages(c, witness, rnd, params),
        public_inputs,
        fiat_shamir::circuit_digest(c),
        params,
    );
    ProofModel {
        public_inputs,
        expected_outputs: c.trace(witness).subrange(c.output_start(), c.num_wires as int),
        repetitions: Seq::new(
            params.num_repetitions as nat,
            |rep: int|
                honest_repetition(
                    c,
                    witness,
                    rnd,
                    params.num_parties as nat,
                    rep,
                    hidden[rep] as nat,
                ),
        ),
        params,
        circuit: c,
        circuit_hash: fiat_shamir::circuit_digest(c),
        num_circuit_wires: c.num_wires,
        num_circuit_outputs: c.num_outputs,
    }
}

/// Two messages have the same shape.
pub open spec fn same_shape(a: Message, b: Message) -> bool {
    &&& a.commitment_root.len() == b.commitment_root.len()
    &&& same_rows_shape(a.assert_shares, b.assert_shares)
    &&& same_rows_shape(a.output_shares, b.output_shares)
}

/// Two lists of rows have the same shape.
pub open spec fn same_rows_shape(a: Seq<Seq<u32>>, b: Seq<Seq<u32>>) -> bool {
    &&& a.len() == b.len()
    &&& forall|i: int| 0 <= i < a.len() ==> (#[trigger] a[i]).len() == b[i].len()
}

proof fn lemma_rows_bind(a: Seq<Seq<u32>>, b: Seq<Seq<u32>>, n: nat)
    requires
        same_rows_shape(a, b),
        n <= a.len(),
    ensures
        rows_bytes(a, n).len() == rows_bytes(b, n).len(),
        rows_bytes(a, n) == rows_bytes(b, n) ==> forall|i: int|
            0 <= i < n ==> #[trigger] a[i] == b[i],
    decreases n,
{
    if n > 0 {
        let m = (n - 1) as nat;
        lemma_rows_bind(a, b, m);
        assert(a[m as int].len() == b[m as int].len());
        let x = rows_bytes(a, m);
        let y = rows_bytes(b, m);
        let u = encoding::words(a[m as int], a[m as int].len());
        let v = encoding::words(b[m as int], b[m as int].len());
        encoding::lemma_words_len(a[m as int], a[m as int].len());
        encoding::lemma_words_len(b[m as int], b[m as int].len());
        if rows_bytes(a, n) == rows_bytes(b, n) {
            let s = x + u;
            let t = y + v;
            assert(s == t);
            assert(x =~= s.subrange(0, x.len() as int));
            assert(y =~= t.subrange(0, x.len() as int));
            assert(u =~= s.subrange(x.len() as int, s.len() as int));
            assert(v =~= t.subrange(x.len() as int, t.len() as int));
            encoding::lemma_same_words(a[m as int], b[m as int]);
        }
    }
}

/// The transcript determines what the prover said in every repetition: its commitments and its public
/// shares.
pub proof fn lemma_transcript_binds(a: Seq<Message>, b: Seq<Message>, n: nat)
    requires
        n <= a.len(),
        n <= b.len(),
        forall|i: int| 0 <= i < n ==> same_shape(#[trigger] a[i], b[i]),
    ensures
        transcript(a, n).len() == transcript(b, n).len(),
        transcript(a, n) == transcript(b, n) ==> forall|i: int|
            0 <= i < n ==> #[trigger] a[i] == b[i],
    decreases n,
{
    if n > 0 {
        let m = (n - 1) as nat;
        lemma_transcript_binds(a, b, m);
        let p = a[m as int];
        let q = b[m as int];
        assert(same_shape(p, q));
        lemma_rows_bind(p.assert_shares, q.assert_shares, p.assert_shares.len());
        lemma_rows_bind(p.output_shares, q.output_shares, p.output_shares.len());
        if transcript(a, n) == transcript(b, n) {
            let s = transcript(a, n);
            let x = transcript(a, m);
            let y = transcript(b, m);
            let u = rows_bytes(p.assert_shares, p.assert_shares.len());
            let v = rows_bytes(q.assert_shares, q.assert_shares.len());
            let w = rows_bytes(p.output_shares, p.output_shares.len());
            let z = rows_bytes(q.output_shares, q.output_shares.len());
            let e1 = x.len() as int;
            let e2 = e1 + p.commitment_root.len();
            let e3 = e2 + u.len();
            assert(x =~= s.subrange(0, e1));
            assert(y =~= s.subrange(0, e1));
            assert(p.commitment_root =~= s.subrange(e1, e2));
            assert(q.commitment_root =~= s.subrange(e1, e2));
            assert(u =~= s.subrange(e2, e3));
            assert(v =~= s.subrange(e2, e3));
            assert(w =~= s.subrange(e3, s.len() as int));
            assert(z =~= s.subrange(e3, s.len() as int));
            assert(p.assert_shares =~= q.assert_shares);
            assert(p.output_shares =~= q.output_shares);
            assert(p == q);
        }
    }
}

/// The challenge is bound to everything that is said before it: for different messages of the same
/// shape, other public inputs or another circuit hash, other bytes are hashed to draw the hidden
/// parties.
pub proof fn lemma_challenge_binds(
    a: Seq<Message>,
    p: Seq<u32>,
    h: Seq<u8>,
    b: Seq<Message>,
    q: Seq<u32>,
    g: Seq<u8>,
    params: ProofParams,
)
    requires
        a.len() == b.len(),
        forall|i: int| 0 <= i < a.len() ==> same_shape(#[trigger] a[i], b[i]),
        p.len() == q.len(),
        h.len() == g.len(),
        a != b || p != q || h != g,
    ensures
        hidden_parties(a, p, h, params) == fiat_shamir::challenges(
            transcript(a, a.len()),
            p,
            h,
            params.num_repetitions as nat,
            params.num_parties as nat,
        ),
        fiat_shamir::challenge_input(
            transcript(a, a.len()),
            p,
            h,
            params.num_repetitions as nat,
            params.num_parties as nat,
        ) != fiat_shamir::challenge_input(
            transcript(b, b.len()),
            q,
            g,
            params.num_repetitions as nat,
            params.num_parties as nat,
        ),
{
    let m = params.num_repetitions as nat;
    let n = params.num_parties as nat;
    let x = transcript(a, a.len());
    let y = transcript(b, b.len());
    lemma_transcript_binds(a, b, a.len());
    if fiat_shamir::challenge_input(x, p, h, m, n) == fiat_shamir::challenge_input(y, q, g, m, n) {
        fiat_shamir::lemma_challenge_input_binds(x, p, h, m, n, y, q, g, m, n);
        assert(a =~= b);
    }
}

/// What is accepted of each repetition: every opened view lies under the root of the commitments, its
/// shares fit together and are the public ones, and the public shares of every assertion and every
/// output add up to what they must.
pub proof fn lemma_accepted_contents(
    p: ProofModel,
    public_inputs: Seq<u32>,
    params: ProofParams,
    rep: int,
    i: int,
)
    requires
        verification_failure(p, public_inputs, params) is None,
        0 <= rep < p.repetitions.len(),
        0 <= i < p.repetitions[rep].opened_views.len(),
    ensures
        ({
            let c = p.circuit;
            let r = p.repetitions[rep];
            let n = params.num_parties as nat;
            let v = r.opened_views[i];
            let q = v.view.party_idx;
            let seed = seed_tree::reconstructed(r.co_path, r.hidden_party, n)[q as int];
            let own = opened_shares(c, r, n, q);
            &&& params.num_parties >= 3 && params.num_repetitions >= 1
            &&& p.public_inputs == public_inputs
            &&& p.repetitions.len() == params.num_repetitions
            &&& p.circuit_hash == hash::sha3_256_digest(fiat_shamir::circuit_bytes(c))
            &&& r.hidden_party == fiat_shamir::challenges(
                transcript(messages_of(p.repetitions), p.repetitions.len()),
                public_inputs,
                p.circuit_hash,
                params.num_repetitions as nat,
                n,
            )[rep]
            &&& tree::fold(
                hash::blake3_derived_key(
                    "mpcith-zk commitment v1"@,
                    commitment::view_domain(rep as nat, q) + v.randomness + (seed + (seed
                        + encoding::words(
                        v.view.mul_output_shares,
                        v.view.mul_output_shares.len(),
                    ) + encoding::words(
                        v.view.residual_input_shares,
                        v.view.residual_input_shares.len(),
                    ))),
                ),
                q,
                v.auth_path,
                v.auth_path.len(),
                commit_merkle::combine(),
            ) == r.message.commitment_root
            &&& v.view.wire_shares.len() == 0 || v.view.wire_shares == own
            &&& mpc::view_consistent(c.gates, own, q as int, seed, known_right(c, r, n, q))
            &&& forall|g: int|
                0 <= g < c.assertions().len() ==> {
                    &&& r.message.assert_shares[g][q as int] == own[(
                    #[trigger] c.assertions()[g]).0 as int]
                    &&& ring::total(r.message.assert_shares[g]) % 0x1_0000_0000
                        == c.assertions()[g].1
                }
            &&& forall|o: int|
                0 <= o < c.num_outputs ==> {
                    &&& (#[trigger] r.message.output_shares[o])[q as int] == own[c.num_wires
                        - c.num_outputs + o]
                    &&& ring::total(r.message.output_shares[o]) % 0x1_0000_0000 == (
                    match circuit::asserted_output(
                        c.gates,
                        0,
                        (c.num_wires - c.num_outputs + o) as nat,
                    ) {
                        Some(x) => x,
                        None => p.expected_outputs[o],
                    })
                }
        }),
{
    let c = p.circuit;
    let r = p.repetitions[rep];
    let n = params.num_parties as nat;
    let v = r.opened_views[i];
    let q = v.view.party_idx;
    let own = opened_shares(c, r, n, q);
    lemma_accepted(p, public_inputs, params);
    assert(opened_then_sums(p, n, rep as nat) is None);
    checks::lemma_none_fails(opened_checks(c, r, n, rep as nat), 0, r.opened_views.len(), i);
    assert(opened_failure(c, r, n, rep as nat, i) is None);
    assert forall|g: int| 0 <= g < c.assertions().len() implies {
        &&& r.message.assert_shares[g][q as int] == own[(#[trigger] c.assertions()[g]).0 as int]
        &&& ring::total(r.message.assert_shares[g]) % 0x1_0000_0000 == c.assertions()[g].1
    } by {
        checks::lemma_none_fails(
            assert_share_checks(c, r, rep as nat, q, own),
            0,
            c.assertions().len(),
            g,
        );
        checks::lemma_none_fails(
            assert_sum_checks(c, r, rep as nat),
            0,
            c.assertions().len(),
            g,
        );
    }
    assert forall|o: int| 0 <= o < c.num_outputs implies {
        &&& (#[trigger] r.message.output_shares[o])[q as int] == own[c.num_wires - c.num_outputs + o]
        &&& ring::total(r.message.output_shares[o]) % 0x1_0000_0000 == (
        match circuit::asserted_output(c.gates, 0, (c.num_wires - c.num_outputs + o) as nat) {
            Some(x) => x,
            None => p.expected_outputs[o],
        })
    } by {
        checks::lemma_none_fails(
            output_share_checks(c, r, rep as nat, q, own),
            0,
            c.num_outputs,
            o,
        );
        checks::lemma_none_fails(output_sum_checks(p, rep as nat), 0, c.num_outputs, o);
    }
}

/// An honest repetition is made from its own root seed and its own commitment randomness: it opens all
/// parties but the hidden one in order, each with the seed that the root seed gives it and the
/// randomness of its commitment, and publishes the co-path that hides the hidden party.
pub proof fn lemma_honest_repetition(
    c: CircuitModel,
    witness: Seq<u32>,
    public_inputs: Seq<u32>,
    params: ProofParams,
    rnd: RandomnessModel,
    rep: int,
    i: int,
)
    requires
        0 <= rep < params.num_repetitions,
        0 <= i < params.num_parties - 1,
    ensures
        ({
            let n = params.num_parties as nat;
            let proof_made = honest_proof(c, witness, public_inputs, params, rnd);
            let r = proof_made.repetitions[rep];
            let messages = honest_messages(c, witness, rnd, params);
            let h = hidden_parties(
                messages,
                public_inputs,
                fiat_shamir::circuit_digest(c),
                params,
            )[rep];
            let p = if i < h {
                i
            } else {
                i + 1
            };
            let seeds = seed_tree::leaves_of(rnd.root_seeds[rep], n);
            let wires = mpc::shared(c.gates, c.gates.len(), witness, seeds, Seq::empty());
            let v = r.opened_views[i];
            &&& proof_made.repetitions.len() == params.num_repetitions
            &&& proof_made.public_inputs == public_inputs
            &&& proof_made.circuit == c
            &&& r.message == messages[rep]
            &&& r.hidden_party == h
            &&& r.co_path == seed_tree::co_path_of(rnd.root_seeds[rep], n, h as nat)
            &&& r.opened_views.len() == n - 1
            &&& v.randomness == rnd.openings[rep][p]
            &&& v.view == mpc::honest_view(c, wires, seeds, p)
            &&& r.message.commitment_root == commit_merkle::commit_root(
                Seq::new(
                    n,
                    |q: int|
                        commitment::view_commitment(
                            rep as nat,
                            q as nat,
                            seeds[q],
                            mpc::honest_view(c, wires, seeds, q).committed(seeds[q]),
                            rnd.openings[rep][q],
                        ),
                ),
            )
            &&& r.message.assert_shares == Seq::new(
                c.assertions().len(),
                |g: int| wires[c.assertions()[g].0 as int],
            )
            &&& r.message.output_shares == Seq::new(
                c.num_outputs,
                |o: int| wires[c.num_wires - c.num_outputs + o],
            )
        }),
{
    let n = params.num_parties as nat;
    let r = honest_proof(c, witness, public_inputs, params, rnd).repetitions[rep];
    let seeds = seed_tree::leaves_of(rnd.root_seeds[rep], n);
    let wires = mpc::shared(c.gates, c.gates.len(), witness, seeds, Seq::empty());
    assert(honest_leaves(c, witness, rnd, n, rep) =~= Seq::new(
        n,
        |q: int|
            commitment::view_commitment(
                rep as nat,
                q as nat,
                seeds[q],
                mpc::honest_view(c, wires, seeds, q).committed(seeds[q]),
                rnd.openings[rep][q],
            ),
    ));
    assert(r.message.output_shares =~= Seq::new(
        c.num_outputs,
        |o: int| wires[c.num_wires - c.num_outputs + o],
    ));
}

/// The transcript is what the prover says, repetition after repetition: the root of the commitments, the
/// public shares of the assertions, row by row, and those of the outputs.
pub proof fn lemma_transcript_layout(messages: Seq<Message>, n: nat, rows: Seq<Seq<u32>>, m: nat)
    ensures
        transcript(messages, 0) == Seq::<u8>::empty(),
        ({
            let a = messages[n as int];
            transcript(messages, n + 1) == transcript(messages, n) + a.commitment_root + (rows_bytes(
                a.assert_shares,
                a.assert_shares.len(),
            ) + rows_bytes(a.output_shares, a.output_shares.len()))
        }),
        rows_bytes(rows, 0) == Seq::<u8>::empty(),
        rows_bytes(rows, m + 1) == rows_bytes(rows, m) + encoding::words(
            rows[m as int],
            rows[m as int].len(),
        ),
{
}

/// The dimensions of a proof are right exactly if its circuit has wires, no more than 4194304 of them and
/// as many gates, inputs and outputs among its wires, and the dimensions that the proof declares.
pub proof fn lemma_dimensions(p: ProofModel)
    ensures
        dimension_failure(p) is None <==> {
            &&& 1 <= p.circuit.num_wires <= 4194304
            &&& p.circuit.gates.len() <= 4194304
            &&& p.circuit.num_inputs <= p.circuit.num_wires
            &&& p.circuit.num_outputs <= p.circuit.num_wires
            &&& p.num_circuit_wires == p.circuit.num_wires
            &&& p.num_circuit_outputs == p.circuit.num_outputs
        },
{
}

/// What an opened view is refused for first: a commitment that is not under the root, shares that come
/// with it and are not those that follow from it, and shares that do not fit together.
pub proof fn lemma_refused_views(c: CircuitModel, r: RepetitionModel, n: nat, rep: nat, i: int)
    ensures
        ({
            let v = r.opened_views[i];
            let q = v.view.party_idx;
            let seed = seed_tree::reconstructed(r.co_path, r.hidden_party, n)[q as int];
            let own = opened_shares(c, r, n, q);
            let rooted = tree::fold(
                commitment::view_commitment(rep, q, seed, v.view.committed(seed), v.randomness),
                q,
                v.auth_path,
                v.auth_path.len(),
                commit_merkle::combine(),
            ) == r.message.commitment_root;
            let own_kept = v.view.wire_shares.len() == 0 || v.view.wire_shares == own;
            let fits = mpc::view_consistent(c.gates, own, q as int, seed, known_right(c, r, n, q));
            &&& !rooted ==> opened_failure(c, r, n, rep, i) == Some(
                ErrorModel::CommitmentMismatch { party: q, repetition: rep },
            )
            &&& rooted && !(own_kept && fits) ==> opened_failure(c, r, n, rep, i) == Some(
                ErrorModel::ConsistencyCheckFailed(q),
            )
        }),
{
}

/// What a proof is refused for before its contents are looked at: other public inputs, another number of
/// repetitions, or a hash that is not that of its circuit.
pub proof fn lemma_refused_proofs(p: ProofModel, public_inputs: Seq<u32>, params: ProofParams)
    requires
        params.num_parties >= 3,
        params.num_repetitions >= 1,
    ensures
        p.public_inputs != public_inputs || p.repetitions.len() != params.num_repetitions
            || p.circuit_hash != hash::sha3_256_digest(fiat_shamir::circuit_bytes(p.circuit)) ==> (
        verification_failure(p, public_inputs, params)->Some_0 is VerificationFailed)
            && verification_failure(p, public_inputs, params) is Some,
        p.public_inputs != public_inputs ==> verification_failure(p, public_inputs, params) == Some(
            ErrorModel::VerificationFailed("Public inputs do not match proof"@),
        ),
{
}

} // verus!
