//! The prover: it commits to the views of all parties, derives the hidden ones, and opens the rest.

use crate::circuit;
use crate::circuit::Circuit;
use crate::circuit::CircuitModel;
use crate::commit_merkle::CommitMerkleProof;
use crate::commit_merkle::CommitTree;
use crate::commitment::commit_view;
use crate::encoding;
use crate::encoding::copy_words;
use crate::error::MpcithError;
use crate::fiat_shamir::derive_challenges;
use crate::fiat_shamir::hash_circuit;
use crate::hash;
use crate::hash::Draws;
use crate::mpc;
use crate::mpc::run_mpc_emulation;
use crate::mpc::MpcExecution;
use crate::mpc::PartyView;
use crate::params::ProofParams;
use crate::proofs;
use crate::proofs::copy_rows;
use crate::proofs::OpenedView;
use crate::proofs::Proof;
use crate::proofs::ProverRandomness;
use crate::proofs::RepetitionProof;
use crate::protocol;
use crate::protocol::RandomnessModel;
use crate::seed_tree::get_co_path;
use crate::seed_tree::SeedTree;
use crate::sharing;
use crate::sharing::PartySeed;
use crate::sharing::SharedTrace;
use crate::text::join;
use crate::tree;
use crate::verification;
use crate::verification::encode_public_shares;
use vstd::prelude::*;

verus! {

/// What the prover keeps of a repetition until the hidden party is known.
struct CommittedRepetition {
    views: Vec<PartyView>,
    tree: CommitTree,
    assert_shares: Vec<Vec<u32>>,
    output_shares: Vec<Vec<u32>>,
}

impl CommittedRepetition {
    /// The values are those of an honest prover.
    spec fn honest(
        self,
        c: CircuitModel,
        witness: Seq<u32>,
        rnd: RandomnessModel,
        n: nat,
        rep: int,
    ) -> bool {
        let wires = protocol::honest_wires(c, witness, rnd, n, rep);
        &&& self.views@.len() == n
        &&& forall|p: int|
            0 <= p < n ==> (#[trigger] self.views@[p])@ == protocol::honest_party_view(
                c,
                witness,
                rnd,
                n,
                rep,
                p,
            )
        &&& self.tree.leaves() == tree::padded(
            protocol::honest_leaves(c, witness, rnd, n, rep),
            encoding::zero_block(),
        )
        &&& self.tree.depth() == tree::tree_depth(n)
        &&& proofs::rows(self.assert_shares@) == protocol::assert_rows(c, wires)
        &&& proofs::rows(self.output_shares@) == protocol::output_rows(c, wires)
    }
}

/// Where the root seed of a repetition is in the record of what was drawn, counted from the first
/// draw for the proof: each repetition takes one block for its root seed and one for each party.
pub open spec fn seed_draw(num_parties: nat, rep: int) -> int {
    rep * (num_parties + 1)
}

/// Where the randomness of a party's commitment is in the record of what was drawn.
pub open spec fn opening_draw(num_parties: nat, rep: int, party: int) -> int {
    rep * (num_parties + 1) + 1 + party
}

/// No two random choices of a proof are the result of the same draw.
pub proof fn lemma_draws_differ(n: nat, rep: int, party: int, other: int, fellow: int)
    requires
        0 <= rep,
        0 <= other,
        0 <= party < n,
        0 <= fellow < n,
    ensures
        rep != other ==> seed_draw(n, rep) != seed_draw(n, other),
        seed_draw(n, rep) != opening_draw(n, other, fellow),
        rep != other || party != fellow ==> opening_draw(n, rep, party) != opening_draw(
            n,
            other,
            fellow,
        ),
{
    let k = n + 1;
    assert(rep < other ==> rep * k + k <= other * k) by (nonlinear_arith)
        requires
            k >= 1,
    ;
    assert(other < rep ==> other * k + k <= rep * k) by (nonlinear_arith)
        requires
            k >= 1,
    ;
}

/// The random choices of a proof that the record gives from `start` on.
pub open spec fn drawn(blocks: Seq<Seq<u8>>, start: int, params: ProofParams) -> RandomnessModel {
    RandomnessModel {
        root_seeds: Seq::new(
            params.num_repetitions as nat,
            |rep: int| blocks[start + seed_draw(params.num_parties as nat, rep)],
        ),
        openings: Seq::new(
            params.num_repetitions as nat,
            |rep: int|
                Seq::new(
                    params.num_parties as nat,
                    |p: int| blocks[start + opening_draw(params.num_parties as nat, rep, p)],
                ),
        ),
    }
}

/// Draws the random choices for a proof: every one by a draw of its own.
pub(crate) fn draw_randomness(params: &ProofParams, draws: &mut Draws) -> (r: ProverRandomness)
    ensures
        protocol::enough_randomness(r@, *params),
        r@ == drawn(final(draws).blocks(), old(draws).blocks().len() as int, *params),
        final(draws).blocks().len() == old(draws).blocks().len() + params.num_repetitions * (
        params.num_parties + 1),
        forall|rep: int|
            0 <= rep < params.num_repetitions ==> (#[trigger] r.root_seeds@[rep])@
                == final(draws).blocks()[old(draws).blocks().len() + seed_draw(
                params.num_parties as nat,
                rep,
            )],
        forall|rep: int, p: int|
            0 <= rep < params.num_repetitions && 0 <= p < params.num_parties ==> (
            #[trigger] r.openings@[rep]@[p])@ == final(draws).blocks()[old(draws).blocks().len()
                + opening_draw(params.num_parties as nat, rep, p)],
{
    let ghost start = draws.blocks().len() as int;
    let ghost n = params.num_parties as nat;
    let mut root_seeds: Vec<[u8; 32]> = Vec::new();
    let mut openings: Vec<Vec<[u8; 32]>> = Vec::new();
    let mut rep: usize = 0;
    proof {
        assert(0 * (n + 1) == 0);
    }
    while rep < params.num_repetitions
        invariant
            rep <= params.num_repetitions,
            n == params.num_parties,
            start >= 0,
            draws.blocks().len() == start + rep * (n + 1),
            root_seeds@.len() == rep,
            openings@.len() == rep,
            forall|i: int| 0 <= i < rep ==> (#[trigger] openings@[i])@.len() == params.num_parties,
            recorded(root_seeds@, openings@, n, draws.blocks(), start),
        decreases params.num_repetitions - rep,
    {
        let ghost before = draws.blocks();
        let ghost seeds_before = root_seeds@;
        let ghost openings_before = openings@;
        proof {
            lemma_draw_positions(n, rep as int);
        }
        let root_seed: [u8; 32] = hash::random_bytes(draws);
        root_seeds.push(root_seed);
        let mut row: Vec<[u8; 32]> = Vec::new();
        let mut p: usize = 0;
        while p < params.num_parties
            invariant
                p <= params.num_parties,
                n == params.num_parties,
                row@.len() == p,
                before.len() == start + rep * (n + 1),
                start >= 0,
                rep * (n + 1) >= 0,
                draws.blocks().len() == before.len() + 1 + p,
                before =~= draws.blocks().subrange(0, before.len() as int),
                draws.blocks()[before.len() as int] == root_seed@,
                forall|q: int|
                    0 <= q < p ==> (#[trigger] row@[q])@ == draws.blocks()[before.len() + 1 + q],
            decreases params.num_parties - p,
        {
            row.push(hash::random_bytes(draws));
            p = p + 1;
        }
        openings.push(row);
        proof {
            let now = draws.blocks();
            assert(root_seeds@.drop_last() =~= seeds_before);
            assert(openings@.drop_last() =~= openings_before);
            assert((rep + 1) * (n + 1) == rep * (n + 1) + n + 1) by (nonlinear_arith);
            lemma_recorded(
                seeds_before,
                openings_before,
                n,
                before,
                start,
                root_seeds@,
                openings@,
                now,
            );
        }
        rep = rep + 1;
    }
    let r: ProverRandomness = ProverRandomness { root_seeds, openings };
    proof {
        let expected = drawn(draws.blocks(), start, *params);
        assert(r@.root_seeds =~= expected.root_seeds);
        assert forall|rep: int| 0 <= rep < params.num_repetitions implies #[trigger] r@.openings[rep]
            == expected.openings[rep] by {
            assert(r.openings@[rep]@.len() == params.num_parties);
            assert forall|p: int| 0 <= p < params.num_parties implies #[trigger] r@.openings[rep][p]
                == expected.openings[rep][p] by {
                assert(r.openings@[rep]@[p]@ == draws.blocks()[start + opening_draw(n, rep, p)]);
            }
            assert(r@.openings[rep] =~= expected.openings[rep]);
        }
        assert(r@.openings =~= expected.openings);
    }
    r
}

/// The random choices are those in the record of what was drawn.
spec fn recorded(
    seeds: Seq<[u8; 32]>,
    openings: Seq<Vec<[u8; 32]>>,
    n: nat,
    blocks: Seq<Seq<u8>>,
    start: int,
) -> bool {
    &&& forall|i: int|
        0 <= i < seeds.len() ==> (#[trigger] seeds[i])@ == blocks[start + seed_draw(n, i)]
    &&& forall|i: int, q: int|
        0 <= i < openings.len() && 0 <= q < n ==> (#[trigger] openings[i]@[q])@ == blocks[start
            + opening_draw(n, i, q)]
}

proof fn lemma_recorded(
    seeds: Seq<[u8; 32]>,
    openings: Seq<Vec<[u8; 32]>>,
    n: nat,
    before: Seq<Seq<u8>>,
    start: int,
    more_seeds: Seq<[u8; 32]>,
    more_openings: Seq<Vec<[u8; 32]>>,
    now: Seq<Seq<u8>>,
)
    requires
        start >= 0,
        seeds.len() == openings.len(),
        recorded(seeds, openings, n, before, start),
        before.len() == start + seeds.len() * (n + 1),
        now.len() == before.len() + n + 1,
        before == now.subrange(0, before.len() as int),
        more_seeds.len() == seeds.len() + 1,
        more_seeds.drop_last() == seeds,
        more_openings.len() == openings.len() + 1,
        more_openings.drop_last() == openings,
        more_seeds.last()@ == now[before.len() as int],
        forall|q: int|
            0 <= q < n ==> (#[trigger] more_openings.last()@[q])@ == now[before.len() + 1 + q],
    ensures
        recorded(more_seeds, more_openings, n, now, start),
{
    let k = n + 1;
    let m = seeds.len() as int;
    assert forall|i: int| 0 <= i < more_seeds.len() implies (#[trigger] more_seeds[i])@
        == now[start + seed_draw(n, i)] by {
        if i < m {
            assert(more_seeds[i] == seeds[i]);
            assert(0 <= i * k && i * k + k <= m * k) by (nonlinear_arith)
                requires
                    0 <= i < m,
                    k >= 1,
            ;
            assert(now[start + seed_draw(n, i)] == before[start + seed_draw(n, i)]);
        }
    }
    assert forall|i: int, q: int| 0 <= i < more_openings.len() && 0 <= q < n implies (
    #[trigger] more_openings[i]@[q])@ == now[start + opening_draw(n, i, q)] by {
        if i < m {
            assert(more_openings[i] == openings[i]);
            assert(openings[i]@[q]@ == before[start + opening_draw(n, i, q)]);
            assert(0 <= i * k && i * k + k <= m * k) by (nonlinear_arith)
                requires
                    0 <= i < m,
                    k >= 1,
            ;
            assert(now[start + opening_draw(n, i, q)] == before[start + opening_draw(n, i, q)]);
        } else {
            assert(more_openings.last()@[q]@ == now[before.len() + 1 + q]);
        }
    }
}

proof fn lemma_draw_positions(n: nat, rep: int)
    requires
        rep >= 0,
    ensures
        0 <= seed_draw(n, rep),
{
    assert(0 <= rep * (n + 1)) by (nonlinear_arith)
        requires
            rep >= 0,
    ;
}

/// The shares of the asserted wires.
fn collect_assert_shares(
    circuit: &Circuit,
    constraints: &[(usize, u32)],
    trace: &SharedTrace,
) -> (r: Vec<Vec<u32>>)
    requires
        circuit@.in_range(),
        constraints@ == circuit@.assertions(),
        trace.wires@.len() == circuit@.num_wires,
    ensures
        proofs::rows(r@) == protocol::assert_rows(circuit@, sharing::sharings(trace.wires@)),
{
    proof {
        verification::lemma_asserted_wires(circuit@, circuit@.gates.len());
    }
    let ghost wires = sharing::sharings(trace.wires@);
    let mut rows: Vec<Vec<u32>> = Vec::new();
    let mut g: usize = 0;
    while g < constraints.len()
        invariant
            g <= constraints@.len(),
            constraints@ == circuit@.assertions(),
            trace.wires@.len() == circuit@.num_wires,
            wires == sharing::sharings(trace.wires@),
            forall|g: int|
                0 <= g < constraints@.len() ==> (#[trigger] constraints@[g]).0
                    < circuit@.num_wires,
            rows@.len() == g,
            forall|j: int|
                0 <= j < g ==> (#[trigger] rows@[j])@ == wires[circuit@.assertions()[j].0 as int],
        decreases constraints@.len() - g,
    {
        let wire: usize = constraints[g].0;
        rows.push(copy_words(&trace.wires[wire].shares));
        g = g + 1;
    }
    proof {
        assert(proofs::rows(rows@) =~= protocol::assert_rows(circuit@, wires));
    }
    rows
}

/// The shares of the output wires.
fn collect_output_shares(circuit: &Circuit, trace: &SharedTrace) -> (r: Vec<Vec<u32>>)
    requires
        circuit@.num_outputs <= circuit@.num_wires,
        trace.wires@.len() == circuit@.num_wires,
    ensures
        proofs::rows(r@) == protocol::output_rows(circuit@, sharing::sharings(trace.wires@)),
{
    let ghost wires = sharing::sharings(trace.wires@);
    let start: usize = circuit.num_wires - circuit.num_outputs;
    let mut rows: Vec<Vec<u32>> = Vec::new();
    let mut o: usize = 0;
    while o < circuit.num_outputs
        invariant
            o <= circuit.num_outputs,
            start == circuit@.output_start(),
            start + circuit.num_outputs == circuit.num_wires,
            trace.wires@.len() == circuit@.num_wires,
            wires == sharing::sharings(trace.wires@),
            rows@.len() == o,
            forall|j: int|
                0 <= j < o ==> (#[trigger] rows@[j])@ == wires[circuit@.output_start() + j],
        decreases circuit.num_outputs - o,
    {
        rows.push(copy_words(&trace.wires[start + o].shares));
        o = o + 1;
    }
    proof {
        assert(proofs::rows(rows@) =~= protocol::output_rows(circuit@, wires));
    }
    rows
}

/// Shares the witness, evaluates the circuit on the shares and commits to all views.
fn commit_repetition(
    circuit: &Circuit,
    constraints: &[(usize, u32)],
    witness: &[u32],
    params: &ProofParams,
    randomness: &ProverRandomness,
    rep: usize,
) -> (r: Result<CommittedRepetition, MpcithError>)
    requires
        circuit@.sequential(),
        circuit@.xor_free(),
        circuit@.num_outputs <= circuit@.num_wires,
        constraints@ == circuit@.assertions(),
        witness@.len() == circuit@.num_inputs,
        params.num_parties >= 2,
        protocol::params_fit(*params),
        protocol::enough_randomness(randomness@, *params),
        rep < params.num_repetitions,
    ensures
        match r {
            Ok(made) => made.honest(
                circuit@,
                witness@,
                randomness@,
                params.num_parties as nat,
                rep as int,
            ),
            Err(_) => false,
        },
{
    let num_parties: usize = params.num_parties;
    let ghost c = circuit@;
    let ghost rnd = randomness@;
    let ghost n = num_parties as nat;
    let root_seed: [u8; 32] = randomness.root_seeds[rep];
    let seed_tree: SeedTree = SeedTree::build(root_seed, num_parties);
    let blocks: Vec<[u8; 32]> = seed_tree.leaf_seeds();
    proof {
        assert(rnd.root_seeds[rep as int] == root_seed@);
        assert(encoding::blocks(blocks@) == protocol::honest_seeds(rnd, n, rep as int));
        assert(blocks@.len() == encoding::blocks(blocks@).len());
    }
    let mut seeds: Vec<PartySeed> = Vec::new();
    let mut p: usize = 0;
    while p < num_parties
        invariant
            p <= num_parties,
            blocks@.len() == num_parties,
            seeds@.len() == p,
            forall|q: int| 0 <= q < p ==> (#[trigger] seeds@[q]).0 == blocks@[q],
        decreases num_parties - p,
    {
        seeds.push(PartySeed(blocks[p]));
        p = p + 1;
    }
    let fresh: Vec<u32> = Vec::new();
    proof {
        assert(mpc::seed_bytes(seeds@) =~= encoding::blocks(blocks@));
        verification::lemma_only_muls(c.gates, c.gates.len());
        circuit::lemma_sequential_in_range(c);
        assert(fresh@ =~= Seq::<u32>::empty());
        assert(0 * (n - 1) == 0);
    }
    let exec: MpcExecution = match run_mpc_emulation(circuit, witness, &seeds, &fresh) {
        Ok(exec) => exec,
        Err(e) => {
            return Err(e);
        },
    };
    let ghost wires = protocol::honest_wires(c, witness@, rnd, n, rep as int);
    proof {
        assert(sharing::sharings(exec.shared_trace.wires@) == wires);
        mpc::lemma_shared(c, c.gates.len(), witness@, mpc::seed_bytes(seeds@), fresh@);
    }
    let assert_shares: Vec<Vec<u32>> = collect_assert_shares(
        circuit,
        constraints,
        &exec.shared_trace,
    );
    let output_shares: Vec<Vec<u32>> = collect_output_shares(circuit, &exec.shared_trace);
    let ghost honest = protocol::honest_leaves(c, witness@, rnd, n, rep as int);
    let mut leaves: Vec<[u8; 32]> = Vec::new();
    let mut p: usize = 0;
    while p < num_parties
        invariant
            p <= num_parties,
            n == num_parties,
            rnd == randomness@,
            c == circuit@,
            rep < params.num_repetitions,
            num_parties == params.num_parties,
            protocol::enough_randomness(rnd, *params),
            exec.views@.len() == num_parties,
            forall|q: int|
                0 <= q < num_parties ==> (#[trigger] exec.views@[q])@
                    == protocol::honest_party_view(c, witness@, rnd, n, rep as int, q),
            honest == protocol::honest_leaves(c, witness@, rnd, n, rep as int),
            leaves@.len() == p,
            forall|q: int| 0 <= q < p ==> (#[trigger] leaves@[q])@ == honest[q],
        decreases num_parties - p,
    {
        let view: &PartyView = &exec.views[p];
        proof {
            assert(rnd.openings[rep as int].len() == num_parties);
            assert(rnd.openings[rep as int][p as int]
                == randomness.openings@[rep as int]@[p as int]@);
            assert(view@ == protocol::honest_party_view(c, witness@, rnd, n, rep as int, p as int));
        }
        let message: Vec<u8> = view.to_commitment_bytes();
        leaves.push(
            commit_view(rep, p, &view.seed, &message, &randomness.openings[rep][p]).0,
        );
        p = p + 1;
    }
    proof {
        assert(encoding::blocks(leaves@) =~= honest);
    }
    let tree: CommitTree = CommitTree::build(&leaves);
    Ok(CommittedRepetition { views: exec.views, tree, assert_shares, output_shares })
}

/// Opens all views but the hidden one.
fn open_repetition(
    committed: &CommittedRepetition,
    params: &ProofParams,
    randomness: &ProverRandomness,
    rep: usize,
    hidden: usize,
    Ghost(c): Ghost<CircuitModel>,
    Ghost(witness): Ghost<Seq<u32>>,
) -> (r: RepetitionProof)
    requires
        committed.honest(c, witness, randomness@, params.num_parties as nat, rep as int),
        params.num_parties >= 2,
        protocol::params_fit(*params),
        protocol::enough_randomness(randomness@, *params),
        rep < params.num_repetitions,
        hidden < params.num_parties,
    ensures
        r@ == protocol::honest_repetition(
            c,
            witness,
            randomness@,
            params.num_parties as nat,
            rep as int,
            hidden as nat,
        ),
{
    let num_parties: usize = params.num_parties;
    let ghost rnd = randomness@;
    let ghost n = num_parties as nat;
    let ghost honest = protocol::honest_repetition(c, witness, rnd, n, rep as int, hidden as nat);
    proof {
        tree::lemma_tree_depth(n);
        assert(committed.tree.leaves().len() >= n);
    }
    let mut opened_views: Vec<OpenedView> = Vec::new();
    let mut p: usize = 0;
    while p < num_parties
        invariant
            p <= num_parties,
            n == num_parties,
            num_parties == params.num_parties,
            rnd == randomness@,
            rep < params.num_repetitions,
            hidden < num_parties,
            protocol::enough_randomness(rnd, *params),
            committed.honest(c, witness, rnd, n, rep as int),
            committed.tree.leaves().len() >= n,
            opened_views@.len() == if p <= hidden {
                p as int
            } else {
                p - 1
            },
            forall|i: int|
                0 <= i < opened_views@.len() ==> (#[trigger] opened_views@[i])@
                    == protocol::honest_opened(
                    c,
                    witness,
                    rnd,
                    n,
                    rep as int,
                    protocol::nth_opened(hidden as nat, i),
                ),
        decreases num_parties - p,
    {
        if p != hidden {
            let path: CommitMerkleProof = committed.tree.prove_membership(p);
            proof {
                assert(rnd.openings[rep as int].len() == num_parties);
                assert(rnd.openings[rep as int][p as int]
                    == randomness.openings@[rep as int]@[p as int]@);
                assert(protocol::nth_opened(hidden as nat, opened_views@.len() as int) == p);
            }
            let view: PartyView = committed.views[p].clone();
            let opened: OpenedView = OpenedView {
                view,
                commitment_randomness: randomness.openings[rep][p],
                commitment_auth_path: path.siblings,
            };
            proof {
                assert(opened@ =~= protocol::honest_opened(
                    c,
                    witness,
                    rnd,
                    n,
                    rep as int,
                    p as int,
                ));
            }
            opened_views.push(opened);
        }
        p = p + 1;
    }
    let root_seed: [u8; 32] = randomness.root_seeds[rep];
    proof {
        assert(rnd.root_seeds[rep as int] == root_seed@);
    }
    let co_path: Vec<[u8; 32]> = get_co_path(root_seed, num_parties, hidden);
    let r: RepetitionProof = RepetitionProof {
        hidden_party: hidden,
        commitment_root: committed.tree.root(),
        co_path,
        opened_views,
        output_shares: copy_rows(&committed.output_shares),
        assert_shares: copy_rows(&committed.assert_shares),
    };
    proof {
        assert(r@.opened_views =~= honest.opened_views);
        assert(r@.message == honest.message);
        assert(r@ == honest);
    }
    r
}

/// Makes a proof with the given random choices.
///
/// Fails if the witness does not satisfy the circuit.
pub fn prove_with_randomness(
    circuit: &Circuit,
    witness: &[u32],
    public_inputs: &[u32],
    params: &ProofParams,
    randomness: &ProverRandomness,
) -> (r: Result<Proof, MpcithError>)
    requires
        circuit@.sequential(),
        circuit@.xor_free(),
        circuit@.num_outputs <= circuit@.num_wires,
        params.num_parties >= 2,
        protocol::params_fit(*params),
        protocol::enough_randomness(randomness@, *params),
    ensures
        match r {
            Ok(made) => {
                &&& protocol::witness_failure(circuit@, witness@) is None
                &&& made@ == protocol::honest_proof(
                    circuit@,
                    witness@,
                    public_inputs@,
                    *params,
                    randomness@,
                )
            },
            Err(e) => protocol::witness_failure(circuit@, witness@) == Some(e@),
        },
{
    let ghost c = circuit@;
    let ghost rnd = randomness@;
    let ghost n = params.num_parties as nat;
    proof {
        circuit::lemma_sequential_in_range(c);
    }
    let circuit_hash: Vec<u8> = hash_circuit(circuit);
    let trace: Vec<u32> = match circuit.evaluate(witness) {
        Ok(trace) => trace,
        Err(e) => {
            let message: String = e.message();
            return Err(
                MpcithError::InvalidWitness(
                    join("Witness does not satisfy circuit: ", message.as_str()),
                ),
            );
        },
    };
    proof {
        circuit::lemma_trace(c, witness@);
        circuit::lemma_wire_values_len(c.gates, c.gates.len(), witness@);
    }
    let expected_outputs: Vec<u32> = copy_words(circuit.outputs(&trace));
    let constraints: Vec<(usize, u32)> = circuit.assert_constraints();
    let ghost messages = protocol::honest_messages(c, witness@, rnd, *params);

    let mut committed: Vec<CommittedRepetition> = Vec::new();
    let mut bytes: Vec<u8> = Vec::new();
    let mut rep: usize = 0;
    while rep < params.num_repetitions
        invariant
            rep <= params.num_repetitions,
            c == circuit@,
            rnd == randomness@,
            n == params.num_parties,
            c.sequential(),
            c.xor_free(),
            c.num_outputs <= c.num_wires,
            constraints@ == c.assertions(),
            witness@.len() == c.num_inputs,
            params.num_parties >= 2,
            protocol::params_fit(*params),
            protocol::enough_randomness(rnd, *params),
            messages == protocol::honest_messages(c, witness@, rnd, *params),
            committed@.len() == rep,
            forall|i: int|
                0 <= i < rep ==> (#[trigger] committed@[i]).honest(c, witness@, rnd, n, i),
            bytes@ == protocol::transcript(messages, rep as nat),
        decreases params.num_repetitions - rep,
    {
        let one: CommittedRepetition = match commit_repetition(
            circuit,
            &constraints,
            witness,
            params,
            randomness,
            rep,
        ) {
            Ok(one) => one,
            Err(e) => {
                return Err(e);
            },
        };
        let root: [u8; 32] = one.tree.root();
        encoding::push_block(&mut bytes, &root);
        let shares: Vec<u8> = encode_public_shares(&one.assert_shares, &one.output_shares);
        encoding::push_bytes(&mut bytes, &shares);
        proof {
            let message = protocol::honest_message(c, witness@, rnd, n, rep as int);
            assert(messages[rep as int] == message);
            assert(root@ == message.commitment_root);
        }
        committed.push(one);
        rep = rep + 1;
    }

    let challenges: Vec<usize> = derive_challenges(
        &bytes,
        public_inputs,
        &circuit_hash,
        params.num_repetitions,
        params.num_parties,
    );
    let ghost hidden = protocol::hidden_parties(
        messages,
        public_inputs@,
        circuit_hash@,
        *params,
    );
    proof {
        assert(challenges@ == hidden);
    }

    let mut repetitions: Vec<RepetitionProof> = Vec::new();
    let mut rep: usize = 0;
    while rep < params.num_repetitions
        invariant
            rep <= params.num_repetitions,
            c == circuit@,
            rnd == randomness@,
            n == params.num_parties,
            params.num_parties >= 2,
            protocol::params_fit(*params),
            protocol::enough_randomness(rnd, *params),
            committed@.len() == params.num_repetitions,
            forall|i: int|
                0 <= i < params.num_repetitions ==> (#[trigger] committed@[i]).honest(
                    c,
                    witness@,
                    rnd,
                    n,
                    i,
                ),
            challenges@ == hidden,
            challenges@.len() == params.num_repetitions,
            forall|i: int|
                0 <= i < params.num_repetitions ==> #[trigger] challenges@[i] < params.num_parties,
            repetitions@.len() == rep,
            forall|i: int|
                0 <= i < rep ==> (#[trigger] repetitions@[i])@ == protocol::honest_repetition(
                    c,
                    witness@,
                    rnd,
                    n,
                    i,
                    hidden[i] as nat,
                ),
        decreases params.num_repetitions - rep,
    {
        proof {
            assert(challenges@[rep as int] < params.num_parties);
            assert(committed@[rep as int].honest(c, witness@, rnd, n, rep as int));
        }
        let opened: RepetitionProof = open_repetition(
            &committed[rep],
            params,
            randomness,
            rep,
            challenges[rep],
            Ghost(c),
            Ghost(witness@),
        );
        repetitions.push(opened);
        rep = rep + 1;
    }
    let made: Proof = Proof {
        public_inputs: copy_words(public_inputs),
        expected_outputs,
        repetitions,
        params: *params,
        circuit: circuit.clone(),
        circuit_hash,
        num_circuit_wires: circuit.num_wires,
        num_circuit_outputs: circuit.num_outputs,
    };
    proof {
        let honest = protocol::honest_proof(c, witness@, public_inputs@, *params, rnd);
        assert(made@.repetitions =~= honest.repetitions);
        assert(made@ =~= honest);
    }
    Ok(made)
}

} // verus!
