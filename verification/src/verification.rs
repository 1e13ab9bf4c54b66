//! The checks of a repetition of a proof.

use crate::checks;
use crate::circuit;
use crate::circuit::Circuit;
use crate::circuit::CircuitModel;
use crate::circuit::Gate;
use crate::commit_merkle::CommitMerkleProof;
use crate::commitment::commit_view;
use crate::encoding;
use crate::encoding::copy_blocks;
use crate::encoding::same_words;
use crate::error::MpcithError;
use crate::mpc;
use crate::mpc::check_party_view;
use crate::mpc::draw_zero_words;
use crate::mpc::recompute_linear_shares;
use crate::mpc::right_total;
use crate::params::ProofParams;
use crate::product;
use crate::product::is_on_right;
use crate::proofs;
use crate::proofs::OpenedView;
use crate::proofs::Proof;
use crate::proofs::RepetitionProof;
use crate::protocol;
use crate::protocol::OpenedModel;
use crate::ring;
use crate::seed_tree::reconstruct_leaves_from_co_path;
use crate::text::text3;
use crate::text::text4;
use crate::tree;
use crate::validation;
use vstd::arithmetic::div_mod::*;
use vstd::prelude::*;

verus! {

fn push_rows(out: &mut Vec<u8>, shares: &[Vec<u32>])
    ensures
        final(out)@ == old(out)@ + protocol::rows_bytes(proofs::rows(shares@), shares@.len()),
{
    let ghost start = out@;
    let ghost all = proofs::rows(shares@);
    proof {
        assert(start + protocol::rows_bytes(all, 0) =~= start);
    }
    let mut i: usize = 0;
    while i < shares.len()
        invariant
            i <= shares@.len(),
            all == proofs::rows(shares@),
            out@ == start + protocol::rows_bytes(all, i as nat),
        decreases shares@.len() - i,
    {
        encoding::push_words(out, &shares[i]);
        proof {
            assert(all[i as int] == shares@[i as int]@);
            assert(out@ =~= start + protocol::rows_bytes(all, (i + 1) as nat));
        }
        i = i + 1;
    }
}

/// The bytes of the public shares of a repetition: those of the assertions, then those of the
/// outputs.
pub fn encode_public_shares(assert_shares: &[Vec<u32>], output_shares: &[Vec<u32>]) -> (r: Vec<u8>)
    ensures
        r@ == protocol::public_shares_bytes(
            proofs::rows(assert_shares@),
            proofs::rows(output_shares@),
        ),
{
    let mut bytes: Vec<u8> = Vec::new();
    push_rows(&mut bytes, assert_shares);
    push_rows(&mut bytes, output_shares);
    proof {
        let a = proofs::rows(assert_shares@);
        let b = proofs::rows(output_shares@);
        assert(bytes@ =~= protocol::rows_bytes(a, a.len()) + protocol::rows_bytes(b, b.len()));
    }
    bytes
}

/// The bytes that the hidden parties are derived from.
pub fn transcript_bytes(repetitions: &[RepetitionProof]) -> (r: Vec<u8>)
    ensures
        r@ == protocol::transcript(
            protocol::messages_of(proofs::repetition_models(repetitions@)),
            repetitions@.len(),
        ),
{
    let ghost messages = protocol::messages_of(proofs::repetition_models(repetitions@));
    let mut bytes: Vec<u8> = Vec::new();
    let mut i: usize = 0;
    while i < repetitions.len()
        invariant
            i <= repetitions@.len(),
            messages == protocol::messages_of(proofs::repetition_models(repetitions@)),
            bytes@ == protocol::transcript(messages, i as nat),
        decreases repetitions@.len() - i,
    {
        let ghost before = bytes@;
        encoding::push_block(&mut bytes, &repetitions[i].commitment_root);
        let shares: Vec<u8> = encode_public_shares(
            &repetitions[i].assert_shares,
            &repetitions[i].output_shares,
        );
        encoding::push_bytes(&mut bytes, &shares);
        proof {
            assert(messages[i as int] == repetitions@[i as int]@.message);
        }
        i = i + 1;
    }
    bytes
}

/// Without exclusive ors, the non-linear gates are the multiplications.
pub proof fn lemma_only_muls(gates: Seq<Gate>, n: nat)
    requires
        n <= gates.len(),
        forall|i: int| 0 <= i < gates.len() ==> !((#[trigger] gates[i]) is Xor),
    ensures
        circuit::count_nonlinear(gates, n) == circuit::count_mul(gates, n),
        circuit::count_xor(gates, n) == 0,
    decreases n,
{
    if n > 0 {
        lemma_only_muls(gates, (n - 1) as nat);
        assert(!(gates[n - 1] is Xor));
    }
}

/// Asserted wires exist.
pub proof fn lemma_asserted_wires(c: CircuitModel, n: nat)
    requires
        c.in_range(),
        n <= c.gates.len(),
    ensures
        circuit::assert_list(c.gates, n).len() <= n,
        forall|g: int|
            0 <= g < circuit::assert_list(c.gates, n).len() ==> (#[trigger] circuit::assert_list(
                c.gates,
                n,
            )[g]).0 < c.num_wires,
    decreases n,
{
    if n > 0 {
        lemma_asserted_wires(c, (n - 1) as nat);
        assert(c.gates[n - 1].reads_below(c.num_wires as int));
    }
}

/// The asserted wires of a circuit exist.
pub proof fn lemma_asserted_wires_of(c: CircuitModel)
    requires
        c.sequential(),
    ensures
        forall|g: int|
            0 <= g < c.assertions().len() ==> (#[trigger] c.assertions()[g]).0 < c.num_wires,
{
    circuit::lemma_sequential_in_range(c);
    lemma_asserted_wires(c, c.gates.len());
}

/// If no two opened views are of the same party, each is the first of its party.
pub proof fn lemma_position(views: Seq<OpenedModel>, i: int, from: nat)
    requires
        from <= i < views.len(),
        forall|j: int, k: int|
            0 <= j < k < views.len() ==> (#[trigger] views[j]).view.party_idx != (
            #[trigger] views[k]).view.party_idx,
    ensures
        protocol::position_of(views, views[i].view.party_idx, from) == i,
    decreases i - from,
{
    if from < i {
        assert(views[from as int].view.party_idx != views[i].view.party_idx);
        lemma_position(views, i, from + 1);
    }
}

/// The shares of all wires of the opened parties, by party; empty for the hidden one.
fn opened_tables(
    proof_data: &Proof,
    num_parties: usize,
    rep: usize,
    seeds: &[[u8; 32]],
) -> (r: Vec<Vec<u32>>)
    requires
        num_parties >= 1,
        rep < proof_data.repetitions@.len(),
        validation::circuit_fits(proof_data@),
        validation::repetition_fits(proof_data@, num_parties as nat, rep as int),
        encoding::blocks(seeds@) == protocol::opened_seeds(
            proof_data@.repetitions[rep as int],
            num_parties as nat,
        ),
        seeds@.len() == num_parties,
    ensures
        r@.len() == num_parties,
        forall|q: int|
            0 <= q < num_parties && q != proof_data@.repetitions[rep as int].hidden_party ==> (
            #[trigger] r@[q])@ == protocol::opened_shares(
                proof_data@.circuit,
                proof_data@.repetitions[rep as int],
                num_parties as nat,
                q as nat,
            ) && r@[q]@.len() == proof_data@.circuit.num_wires,
{
    let repetition: &RepetitionProof = &proof_data.repetitions[rep];
    let ghost p = proof_data@;
    let ghost c = p.circuit;
    let ghost m = p.repetitions[rep as int];
    let ghost views = m.opened_views;
    proof {
        assert(m == repetition@);
        lemma_only_muls(c.gates, c.gates.len());
    }
    let mut table: Vec<Vec<u32>> = Vec::new();
    let mut k: usize = 0;
    while k < num_parties
        invariant
            k <= num_parties,
            table@.len() == k,
        decreases num_parties - k,
    {
        table.push(Vec::new());
        k = k + 1;
    }
    let mut i: usize = 0;
    while i < repetition.opened_views.len()
        invariant
            i <= repetition.opened_views@.len(),
            *repetition == proof_data.repetitions@[rep as int],
            p == proof_data@,
            c == p.circuit,
            m == p.repetitions[rep as int],
            m == repetition@,
            views == m.opened_views,
            num_parties >= 1,
            rep < proof_data.repetitions@.len(),
            validation::circuit_fits(p),
            validation::repetition_fits(p, num_parties as nat, rep as int),
            circuit::count_nonlinear(c.gates, c.gates.len()) == circuit::count_mul(
                c.gates,
                c.gates.len(),
            ),
            encoding::blocks(seeds@) == protocol::opened_seeds(m, num_parties as nat),
            seeds@.len() == num_parties,
            table@.len() == num_parties,
            forall|j: int|
                #![trigger views[j]]
                0 <= j < i ==> table@[views[j].view.party_idx as int]@ == protocol::opened_shares(
                    c,
                    m,
                    num_parties as nat,
                    views[j].view.party_idx,
                ) && table@[views[j].view.party_idx as int]@.len() == c.num_wires,
        decreases repetition.opened_views@.len() - i,
    {
        let opened: &OpenedView = &repetition.opened_views[i];
        let party: usize = opened.view.party_idx;
        proof {
            assert(views[i as int] == opened@);
            lemma_position(views, i as int, 0);
            assert(encoding::blocks(seeds@)[party as int] == seeds@[party as int]@);
        }
        let shares: Vec<u32> = recompute_linear_shares(
            &proof_data.circuit,
            &seeds[party],
            party,
            num_parties,
            &opened.view.mul_output_shares,
            &opened.view.residual_input_shares,
        );
        let ghost before = table@;
        proof {
            assert(shares@ == protocol::opened_shares(c, m, num_parties as nat, party as nat));
        }
        table.set(party, shares);
        proof {
            assert forall|j: int|
                #![trigger views[j]]
                0 <= j < i + 1 implies table@[views[j].view.party_idx as int]@
                == protocol::opened_shares(c, m, num_parties as nat, views[j].view.party_idx)
                && table@[views[j].view.party_idx as int]@.len() == c.num_wires by {
                if j < i {
                    assert(views[j].view.party_idx != views[i as int].view.party_idx);
                    assert(table@[views[j].view.party_idx as int]
                        == before[views[j].view.party_idx as int]);
                }
            }
        }
        i = i + 1;
    }
    proof {
        assert forall|q: int|
            0 <= q < num_parties && q != m.hidden_party implies (#[trigger] table@[q])@
            == protocol::opened_shares(c, m, num_parties as nat, q as nat) && table@[q]@.len()
            == c.num_wires by {
            assert(protocol::opened_before(views, views.len() as int, q as nat));
            let j = choose|j: int|
                0 <= j < views.len() && (#[trigger] views[j]).view.party_idx == q as nat;
            assert(views[j].view.party_idx == q as nat);
        }
    }
    table
}

/// The same shares by wire; zero for the hidden party.
fn opened_rows(
    table: &[Vec<u32>],
    hidden: usize,
    num_wires: usize,
) -> (r: Vec<Vec<u32>>)
    requires
        forall|q: int|
            0 <= q < table@.len() && q != hidden ==> (#[trigger] table@[q])@.len() == num_wires,
    ensures
        r@.len() == num_wires,
        forall|w: int|
            0 <= w < num_wires ==> (#[trigger] r@[w])@ == Seq::new(
                table@.len(),
                |q: int|
                    if q == hidden {
                        0
                    } else {
                        table@[q]@[w]
                    },
            ),
{
    let n: usize = table.len();
    let mut rows: Vec<Vec<u32>> = Vec::new();
    let mut w: usize = 0;
    while w < num_wires
        invariant
            w <= num_wires,
            n == table@.len(),
            forall|q: int|
                0 <= q < table@.len() && q != hidden ==> (#[trigger] table@[q])@.len() == num_wires,
            rows@.len() == w,
            forall|v: int|
                0 <= v < w ==> (#[trigger] rows@[v])@ == Seq::new(
                    table@.len(),
                    |q: int|
                        if q == hidden {
                            0
                        } else {
                            table@[q]@[v]
                        },
                ),
        decreases num_wires - w,
    {
        let mut row: Vec<u32> = Vec::with_capacity(n);
        let mut q: usize = 0;
        while q < n
            invariant
                q <= n,
                n == table@.len(),
                w < num_wires,
                forall|q: int|
                    0 <= q < table@.len() && q != hidden ==> (#[trigger] table@[q])@.len()
                        == num_wires,
                row@.len() == q,
                forall|j: int|
                    0 <= j < q ==> #[trigger] row@[j] == if j == hidden {
                        0
                    } else {
                        table@[j]@[w as int]
                    },
            decreases n - q,
        {
            if q == hidden {
                row.push(0);
            } else {
                proof {
                    assert(table@[q as int]@.len() == num_wires);
                }
                row.push(table[q][w]);
            }
            q = q + 1;
        }
        proof {
            assert(row@ =~= Seq::new(
                table@.len(),
                |q: int|
                    if q == hidden {
                        0
                    } else {
                        table@[q]@[w as int]
                    },
            ));
        }
        rows.push(row);
        w = w + 1;
    }
    rows
}

/// Whether the words at `q` and at the party after it are those of their seeds.
spec fn has_words(words: Seq<Vec<u32>>, seeds: Seq<[u8; 32]>, q: int, count: nat) -> bool {
    let next = (q + 1) % (seeds.len() as int);
    &&& words[q]@ == mpc::zero_list(seeds[q]@, count)
    &&& words[next]@ == mpc::zero_list(seeds[next]@, count)
}

/// Whether party `q` and the party after it are marked.
spec fn marked(marks: Seq<bool>, q: int) -> bool {
    marks[q] && marks[(q + 1) % (marks.len() as int)]
}

/// The words for all multiplications of the parties that can be checked and of those after them.
fn opened_words(seeds: &[[u8; 32]], hidden: usize, count: usize) -> (r: Vec<Vec<u32>>)
    requires
        hidden < seeds@.len(),
    ensures
        r@.len() == seeds@.len(),
        forall|q: int|
            0 <= q < seeds@.len() && q != hidden && !product::on_right(
                q,
                hidden as int,
                seeds@.len() as int,
            ) ==> #[trigger] has_words(r@, seeds@, q, count as nat),
{
    let n: usize = seeds.len();
    let mut needed: Vec<bool> = Vec::new();
    let mut q: usize = 0;
    while q < n
        invariant
            q <= n,
            needed@.len() == q,
        decreases n - q,
    {
        needed.push(false);
        q = q + 1;
    }
    let mut q: usize = 0;
    while q < n
        invariant
            q <= n,
            n == seeds@.len(),
            hidden < n,
            needed@.len() == n,
            forall|p: int|
                0 <= p < q && p != hidden && !product::on_right(p, hidden as int, n as int)
                    ==> #[trigger] marked(needed@, p),
        decreases n - q,
    {
        if q != hidden && !is_on_right(q, hidden, n) {
            let next: usize = if q + 1 < n {
                q + 1
            } else {
                0
            };
            proof {
                lemma_next(q as int, n as int);
            }
            let ghost before = needed@;
            needed.set(q, true);
            needed.set(next, true);
            proof {
                assert forall|p: int|
                    0 <= p < q + 1 && p != hidden && !product::on_right(
                        p,
                        hidden as int,
                        n as int,
                    ) implies #[trigger] marked(needed@, p) by {
                    lemma_next(p, n as int);
                    if p < q {
                        assert(marked(before, p));
                    }
                }
            }
        }
        q = q + 1;
    }
    let mut words: Vec<Vec<u32>> = Vec::new();
    let mut q: usize = 0;
    while q < n
        invariant
            q <= n,
            n == seeds@.len(),
            needed@.len() == n,
            forall|p: int|
                0 <= p < n && p != hidden && !product::on_right(p, hidden as int, n as int)
                    ==> #[trigger] marked(needed@, p),
            words@.len() == q,
            forall|p: int|
                0 <= p < q && needed@[p] ==> (#[trigger] words@[p])@ == mpc::zero_list(
                    seeds@[p]@,
                    count as nat,
                ),
        decreases n - q,
    {
        if needed[q] {
            words.push(draw_zero_words(&seeds[q], count));
        } else {
            words.push(Vec::new());
        }
        q = q + 1;
    }
    proof {
        assert forall|q: int|
            0 <= q < n && q != hidden && !product::on_right(
                q,
                hidden as int,
                n as int,
            ) implies #[trigger] has_words(words@, seeds@, q, count as nat) by {
            lemma_next(q, n as int);
            assert(marked(needed@, q));
        }
    }
    words
}

/// The number of the next party.
proof fn lemma_next(p: int, n: int)
    requires
        0 <= p < n,
    ensures
        (p + 1) % n == if p + 1 < n {
            p + 1
        } else {
            0
        },
{
    if p + 1 < n {
        lemma_small_mod((p + 1) as nat, n as nat);
    } else {
        lemma_mod_self_0(n);
    }
}

/// For every wire the sum of the shares of the parties on the right of `p`.
fn right_sums(shares: &[Vec<u32>], p: usize, num_parties: usize) -> (r: Vec<u32>)
    requires
        p < num_parties,
        forall|w: int| 0 <= w < shares@.len() ==> (#[trigger] shares@[w])@.len() == num_parties,
    ensures
        r@ == mpc::right_column(proofs::rows(shares@), p as int),
{
    let mut sums: Vec<u32> = Vec::new();
    let mut w: usize = 0;
    while w < shares.len()
        invariant
            w <= shares@.len(),
            p < num_parties,
            forall|w: int|
                0 <= w < shares@.len() ==> (#[trigger] shares@[w])@.len() == num_parties,
            sums@.len() == w,
            forall|v: int|
                0 <= v < w ==> #[trigger] sums@[v] == product::right_share(
                    shares@[v]@,
                    p as int,
                ),
        decreases shares@.len() - w,
    {
        sums.push(right_total(&shares[w], p));
        w = w + 1;
    }
    proof {
        assert(sums@ =~= mpc::right_column(proofs::rows(shares@), p as int));
    }
    sums
}

/// Compares the public shares of all assertions with those of an opened view.
fn check_assert_shares(
    circuit: &Circuit,
    repetition: &RepetitionProof,
    constraints: &[(usize, u32)],
    rep: usize,
    party: usize,
    own: &[u32],
) -> (r: Result<(), MpcithError>)
    requires
        circuit@.in_range(),
        constraints@ == circuit@.assertions(),
        repetition.assert_shares@.len() == constraints@.len(),
        own@.len() == circuit@.num_wires,
        forall|g: int|
            0 <= g < constraints@.len() ==> party < (#[trigger] repetition.assert_shares@[g])@.len(),
    ensures
        checks::reports(
            r,
            checks::first_some(
                protocol::assert_share_checks(
                    circuit@,
                    repetition@,
                    rep as nat,
                    party as nat,
                    own@,
                ),
                0,
                circuit@.assertions().len(),
            ),
        ),
{
    let ghost f = protocol::assert_share_checks(
        circuit@,
        repetition@,
        rep as nat,
        party as nat,
        own@,
    );
    proof {
        lemma_asserted_wires(circuit@, circuit@.gates.len());
    }
    let n: usize = constraints.len();
    let mut g: usize = 0;
    while g < n
        invariant
            g <= n,
            n == constraints@.len(),
            constraints@ == circuit@.assertions(),
            repetition.assert_shares@.len() == constraints@.len(),
            own@.len() == circuit@.num_wires,
            forall|g: int|
                0 <= g < constraints@.len() ==> party < (
                #[trigger] repetition.assert_shares@[g])@.len(),
            forall|g: int|
                0 <= g < constraints@.len() ==> (#[trigger] constraints@[g]).0
                    < circuit@.num_wires,
            f == protocol::assert_share_checks(
                circuit@,
                repetition@,
                rep as nat,
                party as nat,
                own@,
            ),
            checks::first_some(f, 0, n as nat) == checks::first_some(f, g as nat, n as nat),
        decreases n - g,
    {
        proof {
            assert(f(g as int) == protocol::assert_share_failure(
                circuit@,
                repetition@,
                rep as nat,
                party as nat,
                own@,
                g as int,
            ));
            assert(repetition@.message.assert_shares[g as int]
                == repetition.assert_shares@[g as int]@);
        }
        let wire: usize = constraints[g].0;
        if repetition.assert_shares[g][party] != own[wire] {
            return Err(
                MpcithError::VerificationFailed(
                    text3(
                        "Repetition ",
                        rep,
                        ": party ",
                        party,
                        " assert-share mismatch for gate ",
                        g,
                        "",
                    ),
                ),
            );
        }
        g = g + 1;
    }
    Ok(())
}

/// Compares the public shares of all outputs with those of an opened view.
fn check_output_shares(
    circuit: &Circuit,
    repetition: &RepetitionProof,
    rep: usize,
    party: usize,
    own: &[u32],
) -> (r: Result<(), MpcithError>)
    requires
        circuit@.num_outputs <= circuit@.num_wires,
        repetition.output_shares@.len() == circuit@.num_outputs,
        own@.len() == circuit@.num_wires,
        forall|o: int|
            0 <= o < repetition.output_shares@.len() ==> party < (
            #[trigger] repetition.output_shares@[o])@.len(),
    ensures
        checks::reports(
            r,
            checks::first_some(
                protocol::output_share_checks(
                    circuit@,
                    repetition@,
                    rep as nat,
                    party as nat,
                    own@,
                ),
                0,
                circuit@.num_outputs,
            ),
        ),
{
    let ghost f = protocol::output_share_checks(
        circuit@,
        repetition@,
        rep as nat,
        party as nat,
        own@,
    );
    let n: usize = circuit.num_outputs;
    let start: usize = circuit.num_wires - circuit.num_outputs;
    let mut o: usize = 0;
    while o < n
        invariant
            o <= n,
            n == circuit@.num_outputs,
            start == circuit@.output_start(),
            start + n == circuit.num_wires,
            repetition.output_shares@.len() == n,
            own@.len() == circuit@.num_wires,
            forall|o: int|
                0 <= o < repetition.output_shares@.len() ==> party < (
                #[trigger] repetition.output_shares@[o])@.len(),
            f == protocol::output_share_checks(
                circuit@,
                repetition@,
                rep as nat,
                party as nat,
                own@,
            ),
            checks::first_some(f, 0, n as nat) == checks::first_some(f, o as nat, n as nat),
        decreases n - o,
    {
        proof {
            assert(f(o as int) == protocol::output_share_failure(
                circuit@,
                repetition@,
                rep as nat,
                party as nat,
                own@,
                o as int,
            ));
            assert(repetition@.message.output_shares[o as int]
                == repetition.output_shares@[o as int]@);
        }
        if repetition.output_shares[o][party] != own[start + o] {
            return Err(
                MpcithError::VerificationFailed(
                    text3(
                        "Repetition ",
                        rep,
                        ": party ",
                        party,
                        " output-share mismatch for output ",
                        o,
                        "",
                    ),
                ),
            );
        }
        o = o + 1;
    }
    Ok(())
}

/// The next party is on the right.
pub proof fn lemma_next_on_right(p: int, n: int)
    requires
        n >= 3,
        0 <= p < n,
    ensures
        product::on_right(p, (p + 1) % n, n),
{
    lemma_small_mod(1, n as nat);
    if p + 1 < n {
        lemma_small_mod((p + 1) as nat, n as nat);
    } else {
        lemma_mod_self_0(n);
        lemma_mod_add_multiples_vanish(0 - p, n);
        assert((0 - p) % n == 1);
    }
}

/// Checks an opened view: its commitment, the shares that come with it, how its shares fit
/// together, and the public shares.
fn check_opened(
    proof_data: &Proof,
    num_parties: usize,
    rep: usize,
    i: usize,
    constraints: &[(usize, u32)],
    seeds: &[[u8; 32]],
    table: &[Vec<u32>],
    wires: &[Vec<u32>],
    words: &[Vec<u32>],
) -> (r: Result<(), MpcithError>)
    requires
        num_parties >= 3,
        words@.len() == num_parties,
        forall|q: int|
            0 <= q < num_parties && q != proof_data@.repetitions[rep as int].hidden_party
                && !product::on_right(
                q,
                proof_data@.repetitions[rep as int].hidden_party as int,
                num_parties as int,
            ) ==> #[trigger] has_words(
                words@,
                seeds@,
                q,
                circuit::count_mul(proof_data@.circuit.gates, proof_data@.circuit.gates.len()),
            ),
        rep < proof_data.repetitions@.len(),
        i < proof_data.repetitions@[rep as int].opened_views@.len(),
        validation::circuit_fits(proof_data@),
        validation::repetition_fits(proof_data@, num_parties as nat, rep as int),
        constraints@ == proof_data@.circuit.assertions(),
        encoding::blocks(seeds@) == protocol::opened_seeds(
            proof_data@.repetitions[rep as int],
            num_parties as nat,
        ),
        seeds@.len() == num_parties,
        table@.len() == num_parties,
        forall|q: int|
            0 <= q < num_parties && q != proof_data@.repetitions[rep as int].hidden_party ==> (
            #[trigger] table@[q])@ == protocol::opened_shares(
                proof_data@.circuit,
                proof_data@.repetitions[rep as int],
                num_parties as nat,
                q as nat,
            ) && table@[q]@.len() == proof_data@.circuit.num_wires,
        proofs::rows(wires@) == protocol::opened_wires(
            proof_data@.circuit,
            proof_data@.repetitions[rep as int],
            num_parties as nat,
        ),
    ensures
        checks::reports(
            r,
            protocol::opened_failure(
                proof_data@.circuit,
                proof_data@.repetitions[rep as int],
                num_parties as nat,
                rep as nat,
                i as int,
            ),
        ),
{
    let repetition: &RepetitionProof = &proof_data.repetitions[rep];
    let circuit: &Circuit = &proof_data.circuit;
    let opened: &OpenedView = &repetition.opened_views[i];
    let party: usize = opened.view.party_idx;
    let ghost c = proof_data@.circuit;
    let ghost m = proof_data@.repetitions[rep as int];
    let ghost n = num_parties as nat;
    proof {
        assert(m == repetition@);
        assert(m.opened_views[i as int] == opened@);
        assert(encoding::blocks(seeds@)[party as int] == seeds@[party as int]@);
        assert(table@[party as int]@ == protocol::opened_shares(c, m, n, party as nat));
        assert forall|g: int| 0 <= g < repetition.assert_shares@.len() implies (
        #[trigger] repetition.assert_shares@[g])@.len() == num_parties by {
            assert(m.message.assert_shares[g].len() == num_parties);
        }
        assert forall|o: int| 0 <= o < repetition.output_shares@.len() implies (
        #[trigger] repetition.output_shares@[o])@.len() == num_parties by {
            assert(m.message.output_shares[o].len() == num_parties);
        }
    }
    let message: Vec<u8> = opened.view.to_commitment_bytes_with_seed(&seeds[party]);
    let leaf: [u8; 32] = commit_view(
        rep,
        party,
        &seeds[party],
        &message,
        &opened.commitment_randomness,
    ).0;
    let path: CommitMerkleProof = CommitMerkleProof {
        leaf,
        leaf_index: party,
        siblings: copy_blocks(&opened.commitment_auth_path),
        root: repetition.commitment_root,
    };
    if !path.verify() {
        return Err(MpcithError::CommitmentMismatch { party, repetition: rep });
    }
    let own: &[u32] = &table[party];
    if opened.view.wire_shares.len() > 0 && !same_words(&opened.view.wire_shares, own) {
        return Err(MpcithError::ConsistencyCheckFailed(party));
    }
    let checked: Result<(), MpcithError> = if is_on_right(
        party,
        repetition.hidden_party,
        num_parties,
    ) {
        check_party_view(
            circuit,
            own,
            party,
            None,
            Ghost(seeds@[party as int]@),
            Ghost(Seq::empty()),
        )
    } else {
        let next: usize = if party + 1 < num_parties {
            party + 1
        } else {
            0
        };
        proof {
            lemma_next(party as int, num_parties as int);
            assert(has_words(
                words@,
                seeds@,
                party as int,
                circuit::count_mul(c.gates, c.gates.len()),
            ));
            assert(encoding::blocks(seeds@)[next as int] == seeds@[next as int]@);
            assert forall|w: int| 0 <= w < wires@.len() implies (#[trigger] wires@[w])@.len()
                == num_parties by {
                assert(proofs::rows(wires@)[w] == wires@[w]@);
                assert(protocol::opened_wires(c, m, n)[w].len() == n);
            }
        }
        let sums: Vec<u32> = right_sums(wires, party, num_parties);
        proof {
            lemma_only_muls(c.gates, c.gates.len());
        }
        check_party_view(
            circuit,
            own,
            party,
            Some((&words[party], &words[next], &sums)),
            Ghost(seeds@[party as int]@),
            Ghost(seeds@[next as int]@),
        )
    };
    match checked {
        Ok(_) => {},
        Err(e) => {
            return Err(e);
        },
    }
    match check_assert_shares(circuit, repetition, constraints, rep, party, own) {
        Ok(_) => {},
        Err(e) => {
            return Err(e);
        },
    }
    check_output_shares(circuit, repetition, rep, party, own)
}

/// The sum of a list of words.
fn sum_words(s: &[u32]) -> (r: u32)
    ensures
        r == ring::wrap(ring::total(s@)),
{
    let ghost f = |j: int| s@[j] as int;
    let mut sum: u32 = 0;
    let mut i: usize = 0;
    while i < s.len()
        invariant
            i <= s@.len(),
            f == (|j: int| s@[j] as int),
            sum == ring::wrap(ring::sigma(i as nat, f)),
        decreases s@.len() - i,
    {
        proof {
            ring::lemma_wrapping_ops(sum, s@[i as int]);
            ring::lemma_wrap_add(ring::sigma(i as nat, f), s@[i as int] as int);
        }
        sum = sum.wrapping_add(s[i]);
        i = i + 1;
    }
    sum
}

/// Checks that the public shares of every assertion add up to the asserted value.
fn check_assert_sums(
    circuit: &Circuit,
    repetition: &RepetitionProof,
    constraints: &[(usize, u32)],
    rep: usize,
) -> (r: Result<(), MpcithError>)
    requires
        constraints@ == circuit@.assertions(),
        repetition.assert_shares@.len() == constraints@.len(),
    ensures
        checks::reports(
            r,
            checks::first_some(
                protocol::assert_sum_checks(circuit@, repetition@, rep as nat),
                0,
                circuit@.assertions().len(),
            ),
        ),
{
    let ghost f = protocol::assert_sum_checks(circuit@, repetition@, rep as nat);
    let n: usize = constraints.len();
    let mut g: usize = 0;
    while g < n
        invariant
            g <= n,
            n == constraints@.len(),
            constraints@ == circuit@.assertions(),
            repetition.assert_shares@.len() == constraints@.len(),
            f == protocol::assert_sum_checks(circuit@, repetition@, rep as nat),
            checks::first_some(f, 0, n as nat) == checks::first_some(f, g as nat, n as nat),
        decreases n - g,
    {
        proof {
            assert(f(g as int) == protocol::assert_sum_failure(
                circuit@,
                repetition@,
                rep as nat,
                g as int,
            ));
            assert(repetition@.message.assert_shares[g as int]
                == repetition.assert_shares@[g as int]@);
        }
        let sum: u32 = sum_words(&repetition.assert_shares[g]);
        let expected: u32 = constraints[g].1;
        if sum != expected {
            return Err(
                MpcithError::VerificationFailed(
                    text4(
                        "Repetition ",
                        rep,
                        ": AssertEq gate ",
                        g,
                        " failed (reconstructed ",
                        sum as usize,
                        ", expected ",
                        expected as usize,
                        ")",
                    ),
                ),
            );
        }
        g = g + 1;
    }
    Ok(())
}

/// Checks that the public shares of every output add up to the value that it must have.
fn check_output_sums(proof_data: &Proof, rep: usize) -> (r: Result<(), MpcithError>)
    requires
        validation::circuit_fits(proof_data@),
        rep < proof_data.repetitions@.len(),
        proof_data.repetitions@[rep as int].output_shares@.len() == proof_data@.circuit.num_outputs,
    ensures
        checks::reports(
            r,
            checks::first_some(
                protocol::output_sum_checks(proof_data@, rep as nat),
                0,
                proof_data@.circuit.num_outputs,
            ),
        ),
{
    let repetition: &RepetitionProof = &proof_data.repetitions[rep];
    let ghost p = proof_data@;
    let ghost f = protocol::output_sum_checks(p, rep as nat);
    let n: usize = proof_data.circuit.num_outputs;
    let start: usize = proof_data.circuit.num_wires - proof_data.circuit.num_outputs;
    let mut o: usize = 0;
    while o < n
        invariant
            o <= n,
            p == proof_data@,
            n == p.circuit.num_outputs,
            start == p.circuit.output_start(),
            start + n == proof_data.circuit.num_wires,
            rep < proof_data.repetitions@.len(),
            *repetition == proof_data.repetitions@[rep as int],
            repetition.output_shares@.len() == n,
            proof_data.expected_outputs@.len() == n,
            f == protocol::output_sum_checks(p, rep as nat),
            checks::first_some(f, 0, n as nat) == checks::first_some(f, o as nat, n as nat),
        decreases n - o,
    {
        proof {
            assert(f(o as int) == protocol::output_sum_failure(p, rep as nat, o as int));
            assert(p.repetitions[rep as int] == repetition@);
            assert(repetition@.message.output_shares[o as int]
                == repetition.output_shares@[o as int]@);
        }
        let sum: u32 = sum_words(&repetition.output_shares[o]);
        let expected: u32 = match proof_data.circuit.assert_expected_for_output(start + o) {
            Some(x) => x,
            None => proof_data.expected_outputs[o],
        };
        if sum != expected {
            return Err(
                MpcithError::VerificationFailed(
                    text4(
                        "Repetition ",
                        rep,
                        ": output[",
                        o,
                        "] reconstructed as ",
                        sum as usize,
                        ", expected ",
                        expected as usize,
                        "",
                    ),
                ),
            );
        }
        o = o + 1;
    }
    Ok(())
}

/// Checks a repetition of a proof of the right shape, given the party that must be hidden.
pub fn verify_repetition(
    proof_data: &Proof,
    params: &ProofParams,
    rep: usize,
    expected_hidden: usize,
    constraints: &[(usize, u32)],
) -> (r: Result<(), MpcithError>)
    requires
        params.num_parties >= 3,
        protocol::params_fit(*params),
        rep < proof_data.repetitions@.len(),
        validation::circuit_fits(proof_data@),
        validation::repetition_fits(proof_data@, params.num_parties as nat, rep as int),
        constraints@ == proof_data@.circuit.assertions(),
    ensures
        checks::reports(
            r,
            protocol::rep_failure(
                proof_data@,
                *params,
                rep as nat,
                expected_hidden as nat,
            ),
        ),
{
    let num_parties: usize = params.num_parties;
    let repetition: &RepetitionProof = &proof_data.repetitions[rep];
    let ghost p = proof_data@;
    let ghost c = p.circuit;
    let ghost m = p.repetitions[rep as int];
    let ghost n = num_parties as nat;
    proof {
        assert(m == repetition@);
    }
    if repetition.hidden_party != expected_hidden {
        return Err(
            MpcithError::VerificationFailed(
                text3(
                    "Repetition ",
                    rep,
                    ": hidden party mismatch (expected ",
                    expected_hidden,
                    ", got ",
                    repetition.hidden_party,
                    ")",
                ),
            ),
        );
    }
    proof {
        tree::lemma_tree_depth(n);
        assert(repetition.co_path@.len() == m.co_path.len());
    }
    let seeds: Vec<[u8; 32]> = reconstruct_leaves_from_co_path(
        &repetition.co_path,
        repetition.hidden_party,
        num_parties,
    );
    let table: Vec<Vec<u32>> = opened_tables(proof_data, num_parties, rep, &seeds);
    let wires: Vec<Vec<u32>> = opened_rows(
        &table,
        repetition.hidden_party,
        proof_data.circuit.num_wires,
    );
    let words: Vec<Vec<u32>> = opened_words(
        &seeds,
        repetition.hidden_party,
        proof_data.circuit.num_mul_gates(),
    );
    let ghost f = protocol::opened_checks(c, m, n, rep as nat);
    proof {
        let shown = protocol::opened_wires(c, m, n);
        assert forall|w: int| 0 <= w < c.num_wires implies proofs::rows(wires@)[w]
            == #[trigger] shown[w] by {
            assert(wires@[w]@ =~= shown[w]);
        }
        assert(proofs::rows(wires@) =~= shown);
    }
    let count: usize = repetition.opened_views.len();
    let mut i: usize = 0;
    while i < count
        invariant
            i <= count,
            count == repetition.opened_views@.len(),
            *repetition == proof_data.repetitions@[rep as int],
            p == proof_data@,
            c == p.circuit,
            m == p.repetitions[rep as int],
            n == num_parties,
            num_parties >= 3,
            rep < proof_data.repetitions@.len(),
            validation::circuit_fits(p),
            validation::repetition_fits(p, n, rep as int),
            constraints@ == c.assertions(),
            encoding::blocks(seeds@) == protocol::opened_seeds(m, n),
            seeds@.len() == num_parties,
            table@.len() == num_parties,
            forall|q: int|
                0 <= q < num_parties && q != m.hidden_party ==> (#[trigger] table@[q])@
                    == protocol::opened_shares(c, m, n, q as nat) && table@[q]@.len()
                    == c.num_wires,
            proofs::rows(wires@) == protocol::opened_wires(c, m, n),
            words@.len() == num_parties,
            forall|q: int|
                0 <= q < num_parties && q != m.hidden_party && !product::on_right(
                    q,
                    m.hidden_party as int,
                    num_parties as int,
                ) ==> #[trigger] has_words(
                    words@,
                    seeds@,
                    q,
                    circuit::count_mul(c.gates, c.gates.len()),
                ),
            f == protocol::opened_checks(c, m, n, rep as nat),
            checks::first_some(f, 0, count as nat) == checks::first_some(f, i as nat, count as nat),
            m == repetition@,
            protocol::rep_failure(p, *params, rep as nat, expected_hidden as nat)
                == protocol::opened_then_sums(p, n, rep as nat),
        decreases count - i,
    {
        proof {
            assert(f(i as int) == protocol::opened_failure(c, m, n, rep as nat, i as int));
        }
        match check_opened(
            proof_data,
            num_parties,
            rep,
            i,
            constraints,
            &seeds,
            &table,
            &wires,
            &words,
        ) {
            Ok(_) => {},
            Err(e) => {
                return Err(e);
            },
        }
        i = i + 1;
    }
    match check_assert_sums(&proof_data.circuit, repetition, constraints, rep) {
        Ok(_) => {},
        Err(e) => {
            return Err(e);
        },
    }
    check_output_sums(proof_data, rep)
}

} // verus!
