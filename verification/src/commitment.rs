//! Commitments.
//!
//! A commitment to some data is a BLAKE3 key derived from a domain, a random block and the data.
//! Each party's view is committed to on its own, so that views can be opened selectively.

use crate::encoding;
use crate::hash;
use crate::text;
use vstd::prelude::*;

verus! {

/// A commitment.
#[derive(Clone, Copy, Debug, PartialEq, Eq)]
pub struct Commitment(pub [u8; 32]);

/// What opens a commitment.
#[derive(Clone, Copy, Debug)]
pub struct CommitmentOpening {
    pub randomness: [u8; 32],
}

/// The commitment to `data`.
pub open spec fn commitment_to(domain: Seq<u8>, randomness: Seq<u8>, data: Seq<u8>) -> Seq<u8> {
    hash::blake3_derived_key("mpcith-zk commitment v1"@, domain + randomness + data)
}

/// Whether an opening and data belong to a commitment.
pub open spec fn opens(
    domain: Seq<u8>,
    randomness: Seq<u8>,
    data: Seq<u8>,
    commitment: Seq<u8>,
) -> bool {
    commitment_to(domain, randomness, data) == commitment
}

/// A commitment is opened by the randomness and the data that it was made from, and by no data
/// with another commitment.
pub proof fn lemma_commitment_opens(
    domain: Seq<u8>,
    randomness: Seq<u8>,
    data: Seq<u8>,
    other: Seq<u8>,
)
    ensures
        opens(domain, randomness, data, commitment_to(domain, randomness, data)),
        opens(domain, randomness, other, commitment_to(domain, randomness, data))
            <==> commitment_to(domain, randomness, other) == commitment_to(
            domain,
            randomness,
            data,
        ),
{
}

/// Two different byte strings from which the same commitment is made.
pub open spec fn keys_collide(a: Seq<u8>, b: Seq<u8>) -> bool {
    &&& a != b
    &&& hash::blake3_derived_key("mpcith-zk commitment v1"@, a) == hash::blake3_derived_key(
        "mpcith-zk commitment v1"@,
        b,
    )
}

/// Commitments bind: if one is opened in two ways, the two byte strings that it is made from collide
/// under BLAKE3.
pub proof fn lemma_commitments_bind(
    domain: Seq<u8>,
    r: Seq<u8>,
    x: Seq<u8>,
    s: Seq<u8>,
    y: Seq<u8>,
    commitment: Seq<u8>,
)
    requires
        r.len() == s.len(),
        opens(domain, r, x, commitment),
        opens(domain, s, y, commitment),
    ensures
        (r == s && x == y) || keys_collide(domain + r + x, domain + s + y),
{
    let a = domain + r + x;
    let b = domain + s + y;
    if a == b {
        let d = domain.len() as int;
        let e = d + r.len();
        assert(r =~= a.subrange(d, e));
        assert(s =~= b.subrange(d, e));
        assert(x =~= a.subrange(e, a.len() as int));
        assert(y =~= b.subrange(e, b.len() as int));
    }
}

/// The domain of the commitment to a party's view.
pub open spec fn view_domain(repetition: nat, party: nat) -> Seq<u8> {
    encoding::ascii(
        text::line2("mpcith-view:rep="@, repetition, ":party="@, party, ""@),
    )
}

/// The commitment to a party's seed and messages.
pub open spec fn view_commitment(
    repetition: nat,
    party: nat,
    seed: Seq<u8>,
    messages: Seq<u8>,
    randomness: Seq<u8>,
) -> Seq<u8> {
    commitment_to(view_domain(repetition, party), randomness, seed + messages)
}

/// Commits to data.
pub fn commit(domain: &[u8], randomness: &[u8; 32], data: &[u8]) -> (r: Commitment)
    ensures
        r.0@ == commitment_to(domain@, randomness@, data@),
        r.0@ == hash::blake3_derived_key(
            "mpcith-zk commitment v1"@,
            domain@ + randomness@ + data@,
        ),
{
    let mut material: Vec<u8> = Vec::new();
    encoding::push_bytes(&mut material, domain);
    encoding::push_block(&mut material, randomness);
    encoding::push_bytes(&mut material, data);
    proof {
        assert(material@ =~= domain@ + randomness@ + data@);
    }
    Commitment(hash::blake3_derive_key("mpcith-zk commitment v1", &material))
}

/// Whether an opening and data belong to a commitment.
pub fn verify_commitment(
    domain: &[u8],
    opening: &CommitmentOpening,
    data: &[u8],
    expected: &Commitment,
) -> (r: bool)
    ensures
        r == opens(domain@, opening.randomness@, data@, expected.0@),
        r == (hash::blake3_derived_key(
            "mpcith-zk commitment v1"@,
            domain@ + opening.randomness@ + data@,
        ) == expected.0@),
{
    let computed: Commitment = commit(domain, &opening.randomness, data);
    encoding::same_block(&computed.0, &expected.0)
}

/// Commits to a party's seed and messages. The repetition and the party are part of the domain.
pub fn commit_view(
    repetition: usize,
    party: usize,
    seed: &[u8; 32],
    broadcast_messages: &[u8],
    randomness: &[u8; 32],
) -> (r: Commitment)
    ensures
        r.0@ == view_commitment(
            repetition as nat,
            party as nat,
            seed@,
            broadcast_messages@,
            randomness@,
        ),
        r.0@ == hash::blake3_derived_key(
            "mpcith-zk commitment v1"@,
            vstd::utf8::encode_utf8(
                "mpcith-view:rep="@ + text::decimal(repetition as nat) + ":party="@ + text::decimal(
                    party as nat,
                ) + ""@,
            ) + randomness@ + (seed@ + broadcast_messages@),
        ),
{
    let domain: String = text::text2("mpcith-view:rep=", repetition, ":party=", party, "");
    let mut data: Vec<u8> = Vec::new();
    encoding::push_block(&mut data, seed);
    encoding::push_bytes(&mut data, broadcast_messages);
    proof {
        assert(data@ =~= seed@ + broadcast_messages@);
    }
    commit(domain.as_str().as_bytes(), randomness, &data)
}

/// The commitments of all parties in all repetitions.
#[derive(Debug)]
pub struct CommitmentMatrix {
    /// By repetition, then by party.
    pub commitments: Vec<Vec<Commitment>>,
    pub num_repetitions: usize,
    pub num_parties: usize,
}

impl Clone for CommitmentMatrix {
    fn clone(&self) -> (r: Self)
        ensures
            r.commitments@.len() == self.commitments@.len(),
            forall|i: int|
                0 <= i < self.commitments@.len() ==> (#[trigger] r.commitments@[i])@
                    == self.commitments@[i]@,
            r.num_repetitions == self.num_repetitions,
            r.num_parties == self.num_parties,
    {
        let mut commitments: Vec<Vec<Commitment>> = Vec::with_capacity(self.commitments.len());
        let mut i: usize = 0;
        while i < self.commitments.len()
            invariant
                i <= self.commitments@.len(),
                commitments@.len() == i,
                forall|j: int|
                    0 <= j < i ==> (#[trigger] commitments@[j])@ == self.commitments@[j]@,
            decreases self.commitments@.len() - i,
        {
            let source: &Vec<Commitment> = &self.commitments[i];
            let mut row: Vec<Commitment> = Vec::with_capacity(source.len());
            let mut k: usize = 0;
            while k < source.len()
                invariant
                    k <= source@.len(),
                    row@ == source@.take(k as int),
                decreases source@.len() - k,
            {
                row.push(source[k]);
                k = k + 1;
            }
            proof {
                assert(source@.take(k as int) =~= source@);
            }
            commitments.push(row);
            i = i + 1;
        }
        CommitmentMatrix {
            commitments,
            num_repetitions: self.num_repetitions,
            num_parties: self.num_parties,
        }
    }
}

/// The bytes of the first `n` commitments of a row.
pub open spec fn row_bytes(row: Seq<Commitment>, n: nat) -> Seq<u8>
    decreases n,
{
    if n == 0 {
        Seq::empty()
    } else {
        row_bytes(row, (n - 1) as nat) + row[n - 1].0@
    }
}

/// The bytes of the first `n` rows.
pub open spec fn matrix_bytes(rows: Seq<Vec<Commitment>>, n: nat) -> Seq<u8>
    decreases n,
{
    if n == 0 {
        Seq::empty()
    } else {
        matrix_bytes(rows, (n - 1) as nat) + row_bytes(rows[n - 1]@, rows[n - 1]@.len())
    }
}

impl CommitmentMatrix {
    /// The commitment of a party in a repetition.
    pub open spec fn at(self, rep: int, party: int) -> Seq<u8> {
        self.commitments@[rep]@[party].0@
    }

    /// Whether there is a commitment for a party in a repetition.
    pub open spec fn has(self, rep: int, party: int) -> bool {
        0 <= rep < self.commitments@.len() && 0 <= party < self.commitments@[rep]@.len()
    }

    /// A matrix of zeros.
    pub fn new(num_repetitions: usize, num_parties: usize) -> (r: Self)
        ensures
            r.num_repetitions == num_repetitions,
            r.num_parties == num_parties,
            r.commitments@.len() == num_repetitions,
            forall|rep: int|
                0 <= rep < num_repetitions ==> (#[trigger] r.commitments@[rep])@.len()
                    == num_parties,
            forall|rep: int, party: int|
                0 <= rep < num_repetitions && 0 <= party < num_parties ==> #[trigger] r.at(
                    rep,
                    party,
                ) == encoding::zero_block(),
    {
        let zero: Commitment = Commitment([0u8; 32]);
        proof {
            assert(zero.0@ =~= encoding::zero_block());
        }
        let mut commitments: Vec<Vec<Commitment>> = Vec::with_capacity(num_repetitions);
        let mut rep: usize = 0;
        while rep < num_repetitions
            invariant
                rep <= num_repetitions,
                zero.0@ == encoding::zero_block(),
                commitments@.len() == rep,
                forall|i: int|
                    0 <= i < rep ==> (#[trigger] commitments@[i])@.len() == num_parties,
                forall|i: int, j: int|
                    0 <= i < rep && 0 <= j < num_parties ==> (#[trigger] commitments@[i]@[j]).0@
                        == encoding::zero_block(),
            decreases num_repetitions - rep,
        {
            let mut row: Vec<Commitment> = Vec::with_capacity(num_parties);
            let mut party: usize = 0;
            while party < num_parties
                invariant
                    party <= num_parties,
                    zero.0@ == encoding::zero_block(),
                    row@.len() == party,
                    forall|j: int|
                        0 <= j < party ==> (#[trigger] row@[j]).0@ == encoding::zero_block(),
                decreases num_parties - party,
            {
                row.push(zero);
                party = party + 1;
            }
            commitments.push(row);
            rep = rep + 1;
        }
        CommitmentMatrix { commitments, num_repetitions, num_parties }
    }

    /// The commitment of a party in a repetition.
    pub fn get(&self, rep: usize, party: usize) -> (r: &Commitment)
        requires
            self.has(rep as int, party as int),
        ensures
            *r == self.commitments@[rep as int]@[party as int],
    {
        &self.commitments[rep][party]
    }

    /// Replaces the commitment of a party in a repetition and nothing else.
    pub fn set(&mut self, rep: usize, party: usize, commitment: Commitment)
        requires
            old(self).has(rep as int, party as int),
        ensures
            final(self).num_repetitions == old(self).num_repetitions,
            final(self).num_parties == old(self).num_parties,
            final(self).commitments@.len() == old(self).commitments@.len(),
            final(self).commitments@[rep as int]@ == old(self).commitments@[rep as int]@.update(
                party as int,
                commitment,
            ),
            forall|i: int|
                0 <= i < old(self).commitments@.len() && i != rep
                    ==> #[trigger] final(self).commitments@[i] == old(self).commitments@[i],
    {
        self.commitments[rep][party] = commitment;
    }

    /// All commitments in order.
    pub fn to_bytes(&self) -> (r: Vec<u8>)
        ensures
            r@ == matrix_bytes(self.commitments@, self.commitments@.len()),
    {
        let mut out: Vec<u8> = Vec::new();
        let mut rep: usize = 0;
        while rep < self.commitments.len()
            invariant
                rep <= self.commitments.len(),
                out@ == matrix_bytes(self.commitments@, rep as nat),
            decreases self.commitments.len() - rep,
        {
            let row: &Vec<Commitment> = &self.commitments[rep];
            let ghost start = out@;
            let mut party: usize = 0;
            proof {
                assert(start + row_bytes(row@, 0) =~= start);
            }
            while party < row.len()
                invariant
                    party <= row.len(),
                    out@ == start + row_bytes(row@, party as nat),
                decreases row.len() - party,
            {
                encoding::push_block(&mut out, &row[party].0);
                proof {
                    assert(start + row_bytes(row@, party as nat) + row@[party as int].0@ =~= start
                        + row_bytes(row@, (party + 1) as nat));
                }
                party = party + 1;
            }
            rep = rep + 1;
        }
        out
    }
}

/// The commitment to a party's view is made from the repetition, the party, the randomness, the seed
/// and the messages.
pub proof fn lemma_view_commitment(
    repetition: nat,
    party: nat,
    seed: Seq<u8>,
    messages: Seq<u8>,
    randomness: Seq<u8>,
)
    ensures
        view_commitment(repetition, party, seed, messages, randomness) == hash::blake3_derived_key(
            "mpcith-zk commitment v1"@,
            vstd::utf8::encode_utf8(
                "mpcith-view:rep="@ + text::decimal(repetition) + ":party="@ + text::decimal(party)
                    + ""@,
            ) + randomness + (seed + messages),
        ),
{
}

/// The bytes of a row are those of its commitments, one after another.
pub proof fn lemma_row_layout(row: Seq<Commitment>, n: nat, i: nat)
    requires
        i < n <= row.len(),
    ensures
        row_bytes(row, n).len() == 32 * n,
        row_bytes(row, n).subrange(32 * i as int, 32 * i + 32int) == row[i as int].0@,
    decreases n,
{
    lemma_row_len(row, n);
    lemma_row_len(row, (n - 1) as nat);
    let at = 32 * i as int;
    if i < n - 1 {
        lemma_row_layout(row, (n - 1) as nat, i);
        assert(row_bytes(row, n).subrange(at, at + 32) =~= row_bytes(row, (n - 1) as nat).subrange(
            at,
            at + 32,
        ));
    } else {
        assert(row_bytes(row, n).subrange(at, at + 32) =~= row[i as int].0@);
    }
}

proof fn lemma_row_len(row: Seq<Commitment>, n: nat)
    ensures
        row_bytes(row, n).len() == 32 * n,
    decreases n,
{
    if n > 0 {
        lemma_row_len(row, (n - 1) as nat);
    }
}

/// The bytes of a matrix are those of its rows, one after another.
pub proof fn lemma_matrix_rows(rows: Seq<Vec<Commitment>>, n: nat)
    ensures
        matrix_bytes(rows, 0) == Seq::<u8>::empty(),
        matrix_bytes(rows, n + 1) == matrix_bytes(rows, n) + row_bytes(
            rows[n as int]@,
            rows[n as int]@.len(),
        ),
{
}

} // verus!
