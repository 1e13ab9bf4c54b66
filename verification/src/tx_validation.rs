//! Transactions: proofs that a secret value lies in a range and in an authorized set, bound to a
//! context.
//!
//! The context (a block hash, a channel, an invocation) is hashed to a word, which is one of the
//! public inputs. A proof made for one context is therefore refused in another, if their words
//! differ.

use crate::bits;
use crate::checks;
use crate::circuit;
use crate::circuit::CircuitModel;
use crate::draft;
use crate::encoding;
use crate::encoding::copy_words;
use crate::encoding::read_word;
use crate::encoding::same_bytes;
use crate::error::ErrorModel;
use crate::error::MpcithError;
use crate::fiat_shamir;
use crate::fiat_shamir::hash_circuit;
use crate::hash;
use crate::membership;
use crate::merge;
use crate::merkle;
use crate::merkle::MerkleProof;
use crate::params;
use crate::params::ProofParams;
use crate::predicate;
use crate::predicate::CompiledPredicate;
use crate::predicate::CompoundModel;
use crate::predicate::CompoundPredicate;
use crate::predicate::PredicateModel;
use crate::proofs;
use crate::proofs::prove_compound;
use crate::proofs::verify;
use crate::proofs::Proof;
use crate::protocol;
use crate::protocol::ProofModel;
use crate::range;
use crate::tree;
use vstd::arithmetic::power2::*;
use vstd::prelude::*;

verus! {

/// What a transaction proof is about. All of it is public.
#[derive(Debug)]
pub struct TransactionStatement {
    /// The lowest and the highest authorized value.
    pub amount_range: (u32, u32),
    /// The Merkle root of the authorized set.
    pub authorized_set_root: u32,
    /// The depth of the Merkle tree.
    pub merkle_depth: usize,
    /// The number of members of the authorized set. The leaves after them fill up the tree and do
    /// not count as members.
    pub num_members: usize,
    /// What the proof is bound to, so that it cannot be used again elsewhere.
    pub context: Vec<u8>,
    /// The members of the authorized set. Only the prover needs them: a verifier may leave the list
    /// empty.
    pub members: Vec<u32>,
}

/// What only the prover knows.
#[derive(Debug)]
pub struct TransactionWitness {
    /// The value.
    pub secret_value: u32,
    /// The path from the value to the root of the authorized set. Its leaf is the value.
    pub merkle_proof: MerkleProof,
}

/// The contents of a [`TransactionStatement`].
pub struct StatementModel {
    pub lo: u32,
    pub hi: u32,
    pub root: u32,
    pub depth: nat,
    pub num_members: nat,
    pub context: Seq<u8>,
    pub members: Seq<u32>,
}

impl View for TransactionStatement {
    type V = StatementModel;

    open spec fn view(&self) -> StatementModel {
        StatementModel {
            lo: self.amount_range.0,
            hi: self.amount_range.1,
            root: self.authorized_set_root,
            depth: self.merkle_depth as nat,
            num_members: self.num_members as nat,
            context: self.context@,
            members: self.members@,
        }
    }
}

impl Clone for TransactionStatement {
    fn clone(&self) -> (r: Self)
        ensures
            r@ == self@,
    {
        let mut context: Vec<u8> = Vec::new();
        encoding::push_bytes(&mut context, &self.context);
        proof {
            assert(context@ =~= self.context@);
        }
        TransactionStatement {
            amount_range: self.amount_range,
            authorized_set_root: self.authorized_set_root,
            merkle_depth: self.merkle_depth,
            num_members: self.num_members,
            context,
            members: copy_words(&self.members),
        }
    }
}

impl Clone for TransactionWitness {
    fn clone(&self) -> (r: Self)
        ensures
            r.secret_value == self.secret_value,
            r.merkle_proof.leaf == self.merkle_proof.leaf,
            r.merkle_proof.leaf_index == self.merkle_proof.leaf_index,
            r.merkle_proof.siblings@ == self.merkle_proof.siblings@,
            r.merkle_proof.root == self.merkle_proof.root,
    {
        TransactionWitness {
            secret_value: self.secret_value,
            merkle_proof: self.merkle_proof.clone(),
        }
    }
}

// ----------------------------------------------------------------------------
// What is proved and when it is accepted
// ----------------------------------------------------------------------------

/// The word that stands for a context.
pub open spec fn context_word(context: Seq<u8>) -> u32 {
    if context.len() == 0 {
        0
    } else {
        encoding::word_at(hash::sha3_256_digest(context), 0)
    }
}

impl StatementModel {
    /// The public inputs of a proof of the statement.
    pub open spec fn public_inputs(self) -> Seq<u32> {
        seq![self.lo, self.hi, self.root, context_word(self.context)]
    }

    /// The predicate that is proved.
    pub open spec fn predicate(self) -> CompoundModel {
        predicate::range_and_members(self.lo, self.hi, self.members)
    }

    /// The circuit that a proof of the statement must be about.
    #[verifier::opaque]
    pub open spec fn circuit(self) -> CircuitModel {
        predicate::compiled_range_and_root(
            self.lo,
            self.hi,
            self.root,
            self.depth,
            self.num_members,
        ).circuit
    }

    /// The root, the depth and the number are those of the members.
    pub open spec fn consistent(self) -> bool {
        &&& self.root == merkle::merkle_root(self.members)
        &&& self.depth == tree::tree_depth(self.members.len())
        &&& self.num_members == self.members.len()
    }
}

impl TransactionWitness {
    /// The Merkle proof is one for the secret value against a root.
    pub open spec fn proves_membership(self, root: u32) -> bool {
        &&& self.merkle_proof.leaf == self.secret_value
        &&& self.merkle_proof.root == root
        &&& self.merkle_proof.computed_root() == root
    }
}

/// Why no transaction proof is made, if none is.
pub open spec fn creation_failure(
    s: StatementModel,
    w: TransactionWitness,
    params: ProofParams,
) -> Option<ErrorModel> {
    match s.predicate().generated(w.secret_value) {
        Err(e) => Some(e),
        Ok(witness) => if !w.proves_membership(s.root) {
            Some(
                ErrorModel::InvalidWitness(
                    "Merkle proof does not verify against the authorized set root"@,
                ),
            )
        } else {
            proofs::compound_proving_failure(s.predicate(), witness, params)
        },
    }
}

/// What is said of a proof whose circuit is not that of the statement.
pub open spec fn statement_mismatch() -> Seq<char> {
    "Proof circuit does not match the circuit implied by the transaction statement. Possible circuit-substitution attack."@
}

/// Why a transaction proof is not accepted, if it is not.
pub open spec fn transaction_failure(
    p: ProofModel,
    s: StatementModel,
    params: ProofParams,
) -> Option<ErrorModel> {
    match predicate::range_and_root_failure(s.lo, s.hi, s.depth, s.num_members) {
        Some(e) => Some(e),
        None => proofs::pinned_failure(
            p,
            s.circuit(),
            statement_mismatch(),
            s.public_inputs(),
            params,
        ),
    }
}

// ----------------------------------------------------------------------------
// Laws
// ----------------------------------------------------------------------------

/// A transaction proof is made exactly if the parameters and the statement are supported, the
/// secret value is in the range and in the set, and the Merkle proof is one for it.
pub proof fn lemma_creation(s: StatementModel, w: TransactionWitness, params: ProofParams)
    requires
        (PredicateModel::SetMembership { members: s.members }).fits(),
    ensures
        creation_failure(s, w, params) is None <==> {
            &&& params::params_failure(params) is None
            &&& predicate::range_failure(s.lo, s.hi) is None
            &&& predicate::members_failure(s.members) is None
            &&& s.lo <= w.secret_value <= s.hi
            &&& s.members.contains(w.secret_value)
            &&& w.proves_membership(s.root)
        },
{
    let c = s.predicate();
    predicate::lemma_range_and_members_fit(s.lo, s.hi, s.members);
    lemma_parts(s);
    if c.failure() is None {
        predicate::lemma_generated_compound(c, w.secret_value);
        if let Ok(witness) = c.generated(w.secret_value) {
            predicate::lemma_compound_circuit(c, witness);
        }
    }
}

proof fn lemma_parts(s: StatementModel)
    ensures
        s.predicate().failure() is None <==> {
            &&& predicate::range_failure(s.lo, s.hi) is None
            &&& predicate::members_failure(s.members) is None
        },
        forall|value: u32|
            #[trigger] s.predicate().true_of(value) <==> s.lo <= value <= s.hi
                && s.members.contains(value),
{
    reveal_with_fuel(CompoundModel::failure, 2);
    reveal_with_fuel(CompoundModel::true_of, 2);
}

/// An honest proof of a statement whose root, depth and number are those of its members is
/// accepted.
pub proof fn lemma_transaction_complete(
    p: ProofModel,
    s: StatementModel,
    params: ProofParams,
)
    requires
        s.consistent(),
        s.predicate().failure() is None,
        p.circuit_hash == fiat_shamir::circuit_digest(s.predicate().compiled().circuit),
        protocol::verification_failure(p, s.public_inputs(), params) is None,
    ensures
        transaction_failure(p, s, params) is None,
{
    reveal(StatementModel::circuit);
    predicate::lemma_compilers_agree(s.lo, s.hi, s.members);
}

/// Whether a proof is accepted does not depend on the list of members in the statement: a verifier
/// can do without it.
pub proof fn lemma_members_not_needed(
    p: ProofModel,
    s: StatementModel,
    members: Seq<u32>,
    params: ProofParams,
)
    ensures
        transaction_failure(p, (StatementModel { members, ..s }), params) == transaction_failure(
            p,
            s,
            params,
        ),
{
    reveal(StatementModel::circuit);
}

/// A proof that is accepted for a statement is refused for every other whose range, root or
/// context word differs.
pub proof fn lemma_no_replay(
    p: ProofModel,
    s: StatementModel,
    t: StatementModel,
    params: ProofParams,
)
    requires
        transaction_failure(p, s, params) is None,
        s.lo != t.lo || s.hi != t.hi || s.root != t.root || context_word(s.context)
            != context_word(t.context),
    ensures
        transaction_failure(p, t, params) is Some,
{
    let a = s.public_inputs();
    let b = t.public_inputs();
    protocol::lemma_accepted(p, a, params);
    if transaction_failure(p, t, params) is None {
        protocol::lemma_accepted(p, b, params);
        assert(a[0] == b[0] && a[1] == b[1] && a[2] == b[2] && a[3] == b[3]);
    }
}

// ----------------------------------------------------------------------------
// Functions
// ----------------------------------------------------------------------------

/// Hashes a context to a word: the first four bytes of its SHA3-256 digest, little-endian, and zero
/// for the empty context.
pub fn hash_context_to_u32(context: &[u8]) -> (r: u32)
    ensures
        r == context_word(context@),
        context@.len() == 0 ==> r == 0,
        context@.len() > 0 ==> r == vstd::bytes::spec_u32_from_le_bytes(
            hash::sha3_256_digest(context@).subrange(0, 4),
        ),
{
    if context.len() == 0 {
        return 0;
    }
    let digest: [u8; 32] = hash::sha3_256(context);
    read_word(&digest, 0)
}

/// The public inputs of a proof of a statement: the ends of the range, the root, and the word of
/// the context.
pub fn encode_public_inputs(statement: &TransactionStatement) -> (r: Vec<u32>)
    ensures
        r@ == statement@.public_inputs(),
        r@.len() == 4,
        r@[0] == statement.amount_range.0,
        r@[1] == statement.amount_range.1,
        r@[2] == statement.authorized_set_root,
        statement.context@.len() == 0 ==> r@[3] == 0,
        statement.context@.len() > 0 ==> r@[3] == vstd::bytes::spec_u32_from_le_bytes(
            hash::sha3_256_digest(statement.context@).subrange(0, 4),
        ),
{
    let word: u32 = hash_context_to_u32(&statement.context);
    let r: Vec<u32> = vec![
        statement.amount_range.0,
        statement.amount_range.1,
        statement.authorized_set_root,
        word,
    ];
    proof {
        assert(r@ =~= statement@.public_inputs());
    }
    r
}

/// Proves a transaction statement.
///
/// Fails if the secret value is not in the range or not in the set, if the Merkle proof does not
/// verify for it against the root of the statement, or if the statement or the parameters are not
/// supported. A proof that it makes is accepted by [`verify_transaction_proof`] for the same
/// statement, if its root, its depth and its number are those of its members.
pub fn create_transaction_proof(
    statement: &TransactionStatement,
    witness: &TransactionWitness,
    params: &ProofParams,
) -> (r: Result<Proof, MpcithError>)
    requires
        (PredicateModel::SetMembership { members: statement@.members }).fits(),
        params::params_failure(*params) is None ==> protocol::params_fit(*params),
    ensures
        match r {
            Ok(made) => {
                &&& creation_failure(statement@, *witness, *params) is None
                &&& proofs::honestly_made(
                    made@,
                    statement@.predicate().compiled().circuit,
                    statement@.predicate().generated(witness.secret_value)->Ok_0,
                    statement@.public_inputs(),
                    *params,
                )
                &&& statement@.consistent() ==> transaction_failure(
                    made@,
                    statement@,
                    *params,
                ) is None
            },
            Err(e) => creation_failure(statement@, *witness, *params) == Some(e@),
        },
{
    let ghost s = statement@;
    let predicate: CompoundPredicate = CompoundPredicate::range_and_membership(
        statement.amount_range.0,
        statement.amount_range.1,
        copy_words(&statement.members),
    );
    proof {
        predicate::lemma_range_and_members_fit(s.lo, s.hi, s.members);
    }
    let full_witness: Vec<u32> = match predicate.generate_witness(witness.secret_value) {
        Ok(w) => w,
        Err(e) => {
            return Err(e);
        },
    };
    if witness.merkle_proof.leaf != witness.secret_value || witness.merkle_proof.root
        != statement.authorized_set_root || !witness.merkle_proof.verify() {
        return Err(
            MpcithError::InvalidWitness(
                "Merkle proof does not verify against the authorized set root".to_owned(),
            ),
        );
    }
    let public_inputs: Vec<u32> = encode_public_inputs(statement);
    let r: Result<Proof, MpcithError> = prove_compound(
        predicate,
        &full_witness,
        &public_inputs,
        params,
    );
    proof {
        if r is Ok && s.consistent() {
            lemma_transaction_complete(r->Ok_0@, s, *params);
        }
    }
    r
}

/// Checks a transaction proof against a statement.
///
/// The circuit is compiled again from the range, the root, the depth and the number of members, and
/// its digest must be the one in the proof. Otherwise a prover could choose a circuit that accepts
/// everything. The list of members is not used.
pub fn verify_transaction_proof(
    proof_data: &Proof,
    statement: &TransactionStatement,
    params: &ProofParams,
) -> (r: Result<bool, MpcithError>)
    requires
        params::params_failure(*params) is None ==> protocol::params_fit(*params),
    ensures
        checks::reports(r, transaction_failure(proof_data@, statement@, *params)),
        r matches Ok(accepted) ==> accepted,
        r is Ok ==> {
            let s = statement@;
            &&& proof_data.public_inputs@ == s.public_inputs()
            &&& predicate::range_and_root_failure(s.lo, s.hi, s.depth, s.num_members) is None
            &&& proof_data.circuit_hash@ == hash::sha3_256_digest(
                fiat_shamir::circuit_bytes(
                    predicate::compiled_range_and_root(
                        s.lo,
                        s.hi,
                        s.root,
                        s.depth,
                        s.num_members,
                    ).circuit,
                ),
            )
        },
{
    let expected: CompiledPredicate = match CompoundPredicate::range_and_membership_for_verify(
        statement.amount_range.0,
        statement.amount_range.1,
        statement.authorized_set_root,
        statement.merkle_depth,
        statement.num_members,
    ) {
        Ok(compiled) => compiled,
        Err(e) => {
            return Err(e);
        },
    };
    proof {
        reveal(StatementModel::circuit);
    }
    let expected_hash: Vec<u8> = hash_circuit(&expected.circuit);
    if !same_bytes(&proof_data.circuit_hash, &expected_hash) {
        return Err(
            MpcithError::VerificationFailed(
                "Proof circuit does not match the circuit implied by the transaction statement. Possible circuit-substitution attack.".to_owned(),
            ),
        );
    }
    let public_inputs: Vec<u32> = encode_public_inputs(statement);
    verify(proof_data, &public_inputs, params)
}

/// The word of a context is made from the whole of it: the first four bytes, least significant first, of
/// its SHA3-256 digest. Only the empty context has none and stands for zero.
pub proof fn lemma_context_word(context: Seq<u8>)
    ensures
        context.len() == 0 ==> context_word(context) == 0,
        context.len() > 0 ==> context_word(context) == vstd::bytes::spec_u32_from_le_bytes(
            hash::sha3_256_digest(context).subrange(0, 4),
        ),
{
}

/// What is accepted as a proof of a statement: the circuit is that of the range, the root, the depth and
/// the number of members, or collides with it under SHA3-256; and the public inputs are the ends of the
/// range, the root and the word of the context. A proof with the hash of another circuit is refused.
pub proof fn lemma_transaction_proofs(p: ProofModel, s: StatementModel, params: ProofParams)
    ensures
        ({
            let c = predicate::compiled_range_and_root(
                s.lo,
                s.hi,
                s.root,
                s.depth,
                s.num_members,
            ).circuit;
            let supported = {
                &&& s.lo <= s.hi
                &&& s.hi - s.lo < 0x8000_0000
                &&& s.depth < 32
                &&& 1 <= s.num_members <= pow2(s.depth)
            };
            &&& transaction_failure(p, s, params) is None <==> {
                &&& supported
                &&& p.circuit_hash == hash::sha3_256_digest(fiat_shamir::circuit_bytes(c))
                &&& protocol::verification_failure(p, s.public_inputs(), params) is None
            }
            &&& supported && p.circuit_hash != hash::sha3_256_digest(fiat_shamir::circuit_bytes(c))
                ==> transaction_failure(p, s, params) == Some(
                ErrorModel::VerificationFailed(statement_mismatch()),
            )
            &&& transaction_failure(p, s, params) is None ==> {
                &&& proofs::same_or_collide(p.circuit, c)
                &&& p.public_inputs.len() == 4
                &&& p.public_inputs[0] == s.lo
                &&& p.public_inputs[1] == s.hi
                &&& p.public_inputs[2] == s.root
                &&& s.context.len() == 0 ==> p.public_inputs[3] == 0
                &&& s.context.len() > 0 ==> p.public_inputs[3]
                    == vstd::bytes::spec_u32_from_le_bytes(
                    hash::sha3_256_digest(s.context).subrange(0, 4),
                )
            }
        }),
{
    reveal(StatementModel::circuit);
    let c = s.circuit();
    if transaction_failure(p, s, params) is None {
        proofs::lemma_pinned(p, c, statement_mismatch(), s.public_inputs(), params);
        lemma_statement_circuit(s, Seq::empty());
        circuit::lemma_sequential_in_range(c);
        proofs::lemma_circuit_pinned(p, c, statement_mismatch(), s.public_inputs(), params);
    }
}

proof fn lemma_statement_circuit(s: StatementModel, w: Seq<u32>)
    requires
        predicate::range_and_root_failure(s.lo, s.hi, s.depth, s.num_members) is None,
    ensures
        s.circuit().sequential(),
        s.circuit().num_wires < 0x100_0000,
        s.circuit().num_outputs <= s.circuit().num_wires,
        s.circuit().accepts(w) ==> {
            let n = predicate::compiled_range(s.lo, s.hi).circuit.num_inputs as int;
            &&& w.len() == n + 2 + 2 * s.depth
            &&& w[0] == w[n]
            &&& s.lo <= w[0] <= s.hi
            &&& membership::is_membership_witness(
                s.root,
                s.depth,
                s.num_members,
                w.subrange(n, w.len() as int),
            )
        },
{
    reveal(StatementModel::circuit);
    let l = predicate::compiled_range(s.lo, s.hi).circuit;
    let r = predicate::compiled_membership(s.root, s.depth, s.num_members).circuit;
    let n = l.num_inputs as int;
    let cut = if n <= w.len() {
        n
    } else {
        0
    };
    range::lemma_range_circuit(s.lo, s.hi, w.subrange(0, cut));
    membership::lemma_membership_circuit(
        s.root,
        s.depth,
        s.num_members,
        w.subrange(cut, w.len() as int),
    );
    merge::lemma_merged(l, r, w);
}

/// What a proof of a statement shows: the circuit accepts only witnesses that start with a value in the
/// range, from which siblings in the witness lead to the root at an index below the number of members.
pub proof fn lemma_transaction_means(s: StatementModel, w: Seq<u32>)
    requires
        predicate::range_and_root_failure(s.lo, s.hi, s.depth, s.num_members) is None,
        predicate::compiled_range_and_root(
            s.lo,
            s.hi,
            s.root,
            s.depth,
            s.num_members,
        ).circuit.accepts(w),
    ensures
        s.lo <= w[0] <= s.hi,
        exists|index: nat, siblings: Seq<u32>|
            index < s.num_members && siblings.len() == s.depth && #[trigger] tree::fold(
                w[0],
                index,
                siblings,
                s.depth,
                merkle::combine(),
            ) == s.root,
{
    reveal(StatementModel::circuit);
    lemma_statement_circuit(s, w);
    let n = predicate::compiled_range(s.lo, s.hi).circuit.num_inputs as int;
    let v = w.subrange(n, w.len() as int);
    let path_bits = draft::part(v, 2, s.depth);
    bits::lemma_bits_bound(path_bits, s.depth);
    let index = bits::bits_value(path_bits, s.depth) as nat;
    let siblings = draft::part(v, 2 + s.depth, s.depth);
    assert(v[0] == w[0]);
    assert(siblings.len() == s.depth);
    assert(tree::fold(w[0], index, siblings, s.depth, merkle::combine()) == s.root);
}

/// A witness holds a Merkle proof for its value against a root exactly if the leaf of the proof is the
/// value, its root is the given one, and the siblings lead from the leaf to that root.
pub proof fn lemma_evidence(w: TransactionWitness, root: u32)
    ensures
        w.proves_membership(root) <==> {
            &&& w.merkle_proof.leaf == w.secret_value
            &&& w.merkle_proof.root == root
            &&& tree::fold(
                w.secret_value,
                w.merkle_proof.leaf_index as nat,
                w.merkle_proof.siblings@,
                w.merkle_proof.siblings@.len(),
                merkle::combine(),
            ) == root
        },
{
}

} // verus!
