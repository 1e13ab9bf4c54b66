//! Proofs: making them and checking them.

use crate::checks;
use crate::circuit;
use crate::circuit::Circuit;
use crate::circuit::CircuitModel;
use crate::completeness;
use crate::encoding;
use crate::encoding::copy_blocks;
use crate::encoding::copy_words;
use crate::encoding::same_bytes;
use crate::encoding::same_words;
use crate::error::ErrorModel;
use crate::error::MpcithError;
use crate::fiat_shamir;
use crate::fiat_shamir::derive_challenges;
use crate::fiat_shamir::hash_circuit;
use crate::hash;
use crate::hash::Draws;
use crate::mpc::PartyView;
use crate::params;
use crate::params::ProofParams;
use crate::predicate;
use crate::predicate::CompiledPredicate;
use crate::predicate::CompoundModel;
use crate::predicate::CompoundPredicate;
use crate::predicate::Predicate;
use crate::predicate::PredicateModel;
use crate::protocol;
use crate::protocol::Message;
use crate::protocol::OpenedModel;
use crate::protocol::ProofModel;
use crate::protocol::RandomnessModel;
use crate::protocol::RepetitionModel;
use crate::protocol::MAX_PROOF_CIRCUIT_WIRES;
use crate::prover;
use crate::prover::draw_randomness;
use crate::prover::prove_with_randomness;
use crate::seed_tree;
use crate::text::text2;
use crate::validation;
use crate::validation::validate_proof_structure;
use crate::verification::transcript_bytes;
use crate::verification::verify_repetition;
use vstd::prelude::*;

verus! {

// ----------------------------------------------------------------------------
// Types
// ----------------------------------------------------------------------------

/// The view of a party that is not hidden, with what opens its commitment.
#[derive(Debug)]
pub struct OpenedView {
    pub view: PartyView,
    /// The randomness of the commitment to the view.
    pub commitment_randomness: [u8; 32],
    /// The siblings on the way from the commitment to
    /// [`RepetitionProof::commitment_root`], leaf level first.
    pub commitment_auth_path: Vec<[u8; 32]>,
}

/// One repetition of the protocol.
#[derive(Debug)]
pub struct RepetitionProof {
    /// The party whose view stays hidden.
    pub hidden_party: usize,
    /// The root of the Merkle tree over the commitments to all views. It binds all of them; the
    /// hidden party's own commitment is not part of the proof.
    pub commitment_root: [u8; 32],
    /// The seeds next to the way from the hidden party's leaf to the root of the seed tree, leaf
    /// level first. The seeds of all other parties grow from them.
    pub co_path: Vec<[u8; 32]>,
    /// The views of all parties but the hidden one.
    pub opened_views: Vec<OpenedView>,
    /// For each output wire the shares of all parties, the hidden one's too. They are fixed before
    /// the hidden party is chosen.
    pub output_shares: Vec<Vec<u32>>,
    /// For each assertion the shares of all parties of the asserted wire, the hidden one's too.
    /// They are fixed before the hidden party is chosen.
    pub assert_shares: Vec<Vec<u32>>,
}

/// A proof that the prover knows a witness for a circuit.
#[derive(Debug)]
pub struct Proof {
    /// What prover and verifier both know.
    pub public_inputs: Vec<u32>,
    /// The words on the output wires.
    pub expected_outputs: Vec<u32>,
    pub repetitions: Vec<RepetitionProof>,
    pub params: ProofParams,
    /// The circuit that the proof is about.
    pub circuit: Circuit,
    /// The digest of the circuit.
    pub circuit_hash: Vec<u8>,
    /// Number of wires of the circuit.
    pub num_circuit_wires: usize,
    /// Number of outputs of the circuit.
    pub num_circuit_outputs: usize,
}

/// The random choices of a prover.
#[derive(Debug)]
pub struct ProverRandomness {
    /// The root of the seed tree, by repetition.
    pub root_seeds: Vec<[u8; 32]>,
    /// The randomness of the commitments, by repetition, then by party.
    pub openings: Vec<Vec<[u8; 32]>>,
}

// ----------------------------------------------------------------------------
// Contents
// ----------------------------------------------------------------------------

/// The contents of rows of shares.
pub open spec fn rows(s: Seq<Vec<u32>>) -> Seq<Seq<u32>> {
    Seq::new(s.len(), |i: int| s[i]@)
}

/// The contents of opened views.
pub open spec fn opened_models(s: Seq<OpenedView>) -> Seq<OpenedModel> {
    Seq::new(s.len(), |i: int| s[i]@)
}

/// The contents of repetitions.
pub open spec fn repetition_models(s: Seq<RepetitionProof>) -> Seq<RepetitionModel> {
    Seq::new(s.len(), |i: int| s[i]@)
}

impl View for OpenedView {
    type V = OpenedModel;

    open spec fn view(&self) -> OpenedModel {
        OpenedModel {
            view: self.view@,
            randomness: self.commitment_randomness@,
            auth_path: encoding::blocks(self.commitment_auth_path@),
        }
    }
}

impl View for RepetitionProof {
    type V = RepetitionModel;

    open spec fn view(&self) -> RepetitionModel {
        RepetitionModel {
            hidden_party: self.hidden_party as nat,
            message: Message {
                commitment_root: self.commitment_root@,
                assert_shares: rows(self.assert_shares@),
                output_shares: rows(self.output_shares@),
            },
            co_path: encoding::blocks(self.co_path@),
            opened_views: opened_models(self.opened_views@),
        }
    }
}

impl View for Proof {
    type V = ProofModel;

    open spec fn view(&self) -> ProofModel {
        ProofModel {
            public_inputs: self.public_inputs@,
            expected_outputs: self.expected_outputs@,
            repetitions: repetition_models(self.repetitions@),
            params: self.params,
            circuit: self.circuit@,
            circuit_hash: self.circuit_hash@,
            num_circuit_wires: self.num_circuit_wires as nat,
            num_circuit_outputs: self.num_circuit_outputs as nat,
        }
    }
}

impl View for ProverRandomness {
    type V = RandomnessModel;

    open spec fn view(&self) -> RandomnessModel {
        RandomnessModel {
            root_seeds: encoding::blocks(self.root_seeds@),
            openings: Seq::new(
                self.openings@.len(),
                |i: int| encoding::blocks(self.openings@[i]@),
            ),
        }
    }
}

/// In a proof, siblings and randomness are always whole blocks.
pub proof fn lemma_whole_blocks(p: Proof, rep: int)
    requires
        0 <= rep < p@.repetitions.len(),
    ensures
        protocol::whole_blocks(p@.repetitions[rep]),
{
}

// ----------------------------------------------------------------------------
// Copies
// ----------------------------------------------------------------------------

/// A copy of rows of shares.
pub fn copy_rows(s: &[Vec<u32>]) -> (r: Vec<Vec<u32>>)
    ensures
        rows(r@) == rows(s@),
{
    let mut r: Vec<Vec<u32>> = Vec::new();
    let mut i: usize = 0;
    while i < s.len()
        invariant
            i <= s@.len(),
            r@.len() == i,
            forall|j: int| 0 <= j < i ==> (#[trigger] r@[j])@ == s@[j]@,
        decreases s@.len() - i,
    {
        r.push(copy_words(&s[i]));
        i = i + 1;
    }
    r
}

impl Clone for OpenedView {
    fn clone(&self) -> (r: Self)
        ensures
            r@ == self@,
    {
        OpenedView {
            view: self.view.clone(),
            commitment_randomness: self.commitment_randomness,
            commitment_auth_path: copy_blocks(&self.commitment_auth_path),
        }
    }
}

impl Clone for RepetitionProof {
    fn clone(&self) -> (r: Self)
        ensures
            r@ == self@,
    {
        let mut opened_views: Vec<OpenedView> = Vec::new();
        let mut i: usize = 0;
        while i < self.opened_views.len()
            invariant
                i <= self.opened_views@.len(),
                opened_views@.len() == i,
                forall|j: int|
                    0 <= j < i ==> (#[trigger] opened_views@[j])@ == self.opened_views@[j]@,
            decreases self.opened_views@.len() - i,
        {
            opened_views.push(self.opened_views[i].clone());
            i = i + 1;
        }
        proof {
            assert(opened_models(opened_views@) =~= opened_models(self.opened_views@));
        }
        RepetitionProof {
            hidden_party: self.hidden_party,
            commitment_root: self.commitment_root,
            co_path: copy_blocks(&self.co_path),
            opened_views,
            output_shares: copy_rows(&self.output_shares),
            assert_shares: copy_rows(&self.assert_shares),
        }
    }
}

impl Clone for Proof {
    fn clone(&self) -> (r: Self)
        ensures
            r@ == self@,
    {
        let mut repetitions: Vec<RepetitionProof> = Vec::new();
        let mut i: usize = 0;
        while i < self.repetitions.len()
            invariant
                i <= self.repetitions@.len(),
                repetitions@.len() == i,
                forall|j: int|
                    0 <= j < i ==> (#[trigger] repetitions@[j])@ == self.repetitions@[j]@,
            decreases self.repetitions@.len() - i,
        {
            repetitions.push(self.repetitions[i].clone());
            i = i + 1;
        }
        let mut circuit_hash: Vec<u8> = Vec::new();
        encoding::push_bytes(&mut circuit_hash, &self.circuit_hash);
        proof {
            assert(repetition_models(repetitions@) =~= repetition_models(self.repetitions@));
            assert(circuit_hash@ =~= self.circuit_hash@);
        }
        Proof {
            public_inputs: copy_words(&self.public_inputs),
            expected_outputs: copy_words(&self.expected_outputs),
            repetitions,
            params: self.params,
            circuit: self.circuit.clone(),
            circuit_hash,
            num_circuit_wires: self.num_circuit_wires,
            num_circuit_outputs: self.num_circuit_outputs,
        }
    }
}

// ----------------------------------------------------------------------------
// Proving
// ----------------------------------------------------------------------------

/// A proof that an honest prover makes with some random choices.
pub open spec fn honestly_made(
    p: ProofModel,
    c: CircuitModel,
    witness: Seq<u32>,
    public_inputs: Seq<u32>,
    params: ProofParams,
) -> bool {
    exists|rnd: RandomnessModel|
        protocol::enough_randomness(rnd, params) && p == #[trigger] protocol::honest_proof(
            c,
            witness,
            public_inputs,
            params,
            rnd,
        )
}

/// Draws random choices and makes a proof with them.
fn prove_compiled(
    compiled: &CompiledPredicate,
    witness: &[u32],
    public_inputs: &[u32],
    params: &ProofParams,
    draws: &mut Draws,
) -> (r: Result<Proof, MpcithError>)
    requires
        compiled@.circuit.sequential(),
        compiled@.circuit.xor_free(),
        1 <= compiled@.circuit.num_wires,
        compiled@.circuit.num_outputs <= compiled@.circuit.num_wires,
        params::params_failure(*params) is None,
        protocol::params_fit(*params),
    ensures
        match r {
            Ok(made) => {
                &&& protocol::witness_failure(compiled@.circuit, witness@) is None
                &&& made@ == protocol::honest_proof(
                    compiled@.circuit,
                    witness@,
                    public_inputs@,
                    *params,
                    prover::drawn(
                        final(draws).blocks(),
                        old(draws).blocks().len() as int,
                        *params,
                    ),
                )
                &&& honestly_made(
                    made@,
                    compiled@.circuit,
                    witness@,
                    public_inputs@,
                    *params,
                )
                &&& compiled@.circuit.num_wires <= MAX_PROOF_CIRCUIT_WIRES
                    ==> protocol::verification_failure(made@, public_inputs@, *params) is None
            },
            Err(e) => protocol::witness_failure(compiled@.circuit, witness@) == Some(e@),
        },
        final(draws).blocks().len() == old(draws).blocks().len() + params.num_repetitions * (
        params.num_parties + 1),
{
    let randomness: ProverRandomness = draw_randomness(params, draws);
    let r: Result<Proof, MpcithError> = prove_with_randomness(
        &compiled.circuit,
        witness,
        public_inputs,
        params,
        &randomness,
    );
    proof {
        if r is Ok && compiled@.circuit.num_wires <= MAX_PROOF_CIRCUIT_WIRES {
            completeness::lemma_completeness(
                compiled@.circuit,
                witness@,
                public_inputs@,
                *params,
                randomness@,
            );
        }
    }
    r
}

/// Why no proof of a predicate is made, if none is.
pub open spec fn proving_failure(
    predicate: PredicateModel,
    witness: Seq<u32>,
    params: ProofParams,
) -> Option<ErrorModel> {
    match params::params_failure(params) {
        Some(e) => Some(e),
        None => match predicate.failure() {
            Some(e) => Some(e),
            None => protocol::witness_failure(predicate.compiled().circuit, witness),
        },
    }
}

/// Why no proof of a compound predicate is made, if none is.
pub open spec fn compound_proving_failure(
    predicate: CompoundModel,
    witness: Seq<u32>,
    params: ProofParams,
) -> Option<ErrorModel> {
    match params::params_failure(params) {
        Some(e) => Some(e),
        None => match predicate.failure() {
            Some(e) => Some(e),
            None => protocol::witness_failure(predicate.compiled().circuit, witness),
        },
    }
}

/// Proves that the witness satisfies a predicate.
///
/// Fails if the parameters are not supported, the predicate cannot be compiled, or the witness
/// does not satisfy its circuit. A proof that it makes is accepted by [`verify`].
pub fn prove(
    predicate: Predicate,
    witness: &[u32],
    public_inputs: &[u32],
    params: &ProofParams,
) -> (r: Result<Proof, MpcithError>)
    requires
        predicate@.fits(),
        params::params_failure(*params) is None ==> protocol::params_fit(*params),
    ensures
        match r {
            Ok(made) => {
                &&& proving_failure(predicate@, witness@, *params) is None
                &&& honestly_made(
                    made@,
                    predicate@.compiled().circuit,
                    witness@,
                    public_inputs@,
                    *params,
                )
                &&& protocol::verification_failure(made@, public_inputs@, *params) is None
            },
            Err(e) => proving_failure(predicate@, witness@, *params) == Some(e@),
        },
{
    match params.validate() {
        Ok(_) => {},
        Err(e) => {
            return Err(e);
        },
    }
    let compiled: CompiledPredicate = match predicate.compile() {
        Ok(compiled) => compiled,
        Err(e) => {
            return Err(e);
        },
    };
    proof {
        predicate::lemma_predicate_circuit(predicate@, witness@);
    }
    let mut draws: Draws = Draws::none();
    prove_compiled(&compiled, witness, public_inputs, params, &mut draws)
}

/// Proves that the witness satisfies a compound predicate.
///
/// The circuits of the parts are merged into one. Fails as [`prove`] does. A proof that it makes is
/// accepted by [`verify`], unless the circuit is larger than a verifier looks at.
pub fn prove_compound(
    predicate: CompoundPredicate,
    witness: &[u32],
    public_inputs: &[u32],
    params: &ProofParams,
) -> (r: Result<Proof, MpcithError>)
    requires
        predicate@.fits(),
        params::params_failure(*params) is None ==> protocol::params_fit(*params),
    ensures
        match r {
            Ok(made) => {
                &&& compound_proving_failure(predicate@, witness@, *params) is None
                &&& honestly_made(
                    made@,
                    predicate@.compiled().circuit,
                    witness@,
                    public_inputs@,
                    *params,
                )
                &&& predicate@.compiled().circuit.num_wires <= MAX_PROOF_CIRCUIT_WIRES
                    ==> protocol::verification_failure(made@, public_inputs@, *params) is None
            },
            Err(e) => compound_proving_failure(predicate@, witness@, *params) == Some(e@),
        },
{
    match params.validate() {
        Ok(_) => {},
        Err(e) => {
            return Err(e);
        },
    }
    let compiled: CompiledPredicate = match predicate.compile() {
        Ok(compiled) => compiled,
        Err(e) => {
            return Err(e);
        },
    };
    proof {
        predicate::lemma_compound_circuit(predicate@, witness@);
    }
    let mut draws: Draws = Draws::none();
    prove_compiled(&compiled, witness, public_inputs, params, &mut draws)
}

// ----------------------------------------------------------------------------
// Verifying
// ----------------------------------------------------------------------------

/// Checks a proof. The result is never `Ok(false)`: a proof that is not accepted gives an error.
///
/// This does not tie the circuit in the proof to any predicate: whoever makes the proof chooses
/// the circuit. Use [`verify_predicate`] or [`verify_compound`], or compare the circuit's digest
/// with the expected one first.
pub fn verify(proof_data: &Proof, public_inputs: &[u32], params: &ProofParams) -> (r: Result<
    bool,
    MpcithError,
>)
    requires
        params::params_failure(*params) is None ==> protocol::params_fit(*params),
    ensures
        checks::reports(
            r,
            protocol::verification_failure(proof_data@, public_inputs@, *params),
        ),
        r matches Ok(accepted) ==> accepted,
        r is Ok ==> {
            &&& params.num_parties >= 3
            &&& params.num_repetitions >= 1
            &&& proof_data.repetitions@.len() == params.num_repetitions
            &&& proof_data.public_inputs@ == public_inputs@
            &&& proof_data.circuit_hash@ == hash::sha3_256_digest(
                fiat_shamir::circuit_bytes(proof_data.circuit@),
            )
        },
{
    match params.validate() {
        Ok(_) => {},
        Err(e) => {
            return Err(e);
        },
    }
    if !same_words(&proof_data.public_inputs, public_inputs) {
        return Err(
            MpcithError::VerificationFailed("Public inputs do not match proof".to_owned()),
        );
    }
    if proof_data.repetitions.len() != params.num_repetitions {
        return Err(
            MpcithError::VerificationFailed(
                text2(
                    "Expected ",
                    params.num_repetitions,
                    " repetitions, got ",
                    proof_data.repetitions.len(),
                    "",
                ),
            ),
        );
    }
    let embedded_hash: Vec<u8> = hash_circuit(&proof_data.circuit);
    if !same_bytes(&embedded_hash, &proof_data.circuit_hash) {
        return Err(
            MpcithError::VerificationFailed(
                "Embedded circuit hash does not match proof circuit_hash".to_owned(),
            ),
        );
    }
    match validate_proof_structure(proof_data, params) {
        Ok(_) => {},
        Err(e) => {
            return Err(e);
        },
    }
    let ghost p = proof_data@;
    let ghost messages = protocol::messages_of(p.repetitions);
    proof {
        validation::lemma_shape(p, params.num_parties as nat);
    }
    let bytes: Vec<u8> = transcript_bytes(&proof_data.repetitions);
    let challenges: Vec<usize> = derive_challenges(
        &bytes,
        public_inputs,
        &proof_data.circuit_hash,
        params.num_repetitions,
        params.num_parties,
    );
    let constraints: Vec<(usize, u32)> = proof_data.circuit.assert_constraints();
    let ghost f = protocol::rep_checks(p, public_inputs@, *params);
    let ghost hidden = protocol::hidden_parties(
        messages,
        public_inputs@,
        p.circuit_hash,
        *params,
    );
    proof {
        assert(challenges@ == hidden);
    }
    let n: usize = proof_data.repetitions.len();
    let mut rep: usize = 0;
    while rep < n
        invariant
            rep <= n,
            n == proof_data.repetitions@.len(),
            n == params.num_repetitions,
            p == proof_data@,
            params.num_parties >= 3,
            protocol::params_fit(*params),
            validation::circuit_fits(p),
            forall|i: int|
                0 <= i < p.repetitions.len() ==> #[trigger] validation::repetition_fits(
                    p,
                    params.num_parties as nat,
                    i,
                ),
            constraints@ == p.circuit.assertions(),
            messages == protocol::messages_of(p.repetitions),
            hidden == protocol::hidden_parties(
                messages,
                public_inputs@,
                p.circuit_hash,
                *params,
            ),
            challenges@ == hidden,
            challenges@.len() == n,
            f == protocol::rep_checks(p, public_inputs@, *params),
            protocol::verification_failure(p, public_inputs@, *params) == checks::first_some(
                f,
                rep as nat,
                n as nat,
            ),
        decreases n - rep,
    {
        proof {
            assert(f(rep as int) == protocol::rep_failure(
                p,
                *params,
                rep as nat,
                hidden[rep as int] as nat,
            ));
            assert(validation::repetition_fits(p, params.num_parties as nat, rep as int));
        }
        match verify_repetition(proof_data, params, rep, challenges[rep], &constraints) {
            Ok(_) => {},
            Err(e) => {
                return Err(e);
            },
        }
        rep = rep + 1;
    }
    Ok(true)
}

/// Why a proof is not accepted for an expected circuit, if it is not. A proof for another circuit
/// is refused with the given text.
pub open spec fn pinned_failure(
    p: ProofModel,
    expected: CircuitModel,
    mismatch: Seq<char>,
    public_inputs: Seq<u32>,
    params: ProofParams,
) -> Option<ErrorModel> {
    if p.circuit_hash != fiat_shamir::circuit_digest(expected) {
        Some(ErrorModel::VerificationFailed(mismatch))
    } else {
        protocol::verification_failure(p, public_inputs, params)
    }
}

/// What is said of a proof whose circuit is not that of the predicate.
pub open spec fn predicate_mismatch() -> Seq<char> {
    "Proof circuit does not match the predicate — possible circuit-substitution attack"@
}

/// What is said of a proof whose circuit is not that of the compound predicate.
pub open spec fn compound_mismatch() -> Seq<char> {
    "Proof circuit does not match the compound predicate — possible circuit-substitution attack"@
}

/// Why a proof of a predicate is not accepted, if it is not.
pub open spec fn predicate_verification_failure(
    predicate: PredicateModel,
    p: ProofModel,
    public_inputs: Seq<u32>,
    params: ProofParams,
) -> Option<ErrorModel> {
    match predicate.failure() {
        Some(e) => Some(e),
        None => pinned_failure(
            p,
            predicate.compiled().circuit,
            predicate_mismatch(),
            public_inputs,
            params,
        ),
    }
}

/// Why a proof of a compound predicate is not accepted, if it is not.
pub open spec fn compound_verification_failure(
    predicate: CompoundModel,
    p: ProofModel,
    public_inputs: Seq<u32>,
    params: ProofParams,
) -> Option<ErrorModel> {
    match predicate.failure() {
        Some(e) => Some(e),
        None => pinned_failure(
            p,
            predicate.compiled().circuit,
            compound_mismatch(),
            public_inputs,
            params,
        ),
    }
}

/// A proof that is accepted for an expected circuit contains a circuit with the same digest.
pub proof fn lemma_pinned(
    p: ProofModel,
    expected: CircuitModel,
    mismatch: Seq<char>,
    public_inputs: Seq<u32>,
    params: ProofParams,
)
    requires
        pinned_failure(p, expected, mismatch, public_inputs, params) is None,
    ensures
        fiat_shamir::circuit_digest(p.circuit) == fiat_shamir::circuit_digest(expected),
        p.public_inputs == public_inputs,
{
    protocol::lemma_accepted(p, public_inputs, params);
}

/// A proof that is accepted for an expected circuit contains that circuit, or the bytes from which
/// the two circuits are hashed collide under SHA3-256.
pub proof fn lemma_circuit_pinned(
    p: ProofModel,
    expected: CircuitModel,
    mismatch: Seq<char>,
    public_inputs: Seq<u32>,
    params: ProofParams,
)
    requires
        expected.in_range(),
        expected.num_wires < 0x100_0000,
        fiat_shamir::countable(expected),
        pinned_failure(p, expected, mismatch, public_inputs, params) is None,
    ensures
        p.circuit == expected || {
            &&& fiat_shamir::circuit_bytes(p.circuit) != fiat_shamir::circuit_bytes(expected)
            &&& fiat_shamir::circuit_digest(p.circuit) == fiat_shamir::circuit_digest(expected)
        },
{
    lemma_pinned(p, expected, mismatch, public_inputs, params);
    protocol::lemma_accepted(p, public_inputs, params);
    validation::lemma_shape(p, params.num_parties as nat);
    if p.circuit != expected {
        let c = p.circuit;
        assert forall|i: int| 0 <= i < c.gates.len() implies (#[trigger] c.gates[i]).reads_below(
            0x100_0000,
        ) by {
            assert(c.gates[i].reads_below(c.num_wires as int));
        }
        assert forall|i: int| 0 <= i < expected.gates.len() implies (
        #[trigger] expected.gates[i]).reads_below(0x100_0000) by {
            assert(expected.gates[i].reads_below(expected.num_wires as int));
        }
        fiat_shamir::lemma_circuits_differ(c, expected);
    }
}

/// Checks a proof of a given predicate.
///
/// The predicate is compiled again, and the digest of its circuit must be the one in the proof.
pub fn verify_predicate(
    predicate: &Predicate,
    proof_data: &Proof,
    public_inputs: &[u32],
    params: &ProofParams,
) -> (r: Result<bool, MpcithError>)
    requires
        predicate@.fits(),
        params::params_failure(*params) is None ==> protocol::params_fit(*params),
    ensures
        checks::reports(
            r,
            predicate_verification_failure(predicate@, proof_data@, public_inputs@, *params),
        ),
        r matches Ok(accepted) ==> accepted,
        r is Ok ==> {
            &&& predicate@.failure() is None
            &&& proof_data.public_inputs@ == public_inputs@
            &&& proof_data.circuit_hash@ == hash::sha3_256_digest(
                fiat_shamir::circuit_bytes(predicate@.compiled().circuit),
            )
        },
{
    let compiled: CompiledPredicate = match predicate.compile() {
        Ok(compiled) => compiled,
        Err(e) => {
            return Err(e);
        },
    };
    let expected_hash: Vec<u8> = hash_circuit(&compiled.circuit);
    if !same_bytes(&proof_data.circuit_hash, &expected_hash) {
        return Err(
            MpcithError::VerificationFailed(
                "Proof circuit does not match the predicate — possible circuit-substitution attack".to_owned(),
            ),
        );
    }
    verify(proof_data, public_inputs, params)
}

/// Checks a proof of a given compound predicate.
///
/// The predicate is compiled again, and the digest of its circuit must be the one in the proof.
pub fn verify_compound(
    compound: &CompoundPredicate,
    proof_data: &Proof,
    public_inputs: &[u32],
    params: &ProofParams,
) -> (r: Result<bool, MpcithError>)
    requires
        compound@.fits(),
        params::params_failure(*params) is None ==> protocol::params_fit(*params),
    ensures
        checks::reports(
            r,
            compound_verification_failure(compound@, proof_data@, public_inputs@, *params),
        ),
        r matches Ok(accepted) ==> accepted,
        r is Ok ==> {
            &&& compound@.failure() is None
            &&& proof_data.public_inputs@ == public_inputs@
            &&& proof_data.circuit_hash@ == hash::sha3_256_digest(
                fiat_shamir::circuit_bytes(compound@.compiled().circuit),
            )
        },
{
    let compiled: CompiledPredicate = match compound.compile() {
        Ok(compiled) => compiled,
        Err(e) => {
            return Err(e);
        },
    };
    let expected_hash: Vec<u8> = hash_circuit(&compiled.circuit);
    if !same_bytes(&proof_data.circuit_hash, &expected_hash) {
        return Err(
            MpcithError::VerificationFailed(
                "Proof circuit does not match the compound predicate — possible circuit-substitution attack".to_owned(),
            ),
        );
    }
    verify(proof_data, public_inputs, params)
}

// ----------------------------------------------------------------------------
// What is accepted and what is made
// ----------------------------------------------------------------------------

/// Two circuits are the same, or they are hashed from different bytes to the same SHA3-256 digest.
pub open spec fn same_or_collide(c: CircuitModel, d: CircuitModel) -> bool {
    c == d || {
        &&& fiat_shamir::circuit_bytes(c) != fiat_shamir::circuit_bytes(d)
        &&& hash::sha3_256_digest(fiat_shamir::circuit_bytes(c)) == hash::sha3_256_digest(
            fiat_shamir::circuit_bytes(d),
        )
    }
}

/// A proof is accepted as one of a predicate only if the predicate can be compiled, the proof is
/// accepted for itself, and its circuit is that of the predicate, or collides with it under SHA3-256.
/// A proof with the hash of another circuit is refused.
pub proof fn lemma_predicate_proofs(
    predicate: PredicateModel,
    p: ProofModel,
    public_inputs: Seq<u32>,
    params: ProofParams,
)
    ensures
        predicate_verification_failure(predicate, p, public_inputs, params) is None <==> {
            &&& predicate.failure() is None
            &&& p.circuit_hash == hash::sha3_256_digest(
                fiat_shamir::circuit_bytes(predicate.compiled().circuit),
            )
            &&& protocol::verification_failure(p, public_inputs, params) is None
        },
        predicate.failure() is None && p.circuit_hash != hash::sha3_256_digest(
            fiat_shamir::circuit_bytes(predicate.compiled().circuit),
        ) ==> predicate_verification_failure(predicate, p, public_inputs, params) == Some(
            ErrorModel::VerificationFailed(predicate_mismatch()),
        ),
        predicate_verification_failure(predicate, p, public_inputs, params) is None ==> {
            &&& p.public_inputs == public_inputs
            &&& same_or_collide(p.circuit, predicate.compiled().circuit)
        },
{
    if predicate_verification_failure(predicate, p, public_inputs, params) is None {
        let c = predicate.compiled().circuit;
        predicate::lemma_predicate_circuit(predicate, Seq::empty());
        circuit::lemma_sequential_in_range(c);
        lemma_circuit_pinned(p, c, predicate_mismatch(), public_inputs, params);
        lemma_pinned(p, c, predicate_mismatch(), public_inputs, params);
    }
}

/// A proof is accepted as one of a compound predicate, whatever its form, only if the predicate can be
/// compiled, the proof is accepted for itself, and its hash is that of the circuit that the predicate
/// compiles to. The circuit in the proof is then that circuit, or collides with it under SHA3-256, if
/// the predicate's circuit has fewer than 2^24 wires. A proof with the hash of another circuit is
/// refused.
pub proof fn lemma_compound_proofs(
    predicate: CompoundModel,
    p: ProofModel,
    public_inputs: Seq<u32>,
    params: ProofParams,
)
    requires
        predicate.fits(),
    ensures
        compound_verification_failure(predicate, p, public_inputs, params) is None <==> {
            &&& predicate.failure() is None
            &&& p.circuit_hash == hash::sha3_256_digest(
                fiat_shamir::circuit_bytes(predicate.compiled().circuit),
            )
            &&& protocol::verification_failure(p, public_inputs, params) is None
        },
        predicate.failure() is None && p.circuit_hash != hash::sha3_256_digest(
            fiat_shamir::circuit_bytes(predicate.compiled().circuit),
        ) ==> compound_verification_failure(predicate, p, public_inputs, params) == Some(
            ErrorModel::VerificationFailed(compound_mismatch()),
        ),
        compound_verification_failure(predicate, p, public_inputs, params) is None ==> {
            &&& p.public_inputs == public_inputs
            &&& predicate.compiled().circuit.num_wires < 0x100_0000 ==> same_or_collide(
                p.circuit,
                predicate.compiled().circuit,
            )
        },
{
    if compound_verification_failure(predicate, p, public_inputs, params) is None {
        let c = predicate.compiled().circuit;
        predicate::lemma_compound_circuit(predicate, Seq::empty());
        circuit::lemma_sequential_in_range(c);
        lemma_pinned(p, c, compound_mismatch(), public_inputs, params);
        if c.num_wires < 0x100_0000 {
            lemma_circuit_pinned(p, c, compound_mismatch(), public_inputs, params);
        }
    }
}

/// A proof is made exactly if the parameters are supported, the predicate can be compiled, and its
/// circuit accepts the witness; a witness that is not accepted is an invalid witness.
pub proof fn lemma_made_exactly(
    predicate: PredicateModel,
    compound: CompoundModel,
    witness: Seq<u32>,
    params: ProofParams,
)
    ensures
        proving_failure(predicate, witness, params) is None <==> {
            &&& params.num_parties >= 3
            &&& params.num_repetitions >= 1
            &&& predicate.failure() is None
            &&& predicate.compiled().circuit.accepts(witness)
        },
        compound_proving_failure(compound, witness, params) is None <==> {
            &&& params.num_parties >= 3
            &&& params.num_repetitions >= 1
            &&& compound.failure() is None
            &&& compound.compiled().circuit.accepts(witness)
        },
        ({
            &&& params.num_parties >= 3
            &&& params.num_repetitions >= 1
            &&& compound.failure() is None
            &&& !compound.compiled().circuit.accepts(witness)
        }) ==> (compound_proving_failure(compound, witness, params)->Some_0 is InvalidWitness),
{
}

/// What is true of every proof that is made: it is about the given circuit and public inputs, gives the
/// outputs of the circuit, and in each repetition opens every party but the hidden one and gives no
/// seed for that one.
pub proof fn lemma_made(
    p: ProofModel,
    c: CircuitModel,
    witness: Seq<u32>,
    public_inputs: Seq<u32>,
    params: ProofParams,
    rep: int,
)
    requires
        honestly_made(p, c, witness, public_inputs, params),
        params.num_parties >= 1,
        0 <= rep < params.num_repetitions,
    ensures
        p.public_inputs == public_inputs,
        p.params == params,
        p.circuit == c,
        p.circuit_hash == hash::sha3_256_digest(fiat_shamir::circuit_bytes(c)),
        p.num_circuit_wires == c.num_wires,
        p.num_circuit_outputs == c.num_outputs,
        p.expected_outputs == c.trace(witness).subrange(
            c.num_wires - c.num_outputs,
            c.num_wires as int,
        ),
        p.repetitions.len() == params.num_repetitions,
        ({
            let r = p.repetitions[rep];
            let n = params.num_parties as nat;
            &&& r.hidden_party < n
            &&& r.hidden_party == fiat_shamir::challenges(
                protocol::transcript(protocol::messages_of(p.repetitions), p.repetitions.len()),
                public_inputs,
                p.circuit_hash,
                params.num_repetitions as nat,
                n,
            )[rep]
            &&& r.opened_views.len() == n - 1
            &&& forall|i: int|
                0 <= i < n - 1 ==> (#[trigger] r.opened_views[i]).view.party_idx == if i
                    < r.hidden_party {
                    i
                } else {
                    i + 1
                }
            &&& seed_tree::reconstructed(r.co_path, r.hidden_party, n)[r.hidden_party as int]
                == encoding::zero_block()
        }),
{
    let rnd = choose|rnd: protocol::RandomnessModel|
        protocol::enough_randomness(rnd, params) && p == #[trigger] protocol::honest_proof(
            c,
            witness,
            public_inputs,
            params,
            rnd,
        );
    let n = params.num_parties as nat;
    let messages = protocol::honest_messages(c, witness, rnd, params);
    assert(protocol::messages_of(p.repetitions) =~= messages);
    fiat_shamir::lemma_challenges_in_range(
        protocol::transcript(messages, messages.len()),
        public_inputs,
        p.circuit_hash,
        params.num_repetitions as nat,
        n,
    );
    let hidden = p.repetitions[rep].hidden_party;
    completeness::lemma_hidden_stays_hidden(c, witness, rnd, n, rep, hidden);
}

/// The contents of a proof are all of its fields, repetition by repetition and view by view.
pub proof fn lemma_contents(p: Proof, rep: int, i: int)
    requires
        0 <= rep < p.repetitions@.len(),
        0 <= i < p.repetitions@[rep].opened_views@.len(),
    ensures
        p@.public_inputs == p.public_inputs@,
        p@.expected_outputs == p.expected_outputs@,
        p@.circuit_hash == p.circuit_hash@,
        p@.circuit.gates == p.circuit.gates@,
        p@.circuit.num_wires == p.circuit.num_wires,
        p@.circuit.num_inputs == p.circuit.num_inputs,
        p@.circuit.num_outputs == p.circuit.num_outputs,
        p@.repetitions.len() == p.repetitions@.len(),
        ({
            let r = p.repetitions@[rep];
            let m = p@.repetitions[rep];
            let v = r.opened_views@[i];
            let w = m.opened_views[i];
            &&& m.hidden_party == r.hidden_party
            &&& m.message.commitment_root == r.commitment_root@
            &&& m.message.assert_shares == Seq::new(
                r.assert_shares@.len(),
                |g: int| r.assert_shares@[g]@,
            )
            &&& m.message.output_shares == Seq::new(
                r.output_shares@.len(),
                |o: int| r.output_shares@[o]@,
            )
            &&& m.co_path == Seq::new(r.co_path@.len(), |k: int| r.co_path@[k]@)
            &&& m.opened_views.len() == r.opened_views@.len()
            &&& w.randomness == v.commitment_randomness@
            &&& w.auth_path == Seq::new(
                v.commitment_auth_path@.len(),
                |k: int| v.commitment_auth_path@[k]@,
            )
            &&& w.view.party_idx == v.view.party_idx
            &&& w.view.seed == v.view.seed@
            &&& w.view.mul_output_shares == v.view.mul_output_shares@
            &&& w.view.residual_input_shares == v.view.residual_input_shares@
            &&& w.view.wire_shares == v.view.wire_shares@
        }),
{
}

} // verus!
