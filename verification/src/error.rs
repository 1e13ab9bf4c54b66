//! Errors.

use crate::text;
use vstd::prelude::*;

verus! {

/// What can go wrong while proving or verifying.
#[derive(Debug)]
pub enum MpcithError {
    /// The proof was rejected.
    VerificationFailed(String),
    /// A parameter or a statement is not supported.
    InvalidParams(String),
    /// A circuit could not be evaluated.
    CircuitError(String),
    /// An opened view does not match the commitment root.
    CommitmentMismatch { party: usize, repetition: usize },
    /// A proof could not be serialized or read back.
    SerializationError(String),
    /// The witness does not satisfy the statement.
    InvalidWitness(String),
    /// A party's view is not a run of the circuit.
    ConsistencyCheckFailed(usize),
}

/// The contents of an [`MpcithError`].
pub enum ErrorModel {
    VerificationFailed(Seq<char>),
    InvalidParams(Seq<char>),
    CircuitError(Seq<char>),
    CommitmentMismatch { party: nat, repetition: nat },
    SerializationError(Seq<char>),
    InvalidWitness(Seq<char>),
    ConsistencyCheckFailed(nat),
}

impl View for MpcithError {
    type V = ErrorModel;

    open spec fn view(&self) -> ErrorModel {
        match self {
            MpcithError::VerificationFailed(s) => ErrorModel::VerificationFailed(s@),
            MpcithError::InvalidParams(s) => ErrorModel::InvalidParams(s@),
            MpcithError::CircuitError(s) => ErrorModel::CircuitError(s@),
            MpcithError::CommitmentMismatch { party, repetition } => {
                ErrorModel::CommitmentMismatch {
                    party: *party as nat,
                    repetition: *repetition as nat,
                }
            },
            MpcithError::SerializationError(s) => ErrorModel::SerializationError(s@),
            MpcithError::InvalidWitness(s) => ErrorModel::InvalidWitness(s@),
            MpcithError::ConsistencyCheckFailed(p) => ErrorModel::ConsistencyCheckFailed(
                *p as nat,
            ),
        }
    }
}

impl ErrorModel {
    /// The text shown for the error.
    pub open spec fn message(self) -> Seq<char> {
        match self {
            ErrorModel::VerificationFailed(s) => "Proof verification failed: "@ + s,
            ErrorModel::InvalidParams(s) => "Invalid parameters: "@ + s,
            ErrorModel::CircuitError(s) => "Circuit evaluation error: "@ + s,
            ErrorModel::CommitmentMismatch { party, repetition } => text::line2(
                "Commitment mismatch at party "@,
                party,
                ", repetition "@,
                repetition,
                ""@,
            ),
            ErrorModel::SerializationError(s) => "Serialization error: "@ + s,
            ErrorModel::InvalidWitness(s) => "Invalid witness: "@ + s,
            ErrorModel::ConsistencyCheckFailed(p) => text::line1(
                "Consistency check failed at repetition "@,
                p,
                ""@,
            ),
        }
    }
}

impl MpcithError {
    /// The text shown for the error.
    pub fn message(&self) -> (r: String)
        ensures
            r@ == self@.message(),
    {
        match self {
            MpcithError::VerificationFailed(s) => text::join("Proof verification failed: ", s),
            MpcithError::InvalidParams(s) => text::join("Invalid parameters: ", s),
            MpcithError::CircuitError(s) => text::join("Circuit evaluation error: ", s),
            MpcithError::CommitmentMismatch { party, repetition } => text::text2(
                "Commitment mismatch at party ",
                *party,
                ", repetition ",
                *repetition,
                "",
            ),
            MpcithError::SerializationError(s) => text::join("Serialization error: ", s),
            MpcithError::InvalidWitness(s) => text::join("Invalid witness: ", s),
            MpcithError::ConsistencyCheckFailed(p) => text::text1(
                "Consistency check failed at repetition ",
                *p,
                "",
            ),
        }
    }
}

/// What is shown for each error.
pub proof fn lemma_messages(s: Seq<char>, party: nat, repetition: nat)
    ensures
        ErrorModel::VerificationFailed(s).message() == "Proof verification failed: "@ + s,
        ErrorModel::InvalidParams(s).message() == "Invalid parameters: "@ + s,
        ErrorModel::CircuitError(s).message() == "Circuit evaluation error: "@ + s,
        ErrorModel::SerializationError(s).message() == "Serialization error: "@ + s,
        ErrorModel::InvalidWitness(s).message() == "Invalid witness: "@ + s,
        (ErrorModel::CommitmentMismatch { party, repetition }).message()
            == "Commitment mismatch at party "@ + text::decimal(party) + ", repetition "@
            + text::decimal(repetition) + ""@,
        ErrorModel::ConsistencyCheckFailed(party).message()
            == "Consistency check failed at repetition "@ + text::decimal(party) + ""@,
{
}

} // verus!
