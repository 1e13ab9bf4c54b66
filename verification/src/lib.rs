//! Zero-knowledge proofs with MPC in the head.
//!
//! A prover shows that it knows a witness for a circuit without showing the witness. It shares the
//! witness among parties that it only imagines, lets them evaluate the circuit on the shares,
//! commits to the view of each party, and opens all views but one. Which one stays hidden follows
//! from the commitments. The verifier checks that the opened views are those of parties that
//! follow the protocol.
//!
//! - [`circuit`], [`predicate`], [`merkle`], [`mimc`]: what is proved.
//! - [`sharing`], [`mpc`], [`seed_tree`]: the parties.
//! - [`commitment`], [`commit_merkle`], [`fiat_shamir`]: commitments and the choice of the hidden
//!   party.
//! - [`params`], [`proofs`], [`tx_validation`]: making and checking proofs.
//! - [`completeness`], [`soundness`]: what holds of the protocol as a whole.
//! - [`hash`]: the functions of other crates that all of this rests on.

pub mod bits;
pub mod checks;
pub mod circuit;
pub mod commit_merkle;
pub mod commitment;
pub mod completeness;
pub mod draft;
pub mod encoding;
pub mod error;
pub mod fiat_shamir;
pub mod hash;
pub mod membership;
pub mod merge;
pub mod merkle;
pub mod mimc;
pub mod mpc;
pub mod params;
pub mod predicate;
pub mod product;
pub mod proofs;
pub mod protocol;
pub mod prover;
pub mod range;
pub mod ring;
pub mod seed_tree;
pub mod sharing;
pub mod soundness;
pub mod text;
pub mod tree;
pub mod tx_validation;
pub mod validation;
pub mod variants;
pub mod verification;

pub use crate::error::MpcithError;
pub use crate::params::ProofParams;
pub use crate::predicate::CompoundPredicate;
pub use crate::predicate::Predicate;
pub use crate::proofs::prove;
pub use crate::proofs::prove_compound;
pub use crate::proofs::verify;
pub use crate::proofs::verify_compound;
pub use crate::proofs::verify_predicate;
pub use crate::proofs::Proof;
