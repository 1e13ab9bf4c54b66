//! Proof parameters.

use crate::error::ErrorModel;
use crate::error::MpcithError;
use vstd::arithmetic::power::*;
use vstd::arithmetic::power2::*;
use vstd::prelude::*;

verus! {

/// How many parties are emulated, and how often.
///
/// In each repetition all parties but one are opened. With `N` parties and `M` repetitions there
/// are `N^M` ways to choose the hidden ones. What is proved of a cheating prover is in
/// [`crate::soundness`]: in a repetition, at least one choice of the hidden party catches it, unless
/// it has found a collision of BLAKE3.
#[derive(Clone, Copy, Debug, PartialEq, Eq, Structural)]
pub struct ProofParams {
    /// Number of parties, at least three.
    pub num_parties: usize,
    /// Number of repetitions.
    pub num_repetitions: usize,
    /// Size of a word in bytes.
    pub field_element_bytes: usize,
}

/// Whether `n^m` is at least `2^bits`, and `m` is the least number for which it is.
pub open spec fn fewest_for_bits(n: nat, m: nat, bits: nat) -> bool {
    &&& m >= 1
    &&& pow(n as int, m) >= pow2(bits)
    &&& pow(n as int, (m - 1) as nat) < pow2(bits)
}

proof fn lemma_pow_sixteen(m: nat)
    ensures
        pow(16, m) == pow2(4 * m),
    decreases m,
{
    if m == 0 {
        lemma_pow0(16);
        lemma2_to64();
    } else {
        let k = (m - 1) as nat;
        lemma_pow_sixteen(k);
        lemma_pow_adds(16, 1, k);
        lemma_pow1(16);
        lemma_pow2_adds(4, 4 * k);
        lemma2_to64();
    }
}

/// Sixteen is two to the fourth.
pub proof fn lemma_sixteen_parties(m: nat)
    requires
        m >= 1,
    ensures
        fewest_for_bits(16, m, 4 * m),
{
    lemma_pow_sixteen(m);
    lemma_pow_sixteen((m - 1) as nat);
    lemma_pow2_strictly_increases((4 * (m - 1)) as nat, 4 * m);
}

/// Why parameters are not accepted, if they are not.
pub open spec fn params_failure(params: ProofParams) -> Option<ErrorModel> {
    if params.num_parties < 3 {
        Some(ErrorModel::InvalidParams("num_parties must be >= 3"@))
    } else if params.num_repetitions < 1 {
        Some(ErrorModel::InvalidParams("num_repetitions must be >= 1"@))
    } else {
        None
    }
}

impl ProofParams {
    /// Three parties and 64 repetitions.
    pub fn low_n() -> (r: Self)
        ensures
            r == (ProofParams { num_parties: 3, num_repetitions: 64, field_element_bytes: 4 }),
    {
        ProofParams { num_parties: 3, num_repetitions: 64, field_element_bytes: 4 }
    }

    /// Sixteen parties and 38 repetitions: `16^38` is `2^152`.
    pub fn balanced() -> (r: Self)
        ensures
            r == (ProofParams { num_parties: 16, num_repetitions: 38, field_element_bytes: 4 }),
            fewest_for_bits(r.num_parties as nat, r.num_repetitions as nat, 152),
    {
        proof {
            lemma_sixteen_parties(38);
        }
        ProofParams { num_parties: 16, num_repetitions: 38, field_element_bytes: 4 }
    }

    /// Three parties and 10 repetitions: not secure, for tests and measurements only.
    pub fn fast_insecure() -> (r: Self)
        ensures
            r == (ProofParams { num_parties: 3, num_repetitions: 10, field_element_bytes: 4 }),
    {
        ProofParams { num_parties: 3, num_repetitions: 10, field_element_bytes: 4 }
    }

    /// Sixteen parties and the fewest repetitions `m` for which `16^m` is at least `2^128`.
    pub fn secure_128() -> (r: Self)
        ensures
            r == (ProofParams { num_parties: 16, num_repetitions: 32, field_element_bytes: 4 }),
            fewest_for_bits(r.num_parties as nat, r.num_repetitions as nat, 128),
    {
        proof {
            lemma_sixteen_parties(32);
        }
        ProofParams { num_parties: 16, num_repetitions: 32, field_element_bytes: 4 }
    }

    /// Sixteen parties and the fewest repetitions `m` for which `16^m` is at least `2^100`.
    pub fn secure_100() -> (r: Self)
        ensures
            r == (ProofParams { num_parties: 16, num_repetitions: 25, field_element_bytes: 4 }),
            fewest_for_bits(r.num_parties as nat, r.num_repetitions as nat, 100),
    {
        proof {
            lemma_sixteen_parties(25);
        }
        ProofParams { num_parties: 16, num_repetitions: 25, field_element_bytes: 4 }
    }

    /// The parameters for a permissioned blockchain, whose validators are known and accountable:
    /// those of [`ProofParams::secure_100`].
    pub fn fabric_recommended() -> (r: Self)
        ensures
            r == (ProofParams { num_parties: 16, num_repetitions: 25, field_element_bytes: 4 }),
            fewest_for_bits(r.num_parties as nat, r.num_repetitions as nat, 100),
    {
        ProofParams::secure_100()
    }

    /// The estimate of [`ProofParams::estimated_proof_bytes`] for one repetition: for each opened
    /// party one word per multiplication, and a 32-byte commitment for every party.
    pub open spec fn repetition_bytes(self, multiplications: nat) -> int {
        (self.num_parties - 1) * (multiplications * self.field_element_bytes) + self.num_parties
            * 32
    }

    /// A rough lower bound for the size of a proof in bytes, without overhead.
    pub fn estimated_proof_bytes(
        &self,
        witness_size_words: usize,
        circuit_and_gates: usize,
    ) -> (r: usize)
        requires
            self.num_parties >= 1,
            circuit_and_gates * self.field_element_bytes <= usize::MAX,
            self.repetition_bytes(circuit_and_gates as nat) <= usize::MAX,
            self.num_repetitions * self.repetition_bytes(circuit_and_gates as nat)
                + witness_size_words * self.field_element_bytes <= usize::MAX,
        ensures
            r == self.num_repetitions * self.repetition_bytes(circuit_and_gates as nat)
                + witness_size_words * self.field_element_bytes,
            r == self.num_repetitions * ((self.num_parties - 1) * (circuit_and_gates
                * self.field_element_bytes) + self.num_parties * 32) + witness_size_words
                * self.field_element_bytes,
    {
        let view_size: usize = circuit_and_gates * self.field_element_bytes;
        proof {
            let n = self.num_parties as int;
            assert(0 <= (n - 1) * view_size) by (nonlinear_arith)
                requires
                    n >= 1,
            ;
            let per = self.repetition_bytes(circuit_and_gates as nat);
            assert(0 <= self.num_repetitions * per) by (nonlinear_arith)
                requires
                    per >= 0,
            ;
            assert(0 <= witness_size_words * self.field_element_bytes) by (nonlinear_arith);
        }
        let per_rep: usize = (self.num_parties - 1) * view_size + self.num_parties * 32;
        self.num_repetitions * per_rep + witness_size_words * self.field_element_bytes
    }

    /// Accepts parameters with at least three parties and one repetition.
    pub fn validate(&self) -> (r: Result<(), MpcithError>)
        ensures
            match r {
                Ok(_) => params_failure(*self) is None,
                Err(e) => params_failure(*self) == Some(e@),
            },
    {
        if self.num_parties < 3 {
            return Err(MpcithError::InvalidParams("num_parties must be >= 3".to_owned()));
        }
        if self.num_repetitions < 1 {
            return Err(MpcithError::InvalidParams("num_repetitions must be >= 1".to_owned()));
        }
        Ok(())
    }
}

impl Default for ProofParams {
    /// The balanced parameters.
    fn default() -> (r: Self)
        ensures
            r == (ProofParams { num_parties: 16, num_repetitions: 38, field_element_bytes: 4 }),
    {
        ProofParams::balanced()
    }
}

/// Parameters are accepted exactly if there are at least three parties and one repetition.
pub proof fn lemma_params(params: ProofParams)
    ensures
        params_failure(params) is None <==> params.num_parties >= 3 && params.num_repetitions >= 1,
        params_failure(params) is Some ==> params_failure(params)->Some_0 is InvalidParams,
{
}

} // verus!
