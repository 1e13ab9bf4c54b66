//! Statements and their circuits.
//!
//! A [`Predicate`] says something about a secret value, input 0 of its circuit. A
//! [`CompoundPredicate`] says several things about the same value.

use crate::bits;
use crate::circuit::bit_decompose_on;
use crate::circuit::wire_list;
use crate::circuit::Circuit;
use crate::circuit::CircuitBuilder;
use crate::circuit::CircuitModel;
use crate::circuit::Gate;
use crate::draft;
use crate::draft::Draft;
use crate::encoding;
use crate::error::ErrorModel;
use crate::error::MpcithError;
use crate::membership;
use crate::merge;
use crate::merkle;
use crate::merkle::MerkleProof;
use crate::merkle::MerkleTree;
use crate::mimc;
use crate::range;
use crate::ring;
use crate::text;
use crate::tree;
use vstd::arithmetic::power2::*;
use vstd::prelude::*;

verus! {

/// A statement about a secret witness.
#[derive(Debug)]
pub enum Predicate {
    /// `witness[0] + witness[1] == expected_sum`
    AdditionCheck { expected_sum: u32 },
    /// `witness[0] * witness[1] == expected_product`
    MultiplicationCheck { expected_product: u32 },
    /// `witness[0] XOR witness[1] == expected_xor`. The witness goes on with the 32 bits of each
    /// operand.
    XorCheck { expected_xor: u32 },
    /// `lo <= witness[0] <= hi`
    RangeCheck { lo: u32, hi: u32 },
    /// `witness[0]` is one of `members`, by way of a Merkle path.
    SetMembership { members: Vec<u32> },
}

/// The contents of a [`Predicate`].
pub enum PredicateModel {
    AdditionCheck { expected_sum: u32 },
    MultiplicationCheck { expected_product: u32 },
    XorCheck { expected_xor: u32 },
    RangeCheck { lo: u32, hi: u32 },
    SetMembership { members: Seq<u32> },
}

impl View for Predicate {
    type V = PredicateModel;

    open spec fn view(&self) -> PredicateModel {
        match self {
            Predicate::AdditionCheck { expected_sum } => PredicateModel::AdditionCheck {
                expected_sum: *expected_sum,
            },
            Predicate::MultiplicationCheck {
                expected_product,
            } => PredicateModel::MultiplicationCheck { expected_product: *expected_product },
            Predicate::XorCheck { expected_xor } => PredicateModel::XorCheck {
                expected_xor: *expected_xor,
            },
            Predicate::RangeCheck { lo, hi } => PredicateModel::RangeCheck { lo: *lo, hi: *hi },
            Predicate::SetMembership { members } => PredicateModel::SetMembership {
                members: members@,
            },
        }
    }
}

/// A circuit and what is public about it.
#[derive(Debug)]
pub struct CompiledPredicate {
    pub circuit: Circuit,
    /// The constants of the statement.
    pub public_inputs: Vec<u32>,
    /// Number of values in a witness without the bits, which follow from the values: the two
    /// operands of an operation, the value in a range, or the member, its index and its siblings.
    pub witness_size: usize,
}

/// The contents of a [`CompiledPredicate`].
#[verifier::ext_equal]
pub struct CompiledModel {
    pub circuit: CircuitModel,
    pub public_inputs: Seq<u32>,
    pub witness_size: nat,
}

impl View for CompiledPredicate {
    type V = CompiledModel;

    open spec fn view(&self) -> CompiledModel {
        CompiledModel {
            circuit: self.circuit@,
            public_inputs: self.public_inputs@,
            witness_size: self.witness_size as nat,
        }
    }
}

/// The circuit of an addition.
pub open spec fn addition_draft(expected: u32) -> Draft {
    draft::blank(2).add(0, 1).assert_eq(2, expected)
}

/// The circuit of a multiplication.
pub open spec fn multiplication_draft(expected: u32) -> Draft {
    draft::blank(2).mul(0, 1).assert_eq(2, expected)
}

/// The circuit of an exclusive or.
pub open spec fn xor_draft(expected: u32) -> Draft {
    let (d, out) = draft::xor(Draft { inputs: 66, reserved: 2, gates: Seq::empty() }, 0, 1);
    d.assert_eq(out, expected)
}

/// Why a range is not supported, if it is not.
pub open spec fn range_failure(lo: u32, hi: u32) -> Option<ErrorModel> {
    if lo > hi {
        Some(ErrorModel::InvalidParams("Range check requires lo <= hi"@))
    } else if hi - lo >= 0x8000_0000 {
        Some(
            ErrorModel::InvalidParams(
                text::line1(
                    "RangeCheck requires hi - lo < 2^31 (got width "@,
                    (hi - lo) as nat,
                    "); wider ranges make the bit-decomposition range proof vacuous"@,
                ),
            ),
        )
    } else {
        None
    }
}

/// What is said of a tree that is too deep.
pub open spec fn depth_failure(depth: nat) -> ErrorModel {
    ErrorModel::InvalidParams(
        text::line1("Set membership supports at most 2^31 members (got depth "@, depth, ")"@),
    )
}

/// Why a set is not supported, if it is not.
pub open spec fn members_failure(members: Seq<u32>) -> Option<ErrorModel> {
    if members.len() == 0 {
        Some(ErrorModel::InvalidParams("Set membership requires at least one member"@))
    } else if tree::tree_depth(members.len()) >= 32 {
        Some(depth_failure(tree::tree_depth(members.len())))
    } else {
        None
    }
}

/// Why a tree is not supported, if it is not.
pub open spec fn root_failure(depth: nat, num_members: nat) -> Option<ErrorModel> {
    if depth >= 32 {
        Some(depth_failure(depth))
    } else if num_members == 0 || num_members > pow2(depth) {
        Some(
            ErrorModel::InvalidParams(
                text::line2(
                    "Member count "@,
                    num_members,
                    " inconsistent with tree depth "@,
                    depth,
                    ""@,
                ),
            ),
        )
    } else {
        None
    }
}

/// The compiled range check.
pub open spec fn compiled_range(lo: u32, hi: u32) -> CompiledModel {
    CompiledModel {
        circuit: range::range_circuit(lo, hi),
        public_inputs: seq![lo, hi],
        witness_size: 1,
    }
}

/// The compiled membership check.
pub open spec fn compiled_membership(root: u32, depth: nat, num_members: nat) -> CompiledModel {
    CompiledModel {
        circuit: membership::membership_circuit(root, depth, num_members),
        public_inputs: seq![root],
        witness_size: 2 + depth,
    }
}

/// The index of the first member at or after `from` that equals `value`.
pub open spec fn first_index(members: Seq<u32>, value: u32, from: nat) -> Option<nat>
    decreases members.len() - from,
{
    if from >= members.len() {
        None
    } else if members[from as int] == value {
        Some(from)
    } else {
        first_index(members, value, from + 1)
    }
}

/// The witness that a path gives.
pub open spec fn path_witness(leaf: u32, index: nat, siblings: Seq<u32>) -> Seq<u32> {
    seq![leaf, ring::wrap(index as int)] + range::bit_seq(index, siblings.len()) + siblings
}

impl PredicateModel {
    /// Why the statement cannot be compiled, if it cannot.
    pub open spec fn failure(self) -> Option<ErrorModel> {
        match self {
            PredicateModel::RangeCheck { lo, hi } => range_failure(lo, hi),
            PredicateModel::SetMembership { members } => members_failure(members),
            _ => None,
        }
    }

    /// The compiled statement.
    pub open spec fn compiled(self) -> CompiledModel {
        match self {
            PredicateModel::AdditionCheck { expected_sum } => CompiledModel {
                circuit: addition_draft(expected_sum).build(1),
                public_inputs: seq![expected_sum],
                witness_size: 2,
            },
            PredicateModel::MultiplicationCheck { expected_product } => CompiledModel {
                circuit: multiplication_draft(expected_product).build(1),
                public_inputs: seq![expected_product],
                witness_size: 2,
            },
            PredicateModel::XorCheck { expected_xor } => CompiledModel {
                circuit: xor_draft(expected_xor).build(1),
                public_inputs: seq![expected_xor],
                witness_size: 2,
            },
            PredicateModel::RangeCheck { lo, hi } => compiled_range(lo, hi),
            PredicateModel::SetMembership { members } => compiled_membership(
                merkle::merkle_root(members),
                tree::tree_depth(members.len()),
                members.len(),
            ),
        }
    }

    /// A Merkle tree over the members can be held in memory.
    pub open spec fn fits(self) -> bool {
        match self {
            PredicateModel::SetMembership { members } => 2 * pow2(tree::tree_depth(members.len()))
                <= usize::MAX,
            _ => true,
        }
    }

    /// What the circuit asserts of a witness.
    pub open spec fn accepted(self, w: Seq<u32>) -> bool {
        match self {
            PredicateModel::AdditionCheck { expected_sum } => {
                &&& w.len() == 2
                &&& ring::wrap(w[0] + w[1]) == expected_sum
            },
            PredicateModel::MultiplicationCheck { expected_product } => {
                &&& w.len() == 2
                &&& ring::wrap(w[0] * w[1]) == expected_product
            },
            PredicateModel::XorCheck { expected_xor } => {
                &&& w.len() == 66
                &&& w[0] ^ w[1] == expected_xor
                &&& draft::is_binary(w[0], draft::part(w, 2, 32))
                &&& draft::is_binary(w[1], draft::part(w, 34, 32))
            },
            PredicateModel::RangeCheck { lo, hi } => {
                &&& w.len() >= 1
                &&& lo <= w[0] <= hi
                &&& w == range::range_witness(w[0], lo, hi)
            },
            PredicateModel::SetMembership { members } => membership::is_membership_witness(
                merkle::merkle_root(members),
                tree::tree_depth(members.len()),
                members.len(),
                w,
            ),
        }
    }

    /// The witness that is generated for a secret value, or why there is none.
    pub open spec fn generated(self, value: u32) -> Result<Seq<u32>, ErrorModel> {
        match self {
            PredicateModel::RangeCheck { lo, hi } => Ok(range::range_witness(value, lo, hi)),
            PredicateModel::SetMembership { members } => match first_index(members, value, 0) {
                Some(i) => Ok(
                    path_witness(
                        value,
                        i,
                        tree::path(
                            tree::padded(members, 0),
                            tree::tree_depth(members.len()),
                            i,
                            merkle::combine(),
                        ),
                    ),
                ),
                None => Err(
                    ErrorModel::InvalidWitness(
                        text::line1("Value "@, value as nat, " is not in the member set"@),
                    ),
                ),
            },
            _ => Err(
                ErrorModel::InvalidParams(
                    "generate_witness is not supported for this predicate variant"@,
                ),
            ),
        }
    }

    /// Whether the statement is true of a secret value, for the statements that are about one
    /// value alone.
    pub open spec fn true_of(self, value: u32) -> bool {
        match self {
            PredicateModel::RangeCheck { lo, hi } => lo <= value <= hi,
            PredicateModel::SetMembership { members } => members.contains(value),
            _ => false,
        }
    }
}

// ----------------------------------------------------------------------------
// Laws
// ----------------------------------------------------------------------------

proof fn lemma_two_gates(g1: Gate, expected: u32, w: Seq<u32>)
    requires
        g1.reads_below(2),
        g1.target() == 2,
        g1.holds(w),
        !(g1 is Xor),
        !(g1 is AssertEq),
    ensures
        ({
            let d = draft::blank(2).gate(g1).assert_eq(2, expected);
            &&& d.wf()
            &&& d.inputs == 2
            &&& d.next() == 4
            &&& w.len() == 2 ==> (d.holds(w) <==> g1.value(w) == expected)
        }),
{
    let d = draft::blank(2);
    assert(d.wf());
    draft::lemma_gate_wf(d, g1);
    let d1 = d.gate(g1);
    let g2 = Gate::AssertEq { input: 2, expected, output: 3 };
    draft::lemma_gate_wf(d1, g2);
    if w.len() == 2 {
        draft::lemma_gate(d, g1, w);
        draft::lemma_gate(d1, g2, w);
        assert(d.values(w) == w);
    }
}

proof fn lemma_xor_draft(expected: u32, w: Seq<u32>)
    requires
        w.len() == 66,
    ensures
        xor_draft(expected).wf(),
        xor_draft(expected).inputs == 66,
        xor_draft(expected).next() == 579,
        xor_draft(expected).holds(w) <==> (PredicateModel::XorCheck {
            expected_xor: expected,
        }).accepted(w),
{
    let d = Draft { inputs: 66, reserved: 2, gates: Seq::empty() };
    assert(d.wf());
    draft::lemma_xor(d, 0, 1, w);
    assert(d.values(w) == w);
    let (e, out) = draft::xor(d, 0, 1);
    let g = Gate::AssertEq { input: out, expected, output: e.next() as usize };
    draft::lemma_gate(e, g, w);
    draft::lemma_gate_wf(e, g);
}

/// The circuit of a predicate accepts exactly the witnesses that the predicate describes.
pub proof fn lemma_predicate_circuit(p: PredicateModel, w: Seq<u32>)
    requires
        p.failure() is None,
    ensures
        p.compiled().circuit.sequential(),
        p.compiled().circuit.xor_free(),
        1 <= p.compiled().circuit.num_inputs,
        p.compiled().circuit.num_wires <= 10000,
        p.compiled().circuit.num_outputs == 1,
        p.compiled().witness_size <= p.compiled().circuit.num_inputs,
        p.compiled().public_inputs.len() <= p.compiled().circuit.num_inputs,
        p.compiled().circuit.accepts(w) <==> p.accepted(w),
{
    match p {
        PredicateModel::AdditionCheck { expected_sum } => {
            let g = Gate::Add { left: 0, right: 1, output: 2 };
            lemma_two_gates(g, expected_sum, w);
            draft::lemma_build(addition_draft(expected_sum), 1, w);
        },
        PredicateModel::MultiplicationCheck { expected_product } => {
            let g = Gate::Mul { left: 0, right: 1, output: 2 };
            lemma_two_gates(g, expected_product, w);
            draft::lemma_build(multiplication_draft(expected_product), 1, w);
        },
        PredicateModel::XorCheck { expected_xor } => {
            lemma_xor_draft(expected_xor, Seq::new(66, |i: int| 0u32));
            if w.len() == 66 {
                lemma_xor_draft(expected_xor, w);
            }
            draft::lemma_build(xor_draft(expected_xor), 1, w);
        },
        PredicateModel::RangeCheck { lo, hi } => {
            range::lemma_range_circuit(lo, hi, w);
            range::lemma_range_bits(lo, hi);
            lemma_range_witness_len(lo, hi, w);
        },
        PredicateModel::SetMembership { members } => {
            tree::lemma_tree_depth(members.len());
            membership::lemma_membership_circuit(
                merkle::merkle_root(members),
                tree::tree_depth(members.len()),
                members.len(),
                w,
            );
        },
    }
}

proof fn lemma_range_witness_len(lo: u32, hi: u32, w: Seq<u32>)
    ensures
        w.len() >= 1 ==> range::range_witness(w[0], lo, hi).len() == 33 + 2 * range::range_bits(
            lo,
            hi,
        ),
{
}

proof fn lemma_first_index(members: Seq<u32>, value: u32, from: nat)
    ensures
        match first_index(members, value, from) {
            Some(i) => from <= i < members.len() && members[i as int] == value,
            None => forall|i: int| from <= i < members.len() ==> members[i] != value,
        },
    decreases members.len() - from,
{
    if from < members.len() && members[from as int] != value {
        lemma_first_index(members, value, from + 1);
    }
}

/// The path of a member is a witness for its membership.
pub proof fn lemma_member_witness(members: Seq<u32>, index: nat)
    requires
        index < members.len(),
        tree::tree_depth(members.len()) <= 31,
    ensures
        (PredicateModel::SetMembership { members }).accepted(
            path_witness(
                members[index as int],
                index,
                tree::path(
                    tree::padded(members, 0),
                    tree::tree_depth(members.len()),
                    index,
                    merkle::combine(),
                ),
            ),
        ),
{
    let depth = tree::tree_depth(members.len());
    let leaves = tree::padded(members, 0);
    let siblings = tree::path(leaves, depth, index, merkle::combine());
    let w = path_witness(members[index as int], index, siblings);
    tree::lemma_tree_depth(members.len());
    lemma2_to64();
    lemma_pow2_pos(depth);
    lemma_pow2_strictly_increases(depth, 32);
    let s = draft::part(w, 2, depth);
    assert(s =~= range::bit_seq(index, depth));
    assert(draft::part(w, 2 + depth, depth) =~= siblings);
    bits::lemma_bits_of(index, s, depth);
    vstd::arithmetic::div_mod::lemma_small_mod(index, pow2(depth));
    tree::lemma_fold_path(leaves, depth, index, merkle::combine());
}

/// The witness that is generated for a value is accepted exactly if the statement is true of the
/// value.
pub proof fn lemma_generated_predicate(p: PredicateModel, value: u32)
    requires
        p.failure() is None,
    ensures
        match p.generated(value) {
            Ok(w) => {
                &&& w.len() == p.compiled().circuit.num_inputs
                &&& w[0] == value
                &&& p.accepted(w) <==> p.true_of(value)
            },
            Err(_) => !p.true_of(value),
        },
{
    match p {
        PredicateModel::RangeCheck { lo, hi } => {
            let w = range::range_witness(value, lo, hi);
            range::lemma_range_circuit(lo, hi, w);
            lemma_range_witness_len(lo, hi, w);
            assert(w[0] == value);
        },
        PredicateModel::SetMembership { members } => {
            lemma_first_index(members, value, 0);
            match first_index(members, value, 0) {
                Some(i) => {
                    lemma_member_witness(members, i);
                    let w = path_witness(
                        value,
                        i,
                        tree::path(
                            tree::padded(members, 0),
                            tree::tree_depth(members.len()),
                            i,
                            merkle::combine(),
                        ),
                    );
                    lemma_predicate_circuit(p, w);
                    assert(w[0] == value);
                    assert(members[i as int] == value);
                },
                None => {
                    assert(!members.contains(value));
                },
            }
        },
        _ => {},
    }
}

// ----------------------------------------------------------------------------
// Compiling
// ----------------------------------------------------------------------------

impl Clone for Predicate {
    fn clone(&self) -> (r: Self)
        ensures
            r@ == self@,
    {
        match self {
            Predicate::AdditionCheck { expected_sum } => Predicate::AdditionCheck {
                expected_sum: *expected_sum,
            },
            Predicate::MultiplicationCheck { expected_product } => Predicate::MultiplicationCheck {
                expected_product: *expected_product,
            },
            Predicate::XorCheck { expected_xor } => Predicate::XorCheck {
                expected_xor: *expected_xor,
            },
            Predicate::RangeCheck { lo, hi } => Predicate::RangeCheck { lo: *lo, hi: *hi },
            Predicate::SetMembership { members } => Predicate::SetMembership {
                members: encoding::copy_words(members),
            },
        }
    }
}

impl Predicate {
    /// Compiles the statement to a circuit.
    pub fn compile(&self) -> (r: Result<CompiledPredicate, MpcithError>)
        requires
            self@.fits(),
        ensures
            match r {
                Ok(c) => self@.failure() is None && c@ == self@.compiled(),
                Err(e) => self@.failure() == Some(e@),
            },
    {
        match self {
            Predicate::AdditionCheck { expected_sum } => Ok(compile_addition_check(*expected_sum)),
            Predicate::MultiplicationCheck { expected_product } => Ok(
                compile_multiplication_check(*expected_product),
            ),
            Predicate::XorCheck { expected_xor } => Ok(compile_xor_check(*expected_xor)),
            Predicate::RangeCheck { lo, hi } => compile_range_check(*lo, *hi),
            Predicate::SetMembership { members } => compile_set_membership(members),
        }
    }

    /// Generates the witness for a secret value.
    ///
    /// A range check gets the value, its bits, and the bits of its distances to the two ends; a
    /// set membership gets the leaf, its index, the bits of the index and the siblings. The other
    /// statements are about more than one value.
    pub fn generate_witness(&self, secret_value: u32) -> (r: Result<Vec<u32>, MpcithError>)
        requires
            self@.fits(),
        ensures
            match r {
                Ok(w) => self@.generated(secret_value) == Ok::<Seq<u32>, ErrorModel>(w@),
                Err(e) => self@.generated(secret_value) == Err::<Seq<u32>, ErrorModel>(e@),
            },
    {
        match self {
            Predicate::RangeCheck { lo, hi } => Ok(range_witness_vec(secret_value, *lo, *hi)),
            Predicate::SetMembership { members } => {
                let mut i: usize = 0;
                while i < members.len()
                    invariant
                        i <= members.len(),
                        self@ == (PredicateModel::SetMembership { members: members@ }),
                        self@.fits(),
                        first_index(members@, secret_value, 0) == first_index(
                            members@,
                            secret_value,
                            i as nat,
                        ),
                    decreases members.len() - i,
                {
                    if members[i] == secret_value {
                        proof {
                            tree::lemma_tree_depth(members@.len());
                        }
                        let tree: MerkleTree = MerkleTree::build(members);
                        let proof: MerkleProof = tree.prove_membership(i);
                        return Ok(set_membership_witness_vec(&proof));
                    }
                    i = i + 1;
                }
                Err(
                    MpcithError::InvalidWitness(
                        text::text1(
                            "Value ",
                            secret_value as usize,
                            " is not in the member set",
                        ),
                    ),
                )
            },
            _ => Err(
                MpcithError::InvalidParams(
                    "generate_witness is not supported for this predicate variant".to_owned(),
                ),
            ),
        }
    }

    /// Number of values in a witness without the bits, which follow from the values: the two
    /// operands of an operation, the value in a range, or the member, its index and its siblings.
    pub fn witness_size(&self) -> (r: usize)
        ensures
            r == self@.compiled().witness_size,
    {
        match self {
            Predicate::AdditionCheck { .. } => 2,
            Predicate::MultiplicationCheck { .. } => 2,
            Predicate::XorCheck { .. } => 2,
            Predicate::RangeCheck { .. } => 1,
            Predicate::SetMembership { members } => 2 + tree::depth_for(members.len()),
        }
    }
}

fn compile_addition_check(expected_sum: u32) -> (r: CompiledPredicate)
    ensures
        r@ == (PredicateModel::AdditionCheck { expected_sum }).compiled(),
{
    let mut builder: CircuitBuilder = CircuitBuilder::new(2);
    let sum_wire: usize = builder.add(0, 1);
    let out: usize = builder.assert_eq(sum_wire, expected_sum);
    let circuit: Circuit = builder.build(1);
    let public_inputs: Vec<u32> = vec![expected_sum];
    proof {
        assert(public_inputs@ =~= seq![expected_sum]);
    }
    CompiledPredicate { circuit, public_inputs, witness_size: 2 }
}

fn compile_multiplication_check(expected_product: u32) -> (r: CompiledPredicate)
    ensures
        r@ == (PredicateModel::MultiplicationCheck { expected_product }).compiled(),
{
    let mut builder: CircuitBuilder = CircuitBuilder::new(2);
    let prod_wire: usize = builder.mul(0, 1);
    let out: usize = builder.assert_eq(prod_wire, expected_product);
    let circuit: Circuit = builder.build(1);
    let public_inputs: Vec<u32> = vec![expected_product];
    proof {
        assert(public_inputs@ =~= seq![expected_product]);
    }
    CompiledPredicate { circuit, public_inputs, witness_size: 2 }
}

fn compile_xor_check(expected_xor: u32) -> (r: CompiledPredicate)
    ensures
        r@ == (PredicateModel::XorCheck { expected_xor }).compiled(),
{
    let mut builder: CircuitBuilder = CircuitBuilder::new_with_reserved_xor_inputs(2, 1);
    proof {
        lemma_xor_draft(expected_xor, Seq::new(66, |i: int| 0u32));
    }
    let xor_wire: usize = builder.xor(0, 1);
    let out: usize = builder.assert_eq(xor_wire, expected_xor);
    let circuit: Circuit = builder.build(1);
    let public_inputs: Vec<u32> = vec![expected_xor];
    proof {
        assert(public_inputs@ =~= seq![expected_xor]);
    }
    CompiledPredicate { circuit, public_inputs, witness_size: 2 }
}

/// Number of bits that numbers up to `max_val` need.
pub fn bits_needed(max_val: u32) -> (r: usize)
    ensures
        r == bits::bit_length(max_val as nat),
        1 <= r <= 32,
{
    let mut n: usize = 1;
    let mut rest: u32 = max_val;
    let ghost mut room: nat = 31;
    proof {
        lemma2_to64();
    }
    while rest > 1
        invariant
            n - 1 + bits::bit_length(rest as nat) == bits::bit_length(max_val as nat),
            n + room == 32,
            n >= 1,
            rest < pow2(room + 1),
        decreases rest,
    {
        proof {
            if room == 0 {
                lemma2_to64();
            }
            lemma_pow2_unfold(room + 1);
            room = (room - 1) as nat;
        }
        rest = rest / 2;
        n = n + 1;
    }
    n
}

fn compile_range_check(lo: u32, hi: u32) -> (r: Result<CompiledPredicate, MpcithError>)
    ensures
        match r {
            Ok(c) => range_failure(lo, hi) is None && c@ == compiled_range(lo, hi),
            Err(e) => range_failure(lo, hi) == Some(e@),
        },
{
    if lo > hi {
        return Err(MpcithError::InvalidParams("Range check requires lo <= hi".to_owned()));
    }
    let width: u32 = hi - lo;
    if width >= 0x8000_0000 {
        return Err(
            MpcithError::InvalidParams(
                text::text1(
                    "RangeCheck requires hi - lo < 2^31 (got width ",
                    width as usize,
                    "); wider ranges make the bit-decomposition range proof vacuous",
                ),
            ),
        );
    }
    proof {
        range::lemma_range_bits(lo, hi);
        range::lemma_range_sizes(lo, hi);
        ring::lemma_wrapping_ops(0, lo);
        ring::lemma_wrap_sub(0, lo as int);
    }
    let k: usize = bits_needed(width);
    let mut builder: CircuitBuilder = CircuitBuilder::new(33 + 2 * k);
    let x_bits: Vec<usize> = wire_list(1, 32);
    let shifted_bits: Vec<usize> = wire_list(33, k);
    let slack_bits: Vec<usize> = wire_list(33 + k, k);
    bit_decompose_on(&mut builder, 0, &x_bits);
    let ghost d1 = builder@;
    proof {
        assert(d1 == range::value_part(lo, hi));
    }
    let neg_lo: u32 = 0u32.wrapping_sub(lo);
    let shifted: usize = builder.add_const(0, neg_lo);
    bit_decompose_on(&mut builder, shifted, &shifted_bits);
    proof {
        assert(builder@ == range::shifted_part(lo, hi));
    }
    let neg_shifted: usize = builder.mul_const(shifted, 0xffff_ffff);
    let slack: usize = builder.add_const(neg_shifted, width);
    bit_decompose_on(&mut builder, slack, &slack_bits);
    proof {
        assert(builder@ == range::slack_part(lo, hi));
    }
    let zero: usize = builder.mul_const(0, 0);
    let out: usize = builder.assert_eq(zero, 0);
    let circuit: Circuit = builder.build(1);
    let public_inputs: Vec<u32> = vec![lo, hi];
    proof {
        assert(public_inputs@ =~= seq![lo, hi]);
    }
    Ok(CompiledPredicate { circuit, public_inputs, witness_size: 1 })
}

/// Asserts that the index on the given wires is below the number of members.
fn constrain_index_below_num_members(
    builder: &mut CircuitBuilder,
    bit_wires: &[usize],
    num_members: usize,
)
    requires
        bit_wires@.len() <= 31,
        1 <= num_members <= pow2(bit_wires@.len()),
        old(builder)@.next() + 4 * bit_wires@.len() + 1 <= usize::MAX,
    ensures
        final(builder)@ == membership::no_carry(
            old(builder)@,
            bit_wires@,
            (pow2(bit_wires@.len()) - num_members) as nat,
        ),
        final(builder)@.next() <= old(builder)@.next() + 4 * bit_wires@.len() + 1,
{
    let depth: usize = bit_wires.len();
    proof {
        lemma2_to64();
        lemma_pow2_strictly_increases(depth as nat, 32);
    }
    let pad: usize = tree::power_of_two(depth) - num_members;
    let ghost start = builder@;
    let mut rest: usize = pad;
    let mut carry: Option<usize> = None;
    let mut i: usize = 0;
    proof {
        vstd::arithmetic::div_mod::lemma_div_basics(pad as int);
    }
    while i < depth
        invariant
            i <= depth,
            depth == bit_wires@.len(),
            start.next() + 4 * depth + 1 <= usize::MAX,
            builder@.next() <= start.next() + 4 * i,
            (builder@, carry) == membership::carry_chain(start, bit_wires@, pad as nat, i as nat),
            rest == pad as nat / pow2(i as nat),
        decreases depth - i,
    {
        let b: usize = bit_wires[i];
        let odd: bool = rest % 2 == 1;
        proof {
            assert(odd <==> bits::bit(pad as nat, i as nat) != 0);
            tree::lemma_halve(pad as nat, i as nat);
        }
        carry =
        match carry {
            None => if odd {
                Some(b)
            } else {
                None
            },
            Some(c) => if odd {
                let negated: usize = builder.mul_const(b, 0xffff_ffff);
                let not_b: usize = builder.add_const(negated, 1);
                let kept: usize = builder.mul(c, not_b);
                Some(builder.add(b, kept))
            } else {
                Some(builder.mul(c, b))
            },
        };
        rest = rest / 2;
        i = i + 1;
    }
    if let Some(top) = carry {
        let out: usize = builder.assert_eq(top, 0);
    }
}

fn walk_to_root(builder: &mut CircuitBuilder, bit_wires: &[usize], sibling_wires: &[usize]) -> (r:
    usize)
    requires
        bit_wires@.len() == sibling_wires@.len(),
        bit_wires@.len() <= 31,
        old(builder)@.next() + membership::level_size() * bit_wires@.len() <= usize::MAX,
    ensures
        (final(builder)@, r) == membership::walk(
            old(builder)@,
            bit_wires@,
            sibling_wires@,
            bit_wires@.len(),
        ),
        final(builder)@.next() == old(builder)@.next() + membership::level_size()
            * bit_wires@.len(),
{
    let ghost start = builder@;
    let mut current: usize = 0;
    let mut i: usize = 0;
    while i < bit_wires.len()
        invariant
            i <= bit_wires.len(),
            bit_wires@.len() == sibling_wires@.len(),
            start.next() + membership::level_size() * bit_wires@.len() <= usize::MAX,
            builder@.next() == start.next() + membership::level_size() * i,
            (builder@, current) == membership::walk(start, bit_wires@, sibling_wires@, i as nat),
        decreases bit_wires.len() - i,
    {
        let b: usize = bit_wires[i];
        let sibling: usize = sibling_wires[i];
        let negated: usize = builder.mul_const(b, 0xffff_ffff);
        let not_b: usize = builder.add_const(negated, 1);
        let left_own: usize = builder.mul(not_b, current);
        let left_other: usize = builder.mul(b, sibling);
        let left: usize = builder.add(left_own, left_other);
        let right_own: usize = builder.mul(b, current);
        let right_other: usize = builder.mul(not_b, sibling);
        let right: usize = builder.add(right_own, right_other);
        let (hash, other): (usize, usize) = mimc::build_mimc_hash(
            builder,
            left,
            right,
            mimc::MIMC_ROUNDS,
        );
        current = hash;
        i = i + 1;
    }
    current
}

fn compile_membership(root: u32, depth: usize, num_members: usize) -> (r: CompiledPredicate)
    requires
        depth <= 31,
        1 <= num_members <= pow2(depth as nat),
    ensures
        r@ == compiled_membership(root, depth as nat, num_members as nat),
{
    let mut builder: CircuitBuilder = CircuitBuilder::new(2 + 2 * depth);
    let bit_wires: Vec<usize> = wire_list(2, depth);
    let sibling_wires: Vec<usize> = wire_list(2 + depth, depth);
    proof {
        draft::lemma_bit_decompose_next(builder@, 1, bit_wires@);
    }
    bit_decompose_on(&mut builder, 1, &bit_wires);
    constrain_index_below_num_members(&mut builder, &bit_wires, num_members);
    let current: usize = walk_to_root(&mut builder, &bit_wires, &sibling_wires);
    let out: usize = builder.assert_eq(current, root);
    let circuit: Circuit = builder.build(1);
    let public_inputs: Vec<u32> = vec![root];
    proof {
        assert(public_inputs@ =~= seq![root]);
    }
    CompiledPredicate { circuit, public_inputs, witness_size: 2 + depth }
}

fn compile_set_membership(members: &[u32]) -> (r: Result<CompiledPredicate, MpcithError>)
    requires
        2 * pow2(tree::tree_depth(members@.len())) <= usize::MAX,
    ensures
        match r {
            Ok(c) => {
                &&& members_failure(members@) is None
                &&& c@ == compiled_membership(
                    merkle::merkle_root(members@),
                    tree::tree_depth(members@.len()),
                    members@.len(),
                )
            },
            Err(e) => members_failure(members@) == Some(e@),
        },
{
    if members.len() == 0 {
        return Err(
            MpcithError::InvalidParams("Set membership requires at least one member".to_owned()),
        );
    }
    let depth: usize = tree::depth_for(members.len());
    if depth >= 32 {
        return Err(too_deep(depth));
    }
    let tree: MerkleTree = MerkleTree::build(members);
    proof {
        tree::lemma_tree_depth(members@.len());
    }
    Ok(compile_membership(tree.root(), depth, members.len()))
}

fn too_deep(depth: usize) -> (r: MpcithError)
    ensures
        r@ == depth_failure(depth as nat),
{
    MpcithError::InvalidParams(
        text::text1("Set membership supports at most 2^31 members (got depth ", depth, ")"),
    )
}

/// Compiles a set membership from what is public about the set: the root and the depth of its
/// tree and the number of its members.
///
/// The circuit is the one that the set itself compiles to. A wrong number of members gives another
/// circuit.
pub fn compile_set_membership_from_root(root: u32, depth: usize, num_members: usize) -> (r: Result<
    CompiledPredicate,
    MpcithError,
>)
    ensures
        match r {
            Ok(c) => {
                &&& root_failure(depth as nat, num_members as nat) is None
                &&& c@ == compiled_membership(root, depth as nat, num_members as nat)
            },
            Err(e) => root_failure(depth as nat, num_members as nat) == Some(e@),
        },
{
    if depth >= 32 {
        return Err(too_deep(depth));
    }
    proof {
        lemma2_to64();
        lemma_pow2_strictly_increases(depth as nat, 32);
    }
    if num_members == 0 || num_members > tree::power_of_two(depth) {
        return Err(
            MpcithError::InvalidParams(
                text::text2(
                    "Member count ",
                    num_members,
                    " inconsistent with tree depth ",
                    depth,
                    "",
                ),
            ),
        );
    }
    Ok(compile_membership(root, depth, num_members))
}

fn push_bits(out: &mut Vec<u32>, x: u32, n: usize)
    requires
        n <= 32,
    ensures
        final(out)@ == old(out)@ + range::bit_seq(x as nat, n as nat),
{
    let ghost start = out@;
    let ghost all = range::bit_seq(x as nat, n as nat);
    let mut i: usize = 0;
    while i < n
        invariant
            i <= n,
            n <= 32,
            all == range::bit_seq(x as nat, n as nat),
            out@ =~= start + all.subrange(0, i as int),
        decreases n - i,
    {
        out.push(bits::word_bit(x, i));
        i = i + 1;
    }
    proof {
        assert(out@ =~= start + all);
    }
}

fn range_witness_vec(x: u32, lo: u32, hi: u32) -> (r: Vec<u32>)
    ensures
        r@ == range::range_witness(x, lo, hi),
{
    let width: u32 = hi.wrapping_sub(lo);
    let k: usize = bits_needed(width);
    let shifted: u32 = x.wrapping_sub(lo);
    let slack: u32 = width.wrapping_sub(shifted);
    proof {
        ring::lemma_wrapping_ops(hi, lo);
        ring::lemma_wrapping_ops(x, lo);
        ring::lemma_wrapping_ops(width, shifted);
    }
    let mut w: Vec<u32> = Vec::with_capacity(1 + 32 + k + k);
    w.push(x);
    push_bits(&mut w, x, 32);
    push_bits(&mut w, shifted, k);
    push_bits(&mut w, slack, k);
    proof {
        assert(w@ =~= range::range_witness(x, lo, hi));
    }
    w
}

/// The witness for a set membership that a Merkle path gives.
pub fn set_membership_witness_vec(proof: &MerkleProof) -> (r: Vec<u32>)
    ensures
        r@ == path_witness(proof.leaf, proof.leaf_index as nat, proof.siblings@),
{
    let depth: usize = proof.siblings.len();
    let ghost index = proof.leaf_index as nat;
    let ghost all = range::bit_seq(index, depth as nat);
    let mut w: Vec<u32> = Vec::new();
    w.push(proof.leaf);
    w.push((proof.leaf_index as u64 % 0x1_0000_0000) as u32);
    let ghost start = w@;
    let mut rest: usize = proof.leaf_index;
    let mut i: usize = 0;
    proof {
        lemma2_to64();
        vstd::arithmetic::div_mod::lemma_div_basics(index as int);
    }
    while i < depth
        invariant
            i <= depth,
            index == proof.leaf_index,
            all == range::bit_seq(index, depth as nat),
            rest == index / pow2(i as nat),
            w@ =~= start + all.subrange(0, i as int),
        decreases depth - i,
    {
        w.push((rest % 2) as u32);
        proof {
            tree::lemma_halve(index, i as nat);
        }
        rest = rest / 2;
        i = i + 1;
    }
    w.extend_from_slice(&proof.siblings);
    proof {
        assert(w@ =~= path_witness(proof.leaf, index, proof.siblings@));
    }
    w
}

// ----------------------------------------------------------------------------
// Compound statements
// ----------------------------------------------------------------------------

/// One or more statements about the same secret value.
///
/// The circuit of a conjunction asserts that the first inputs of its two circuits are equal.
#[derive(Debug)]
pub enum CompoundPredicate {
    Single(Predicate),
    And(Box<CompoundPredicate>, Box<CompoundPredicate>),
}

/// The contents of a [`CompoundPredicate`].
pub enum CompoundModel {
    Single(PredicateModel),
    And(Box<CompoundModel>, Box<CompoundModel>),
}

/// The contents of a compound statement.
pub open spec fn compound_model(c: CompoundPredicate) -> CompoundModel
    decreases c,
{
    match c {
        CompoundPredicate::Single(p) => CompoundModel::Single(p@),
        CompoundPredicate::And(l, r) => CompoundModel::And(
            Box::new(compound_model(*l)),
            Box::new(compound_model(*r)),
        ),
    }
}

impl View for CompoundPredicate {
    type V = CompoundModel;

    open spec fn view(&self) -> CompoundModel {
        compound_model(*self)
    }
}

/// Two compiled statements joined.
pub open spec fn joined(l: CompiledModel, r: CompiledModel) -> CompiledModel {
    CompiledModel {
        circuit: merge::merged(l.circuit, r.circuit),
        public_inputs: l.public_inputs + r.public_inputs,
        witness_size: l.witness_size + r.witness_size,
    }
}

impl CompoundModel {
    /// Why the statement cannot be compiled, if it cannot.
    pub open spec fn failure(self) -> Option<ErrorModel>
        decreases self,
    {
        match self {
            CompoundModel::Single(p) => p.failure(),
            CompoundModel::And(l, r) => match l.failure() {
                Some(e) => Some(e),
                None => r.failure(),
            },
        }
    }

    /// The compiled statement.
    pub open spec fn compiled(self) -> CompiledModel
        decreases self,
    {
        match self {
            CompoundModel::Single(p) => p.compiled(),
            CompoundModel::And(l, r) => joined(l.compiled(), r.compiled()),
        }
    }

    /// Trees and circuits can be held in memory.
    pub open spec fn fits(self) -> bool
        decreases self,
    {
        match self {
            CompoundModel::Single(p) => p.fits(),
            CompoundModel::And(l, r) => {
                &&& l.fits()
                &&& r.fits()
                &&& self.failure() is None ==> self.compiled().circuit.num_wires <= usize::MAX
            },
        }
    }

    /// What the circuit asserts of a witness.
    pub open spec fn accepted(self, w: Seq<u32>) -> bool
        decreases self,
    {
        match self {
            CompoundModel::Single(p) => p.accepted(w),
            CompoundModel::And(l, r) => {
                let n = l.compiled().circuit.num_inputs;
                &&& w.len() == n + r.compiled().circuit.num_inputs
                &&& w[0] == w[n as int]
                &&& l.accepted(w.subrange(0, n as int))
                &&& r.accepted(w.subrange(n as int, w.len() as int))
            },
        }
    }

    /// The witness that is generated for a secret value, or why there is none.
    pub open spec fn generated(self, value: u32) -> Result<Seq<u32>, ErrorModel>
        decreases self,
    {
        match self {
            CompoundModel::Single(p) => p.generated(value),
            CompoundModel::And(l, r) => match l.generated(value) {
                Ok(a) => match r.generated(value) {
                    Ok(b) => Ok(a + b),
                    Err(e) => Err(e),
                },
                Err(e) => Err(e),
            },
        }
    }

    /// Whether all statements are true of a secret value.
    pub open spec fn true_of(self, value: u32) -> bool
        decreases self,
    {
        match self {
            CompoundModel::Single(p) => p.true_of(value),
            CompoundModel::And(l, r) => l.true_of(value) && r.true_of(value),
        }
    }
}

/// The circuit of a compound statement accepts exactly the witnesses that the statement
/// describes.
pub proof fn lemma_compound_circuit(c: CompoundModel, w: Seq<u32>)
    requires
        c.failure() is None,
        c.fits(),
    ensures
        c.compiled().circuit.sequential(),
        c.compiled().circuit.xor_free(),
        1 <= c.compiled().circuit.num_inputs,
        c.compiled().circuit.num_wires <= usize::MAX,
        1 <= c.compiled().circuit.num_outputs <= c.compiled().circuit.num_wires,
        c.compiled().witness_size <= c.compiled().circuit.num_inputs,
        c.compiled().public_inputs.len() <= c.compiled().circuit.num_inputs,
        c.compiled().circuit.accepts(w) <==> c.accepted(w),
    decreases c,
{
    match c {
        CompoundModel::Single(p) => {
            lemma_predicate_circuit(p, w);
        },
        CompoundModel::And(l, r) => {
            let n = l.compiled().circuit.num_inputs;
            let cut = if n <= w.len() {
                n as int
            } else {
                0
            };
            lemma_compound_circuit(*l, w.subrange(0, cut));
            lemma_compound_circuit(*r, w.subrange(cut, w.len() as int));
            merge::lemma_merged(l.compiled().circuit, r.compiled().circuit, w);
        },
    }
}

/// The witness that is generated for a value is accepted exactly if all statements are true of
/// the value.
pub proof fn lemma_generated_compound(c: CompoundModel, value: u32)
    requires
        c.failure() is None,
        c.fits(),
    ensures
        match c.generated(value) {
            Ok(w) => {
                &&& w.len() == c.compiled().circuit.num_inputs
                &&& w[0] == value
                &&& c.accepted(w) <==> c.true_of(value)
            },
            Err(_) => !c.true_of(value),
        },
    decreases c,
{
    match c {
        CompoundModel::Single(p) => {
            lemma_generated_predicate(p, value);
        },
        CompoundModel::And(l, r) => {
            lemma_generated_compound(*l, value);
            lemma_generated_compound(*r, value);
            lemma_compound_circuit(*l, Seq::empty());
            lemma_compound_circuit(*r, Seq::empty());
            if let Ok(a) = l.generated(value) {
                if let Ok(b) = r.generated(value) {
                    let w = a + b;
                    assert(w.subrange(0, a.len() as int) =~= a);
                    assert(w.subrange(a.len() as int, w.len() as int) =~= b);
                }
            }
        },
    }
}

/// Every witness that is accepted for a conjunction is about one value: each of the two parts is
/// accepted, and both start with the same value.
pub proof fn lemma_same_value(l: CompoundModel, r: CompoundModel, w: Seq<u32>)
    requires
        CompoundModel::And(Box::new(l), Box::new(r)).failure() is None,
        CompoundModel::And(Box::new(l), Box::new(r)).fits(),
        CompoundModel::And(Box::new(l), Box::new(r)).compiled().circuit.accepts(w),
    ensures
        ({
            let n = l.compiled().circuit.num_inputs as int;
            let a = w.subrange(0, n);
            let b = w.subrange(n, w.len() as int);
            &&& l.compiled().circuit.accepts(a)
            &&& r.compiled().circuit.accepts(b)
            &&& a[0] == b[0]
        }),
{
    let c = CompoundModel::And(Box::new(l), Box::new(r));
    lemma_compound_circuit(c, w);
    let n = l.compiled().circuit.num_inputs as int;
    assert(c.accepted(w));
    lemma_compound_circuit(l, w.subrange(0, n));
    lemma_compound_circuit(r, w.subrange(n, w.len() as int));
}

/// The conjunction of a range check and a set membership.
pub open spec fn range_and_members(lo: u32, hi: u32, members: Seq<u32>) -> CompoundModel {
    CompoundModel::And(
        Box::new(CompoundModel::Single(PredicateModel::RangeCheck { lo, hi })),
        Box::new(CompoundModel::Single(PredicateModel::SetMembership { members })),
    )
}

/// Why a range check and a set membership cannot be compiled from the root, if they cannot.
pub open spec fn range_and_root_failure(
    lo: u32,
    hi: u32,
    depth: nat,
    num_members: nat,
) -> Option<ErrorModel> {
    match range_failure(lo, hi) {
        Some(e) => Some(e),
        None => root_failure(depth, num_members),
    }
}

/// A range check and a set membership compiled from the root.
pub open spec fn compiled_range_and_root(
    lo: u32,
    hi: u32,
    root: u32,
    depth: nat,
    num_members: nat,
) -> CompiledModel {
    joined(compiled_range(lo, hi), compiled_membership(root, depth, num_members))
}

/// A range check and a set membership compile to the same circuit whether they are compiled from
/// the members or from the root, the depth and the number of members.
pub proof fn lemma_compilers_agree(lo: u32, hi: u32, members: Seq<u32>)
    requires
        range_and_members(lo, hi, members).failure() is None,
    ensures
        range_and_root_failure(lo, hi, tree::tree_depth(members.len()), members.len()) is None,
        range_and_members(lo, hi, members).compiled() == compiled_range_and_root(
            lo,
            hi,
            merkle::merkle_root(members),
            tree::tree_depth(members.len()),
            members.len(),
        ),
{
    reveal_with_fuel(CompoundModel::failure, 2);
    reveal_with_fuel(CompoundModel::compiled, 2);
    tree::lemma_tree_depth(members.len());
}

/// The circuit of a range check and a set membership is small.
pub proof fn lemma_range_and_members_fit(lo: u32, hi: u32, members: Seq<u32>)
    requires
        (PredicateModel::SetMembership { members }).fits(),
    ensures
        range_and_members(lo, hi, members).fits(),
        range_and_members(lo, hi, members).failure() is None ==> range_and_members(
            lo,
            hi,
            members,
        ).compiled().circuit.num_wires <= 20005,
{
    reveal_with_fuel(CompoundModel::failure, 2);
    reveal_with_fuel(CompoundModel::compiled, 2);
    reveal_with_fuel(CompoundModel::fits, 2);
    let p = PredicateModel::RangeCheck { lo, hi };
    let q = PredicateModel::SetMembership { members };
    if p.failure() is None && q.failure() is None {
        lemma_predicate_circuit(p, Seq::empty());
        lemma_predicate_circuit(q, Seq::empty());
    }
}

/// A range check and a set membership compile to another circuit if the number of members is
/// another.
pub proof fn lemma_member_count_matters(
    lo: u32,
    hi: u32,
    root: u32,
    depth: nat,
    count: nat,
    other: nat,
)
    requires
        range_and_root_failure(lo, hi, depth, count) is None,
        range_and_root_failure(lo, hi, depth, other) is None,
        count != other,
    ensures
        compiled_range_and_root(lo, hi, root, depth, count).circuit != compiled_range_and_root(
            lo,
            hi,
            root,
            depth,
            other,
        ).circuit,
{
    let l = range::range_circuit(lo, hi);
    let r = membership::membership_circuit(root, depth, count);
    let s = membership::membership_circuit(root, depth, other);
    range::lemma_range_circuit(lo, hi, Seq::empty());
    membership::lemma_membership_circuit(root, depth, count, Seq::empty());
    membership::lemma_membership_circuit(root, depth, other, Seq::empty());
    if merge::merged(l, r) == merge::merged(l, s) {
        merge::lemma_merged_right(l, r, s);
        if count < other {
            membership::lemma_members_matter(root, depth, count, other);
        } else {
            membership::lemma_members_matter(root, depth, other, count);
        }
    }
}

fn join_compiled(left: CompiledPredicate, right: CompiledPredicate) -> (r: CompiledPredicate)
    requires
        merge::mergeable(left@.circuit, right@.circuit),
        left@.witness_size + right@.witness_size <= usize::MAX,
    ensures
        r@ == joined(left@, right@),
{
    let circuit: Circuit = merge::merge_same_witness_circuits(&left.circuit, &right.circuit);
    let mut public_inputs: Vec<u32> = encoding::copy_words(&left.public_inputs);
    public_inputs.extend_from_slice(&right.public_inputs);
    proof {
        assert(public_inputs@ =~= left.public_inputs@ + right.public_inputs@);
    }
    CompiledPredicate {
        circuit,
        public_inputs,
        witness_size: left.witness_size + right.witness_size,
    }
}

impl Clone for CompoundPredicate {
    fn clone(&self) -> (r: Self)
        ensures
            r@ == self@,
        decreases self,
    {
        match self {
            CompoundPredicate::Single(p) => CompoundPredicate::Single(p.clone()),
            CompoundPredicate::And(l, r) => CompoundPredicate::And(
                Box::new((&**l).clone()),
                Box::new((&**r).clone()),
            ),
        }
    }
}

impl CompoundPredicate {
    /// Compiles the statement to one circuit.
    pub fn compile(&self) -> (r: Result<CompiledPredicate, MpcithError>)
        requires
            self@.fits(),
        ensures
            match r {
                Ok(c) => self@.failure() is None && c@ == self@.compiled(),
                Err(e) => self@.failure() == Some(e@),
            },
        decreases self,
    {
        match self {
            CompoundPredicate::Single(pred) => pred.compile(),
            CompoundPredicate::And(left, right) => {
                let compiled_left: CompiledPredicate = match left.compile() {
                    Ok(c) => c,
                    Err(e) => {
                        return Err(e);
                    },
                };
                let compiled_right: CompiledPredicate = match right.compile() {
                    Ok(c) => c,
                    Err(e) => {
                        return Err(e);
                    },
                };
                proof {
                    lemma_compound_circuit(left@, Seq::empty());
                    lemma_compound_circuit(right@, Seq::empty());
                }
                Ok(join_compiled(compiled_left, compiled_right))
            },
        }
    }

    /// A range check and a set membership about the same value.
    pub fn range_and_membership(lo: u32, hi: u32, members: Vec<u32>) -> (r: Self)
        ensures
            r@ == range_and_members(lo, hi, members@),
    {
        let r: CompoundPredicate = CompoundPredicate::And(
            Box::new(CompoundPredicate::Single(Predicate::RangeCheck { lo, hi })),
            Box::new(CompoundPredicate::Single(Predicate::SetMembership { members })),
        );
        proof {
            reveal_with_fuel(compound_model, 2);
        }
        r
    }

    /// Compiles a range check and a set membership from what is public about the set: the root
    /// and the depth of its tree and the number of its members.
    ///
    /// The circuit is the one that [`CompoundPredicate::range_and_membership`] compiles to, if the
    /// root, the depth and the number are those of the members; a wrong number of members gives
    /// another circuit.
    pub fn range_and_membership_for_verify(
        lo: u32,
        hi: u32,
        root: u32,
        depth: usize,
        num_members: usize,
    ) -> (r: Result<CompiledPredicate, MpcithError>)
        ensures
            match r {
                Ok(c) => {
                    &&& range_and_root_failure(lo, hi, depth as nat, num_members as nat) is None
                    &&& c@ == compiled_range_and_root(
                        lo,
                        hi,
                        root,
                        depth as nat,
                        num_members as nat,
                    )
                },
                Err(e) => range_and_root_failure(lo, hi, depth as nat, num_members as nat)
                    == Some(e@),
            },
    {
        let left: CompiledPredicate = match compile_range_check(lo, hi) {
            Ok(c) => c,
            Err(e) => {
                return Err(e);
            },
        };
        let right: CompiledPredicate = match compile_set_membership_from_root(
            root,
            depth,
            num_members,
        ) {
            Ok(c) => c,
            Err(e) => {
                return Err(e);
            },
        };
        proof {
            lemma_predicate_circuit(PredicateModel::RangeCheck { lo, hi }, Seq::empty());
            membership::lemma_membership_circuit(
                root,
                depth as nat,
                num_members as nat,
                Seq::empty(),
            );
        }
        Ok(join_compiled(left, right))
    }

    /// Generates the witness for a secret value: the witnesses of the statements one after
    /// another.
    pub fn generate_witness(&self, secret_value: u32) -> (r: Result<Vec<u32>, MpcithError>)
        requires
            self@.fits(),
        ensures
            match r {
                Ok(w) => self@.generated(secret_value) == Ok::<Seq<u32>, ErrorModel>(w@),
                Err(e) => self@.generated(secret_value) == Err::<Seq<u32>, ErrorModel>(e@),
            },
        decreases self,
    {
        match self {
            CompoundPredicate::Single(pred) => pred.generate_witness(secret_value),
            CompoundPredicate::And(left, right) => {
                let mut w: Vec<u32> = match left.generate_witness(secret_value) {
                    Ok(w) => w,
                    Err(e) => {
                        return Err(e);
                    },
                };
                let ghost first = w@;
                let rest: Vec<u32> = match right.generate_witness(secret_value) {
                    Ok(w) => w,
                    Err(e) => {
                        return Err(e);
                    },
                };
                w.extend_from_slice(&rest);
                proof {
                    assert(w@ =~= first + rest@);
                }
                Ok(w)
            },
        }
    }
}

// ----------------------------------------------------------------------------
// What is proved
// ----------------------------------------------------------------------------

/// The circuit of an addition accepts two words exactly if their sum modulo 2^32 is the expected one.
pub proof fn lemma_addition_means(expected_sum: u32, w: Seq<u32>)
    ensures
        (PredicateModel::AdditionCheck { expected_sum }).failure() is None,
        (PredicateModel::AdditionCheck { expected_sum }).compiled().public_inputs == seq![
            expected_sum,
        ],
        (PredicateModel::AdditionCheck { expected_sum }).compiled().witness_size == 2,
        (PredicateModel::AdditionCheck { expected_sum }).compiled().circuit.accepts(w) <==> w.len()
            == 2 && (w[0] + w[1]) % 0x1_0000_0000 == expected_sum,
{
    lemma_predicate_circuit(PredicateModel::AdditionCheck { expected_sum }, w);
}

/// The circuit of a multiplication accepts two words exactly if their product modulo 2^32 is the
/// expected one.
pub proof fn lemma_multiplication_means(expected_product: u32, w: Seq<u32>)
    ensures
        (PredicateModel::MultiplicationCheck { expected_product }).failure() is None,
        (PredicateModel::MultiplicationCheck { expected_product }).compiled().public_inputs == seq![
            expected_product,
        ],
        (PredicateModel::MultiplicationCheck { expected_product }).compiled().witness_size == 2,
        (PredicateModel::MultiplicationCheck { expected_product }).compiled().circuit.accepts(w)
            <==> w.len() == 2 && (w[0] * w[1]) % 0x1_0000_0000 == expected_product,
{
    lemma_predicate_circuit(PredicateModel::MultiplicationCheck { expected_product }, w);
}

/// The circuit of an exclusive or accepts two words and their bits exactly if the exclusive or of the
/// words is the expected one.
pub proof fn lemma_xor_means(expected_xor: u32, w: Seq<u32>)
    ensures
        (PredicateModel::XorCheck { expected_xor }).failure() is None,
        (PredicateModel::XorCheck { expected_xor }).compiled().public_inputs == seq![expected_xor],
        (PredicateModel::XorCheck { expected_xor }).compiled().witness_size == 2,
        (PredicateModel::XorCheck { expected_xor }).compiled().circuit.accepts(w) <==> {
            &&& w.len() == 66
            &&& w[0] ^ w[1] == expected_xor
            &&& forall|i: int|
                0 <= i < 32 ==> #[trigger] w[2 + i] as nat == (w[0] as nat / pow2(i as nat)) % 2
            &&& forall|i: int|
                0 <= i < 32 ==> #[trigger] w[34 + i] as nat == (w[1] as nat / pow2(i as nat)) % 2
        },
{
    let p = PredicateModel::XorCheck { expected_xor };
    lemma_predicate_circuit(p, w);
    lemma2_to64();
    if w.len() == 66 {
        let a = draft::part(w, 2, 32);
        let b = draft::part(w, 34, 32);
        if p.accepted(w) {
            assert forall|i: int| 0 <= i < 32 implies #[trigger] w[2 + i] as nat == (w[0] as nat
                / pow2(i as nat)) % 2 by {
                assert(a[i] == w[2 + i]);
            }
            assert forall|i: int| 0 <= i < 32 implies #[trigger] w[34 + i] as nat == (w[1] as nat
                / pow2(i as nat)) % 2 by {
                assert(b[i] == w[34 + i]);
            }
        }
        if (forall|i: int|
            0 <= i < 32 ==> #[trigger] w[2 + i] as nat == (w[0] as nat / pow2(i as nat)) % 2) && (
        forall|i: int|
            0 <= i < 32 ==> #[trigger] w[34 + i] as nat == (w[1] as nat / pow2(i as nat)) % 2) {
            assert forall|i: int| 0 <= i < 32 implies #[trigger] a[i] == bits::bit(
                w[0] as nat,
                i as nat,
            ) by {
                assert(a[i] == w[2 + i]);
            }
            assert forall|i: int| 0 <= i < 32 implies #[trigger] b[i] == bits::bit(
                w[1] as nat,
                i as nat,
            ) by {
                assert(b[i] == w[34 + i]);
            }
        }
    }
}

/// A range is supported if its ends are in order and less than 2^31 apart. Its circuit accepts no
/// witness for a value outside of the range, and the generated one for every value in it.
pub proof fn lemma_range_means(lo: u32, hi: u32, w: Seq<u32>, value: u32)
    ensures
        ({
            let p = PredicateModel::RangeCheck { lo, hi };
            &&& p.failure() is None <==> lo <= hi && hi - lo < 0x8000_0000
            &&& p.failure() is Some ==> p.failure()->Some_0 is InvalidParams
            &&& p.compiled().public_inputs == seq![lo, hi]
            &&& p.compiled().witness_size == 1
            &&& p.failure() is None && p.compiled().circuit.accepts(w) ==> lo <= w[0] <= hi
            &&& p.failure() is None ==> {
                &&& p.generated(value) is Ok
                &&& p.generated(value)->Ok_0[0] == value
                &&& p.compiled().circuit.accepts(p.generated(value)->Ok_0) <==> lo <= value <= hi
            }
        }),
{
    let p = PredicateModel::RangeCheck { lo, hi };
    if p.failure() is None {
        lemma_predicate_circuit(p, w);
        lemma_generated_predicate(p, value);
        lemma_predicate_circuit(p, p.generated(value)->Ok_0);
    }
}

/// Two different pairs of words, hashed at the same level of two ways to the root, with the same MiMC
/// hash.
pub open spec fn members_collide(members: Seq<u32>, depth: nat, w: Seq<u32>, index: nat) -> bool {
    exists|level: nat|
        {
            let x = #[trigger] tree::combined_at(
                w[0],
                index,
                w.subrange((2 + depth) as int, (2 + 2 * depth) as int),
                level,
                merkle::combine(),
            );
            let y = tree::combined_at(
                members[index as int],
                index,
                tree::path(tree::padded(members, 0), depth, index, merkle::combine()),
                level,
                merkle::combine(),
            );
            level < depth && x != y && mimc::mimc(x.0, x.1, 64).0 == mimc::mimc(y.0, y.1, 64).0
        }
}

/// A set is supported if it has a member and no more than 2^31. Whoever has a witness that its circuit
/// accepts has a member, or two pairs that collide under MiMC; and every member has a witness.
pub proof fn lemma_membership_means(members: Seq<u32>, w: Seq<u32>, value: u32)
    ensures
        ({
            let p = PredicateModel::SetMembership { members };
            let depth = tree::tree_depth(members.len());
            &&& p.failure() is None <==> 1 <= members.len() <= 0x8000_0000
            &&& p.failure() is Some ==> p.failure()->Some_0 is InvalidParams
            &&& p.compiled().public_inputs == seq![merkle::merkle_root(members)]
            &&& p.compiled().witness_size == 2 + depth
            &&& p.failure() is None && p.compiled().circuit.accepts(w) ==> {
                ||| members.contains(w[0])
                ||| exists|index: nat|
                    index < members.len() && #[trigger] members_collide(members, depth, w, index)
            }
            &&& p.failure() is None ==> {
                &&& members.contains(value) <==> p.generated(value) is Ok
                &&& members.contains(value) ==> {
                    &&& p.generated(value)->Ok_0[0] == value
                    &&& p.compiled().circuit.accepts(p.generated(value)->Ok_0)
                }
            }
        }),
{
    let p = PredicateModel::SetMembership { members };
    let depth = tree::tree_depth(members.len());
    tree::lemma_least_depth(members.len());
    lemma2_to64();
    lemma_supported_depth(members.len());
    if p.failure() is None {
        lemma_predicate_circuit(p, w);
        if p.compiled().circuit.accepts(w) {
            let path_bits = draft::part(w, 2, depth);
            bits::lemma_bits_bound(path_bits, depth);
            let index = bits::bits_value(path_bits, depth) as nat;
            let leaves = tree::padded(members, 0);
            let siblings = draft::part(w, 2 + depth, depth);
            assert(siblings =~= w.subrange((2 + depth) as int, (2 + 2 * depth) as int));
            let honest = tree::path(leaves, depth, index, merkle::combine());
            lemma_pow2_pos(depth);
            tree::lemma_fold_path(leaves, depth, index, merkle::combine());
            assert(leaves[index as int] == members[index as int]);
            tree::lemma_same_root(
                w[0],
                siblings,
                members[index as int],
                honest,
                index,
                depth,
                merkle::combine(),
            );
            if w[0] != members[index as int] {
                assert(members_collide(members, depth, w, index));
            } else {
                assert(members.contains(w[0]));
            }
        }
        lemma_generated_predicate(p, value);
        if p.generated(value) is Ok {
            lemma_predicate_circuit(p, p.generated(value)->Ok_0);
            lemma_first_index(members, value, 0);
        }
    }
}

proof fn lemma_supported_depth(n: nat)
    ensures
        n >= 1 ==> (tree::tree_depth(n) < 32 <==> n <= 0x8000_0000),
{
    let d = tree::tree_depth(n);
    tree::lemma_least_depth(n);
    lemma2_to64();
    if d < 32 {
        if d < 31 {
            lemma_pow2_strictly_increases(d, 31);
        }
    } else {
        if 31 < d - 1 {
            lemma_pow2_strictly_increases(31, (d - 1) as nat);
        }
    }
}

/// A conjunction is supported if both parts are; its witness and its public inputs are those of the
/// left part, then those of the right. Its circuit accepts a witness exactly if the circuits of both
/// parts accept theirs and both start with the same value.
pub proof fn lemma_conjunction_means(l: CompoundModel, r: CompoundModel, w: Seq<u32>, value: u32)
    requires
        CompoundModel::And(Box::new(l), Box::new(r)).fits(),
    ensures
        ({
            let c = CompoundModel::And(Box::new(l), Box::new(r));
            let n = l.compiled().circuit.num_inputs as int;
            &&& c.failure() is None <==> l.failure() is None && r.failure() is None
            &&& l.failure() is Some ==> c.failure() == l.failure()
            &&& l.failure() is None ==> c.failure() == r.failure()
            &&& c.compiled().public_inputs == l.compiled().public_inputs
                + r.compiled().public_inputs
            &&& c.compiled().witness_size == l.compiled().witness_size + r.compiled().witness_size
            &&& c.failure() is None ==> {
                c.compiled().circuit.accepts(w) <==> {
                    &&& w.len() == n + r.compiled().circuit.num_inputs
                    &&& w[0] == w[n]
                    &&& l.compiled().circuit.accepts(w.subrange(0, n))
                    &&& r.compiled().circuit.accepts(w.subrange(n, w.len() as int))
                }
            }
            &&& c.generated(value) is Ok <==> l.generated(value) is Ok && r.generated(value) is Ok
            &&& c.generated(value) is Ok ==> c.generated(value)->Ok_0 == l.generated(value)->Ok_0
                + r.generated(value)->Ok_0
        }),
{
    let c = CompoundModel::And(Box::new(l), Box::new(r));
    let n = l.compiled().circuit.num_inputs as int;
    if c.failure() is None {
        lemma_compound_circuit(c, w);
        lemma_compound_circuit(l, Seq::empty());
        lemma_compound_circuit(r, Seq::empty());
        if w.len() == n + r.compiled().circuit.num_inputs {
            lemma_compound_circuit(l, w.subrange(0, n));
            lemma_compound_circuit(r, w.subrange(n, w.len() as int));
        }
    }
}

/// A single statement is compiled, and its witness generated, as it is.
pub proof fn lemma_single_means(p: PredicateModel, value: u32)
    ensures
        CompoundModel::Single(p).failure() == p.failure(),
        CompoundModel::Single(p).compiled() == p.compiled(),
        CompoundModel::Single(p).generated(value) == p.generated(value),
{
}

/// For operations no witness is generated: they are about two values.
pub proof fn lemma_not_generated(p: PredicateModel, value: u32)
    ensures
        p is AdditionCheck || p is MultiplicationCheck || p is XorCheck ==> {
            &&& p.generated(value) is Err
            &&& p.generated(value)->Err_0 is InvalidParams
        },
        p is SetMembership && p.generated(value) is Err ==> p.generated(value)->Err_0
            is InvalidWitness,
{
}

/// Only sets can be too large, and conjunctions whose circuits have more wires than can be numbered.
pub proof fn lemma_fits(p: PredicateModel, l: CompoundModel, r: CompoundModel)
    ensures
        !(p is SetMembership) ==> p.fits(),
        p matches PredicateModel::SetMembership { members } ==> (p.fits() <==> 2 * pow2(
            tree::tree_depth(members.len()),
        ) <= usize::MAX),
        CompoundModel::Single(p).fits() == p.fits(),
        CompoundModel::And(Box::new(l), Box::new(r)).fits() <==> {
            &&& l.fits()
            &&& r.fits()
            &&& l.failure() is None && r.failure() is None ==> merge::merged(
                l.compiled().circuit,
                r.compiled().circuit,
            ).num_wires <= usize::MAX
        },
{
    let c = CompoundModel::And(Box::new(l), Box::new(r));
    assert(c.compiled().circuit == merge::merged(l.compiled().circuit, r.compiled().circuit));
    assert(c.failure() is None <==> l.failure() is None && r.failure() is None);
}

} // verus!
