//! The Fiat-Shamir transformation.
//!
//! The challenge, which party stays hidden in each repetition, is derived with SHA3-256 and
//! ChaCha20 from the commitments, the public inputs and the circuit. The prover therefore cannot
//! choose any of them after seeing the challenge.

use crate::circuit::Circuit;
use crate::circuit::CircuitModel;
use crate::circuit::Gate;
use crate::encoding;
use crate::hash;
use vstd::prelude::*;

verus! {

/// The bytes that the challenges depend on.
pub open spec fn challenge_input(
    commitments: Seq<u8>,
    public_inputs: Seq<u32>,
    circuit_hash: Seq<u8>,
    num_repetitions: nat,
    num_parties: nat,
) -> Seq<u8> {
    encoding::ascii("mpcith-zk:fiat-shamir:v1"@) + commitments + encoding::words(
        public_inputs,
        public_inputs.len(),
    ) + circuit_hash + encoding::size(num_repetitions) + encoding::size(num_parties)
}

/// The 64-bit number that words `2i` and `2i + 1` of a key stream form.
pub open spec fn stream_number(key: Seq<u8>, i: nat) -> nat {
    (hash::chacha20_stream_word(key, 2 * i) + 0x1_0000_0000 * hash::chacha20_stream_word(
        key,
        2 * i + 1,
    )) as nat
}

/// The party that a key stream gives for repetition `i`.
pub open spec fn drawn_challenge(key: Seq<u8>, i: nat, num_parties: nat) -> nat {
    ((hash::chacha20_stream_word(key, 2 * i) + 0x1_0000_0000 * hash::chacha20_stream_word(
        key,
        2 * i + 1,
    )) as nat) % num_parties
}

/// The hidden party of each repetition.
pub open spec fn challenges(
    commitments: Seq<u8>,
    public_inputs: Seq<u32>,
    circuit_hash: Seq<u8>,
    num_repetitions: nat,
    num_parties: nat,
) -> Seq<usize> {
    let key = hash::sha3_256_digest(
        challenge_input(commitments, public_inputs, circuit_hash, num_repetitions, num_parties),
    );
    Seq::new(num_repetitions, |i: int| (stream_number(key, i as nat) % num_parties) as usize)
}

/// The encoding of a gate.
pub open spec fn gate_bytes(gate: Gate) -> Seq<u8> {
    match gate {
        Gate::Add { left, right, output } => encoding::ascii("ADD"@) + encoding::size(left as nat)
            + encoding::size(right as nat) + encoding::size(output as nat),
        Gate::Mul { left, right, output } => encoding::ascii("MUL"@) + encoding::size(left as nat)
            + encoding::size(right as nat) + encoding::size(output as nat),
        Gate::Xor { left, right, output } => encoding::ascii("XOR"@) + encoding::size(left as nat)
            + encoding::size(right as nat) + encoding::size(output as nat),
        Gate::AddConst { input, constant, output } => encoding::ascii("ADDC"@) + encoding::size(
            input as nat,
        ) + encoding::word(constant) + encoding::size(output as nat),
        Gate::MulConst { input, constant, output } => encoding::ascii("MULC"@) + encoding::size(
            input as nat,
        ) + encoding::word(constant) + encoding::size(output as nat),
        Gate::AssertEq { input, expected, output } => encoding::ascii("AEQC"@) + encoding::size(
            input as nat,
        ) + encoding::word(expected) + encoding::size(output as nat),
    }
}

/// The encoding of the first `n` gates.
pub open spec fn gates_bytes(gates: Seq<Gate>, n: nat) -> Seq<u8>
    decreases n,
{
    if n == 0 {
        Seq::empty()
    } else {
        gates_bytes(gates, (n - 1) as nat) + gate_bytes(gates[n - 1])
    }
}

/// The encoding of a circuit.
pub open spec fn circuit_bytes(c: CircuitModel) -> Seq<u8> {
    encoding::ascii("mpcith-zk:circuit:v1"@) + encoding::size(c.num_wires) + encoding::size(
        c.num_inputs,
    ) + encoding::size(c.num_outputs) + encoding::size(c.gates.len()) + gates_bytes(
        c.gates,
        c.gates.len(),
    )
}

/// The hash of a circuit.
pub open spec fn circuit_digest(c: CircuitModel) -> Seq<u8> {
    hash::sha3_256_digest(circuit_bytes(c))
}

/// Every challenge names a party.
pub proof fn lemma_challenges_in_range(
    commitments: Seq<u8>,
    public_inputs: Seq<u32>,
    circuit_hash: Seq<u8>,
    num_repetitions: nat,
    num_parties: nat,
)
    requires
        0 < num_parties <= usize::MAX,
    ensures
        challenges(commitments, public_inputs, circuit_hash, num_repetitions, num_parties).len()
            == num_repetitions,
        forall|i: int|
            0 <= i < num_repetitions ==> #[trigger] challenges(
                commitments,
                public_inputs,
                circuit_hash,
                num_repetitions,
                num_parties,
            )[i] < num_parties,
{
}

/// Whether two gates are of the same kind, with wires and constants of their own.
pub open spec fn same_kind(g: Gate, h: Gate) -> bool {
    match g {
        Gate::Add { .. } => h is Add,
        Gate::Mul { .. } => h is Mul,
        Gate::Xor { .. } => h is Xor,
        Gate::AddConst { .. } => h is AddConst,
        Gate::MulConst { .. } => h is MulConst,
        Gate::AssertEq { .. } => h is AssertEq,
    }
}

/// Whether two lists of gates are of the same kinds.
pub open spec fn same_kinds(a: Seq<Gate>, b: Seq<Gate>) -> bool {
    &&& a.len() == b.len()
    &&& forall|i: int| 0 <= i < a.len() ==> same_kind(#[trigger] a[i], b[i])
}

/// Whether a gate reads two wires, and so has no constant.
spec fn reads_two(g: Gate) -> bool {
    g is Add || g is Mul || g is Xor
}

/// The bytes of the name of a gate.
spec fn tag(g: Gate) -> Seq<u8> {
    match g {
        Gate::Add { .. } => seq![65u8, 68, 68],
        Gate::Mul { .. } => seq![77u8, 85, 76],
        Gate::Xor { .. } => seq![88u8, 79, 82],
        Gate::AddConst { .. } => seq![65u8, 68, 68, 67],
        Gate::MulConst { .. } => seq![77u8, 85, 76, 67],
        Gate::AssertEq { .. } => seq![65u8, 69, 81, 67],
    }
}

/// The wire that a gate reads first.
spec fn first_read(g: Gate) -> usize {
    match g {
        Gate::Add { left, .. } => left,
        Gate::Mul { left, .. } => left,
        Gate::Xor { left, .. } => left,
        Gate::AddConst { input, .. } => input,
        Gate::MulConst { input, .. } => input,
        Gate::AssertEq { input, .. } => input,
    }
}

/// The encoding of the second operand of a gate.
spec fn second_operand(g: Gate) -> Seq<u8> {
    match g {
        Gate::Add { right, .. } => encoding::size(right as nat),
        Gate::Mul { right, .. } => encoding::size(right as nat),
        Gate::Xor { right, .. } => encoding::size(right as nat),
        Gate::AddConst { constant, .. } => encoding::word(constant),
        Gate::MulConst { constant, .. } => encoding::word(constant),
        Gate::AssertEq { expected, .. } => encoding::word(expected),
    }
}

proof fn lemma_ascii(text: Seq<char>, bytes: Seq<u8>)
    requires
        text.len() == bytes.len(),
        forall|i: int|
            0 <= i < text.len() ==> (#[trigger] text[i]) as int == bytes[i] && bytes[i] < 128,
    ensures
        encoding::ascii(text) == bytes,
{
    vstd::utf8::is_ascii_chars_encode_utf8(text);
    assert(encoding::ascii(text) =~= bytes);
}

proof fn lemma_gate_parts(g: Gate)
    ensures
        gate_bytes(g) == tag(g) + encoding::size(first_read(g) as nat) + second_operand(g)
            + encoding::size(g.target() as nat),
        tag(g).len() == if reads_two(g) {
            3nat
        } else {
            4nat
        },
        encoding::size(first_read(g) as nat).len() == 8,
        second_operand(g).len() == if reads_two(g) {
            8nat
        } else {
            4nat
        },
        encoding::size(g.target() as nat).len() == 8,
        gate_bytes(g).len() == if reads_two(g) {
            27nat
        } else {
            24nat
        },
{
    reveal_strlit("ADD");
    reveal_strlit("MUL");
    reveal_strlit("XOR");
    reveal_strlit("ADDC");
    reveal_strlit("MULC");
    reveal_strlit("AEQC");
    lemma_ascii("ADD"@, seq![65u8, 68, 68]);
    lemma_ascii("MUL"@, seq![77u8, 85, 76]);
    lemma_ascii("XOR"@, seq![88u8, 79, 82]);
    lemma_ascii("ADDC"@, seq![65u8, 68, 68, 67]);
    lemma_ascii("MULC"@, seq![77u8, 85, 76, 67]);
    lemma_ascii("AEQC"@, seq![65u8, 69, 81, 67]);
    vstd::bytes::lemma_auto_spec_u64_to_from_le_bytes();
    vstd::bytes::lemma_auto_spec_u32_to_from_le_bytes();
}

proof fn lemma_same_gate(g: Gate, h: Gate)
    requires
        gate_bytes(g) == gate_bytes(h),
    ensures
        g == h,
{
    lemma_gate_parts(g);
    lemma_gate_parts(h);
    let t = tag(g).len() as int;
    let n = second_operand(g).len() as int;
    let a = gate_bytes(g);
    let b = gate_bytes(h);
    assert(tag(g) =~= a.subrange(0, t));
    assert(tag(h) =~= b.subrange(0, t));
    assert(tag(g)[0] == tag(h)[0] && tag(g)[1] == tag(h)[1]);
    assert(same_kind(g, h));
    assert(encoding::size(first_read(g) as nat) =~= a.subrange(t, t + 8));
    assert(encoding::size(first_read(h) as nat) =~= b.subrange(t, t + 8));
    assert(second_operand(g) =~= a.subrange(t + 8, t + 8 + n));
    assert(second_operand(h) =~= b.subrange(t + 8, t + 8 + n));
    assert(encoding::size(g.target() as nat) =~= a.subrange(t + 8 + n, t + 16 + n));
    assert(encoding::size(h.target() as nat) =~= b.subrange(t + 8 + n, t + 16 + n));
    vstd::bytes::lemma_auto_spec_u64_to_from_le_bytes();
    vstd::bytes::lemma_auto_spec_u32_to_from_le_bytes();
    encoding::lemma_size(first_read(g) as nat, first_read(h) as nat);
    encoding::lemma_size(g.target() as nat, h.target() as nat);
}

/// A gate without a constant cannot be read as the end of one with a constant.
proof fn lemma_not_an_end(x: Seq<u8>, g: Gate, y: Seq<u8>, h: Gate)
    requires
        reads_two(g),
        !reads_two(h),
        first_read(g) < 0x100_0000,
    ensures
        x + gate_bytes(g) != y + gate_bytes(h),
{
    lemma_gate_parts(g);
    lemma_gate_parts(h);
    encoding::lemma_small_size(first_read(g) as nat);
    assert(gate_bytes(g)[6] == encoding::size(first_read(g) as nat)[3]);
    assert(gate_bytes(h)[3] == tag(h)[3]);
    if x + gate_bytes(g) == y + gate_bytes(h) {
        assert((x + gate_bytes(g)).len() == x.len() + 27);
        assert((y + gate_bytes(h)).len() == y.len() + 24);
        assert((x + gate_bytes(g))[x.len() + 6int] == gate_bytes(g)[6]);
        assert((y + gate_bytes(h))[y.len() + 3int] == gate_bytes(h)[3]);
    }
}

/// The last gate can be told from the bytes that end with it.
proof fn lemma_last_gate(x: Seq<u8>, g: Gate, y: Seq<u8>, h: Gate)
    requires
        x + gate_bytes(g) == y + gate_bytes(h),
        same_kind(g, h) || (first_read(g) < 0x100_0000 && first_read(h) < 0x100_0000),
    ensures
        g == h,
        x == y,
{
    lemma_gate_parts(g);
    lemma_gate_parts(h);
    let s = x + gate_bytes(g);
    assert(s.len() == x.len() + gate_bytes(g).len());
    assert((y + gate_bytes(h)).len() == y.len() + gate_bytes(h).len());
    if reads_two(g) && !reads_two(h) {
        lemma_not_an_end(x, g, y, h);
    } else if !reads_two(g) && reads_two(h) {
        lemma_not_an_end(y, h, x, g);
    } else {
        assert(x =~= s.subrange(0, x.len() as int));
        assert(y =~= s.subrange(0, x.len() as int));
        assert(gate_bytes(g) =~= s.subrange(x.len() as int, s.len() as int));
        assert(gate_bytes(h) =~= s.subrange(x.len() as int, s.len() as int));
        lemma_same_gate(g, h);
    }
}

proof fn lemma_same_gates(a: Seq<Gate>, b: Seq<Gate>, n: nat)
    requires
        n <= a.len(),
        n <= b.len(),
        forall|i: int|
            #![trigger a[i]]
            0 <= i < n ==> same_kind(a[i], b[i]) || (first_read(a[i]) < 0x100_0000 && first_read(
                b[i],
            ) < 0x100_0000),
        gates_bytes(a, n) == gates_bytes(b, n),
    ensures
        forall|i: int| 0 <= i < n ==> #[trigger] a[i] == b[i],
    decreases n,
{
    if n > 0 {
        let m = (n - 1) as nat;
        assert(a[m as int] == a[n - 1]);
        lemma_last_gate(gates_bytes(a, m), a[n - 1], gates_bytes(b, m), b[n - 1]);
        lemma_same_gates(a, b, m);
    }
}

/// The numbers of a circuit can be held in memory.
pub open spec fn countable(c: CircuitModel) -> bool {
    &&& c.num_wires <= usize::MAX
    &&& c.num_inputs <= usize::MAX
    &&& c.num_outputs <= usize::MAX
    &&& c.gates.len() <= usize::MAX
}

proof fn lemma_same_dimensions(a: CircuitModel, b: CircuitModel)
    requires
        countable(a),
        countable(b),
        circuit_bytes(a) == circuit_bytes(b),
    ensures
        a.num_wires == b.num_wires,
        a.num_inputs == b.num_inputs,
        a.num_outputs == b.num_outputs,
        a.gates.len() == b.gates.len(),
        gates_bytes(a.gates, a.gates.len()) == gates_bytes(b.gates, b.gates.len()),
{
    let s = circuit_bytes(a);
    let t = encoding::ascii("mpcith-zk:circuit:v1"@).len() as int;
    encoding::lemma_size(a.num_wires, b.num_wires);
    encoding::lemma_size(a.num_inputs, b.num_inputs);
    encoding::lemma_size(a.num_outputs, b.num_outputs);
    encoding::lemma_size(a.gates.len(), b.gates.len());
    vstd::bytes::lemma_auto_spec_u64_to_from_le_bytes();
    assert(encoding::size(a.num_wires) =~= s.subrange(t, t + 8));
    assert(encoding::size(b.num_wires) =~= s.subrange(t, t + 8));
    assert(encoding::size(a.num_inputs) =~= s.subrange(t + 8, t + 16));
    assert(encoding::size(b.num_inputs) =~= s.subrange(t + 8, t + 16));
    assert(encoding::size(a.num_outputs) =~= s.subrange(t + 16, t + 24));
    assert(encoding::size(b.num_outputs) =~= s.subrange(t + 16, t + 24));
    assert(encoding::size(a.gates.len()) =~= s.subrange(t + 24, t + 32));
    assert(encoding::size(b.gates.len()) =~= s.subrange(t + 24, t + 32));
    let end = s.len() as int;
    assert(gates_bytes(a.gates, a.gates.len()) =~= s.subrange(t + 32, end));
    assert(gates_bytes(b.gates, b.gates.len()) =~= s.subrange(t + 32, end));
}

/// Circuits with gates of the same kinds that differ, in a dimension, a wire or a constant, are
/// hashed from different bytes.
pub proof fn lemma_fields_matter(a: CircuitModel, b: CircuitModel)
    requires
        countable(a),
        countable(b),
        same_kinds(a.gates, b.gates),
        a != b,
    ensures
        circuit_bytes(a) != circuit_bytes(b),
{
    if circuit_bytes(a) == circuit_bytes(b) {
        lemma_same_dimensions(a, b);
        lemma_same_gates(a.gates, b.gates, a.gates.len());
        assert(a.gates =~= b.gates);
    }
}

/// Different circuits are hashed from different bytes, if all wires that they read have numbers
/// below `2^24`. (With greater numbers, the bytes of a wire could be taken for the name of a gate.)
pub proof fn lemma_circuits_differ(a: CircuitModel, b: CircuitModel)
    requires
        countable(a),
        countable(b),
        forall|i: int| 0 <= i < a.gates.len() ==> (#[trigger] a.gates[i]).reads_below(0x100_0000),
        forall|i: int| 0 <= i < b.gates.len() ==> (#[trigger] b.gates[i]).reads_below(0x100_0000),
        a != b,
    ensures
        circuit_bytes(a) != circuit_bytes(b),
{
    if circuit_bytes(a) == circuit_bytes(b) {
        lemma_same_dimensions(a, b);
        assert forall|i: int|
            #![trigger a.gates[i]]
            0 <= i < a.gates.len() implies first_read(a.gates[i]) < 0x100_0000 && first_read(
            b.gates[i],
        ) < 0x100_0000 by {
            assert(b.gates[i].reads_below(0x100_0000));
        }
        lemma_same_gates(a.gates, b.gates, a.gates.len());
        assert(a.gates =~= b.gates);
    }
}

/// Derives the hidden party of each repetition.
pub fn derive_challenges(
    commitment_bytes: &[u8],
    public_inputs: &[u32],
    circuit_hash: &[u8],
    num_repetitions: usize,
    num_parties: usize,
) -> (r: Vec<usize>)
    requires
        num_parties > 0,
    ensures
        r@ == challenges(
            commitment_bytes@,
            public_inputs@,
            circuit_hash@,
            num_repetitions as nat,
            num_parties as nat,
        ),
        r@.len() == num_repetitions,
        forall|i: int| 0 <= i < num_repetitions ==> #[trigger] r@[i] < num_parties,
        forall|i: int|
            0 <= i < num_repetitions ==> #[trigger] r@[i] == drawn_challenge(
                hash::sha3_256_digest(
                    vstd::utf8::encode_utf8("mpcith-zk:fiat-shamir:v1"@) + commitment_bytes@
                        + encoding::words(public_inputs@, public_inputs@.len()) + circuit_hash@
                        + vstd::bytes::spec_u64_to_le_bytes(num_repetitions as u64)
                        + vstd::bytes::spec_u64_to_le_bytes(num_parties as u64),
                ),
                i as nat,
                num_parties as nat,
            ),
{
    let mut input: Vec<u8> = Vec::new();
    encoding::push_bytes(&mut input, "mpcith-zk:fiat-shamir:v1".as_bytes());
    encoding::push_bytes(&mut input, commitment_bytes);
    encoding::push_words(&mut input, public_inputs);
    encoding::push_bytes(&mut input, circuit_hash);
    encoding::push_size(&mut input, num_repetitions);
    encoding::push_size(&mut input, num_parties);
    proof {
        assert(input@ =~= challenge_input(
            commitment_bytes@,
            public_inputs@,
            circuit_hash@,
            num_repetitions as nat,
            num_parties as nat,
        ));
    }
    let key: [u8; 32] = hash::sha3_256(&input);
    let ghost expected = challenges(
        commitment_bytes@,
        public_inputs@,
        circuit_hash@,
        num_repetitions as nat,
        num_parties as nat,
    );
    let mut out: Vec<usize> = Vec::with_capacity(num_repetitions);
    let mut i: usize = 0;
    while i < num_repetitions
        invariant
            i <= num_repetitions,
            num_parties > 0,
            expected.len() == num_repetitions,
            forall|j: int|
                0 <= j < num_repetitions ==> #[trigger] expected[j] == (stream_number(
                    key@,
                    j as nat,
                ) % (num_parties as nat)) as usize,
            out@ =~= expected.subrange(0, i as int),
        decreases num_repetitions - i,
    {
        let low: u32 = hash::chacha20_word(&key, 2 * (i as u128));
        let high: u32 = hash::chacha20_word(&key, 2 * (i as u128) + 1);
        let number: u64 = low as u64 + 0x1_0000_0000 * (high as u64);
        out.push((number % (num_parties as u64)) as usize);
        i = i + 1;
    }
    proof {
        assert(out@ =~= expected);
    }
    out
}

fn push_gate(out: &mut Vec<u8>, gate: &Gate)
    ensures
        final(out)@ == old(out)@ + gate_bytes(*gate),
{
    let ghost start = out@;
    match gate {
        Gate::Add { left, right, output } => {
            encoding::push_bytes(out, "ADD".as_bytes());
            encoding::push_size(out, *left);
            encoding::push_size(out, *right);
            encoding::push_size(out, *output);
        },
        Gate::Mul { left, right, output } => {
            encoding::push_bytes(out, "MUL".as_bytes());
            encoding::push_size(out, *left);
            encoding::push_size(out, *right);
            encoding::push_size(out, *output);
        },
        Gate::Xor { left, right, output } => {
            encoding::push_bytes(out, "XOR".as_bytes());
            encoding::push_size(out, *left);
            encoding::push_size(out, *right);
            encoding::push_size(out, *output);
        },
        Gate::AddConst { input, constant, output } => {
            encoding::push_bytes(out, "ADDC".as_bytes());
            encoding::push_size(out, *input);
            encoding::push_word(out, *constant);
            encoding::push_size(out, *output);
        },
        Gate::MulConst { input, constant, output } => {
            encoding::push_bytes(out, "MULC".as_bytes());
            encoding::push_size(out, *input);
            encoding::push_word(out, *constant);
            encoding::push_size(out, *output);
        },
        Gate::AssertEq { input, expected, output } => {
            encoding::push_bytes(out, "AEQC".as_bytes());
            encoding::push_size(out, *input);
            encoding::push_word(out, *expected);
            encoding::push_size(out, *output);
        },
    }
    proof {
        assert(out@ =~= start + gate_bytes(*gate));
    }
}

/// Hashes a circuit: its dimensions and its gates.
pub fn hash_circuit(circuit: &Circuit) -> (r: Vec<u8>)
    ensures
        r@ == circuit_digest(circuit@),
        r@.len() == 32,
{
    let mut input: Vec<u8> = Vec::new();
    encoding::push_bytes(&mut input, "mpcith-zk:circuit:v1".as_bytes());
    encoding::push_size(&mut input, circuit.num_wires);
    encoding::push_size(&mut input, circuit.num_inputs);
    encoding::push_size(&mut input, circuit.num_outputs);
    encoding::push_size(&mut input, circuit.gates.len());
    let ghost head = input@;
    let mut i: usize = 0;
    proof {
        assert(head + gates_bytes(circuit.gates@, 0) =~= head);
    }
    while i < circuit.gates.len()
        invariant
            i <= circuit.gates.len(),
            input@ == head + gates_bytes(circuit.gates@, i as nat),
        decreases circuit.gates.len() - i,
    {
        push_gate(&mut input, &circuit.gates[i]);
        proof {
            assert(head + gates_bytes(circuit.gates@, i as nat) + gate_bytes(
                circuit.gates@[i as int],
            ) =~= head + gates_bytes(circuit.gates@, (i + 1) as nat));
        }
        i = i + 1;
    }
    proof {
        assert(input@ =~= circuit_bytes(circuit@));
    }
    let digest: [u8; 32] = hash::sha3_256(&input);
    let mut out: Vec<u8> = Vec::with_capacity(32);
    encoding::push_block(&mut out, &digest);
    proof {
        assert(out@ =~= digest@);
    }
    out
}

/// The hidden party of repetition `i` is the remainder, by the number of parties, of words `2i` (low)
/// and `2i + 1` (high) of the ChaCha20 key stream whose key is the SHA3-256 digest of all that the
/// challenge is bound to.
pub proof fn lemma_challenge(
    commitments: Seq<u8>,
    public_inputs: Seq<u32>,
    circuit_hash: Seq<u8>,
    num_repetitions: nat,
    num_parties: nat,
    i: nat,
)
    requires
        i < num_repetitions,
        0 < num_parties <= usize::MAX,
    ensures
        ({
            let key = hash::sha3_256_digest(
                vstd::utf8::encode_utf8("mpcith-zk:fiat-shamir:v1"@) + commitments + encoding::words(
                    public_inputs,
                    public_inputs.len(),
                ) + circuit_hash + vstd::bytes::spec_u64_to_le_bytes(num_repetitions as u64)
                    + vstd::bytes::spec_u64_to_le_bytes(num_parties as u64),
            );
            let low = hash::chacha20_stream_word(key, 2 * i);
            let high = hash::chacha20_stream_word(key, 2 * i + 1);
            let drawn = challenges(
                commitments,
                public_inputs,
                circuit_hash,
                num_repetitions,
                num_parties,
            );
            &&& drawn.len() == num_repetitions
            &&& drawn[i as int] as int == (low + 0x1_0000_0000 * high) % (num_parties as int)
            &&& drawn_challenge(key, i, num_parties) == drawn[i as int]
        }),
{
}

/// The bytes that the challenges are derived from determine the commitments, the public inputs, the
/// circuit hash and the numbers of repetitions and parties, if the lengths are known.
pub proof fn lemma_challenge_input_binds(
    a: Seq<u8>,
    p: Seq<u32>,
    h: Seq<u8>,
    m: nat,
    n: nat,
    b: Seq<u8>,
    q: Seq<u32>,
    g: Seq<u8>,
    k: nat,
    l: nat,
)
    requires
        a.len() == b.len(),
        p.len() == q.len(),
        h.len() == g.len(),
        m <= u64::MAX,
        n <= u64::MAX,
        k <= u64::MAX,
        l <= u64::MAX,
        challenge_input(a, p, h, m, n) == challenge_input(b, q, g, k, l),
    ensures
        a == b,
        p == q,
        h == g,
        m == k,
        n == l,
{
    let s = challenge_input(a, p, h, m, n);
    let x = encoding::words(p, p.len());
    let y = encoding::words(q, q.len());
    encoding::lemma_words_len(p, p.len());
    encoding::lemma_words_len(q, q.len());
    encoding::lemma_size(m, k);
    encoding::lemma_size(n, l);
    encoding::lemma_size(k, m);
    encoding::lemma_size(l, n);
    let t = encoding::ascii("mpcith-zk:fiat-shamir:v1"@).len() as int;
    let e1 = t + a.len();
    let e2 = e1 + x.len();
    let e3 = e2 + h.len();
    assert(a =~= s.subrange(t, e1));
    assert(b =~= s.subrange(t, e1));
    assert(x =~= s.subrange(e1, e2));
    assert(y =~= s.subrange(e1, e2));
    assert(h =~= s.subrange(e2, e3));
    assert(g =~= s.subrange(e2, e3));
    assert(encoding::size(m) =~= s.subrange(e3, e3 + 8));
    assert(encoding::size(k) =~= s.subrange(e3, e3 + 8));
    assert(encoding::size(n) =~= s.subrange(e3 + 8, e3 + 16));
    assert(encoding::size(l) =~= s.subrange(e3 + 8, e3 + 16));
    encoding::lemma_same_words(p, q);
}

/// A circuit is encoded as a fixed text, its dimensions, the number of its gates, and the gates one
/// after another: the name of each, then its wires and its constant.
pub proof fn lemma_circuit_layout(c: CircuitModel, n: nat, gate: Gate)
    ensures
        circuit_bytes(c) == vstd::utf8::encode_utf8("mpcith-zk:circuit:v1"@)
            + vstd::bytes::spec_u64_to_le_bytes(c.num_wires as u64)
            + vstd::bytes::spec_u64_to_le_bytes(c.num_inputs as u64)
            + vstd::bytes::spec_u64_to_le_bytes(c.num_outputs as u64)
            + vstd::bytes::spec_u64_to_le_bytes(c.gates.len() as u64) + gates_bytes(
            c.gates,
            c.gates.len(),
        ),
        circuit_digest(c) == hash::sha3_256_digest(circuit_bytes(c)),
        gates_bytes(c.gates, 0) == Seq::<u8>::empty(),
        gates_bytes(c.gates, n + 1) == gates_bytes(c.gates, n) + gate_bytes(c.gates[n as int]),
        gate_bytes(gate) == ({
            let le = |x: usize| vstd::bytes::spec_u64_to_le_bytes((x as nat) as u64);
            let name = |t: Seq<char>| vstd::utf8::encode_utf8(t);
            match gate {
                Gate::Add { left, right, output } => name("ADD"@) + le(left) + le(right) + le(
                    output,
                ),
                Gate::Mul { left, right, output } => name("MUL"@) + le(left) + le(right) + le(
                    output,
                ),
                Gate::Xor { left, right, output } => name("XOR"@) + le(left) + le(right) + le(
                    output,
                ),
                Gate::AddConst { input, constant, output } => name("ADDC"@) + le(input)
                    + vstd::bytes::spec_u32_to_le_bytes(constant) + le(output),
                Gate::MulConst { input, constant, output } => name("MULC"@) + le(input)
                    + vstd::bytes::spec_u32_to_le_bytes(constant) + le(output),
                Gate::AssertEq { input, expected, output } => name("AEQC"@) + le(input)
                    + vstd::bytes::spec_u32_to_le_bytes(expected) + le(output),
            }
        }),
{
}

} // verus!
