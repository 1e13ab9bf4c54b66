# mpcith-zk

Zero-knowledge proofs with MPC in the head, with the protocol verified in Verus.

A prover shows that it knows a witness for an arithmetic circuit over the words of 32 bits. It
shares the witness among imagined parties, evaluates the circuit on the shares, commits to the view
of each party, and opens all views but one per repetition. Which party stays hidden follows from
the commitments.

Statements are predicates: sums, products, exclusive ors, ranges, membership in a set, and
conjunctions about one value. `tx_validation` combines a range and a set and binds the proof to a
context.

## Layout

- `src/`: the library. Every function has a contract; `completeness.rs` and `soundness.rs` hold what
  is proved of the protocol as a whole. `hash.rs` lists the functions of other crates that are
  trusted: BLAKE3, SHA3-256, ChaCha20 and the system's random source.
- `tests/`: tests on concrete values, the hash functions included.
- `app/`: a demonstration program, proofs as bytes, and soundness in bits.

## What is proved

- Completeness: a proof made with a witness that the circuit accepts is accepted, whatever the
  random choices.
- Soundness: a prover that can answer whichever party is hidden has opened shares of a witness that
  the circuit accepts, or two byte strings that collide under BLAKE3.
- What is not bound is listed: the order of opened views, and outputs that the circuit asserts
  anyway, change nothing (`variants.rs`).
- Every predicate and every conjunction asserts all outputs of its circuit, so the outputs and the
  shares that a proof publishes for all parties add up to constants of the statement.
- Different circuits with wire numbers below 2^24 are hashed from different bytes.
- The circuit of each predicate accepts exactly the witnesses that the predicate describes.
- Malformed proofs give an error, never a panic, and the error is determined by the proof.
