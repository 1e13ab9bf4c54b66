//! The hash functions and random sources of outside crates.
//!
//! Each digest is a function of its input. What it is on a given input is left to
//! the crate that computes it: the proofs only use that equal inputs give equal
//! digests.

use crate::encoding;
use rand::RngCore;
use rand::SeedableRng;
use sha3::Digest;
use vstd::prelude::*;

verus! {

/// The BLAKE3 digest of a byte string.
pub uninterp spec fn blake3_digest(input: Seq<u8>) -> Seq<u8>;

/// The BLAKE3 key derived from key material in a context.
pub uninterp spec fn blake3_derived_key(context: Seq<char>, material: Seq<u8>) -> Seq<u8>;

/// The SHA3-256 digest of a byte string.
pub uninterp spec fn sha3_256_digest(input: Seq<u8>) -> Seq<u8>;

/// The word at position `index` of the ChaCha20 key stream of `key`, stream zero.
pub uninterp spec fn chacha20_stream_word(key: Seq<u8>, index: nat) -> u32;

/// `blake3::hash`: the 32-byte digest depends on the input bytes alone.
#[verifier::external_body]
pub(crate) fn blake3_hash(input: &[u8]) -> (r: [u8; 32])
    ensures
        r@ == blake3_digest(input@),
{
    *blake3::hash(input).as_bytes()
}

/// `blake3::derive_key`: the 32-byte key depends on the context string and the key
/// material alone.
#[verifier::external_body]
pub(crate) fn blake3_derive_key(context: &str, material: &[u8]) -> (r: [u8; 32])
    ensures
        r@ == blake3_derived_key(context@, material@),
{
    blake3::derive_key(context, material)
}

/// `sha3::Sha3_256::digest`: the 32-byte digest depends on the input bytes alone.
#[verifier::external_body]
pub(crate) fn sha3_256(input: &[u8]) -> (r: [u8; 32])
    ensures
        r@ == sha3_256_digest(input@),
{
    sha3::Sha3_256::digest(input).into()
}

/// `count` words of the key stream from position `index` on.
pub open spec fn stream_words(key: Seq<u8>, index: nat, count: nat) -> Seq<u32> {
    Seq::new(count, |i: int| chacha20_stream_word(key, index + i as nat))
}

/// `rand_chacha::ChaCha20Rng`, made by `from_seed`, moved by `set_word_pos` and read by
/// `fill_bytes`: the bytes are those of the words from the position on, each little-endian. A word
/// depends on the key and on its position in the stream alone, however the position was reached.
#[verifier::external_body]
fn chacha20_bytes(key: &[u8; 32], index: u128, len: usize) -> (r: Vec<u8>)
    requires
        len % 4 == 0,
        index + len / 4 <= u128::MAX,
    ensures
        r@ == encoding::words(
            Seq::new(
                (len / 4) as nat,
                |i: int| chacha20_stream_word(key@, index as nat + i as nat),
            ),
            (len / 4) as nat,
        ),
{
    let mut rng = rand_chacha::ChaCha20Rng::from_seed(*key);
    rng.set_word_pos(index);
    let mut bytes = vec![0u8; len];
    rng.fill_bytes(&mut bytes);
    bytes
}

/// Reads at most 256 words of the key stream.
fn chacha20_chunk(key: &[u8; 32], index: u128, count: usize) -> (r: Vec<u32>)
    requires
        count <= 256,
        index + count <= u128::MAX,
    ensures
        r@ == stream_words(key@, index as nat, count as nat),
{
    let ghost all = stream_words(key@, index as nat, count as nat);
    let bytes: Vec<u8> = chacha20_bytes(key, index, 4 * count);
    proof {
        assert(all =~= Seq::new(
            count as nat,
            |i: int| chacha20_stream_word(key@, index as nat + i as nat),
        ));
    }
    let mut out: Vec<u32> = Vec::with_capacity(count);
    let mut i: usize = 0;
    while i < count
        invariant
            i <= count,
            count <= 256,
            all.len() == count,
            bytes@ == encoding::words(all, count as nat),
            out@ =~= all.subrange(0, i as int),
        decreases count - i,
    {
        proof {
            encoding::lemma_word_at(all, count as nat, i as nat);
        }
        out.push(encoding::read_word_in(&bytes, 4 * i));
        i = i + 1;
    }
    proof {
        assert(out@ =~= all);
    }
    out
}

/// Reads words of the key stream.
pub(crate) fn chacha20_words(key: &[u8; 32], index: u128, count: usize) -> (r: Vec<u32>)
    requires
        index + count <= u128::MAX,
    ensures
        r@ == stream_words(key@, index as nat, count as nat),
{
    let ghost all = stream_words(key@, index as nat, count as nat);
    let mut out: Vec<u32> = Vec::new();
    let mut done: usize = 0;
    while done < count
        invariant
            done <= count,
            index + count <= u128::MAX,
            all == stream_words(key@, index as nat, count as nat),
            out@ =~= all.subrange(0, done as int),
        decreases count - done,
    {
        let step: usize = if count - done < 256 {
            count - done
        } else {
            256
        };
        let mut chunk: Vec<u32> = chacha20_chunk(key, index + done as u128, step);
        proof {
            assert(chunk@ =~= all.subrange(done as int, done + step));
        }
        out.append(&mut chunk);
        done = done + step;
    }
    proof {
        assert(out@ =~= all);
    }
    out
}

/// Reads one word of the key stream.
pub(crate) fn chacha20_word(key: &[u8; 32], index: u128) -> (r: u32)
    requires
        index < u128::MAX,
    ensures
        r == chacha20_stream_word(key@, index as nat),
{
    let words: Vec<u32> = chacha20_words(key, index, 1);
    words[0]
}

/// The blocks that have been drawn from the random source, in order. Only [`random_bytes`] makes the
/// record longer.
pub struct Draws {
    blocks: Ghost<Seq<Seq<u8>>>,
}

impl Draws {
    /// The blocks drawn so far.
    pub closed spec fn blocks(self) -> Seq<Seq<u8>> {
        self.blocks@
    }

    /// A record in which nothing has been drawn.
    pub(crate) fn none() -> (r: Self)
        ensures
            r.blocks() == Seq::<Seq<u8>>::empty(),
    {
        Draws { blocks: Ghost(Seq::empty()) }
    }
}

/// `rand::thread_rng` and `fill_bytes`: 32 bytes of which nothing is promised but that they are the
/// next entry of the record of what was drawn.
#[verifier::external_body]
pub(crate) fn random_bytes(draws: &mut Draws) -> (r: [u8; 32])
    ensures
        final(draws).blocks() == old(draws).blocks().push(r@),
{
    let mut bytes = [0u8; 32];
    rand::thread_rng().fill_bytes(&mut bytes);
    bytes
}

} // verus!
