//! Little-endian byte encodings.

use vstd::prelude::*;

verus! {

/// The four bytes of a word, least significant first.
pub open spec fn word(x: u32) -> Seq<u8> {
    vstd::bytes::spec_u32_to_le_bytes(x)
}

/// The eight bytes of a count or an index, least significant first.
pub open spec fn size(x: nat) -> Seq<u8> {
    vstd::bytes::spec_u64_to_le_bytes(x as u64)
}

/// The word that four bytes encode.
pub open spec fn word_at(bytes: Seq<u8>, at: int) -> u32 {
    vstd::bytes::spec_u32_from_le_bytes(bytes.subrange(at, at + 4))
}

/// The bytes of the first `n` words of `s`, in order.
pub open spec fn words(s: Seq<u32>, n: nat) -> Seq<u8>
    decreases n,
{
    if n == 0 {
        Seq::empty()
    } else {
        words(s, (n - 1) as nat) + word(s[n - 1])
    }
}

/// The contents of a list of 32-byte blocks.
pub open spec fn blocks(s: Seq<[u8; 32]>) -> Seq<Seq<u8>> {
    Seq::new(s.len(), |i: int| s[i]@)
}

/// The block of 32 zeros.
pub open spec fn zero_block() -> Seq<u8> {
    Seq::new(32, |i: int| 0u8)
}

/// The bytes of a text.
pub open spec fn ascii(s: Seq<char>) -> Seq<u8> {
    vstd::utf8::encode_utf8(s)
}

/// Appends bytes.
pub fn push_bytes(out: &mut Vec<u8>, bytes: &[u8])
    ensures
        final(out)@ == old(out)@ + bytes@,
{
    out.extend_from_slice(bytes);
    proof {
        assert(out@ =~= old(out)@ + bytes@);
    }
}

/// Appends a 32-byte block.
pub fn push_block(out: &mut Vec<u8>, block: &[u8; 32])
    ensures
        final(out)@ == old(out)@ + block@,
{
    push_bytes(out, block.as_slice());
}

/// Appends a word.
pub fn push_word(out: &mut Vec<u8>, x: u32)
    ensures
        final(out)@ == old(out)@ + word(x),
{
    let mut bytes: Vec<u8> = vstd::bytes::u32_to_le_bytes(x);
    out.append(&mut bytes);
}

/// Appends a count or an index.
pub fn push_size(out: &mut Vec<u8>, x: usize)
    ensures
        final(out)@ == old(out)@ + size(x as nat),
{
    let mut bytes: Vec<u8> = vstd::bytes::u64_to_le_bytes(x as u64);
    out.append(&mut bytes);
}

/// Appends words in order.
pub fn push_words(out: &mut Vec<u8>, s: &[u32])
    ensures
        final(out)@ == old(out)@ + words(s@, s@.len()),
{
    let ghost start = out@;
    let mut i: usize = 0;
    proof {
        assert(start + words(s@, 0) =~= start);
    }
    while i < s.len()
        invariant
            i <= s.len(),
            out@ == start + words(s@, i as nat),
        decreases s.len() - i,
    {
        push_word(out, s[i]);
        proof {
            assert(start + words(s@, i as nat) + word(s@[i as int]) =~= start + words(
                s@,
                (i + 1) as nat,
            ));
        }
        i = i + 1;
    }
}

/// The bytes of words hold the words one after the other.
pub proof fn lemma_word_at(s: Seq<u32>, n: nat, i: nat)
    requires
        i < n,
    ensures
        words(s, n).len() == 4 * n,
        word_at(words(s, n), 4 * i as int) == s[i as int],
    decreases n,
{
    vstd::bytes::lemma_auto_spec_u32_to_from_le_bytes();
    let before = words(s, (n - 1) as nat);
    let at = 4 * i as int;
    lemma_words_len(s, (n - 1) as nat);
    if i + 1 < n {
        lemma_word_at(s, (n - 1) as nat, i);
        assert(words(s, n).subrange(at, at + 4) =~= before.subrange(at, at + 4));
    } else {
        assert(words(s, n).subrange(at, at + 4) =~= word(s[n - 1]));
    }
}

/// Each word has four bytes.
pub proof fn lemma_words_len(s: Seq<u32>, n: nat)
    ensures
        words(s, n).len() == 4 * n,
    decreases n,
{
    vstd::bytes::lemma_auto_spec_u32_to_from_le_bytes();
    if n > 0 {
        lemma_words_len(s, (n - 1) as nat);
    }
}

/// The bytes of words tell the words.
pub proof fn lemma_same_words(s: Seq<u32>, t: Seq<u32>)
    requires
        s.len() == t.len(),
        words(s, s.len()) == words(t, t.len()),
    ensures
        s == t,
{
    assert forall|i: int| 0 <= i < s.len() implies #[trigger] s[i] == t[i] by {
        lemma_word_at(s, s.len(), i as nat);
        lemma_word_at(t, t.len(), i as nat);
    }
    assert(s =~= t);
}

/// The encoding of a count or an index tells it.
pub proof fn lemma_size(x: nat, y: nat)
    requires
        x <= u64::MAX,
        y <= u64::MAX,
    ensures
        size(x).len() == 8,
        size(x) == size(y) ==> x == y,
{
    vstd::bytes::lemma_auto_spec_u64_to_from_le_bytes();
}

/// The fourth byte of a small index is zero.
pub proof fn lemma_small_size(x: nat)
    requires
        x < 0x100_0000,
    ensures
        size(x).len() == 8,
        size(x)[3] == 0,
{
    let y = x as u64;
    vstd::bytes::spec_u64_to_le_bytes_to_open(y);
    assert(((y >> 24) & 0xff) as u8 == 0) by (bit_vector)
        requires
            y < 0x100_0000,
    ;
}

/// Reads the word that starts at `at`.
pub fn read_word_in(bytes: &[u8], at: usize) -> (r: u32)
    requires
        at + 4 <= bytes@.len(),
    ensures
        r == word_at(bytes@, at as int),
{
    let len: usize = bytes.len();
    assert(at + 4 <= len);
    vstd::bytes::u32_from_le_bytes(vstd::slice::slice_subrange(bytes, at, at + 4))
}

/// Reads the word that starts at `at` of a block.
pub fn read_word(bytes: &[u8; 32], at: usize) -> (r: u32)
    requires
        at + 4 <= 32,
    ensures
        r == word_at(bytes@, at as int),
{
    vstd::bytes::u32_from_le_bytes(vstd::slice::slice_subrange(bytes.as_slice(), at, at + 4))
}

/// Whether two blocks are equal.
pub fn same_block(a: &[u8; 32], b: &[u8; 32]) -> (r: bool)
    ensures
        r == (a@ == b@),
{
    let mut i: usize = 0;
    while i < 32
        invariant
            i <= 32,
            forall|j: int| 0 <= j < i ==> a@[j] == b@[j],
        decreases 32 - i,
    {
        if a[i] != b[i] {
            return false;
        }
        i = i + 1;
    }
    proof {
        assert(a@ =~= b@);
    }
    true
}

/// Whether two byte strings are equal.
pub fn same_bytes(a: &[u8], b: &[u8]) -> (r: bool)
    ensures
        r == (a@ == b@),
{
    if a.len() != b.len() {
        return false;
    }
    let mut i: usize = 0;
    while i < a.len()
        invariant
            i <= a.len(),
            a.len() == b.len(),
            forall|j: int| 0 <= j < i ==> a@[j] == b@[j],
        decreases a.len() - i,
    {
        if a[i] != b[i] {
            return false;
        }
        i = i + 1;
    }
    proof {
        assert(a@ =~= b@);
    }
    true
}

/// Whether two sequences of words are equal.
pub fn same_words(a: &[u32], b: &[u32]) -> (r: bool)
    ensures
        r == (a@ == b@),
{
    if a.len() != b.len() {
        return false;
    }
    let mut i: usize = 0;
    while i < a.len()
        invariant
            i <= a.len(),
            a.len() == b.len(),
            forall|j: int| 0 <= j < i ==> a@[j] == b@[j],
        decreases a.len() - i,
    {
        if a[i] != b[i] {
            return false;
        }
        i = i + 1;
    }
    proof {
        assert(a@ =~= b@);
    }
    true
}

/// A copy of a list of blocks.
pub fn copy_blocks(s: &[[u8; 32]]) -> (r: Vec<[u8; 32]>)
    ensures
        r@ == s@,
{
    let mut out: Vec<[u8; 32]> = Vec::with_capacity(s.len());
    let mut i: usize = 0;
    while i < s.len()
        invariant
            i <= s.len(),
            out@ == s@.subrange(0, i as int),
        decreases s.len() - i,
    {
        out.push(s[i]);
        i = i + 1;
    }
    proof {
        assert(out@ =~= s@);
    }
    out
}

/// A copy of a sequence of words.
pub fn copy_words(s: &[u32]) -> (r: Vec<u32>)
    ensures
        r@ == s@,
{
    let mut out: Vec<u32> = Vec::new();
    out.extend_from_slice(s);
    proof {
        assert(out@ =~= s@);
    }
    out
}

/// The bytes of words are those of each word, least significant first, one word after another.
pub proof fn lemma_words_layout(s: Seq<u32>, n: nat, i: nat)
    requires
        i < n,
    ensures
        words(s, 0) == Seq::<u8>::empty(),
        words(s, n).len() == 4 * n,
        words(s, n).subrange(4 * i as int, 4 * i + 4int) == vstd::bytes::spec_u32_to_le_bytes(
            s[i as int],
        ),
{
    vstd::bytes::lemma_auto_spec_u32_to_from_le_bytes();
    lemma_words_len(s, n);
    lemma_word_at(s, n, i);
    let b = words(s, n).subrange(4 * i as int, 4 * i + 4int);
    assert(vstd::bytes::spec_u32_to_le_bytes(vstd::bytes::spec_u32_from_le_bytes(b)) == b);
}

/// Words are encoded in four bytes and counts in eight, least significant first; texts are encoded
/// as UTF-8.
pub proof fn lemma_encodings(x: u32, n: nat, bytes: Seq<u8>, at: int, text: Seq<char>)
    ensures
        word(x) == vstd::bytes::spec_u32_to_le_bytes(x),
        size(n) == vstd::bytes::spec_u64_to_le_bytes(n as u64),
        word_at(bytes, at) == vstd::bytes::spec_u32_from_le_bytes(bytes.subrange(at, at + 4)),
        ascii(text) == vstd::utf8::encode_utf8(text),
{
}

} // verus!
