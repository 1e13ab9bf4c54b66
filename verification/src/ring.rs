//! Arithmetic in the ring of integers modulo 2^32, and finite sums.
//!
//! Wire values and shares are `u32` words. Statements about them are made over
//! mathematical integers and brought back into the ring with [`wrap`].

use vstd::prelude::*;

verus! {

/// The residue of `x` modulo 2^32.
pub open spec fn wrap(x: int) -> u32 {
    (x % 0x1_0000_0000) as u32
}

/// `f(0) + f(1) + ... + f(n - 1)`.
pub open spec fn sigma(n: nat, f: spec_fn(int) -> int) -> int
    decreases n,
{
    if n == 0 {
        0
    } else {
        sigma((n - 1) as nat, f) + f(n - 1)
    }
}

/// The integer sum of a sequence of words.
pub open spec fn total(s: Seq<u32>) -> int {
    sigma(s.len(), |i: int| s[i] as int)
}

/// The exclusive or of the first `n` words of `s`.
pub open spec fn xor_total(s: Seq<u32>, n: nat) -> u32
    decreases n,
{
    if n == 0 {
        0
    } else {
        xor_total(s, (n - 1) as nat) ^ s[n - 1]
    }
}

/// A word is its own residue.
pub proof fn lemma_wrap_word(x: u32)
    ensures
        wrap(x as int) == x,
{
}

/// Two integers that differ by a multiple of 2^32 have the same residue.
pub proof fn lemma_wrap_shift(x: int, k: int)
    ensures
        wrap(x + k * 0x1_0000_0000) == wrap(x),
{
    vstd::arithmetic::div_mod::lemma_mod_multiples_vanish(k, x, 0x1_0000_0000);
}

/// An integer is its residue plus a multiple of 2^32.
pub proof fn lemma_wrap_split(x: int) -> (k: int)
    ensures
        x == wrap(x) as int + k * 0x1_0000_0000,
{
    let k = x / 0x1_0000_0000;
    vstd::arithmetic::div_mod::lemma_fundamental_div_mod(x, 0x1_0000_0000);
    k
}

/// Residues may be taken before an addition.
pub proof fn lemma_wrap_add(x: int, y: int)
    ensures
        wrap(wrap(x) + y) == wrap(x + y),
        wrap(x + wrap(y)) == wrap(x + y),
        wrap(wrap(x) + wrap(y)) == wrap(x + y),
{
    let k = lemma_wrap_split(x);
    let l = lemma_wrap_split(y);
    lemma_wrap_shift(wrap(x) + y, k);
    lemma_wrap_shift(x + wrap(y), l);
    lemma_wrap_shift(wrap(x) + wrap(y), k + l);
    assert(k * 0x1_0000_0000 + l * 0x1_0000_0000 == (k + l) * 0x1_0000_0000);
}

/// Residues may be taken before a subtraction.
pub proof fn lemma_wrap_sub(x: int, y: int)
    ensures
        wrap(wrap(x) - y) == wrap(x - y),
        wrap(x - wrap(y)) == wrap(x - y),
{
    let k = lemma_wrap_split(x);
    let l = lemma_wrap_split(y);
    lemma_wrap_shift(wrap(x) - y, k);
    lemma_wrap_shift(x - wrap(y), -l);
    assert((-l) * 0x1_0000_0000 == -(l * 0x1_0000_0000));
}

/// Residues may be taken before a multiplication.
pub proof fn lemma_wrap_mul(x: int, y: int)
    ensures
        wrap(wrap(x) * y) == wrap(x * y),
        wrap(x * wrap(y)) == wrap(x * y),
        wrap(wrap(x) * wrap(y)) == wrap(x * y),
{
    vstd::arithmetic::div_mod::lemma_mul_mod_noop_left(x, y, 0x1_0000_0000);
    vstd::arithmetic::div_mod::lemma_mul_mod_noop_right(x, y, 0x1_0000_0000);
    vstd::arithmetic::div_mod::lemma_mul_mod_noop_general(x, y, 0x1_0000_0000);
}

/// The wrapping operations of `u32` are the ring operations.
pub proof fn lemma_wrapping_ops(a: u32, b: u32)
    ensures
        a.wrapping_add(b) == wrap(a + b),
        a.wrapping_sub(b) == wrap(a - b),
        a.wrapping_mul(b) == wrap(a * b),
{
    if a + b >= 0x1_0000_0000 {
        lemma_wrap_shift(a + b - 0x1_0000_0000, 1);
    }
    if a < b {
        lemma_wrap_shift(a - b, 1);
    }
    assert(a as nat * b as nat == a * b);
}

/// One is neutral.
pub proof fn lemma_times_one(x: u32)
    ensures
        wrap(x * 1u32) == x,
{
    assert(x * 1u32 == x) by (nonlinear_arith);
}

/// Multiplying by 2^32 - 1 negates.
pub proof fn lemma_negate(a: u32)
    ensures
        wrap(a * 0xffff_ffffu32) == wrap(-(a as int)),
{
    lemma_wrap_shift(-(a as int), a as int);
    assert(a * 0xffff_ffffu32 == -(a as int) + a * 0x1_0000_0000);
}

/// A difference of words is zero in the ring only if the words are equal.
pub proof fn lemma_difference(a: u32, b: u32)
    ensures
        wrap(a - b) == 0 <==> a == b,
{
    if a < b {
        lemma_wrap_shift(a - b, 1);
    }
}

/// Sums over equal terms are equal.
pub proof fn lemma_sigma_ext(n: nat, f: spec_fn(int) -> int, g: spec_fn(int) -> int)
    requires
        forall|i: int| 0 <= i < n ==> #[trigger] f(i) == g(i),
    ensures
        sigma(n, f) == sigma(n, g),
    decreases n,
{
    if n > 0 {
        lemma_sigma_ext((n - 1) as nat, f, g);
    }
}

/// The sum of sums is the sum of the pairwise sums.
pub proof fn lemma_sigma_add(n: nat, f: spec_fn(int) -> int, g: spec_fn(int) -> int)
    ensures
        sigma(n, |i: int| f(i) + g(i)) == sigma(n, f) + sigma(n, g),
    decreases n,
{
    if n > 0 {
        lemma_sigma_add((n - 1) as nat, f, g);
    }
}

/// A common factor moves out of a sum.
pub proof fn lemma_sigma_scale(n: nat, c: int, f: spec_fn(int) -> int)
    ensures
        sigma(n, |i: int| c * f(i)) == c * sigma(n, f),
    decreases n,
{
    if n > 0 {
        lemma_sigma_scale((n - 1) as nat, c, f);
        vstd::arithmetic::mul::lemma_mul_is_distributive_add(c, sigma((n - 1) as nat, f), f(n - 1));
    } else {
        assert(c * 0 == 0);
    }
}

/// Residues may be taken term by term before a sum.
pub proof fn lemma_sigma_wrap(n: nat, f: spec_fn(int) -> int)
    ensures
        wrap(sigma(n, |i: int| wrap(f(i)) as int)) == wrap(sigma(n, f)),
    decreases n,
{
    if n > 0 {
        let m = (n - 1) as nat;
        let g = |i: int| wrap(f(i)) as int;
        lemma_sigma_wrap(m, f);
        lemma_wrap_add(sigma(m, g), f(n - 1));
        lemma_wrap_add(sigma(m, f), f(n - 1));
        lemma_wrap_add(sigma(m, g), g(n - 1));
        assert(wrap(sigma(m, g)) == wrap(sigma(m, f)));
        lemma_wrap_add(sigma(m, g), f(n - 1));
    }
}

/// A sum may be taken from the front.
pub proof fn lemma_sigma_front(n: nat, f: spec_fn(int) -> int)
    requires
        n > 0,
    ensures
        sigma(n, f) == f(0) + sigma((n - 1) as nat, |i: int| f(i + 1)),
    decreases n,
{
    if n > 1 {
        lemma_sigma_front((n - 1) as nat, f);
    } else {
        reveal_with_fuel(sigma, 2);
    }
}

/// A sum around a ring does not depend on where it starts.
pub proof fn lemma_sigma_rotate(n: nat, f: spec_fn(int) -> int)
    requires
        n > 0,
    ensures
        sigma(n, |i: int| f((i + 1) % (n as int))) == sigma(n, f),
{
    let g = |i: int| f((i + 1) % (n as int));
    let h = |i: int| f(i + 1);
    let m = (n - 1) as nat;
    lemma_sigma_front(n, f);
    assert forall|i: int| 0 <= i < m implies #[trigger] g(i) == h(i) by {
        vstd::arithmetic::div_mod::lemma_small_mod((i + 1) as nat, n);
    }
    lemma_sigma_ext(m, g, h);
    vstd::arithmetic::div_mod::lemma_mod_self_0(n as int);
    assert(g(n - 1) == f(0));
}

/// Appending a word adds it to the sum.
pub proof fn lemma_total_push(s: Seq<u32>, x: u32)
    ensures
        total(s.push(x)) == total(s) + x,
{
    let t = s.push(x);
    lemma_sigma_ext(s.len(), |i: int| t[i] as int, |i: int| s[i] as int);
}

/// The exclusive or over a prefix depends on that prefix alone.
pub proof fn lemma_xor_total_ext(s: Seq<u32>, t: Seq<u32>, n: nat)
    requires
        forall|i: int| 0 <= i < n ==> #[trigger] s[i] == t[i],
    ensures
        xor_total(s, n) == xor_total(t, n),
    decreases n,
{
    if n > 0 {
        lemma_xor_total_ext(s, t, (n - 1) as nat);
    }
}

/// A residue is congruent modulo 2^32 to what it is the residue of.
pub proof fn lemma_residue(x: int)
    ensures
        wrap(x) as int == x % 0x1_0000_0000,
{
}

/// A sum starts with zero and takes in every term once.
pub proof fn lemma_sigma_terms(n: nat, f: spec_fn(int) -> int)
    ensures
        sigma(0, f) == 0,
        sigma(n + 1, f) == sigma(n, f) + f(n as int),
{
}

/// The sum of words starts with zero and takes in every word once.
pub proof fn lemma_total_terms(s: Seq<u32>, x: u32)
    ensures
        total(Seq::<u32>::empty()) == 0,
        total(s.push(x)) == total(s) + x,
{
    lemma_total_push(s, x);
}

/// The exclusive or of words starts with zero and takes in every word once.
pub proof fn lemma_xor_terms(s: Seq<u32>, n: nat)
    ensures
        xor_total(s, 0) == 0,
        xor_total(s, n + 1) == xor_total(s, n) ^ s[n as int],
{
}

} // verus!
