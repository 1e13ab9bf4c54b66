//! Binary notation.

use crate::ring;
use vstd::arithmetic::div_mod::*;
use vstd::arithmetic::power2::*;
use vstd::prelude::*;

verus! {

/// Bit `i` of `x`, where bit 0 is the least significant.
pub open spec fn bit(x: nat, i: nat) -> u32 {
    ((x / pow2(i)) % 2) as u32
}

/// The number whose first `n` bits are `s[0]`, `s[1]`, ..., least significant first.
pub open spec fn bits_value(s: Seq<u32>, n: nat) -> int
    decreases n,
{
    if n == 0 {
        0
    } else {
        bits_value(s, (n - 1) as nat) + s[n - 1] * pow2((n - 1) as nat)
    }
}

/// Whether the first `n` words of `s` are bits.
pub open spec fn all_bits(s: Seq<u32>, n: nat) -> bool {
    forall|i: int| 0 <= i < n ==> #[trigger] s[i] <= 1
}

/// Number of bits in the binary notation of `x`; one for zero.
pub open spec fn bit_length(x: nat) -> nat
    decreases x,
{
    if x <= 1 {
        1
    } else {
        1 + bit_length(x / 2)
    }
}

/// The value of words depends only on the words that are read.
pub proof fn lemma_bits_value_ext(s: Seq<u32>, t: Seq<u32>, n: nat)
    requires
        forall|i: int| 0 <= i < n ==> #[trigger] s[i] == t[i],
    ensures
        bits_value(s, n) == bits_value(t, n),
    decreases n,
{
    if n > 0 {
        lemma_bits_value_ext(s, t, (n - 1) as nat);
    }
}

/// `n` bits give a number below 2^n.
pub proof fn lemma_bits_bound(s: Seq<u32>, n: nat)
    requires
        all_bits(s, n),
    ensures
        0 <= bits_value(s, n) < pow2(n),
    decreases n,
{
    lemma_pow2_pos(n);
    if n == 0 {
        lemma2_to64();
    } else {
        lemma_bits_bound(s, (n - 1) as nat);
        lemma_pow2_unfold(n);
        assert(s[n - 1] <= 1);
        let p = pow2((n - 1) as nat);
        if s[n - 1] == 0 {
            assert(0 * p == 0);
        } else {
            assert(1 * p == p);
        }
    }
}

/// The bits of a number are those that it was put together from.
pub proof fn lemma_bits_unique(s: Seq<u32>, n: nat, i: nat)
    requires
        all_bits(s, n),
        i < n,
    ensures
        bits_value(s, n) >= 0,
        bit(bits_value(s, n) as nat, i) == s[i as int],
    decreases n,
{
    lemma_bits_bound(s, n);
    let m = (n - 1) as nat;
    lemma_bits_bound(s, m);
    let v = bits_value(s, m);
    let top = s[n - 1] as int;
    let p = pow2(i) as int;
    lemma_pow2_pos(i);
    assert(s[i as int] <= 1);
    assert(s[n - 1] <= 1);
    if i == m {
        assert((top * p + v) / p == top) by {
            lemma_fundamental_div_mod_converse(top * p + v, p, top, v);
        }
        assert(top % 2 == top);
    } else {
        lemma_bits_unique(s, m, i);
        let rest = (m - i) as nat;
        lemma_pow2_adds(i, rest);
        lemma_pow2_unfold(rest);
        let half = top * pow2((rest - 1) as nat);
        assert(top * pow2(m) == p * (2 * half)) by (nonlinear_arith)
            requires
                pow2(m) == p * pow2(rest),
                pow2(rest) == 2 * pow2((rest - 1) as nat),
                half == top * pow2((rest - 1) as nat),
        ;
        lemma_hoist_over_denominator(v, 2 * half, p as nat);
        assert(bits_value(s, n) / p == v / p + 2 * half) by {
            assert(v + (2 * half) * p == v + p * (2 * half)) by (nonlinear_arith);
        }
    }
}

/// The bits of a number put it together again.
pub proof fn lemma_bits_of(x: nat, s: Seq<u32>, n: nat)
    requires
        forall|i: int| 0 <= i < n ==> #[trigger] s[i] == bit(x, i as nat),
    ensures
        bits_value(s, n) == x % pow2(n),
        all_bits(s, n),
    decreases n,
{
    lemma_pow2_pos(n);
    assert forall|i: int| 0 <= i < n implies #[trigger] s[i] <= 1 by {
        assert(s[i] == bit(x, i as nat));
    }
    if n == 0 {
        lemma2_to64();
    } else {
        let m = (n - 1) as nat;
        lemma_bits_of(x, s, m);
        lemma_pow2_unfold(n);
        lemma_pow2_pos(m);
        let p = pow2(m) as int;
        lemma_mod_breakdown(x as int, p, 2);
        assert(p * 2 == pow2(n));
        assert(s[m as int] == bit(x, m));
        assert(p * ((x as int / p) % 2) == ((x as int / p) % 2) * p) by (nonlinear_arith);
    }
}

/// An even factor is not needed: 2^k divides `a` if it divides `a` times an odd number.
proof fn lemma_odd_factor(k: nat, a: int, odd: int)
    requires
        (a * odd) % (pow2(k) as int) == 0,
        odd % 2 == 1,
    ensures
        a % (pow2(k) as int) == 0,
    decreases k,
{
    lemma_pow2_pos(k);
    if k == 0 {
        lemma2_to64();
    } else {
        let m = (k - 1) as nat;
        lemma_pow2_unfold(k);
        lemma_pow2_pos(m);
        let p = pow2(m) as int;
        let q = (a * odd) / (2 * p);
        lemma_fundamental_div_mod(a * odd, 2 * p);
        assert(a * odd == 2 * (p * q)) by (nonlinear_arith)
            requires
                a * odd == (2 * p) * q,
        ;
        let h = odd / 2;
        assert(odd == 2 * h + 1);
        assert(a * odd == 2 * (a * h) + a) by (nonlinear_arith)
            requires
                odd == 2 * h + 1,
        ;
        assert(a % 2 == 0);
        let b = a / 2;
        assert(a == 2 * b);
        assert(b * odd == p * q) by (nonlinear_arith)
            requires
                a == 2 * b,
                a * odd == 2 * (p * q),
        ;
        lemma_mod_multiples_basic(q, p);
        assert(p * q == q * p) by (nonlinear_arith);
        lemma_odd_factor(m, b, odd);
        let c = b / p;
        lemma_fundamental_div_mod(b, p);
        assert(a == c * (2 * p)) by (nonlinear_arith)
            requires
                a == 2 * b,
                b == p * c,
        ;
        lemma_mod_multiples_basic(c, 2 * p);
    }
}

/// The only words `b` with `b * (b - 1) == 0` modulo 2^32 are 0 and 1.
pub proof fn lemma_boolean(b: u32)
    ensures
        ring::wrap(b * ring::wrap(b + 0xffff_ffffu32)) == 0 <==> b <= 1,
{
    ring::lemma_wrap_mul(b as int, b + 0xffff_ffffu32);
    let c = b as int;
    assert(c * (c + 0xffff_ffff) == c * (c - 1) + c * 0x1_0000_0000) by (nonlinear_arith);
    ring::lemma_wrap_shift(c * (c - 1), c);
    lemma2_to64();
    if b <= 1 {
        assert(c * (c - 1) == 0) by (nonlinear_arith)
            requires
                c == 0 || c == 1,
        ;
    } else if ring::wrap(c * (c - 1)) == 0 {
        if c % 2 == 0 {
            lemma_odd_factor(32, c, c - 1);
        } else {
            assert(c * (c - 1) == (c - 1) * c) by (nonlinear_arith);
            lemma_odd_factor(32, c - 1, c);
        }
    }
}

/// The exclusive or of two bits, in ring arithmetic.
pub proof fn lemma_xor_bit(a: u32, b: u32)
    requires
        a <= 1,
        b <= 1,
    ensures
        a ^ b == a + b - 2 * (a * b),
        a ^ b <= 1,
{
    assert(a <= 1 && b <= 1 ==> (a ^ b) == if a == b { 0u32 } else { 1u32 }) by (bit_vector);
    assert(a * b == if a == 1 && b == 1 { 1int } else { 0int }) by (nonlinear_arith)
        requires
            a <= 1,
            b <= 1,
    ;
}

/// Shifting and masking reads a bit.
pub proof fn lemma_bit_of_word(x: u32, i: u32)
    requires
        i < 32,
    ensures
        (x >> i) & 1 == bit(x as nat, i as nat),
{
    vstd::bits::lemma_u32_shr_is_div(x, i);
    let y: u32 = x >> i;
    assert(y & 1 == y % 2) by (bit_vector);
}

/// The exclusive or of two words, bit by bit.
pub proof fn lemma_bit_of_xor(x: u32, y: u32, i: u32)
    requires
        i < 32,
    ensures
        bit((x ^ y) as nat, i as nat) == bit(x as nat, i as nat) ^ bit(y as nat, i as nat),
{
    lemma_bit_of_word(x, i);
    lemma_bit_of_word(y, i);
    lemma_bit_of_word(x ^ y, i);
    assert(i < 32 ==> ((x ^ y) >> i) & 1 == ((x >> i) & 1) ^ ((y >> i) & 1)) by (bit_vector);
}

/// A number has as many bits as its notation needs.
pub proof fn lemma_bit_length(x: nat)
    ensures
        x < pow2(bit_length(x)),
        bit_length(x) >= 1,
        x >= 1 ==> pow2((bit_length(x) - 1) as nat) <= x,
    decreases x,
{
    lemma2_to64();
    if x > 1 {
        lemma_bit_length(x / 2);
        lemma_pow2_unfold(bit_length(x));
        lemma_pow2_unfold(bit_length(x / 2));
    }
}

/// The bits of a word.
pub fn word_bit(x: u32, i: usize) -> (r: u32)
    requires
        i < 32,
    ensures
        r == bit(x as nat, i as nat),
        r <= 1,
{
    proof {
        lemma_bit_of_word(x, i as u32);
    }
    (x >> (i as u32)) & 1
}

/// The bit at position `i` is the remainder by two of the number divided by `2^i`.
pub proof fn lemma_bit(x: nat, i: nat)
    ensures
        bit(x, i) as nat == (x / pow2(i)) % 2,
{
}

/// Bits count with the powers of two.
pub proof fn lemma_bits_terms(s: Seq<u32>, n: nat)
    ensures
        bits_value(s, 0) == 0,
        bits_value(s, n + 1) == bits_value(s, n) + s[n as int] * pow2(n),
{
}

} // verus!
