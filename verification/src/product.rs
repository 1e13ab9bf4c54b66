//! Products of shared words.
//!
//! Let `x` and `y` be words shared among `n` parties, with shares `x_p` and `y_p`. Their product
//! is the sum of all `x_p * y_q`. Party `p` accounts for its own term and for the two cross terms
//! with each party on its *right*: the half of the other parties that follow it around the table.
//! Of two parties exactly one is on the right of the other, so no term is missing or counted
//! twice. With three parties, the party on the right is the next one.

use crate::ring;
use vstd::arithmetic::div_mod::*;
use vstd::prelude::*;

verus! {

/// Whether party `q` is on the right of party `p`.
pub open spec fn on_right(p: int, q: int, n: int) -> bool {
    let gap = (q - p) % n;
    1 <= gap && (2 * gap < n || (2 * gap == n && p < q))
}

/// The integer sum of the shares of the parties on the right of `p`.
pub open spec fn right_sum(x: Seq<u32>, p: int) -> int {
    ring::sigma(
        x.len(),
        |q: int|
            if on_right(p, q, x.len() as int) {
                x[q] as int
            } else {
                0
            },
    )
}

/// The sum of the shares of the parties on the right of `p`.
pub open spec fn right_share(x: Seq<u32>, p: int) -> u32 {
    ring::wrap(right_sum(x, p))
}

/// What a party with shares `x` and `y` computes for a product, where `xr` and `yr` are the sums
/// of the shares on its right and `r` is its share of zero.
pub open spec fn product_share(x: u32, y: u32, xr: u32, yr: u32, r: u32) -> u32 {
    ring::wrap(x * y + x * yr + xr * y + r)
}

/// The shares of a product, given shares of zero.
pub open spec fn product_shares(x: Seq<u32>, y: Seq<u32>, zeros: Seq<u32>) -> Seq<u32> {
    Seq::new(
        x.len(),
        |p: int| product_share(x[p], y[p], right_share(x, p), right_share(y, p), zeros[p]),
    )
}

/// Differences between neighbours around the table.
pub open spec fn differences(words: Seq<u32>) -> Seq<u32> {
    Seq::new(
        words.len(),
        |p: int| ring::wrap(words[p] - words[(p + 1) % (words.len() as int)]),
    )
}

/// Of two parties exactly one is on the right of the other.
pub proof fn lemma_on_right(p: int, q: int, n: int)
    requires
        0 <= p < n,
        0 <= q < n,
    ensures
        p != q ==> (on_right(p, q, n) <==> !on_right(q, p, n)),
        p == q ==> !on_right(p, q, n),
{
    if p == q {
        lemma_small_mod(0, n as nat);
    } else if p < q {
        lemma_small_mod((q - p) as nat, n as nat);
        lemma_mod_add_multiples_vanish(p - q, n);
        lemma_small_mod((n + p - q) as nat, n as nat);
    } else {
        lemma_small_mod((p - q) as nat, n as nat);
        lemma_mod_add_multiples_vanish(q - p, n);
        lemma_small_mod((n + q - p) as nat, n as nat);
    }
}

/// With three parties the party on the right is the next one.
pub proof fn lemma_right_of_three(x: Seq<u32>, p: int)
    requires
        x.len() == 3,
        0 <= p < 3,
    ensures
        right_share(x, p) == x[(p + 1) % 3],
{
    reveal_with_fuel(ring::sigma, 4);
    assert(on_right(p, (p + 1) % 3, 3));
    lemma_on_right(p, p, 3);
    lemma_on_right((p + 2) % 3, p, 3);
    assert(on_right((p + 2) % 3, p, 3));
    ring::lemma_wrap_word(x[(p + 1) % 3]);
}

/// Differences around the table add up to zero.
pub proof fn lemma_differences(words: Seq<u32>)
    requires
        words.len() > 0,
    ensures
        ring::wrap(ring::total(differences(words))) == 0,
{
    let n = words.len();
    let f = |p: int| words[p] as int;
    let g = |p: int| words[(p + 1) % (n as int)] as int;
    let h = |p: int| f(p) + (-1) * g(p);
    ring::lemma_sigma_ext(
        n,
        |p: int| differences(words)[p] as int,
        |p: int| ring::wrap(h(p)) as int,
    );
    ring::lemma_sigma_wrap(n, h);
    let k = |p: int| (-1) * g(p);
    ring::lemma_sigma_add(n, f, k);
    ring::lemma_sigma_scale(n, -1, g);
    ring::lemma_sigma_ext(n, h, |p: int| f(p) + k(p));
    ring::lemma_sigma_ext(n, k, |p: int| (-1) * g(p));
    ring::lemma_sigma_rotate(n, f);
    ring::lemma_sigma_ext(n, g, |p: int| f((p + 1) % (n as int)));
}

spec fn cross(x: Seq<u32>, y: Seq<u32>, p: int, q: int) -> int {
    if on_right(p, q, x.len() as int) {
        x[p] * y[q] + x[q] * y[p]
    } else {
        0
    }
}

spec fn row(x: Seq<u32>, y: Seq<u32>, p: int, m: nat) -> int {
    ring::sigma(m, |q: int| cross(x, y, p, q))
}

spec fn terms(x: Seq<u32>, y: Seq<u32>, m: nat) -> int {
    ring::sigma(m, |p: int| x[p] * y[p] + row(x, y, p, m))
}

proof fn lemma_terms(x: Seq<u32>, y: Seq<u32>, m: nat)
    requires
        x.len() == y.len(),
        m <= x.len(),
    ensures
        terms(x, y, m) == ring::sigma(m, |p: int| x[p] as int) * ring::sigma(
            m,
            |p: int| y[p] as int,
        ),
    decreases m,
{
    let fx = |p: int| x[p] as int;
    let fy = |p: int| y[p] as int;
    if m > 0 {
        let k = (m - 1) as nat;
        lemma_terms(x, y, k);
        let xk = x[k as int] as int;
        let yk = y[k as int] as int;
        let old_term = |p: int| x[p] * y[p] + row(x, y, p, k);
        let new_term = |p: int| x[p] * y[p] + row(x, y, p, m);
        let into = |p: int| cross(x, y, p, k as int);
        let out = |q: int| cross(x, y, k as int, q);
        // The first k rows each gain the term with party k.
        assert forall|p: int| 0 <= p < k implies #[trigger] new_term(p) == old_term(p) + into(
            p,
        ) by {}
        ring::lemma_sigma_ext(k, new_term, |p: int| old_term(p) + into(p));
        ring::lemma_sigma_add(k, old_term, into);
        // Row k is new.
        lemma_on_right(k as int, k as int, x.len() as int);
        assert(row(x, y, k as int, m) == ring::sigma(k, out));
        // Either party k is on the right of p or p is on the right of k.
        let both = |p: int| into(p) + out(p);
        let scaled = |p: int| yk * fx(p) + xk * fy(p);
        assert forall|p: int| 0 <= p < k implies #[trigger] both(p) == scaled(p) by {
            lemma_on_right(p, k as int, x.len() as int);
            assert(x[p] * y[k as int] == yk * fx(p)) by (nonlinear_arith)
                requires
                    yk == y[k as int],
                    fx(p) == x[p],
            ;
            assert(x[k as int] * y[p] == xk * fy(p));
        }
        ring::lemma_sigma_ext(k, both, scaled);
        ring::lemma_sigma_add(k, into, out);
        ring::lemma_sigma_ext(k, both, |p: int| into(p) + out(p));
        let sx = |p: int| yk * fx(p);
        let sy = |p: int| xk * fy(p);
        ring::lemma_sigma_add(k, sx, sy);
        ring::lemma_sigma_ext(k, scaled, |p: int| sx(p) + sy(p));
        ring::lemma_sigma_scale(k, yk, fx);
        ring::lemma_sigma_scale(k, xk, fy);
        ring::lemma_sigma_ext(k, sx, |p: int| yk * fx(p));
        ring::lemma_sigma_ext(k, sy, |p: int| xk * fy(p));
        let a = ring::sigma(k, fx);
        let b = ring::sigma(k, fy);
        assert(terms(x, y, m) == a * b + xk * yk + yk * a + xk * b);
        assert((a + xk) * (b + yk) == a * b + xk * yk + yk * a + xk * b) by (nonlinear_arith);
    } else {
        assert(0 * 0 == 0);
    }
}

proof fn lemma_row(x: Seq<u32>, y: Seq<u32>, p: int)
    requires
        x.len() == y.len(),
        0 <= p < x.len(),
    ensures
        row(x, y, p, x.len()) == x[p] * right_sum(y, p) + right_sum(x, p) * y[p],
{
    let n = x.len();
    let gx = |q: int|
        if on_right(p, q, n as int) {
            x[q] as int
        } else {
            0
        };
    let gy = |q: int|
        if on_right(p, q, n as int) {
            y[q] as int
        } else {
            0
        };
    let a = x[p] as int;
    let b = y[p] as int;
    let sx = |q: int| b * gx(q);
    let sy = |q: int| a * gy(q);
    let c = |q: int| cross(x, y, p, q);
    assert forall|q: int| 0 <= q < n implies #[trigger] c(q) == sy(q) + sx(q) by {
        if on_right(p, q, n as int) {
            assert(x[q] * y[p] == b * gx(q)) by (nonlinear_arith)
                requires
                    b == y[p],
                    gx(q) == x[q],
            ;
        } else {
            assert(b * 0 == 0 && a * 0 == 0);
        }
    }
    ring::lemma_sigma_ext(n, c, |q: int| sy(q) + sx(q));
    ring::lemma_sigma_add(n, sy, sx);
    ring::lemma_sigma_scale(n, b, gx);
    ring::lemma_sigma_scale(n, a, gy);
    ring::lemma_sigma_ext(n, sx, |q: int| b * gx(q));
    ring::lemma_sigma_ext(n, sy, |q: int| a * gy(q));
    assert(right_sum(x, p) == ring::sigma(n, gx));
    assert(right_sum(y, p) == ring::sigma(n, gy));
    assert(b * ring::sigma(n, gx) == ring::sigma(n, gx) * b) by (nonlinear_arith);
}

proof fn lemma_product_share(x: u32, y: u32, xs: int, ys: int, r: u32)
    ensures
        product_share(x, y, ring::wrap(xs), ring::wrap(ys), r) == ring::wrap(
            x * y + x * ys + xs * y + r,
        ),
{
    let k = ring::lemma_wrap_split(xs);
    let l = ring::lemma_wrap_split(ys);
    let a = x as int;
    let b = y as int;
    let u = ring::wrap(xs) as int;
    let v = ring::wrap(ys) as int;
    assert(a * ys == a * v + (a * l) * 0x1_0000_0000) by (nonlinear_arith)
        requires
            ys == v + l * 0x1_0000_0000,
    ;
    assert(xs * b == u * b + (k * b) * 0x1_0000_0000) by (nonlinear_arith)
        requires
            xs == u + k * 0x1_0000_0000,
    ;
    ring::lemma_wrap_shift(a * b + a * v + u * b + r, a * l + k * b);
    assert((a * l + k * b) * 0x1_0000_0000 == (a * l) * 0x1_0000_0000 + (k * b) * 0x1_0000_0000);
}

/// The shares of a product add up to the product of the shared words.
pub proof fn lemma_product_shares(x: Seq<u32>, y: Seq<u32>, zeros: Seq<u32>)
    requires
        x.len() == y.len(),
        x.len() == zeros.len(),
        ring::wrap(ring::total(zeros)) == 0,
    ensures
        ring::wrap(ring::total(product_shares(x, y, zeros))) == ring::wrap(
            ring::wrap(ring::total(x)) * ring::wrap(ring::total(y)),
        ),
{
    let n = x.len();
    let s = product_shares(x, y, zeros);
    let own = |p: int| x[p] * y[p] + row(x, y, p, n);
    let z = |p: int| zeros[p] as int;
    let h = |p: int| own(p) + z(p);
    assert forall|p: int| 0 <= p < n implies s[p] as int == ring::wrap(#[trigger] h(p)) as int by {
        lemma_row(x, y, p);
        lemma_product_share(x[p], y[p], right_sum(x, p), right_sum(y, p), zeros[p]);
    }
    ring::lemma_sigma_ext(n, |p: int| s[p] as int, |p: int| ring::wrap(h(p)) as int);
    ring::lemma_sigma_wrap(n, h);
    ring::lemma_sigma_add(n, own, z);
    ring::lemma_sigma_ext(n, h, |p: int| own(p) + z(p));
    lemma_terms(x, y, n);
    assert(ring::sigma(n, own) == terms(x, y, n)) by {
        ring::lemma_sigma_ext(n, own, |p: int| x[p] * y[p] + row(x, y, p, n));
    }
    let product = ring::total(x) * ring::total(y);
    ring::lemma_wrap_add(product, ring::total(zeros));
    ring::lemma_sigma_ext(n, z, |i: int| zeros[i] as int);
    ring::lemma_wrap_mul(ring::total(x), ring::total(y));
}

/// Whether party `q` is on the right of party `p`.
pub fn is_on_right(p: usize, q: usize, n: usize) -> (r: bool)
    requires
        p < n,
        q < n,
    ensures
        r == on_right(p as int, q as int, n as int),
{
    let gap: usize = if q >= p {
        q - p
    } else {
        n - (p - q)
    };
    proof {
        if q >= p {
            lemma_small_mod((q - p) as nat, n as nat);
        } else {
            lemma_mod_add_multiples_vanish(q - p, n as int);
            lemma_small_mod((n + q - p) as nat, n as nat);
        }
    }
    gap >= 1 && (gap < n - gap || (gap == n - gap && p < q))
}

/// What a party computes for a product.
pub fn multiply_share(x: u32, y: u32, xr: u32, yr: u32, r: u32) -> (s: u32)
    ensures
        s == product_share(x, y, xr, yr, r),
{
    let a: u32 = x.wrapping_mul(y);
    let b: u32 = x.wrapping_mul(yr);
    let c: u32 = xr.wrapping_mul(y);
    let ab: u32 = a.wrapping_add(b);
    let abc: u32 = ab.wrapping_add(c);
    proof {
        ring::lemma_wrapping_ops(x, y);
        ring::lemma_wrapping_ops(x, yr);
        ring::lemma_wrapping_ops(xr, y);
        ring::lemma_wrapping_ops(a, b);
        ring::lemma_wrapping_ops(ab, c);
        ring::lemma_wrapping_ops(abc, r);
        ring::lemma_wrap_add(x * y, x * yr);
        ring::lemma_wrap_add(x * y + x * yr, xr * y);
        ring::lemma_wrap_add(x * y + x * yr + xr * y, r as int);
    }
    abc.wrapping_add(r)
}

/// With three parties each computes from its own shares, those of the next party and its share of
/// zero: `x y + x y' + x' y + r` modulo 2^32.
pub proof fn lemma_share_of_three(x: Seq<u32>, y: Seq<u32>, zeros: Seq<u32>, p: int)
    requires
        x.len() == 3,
        y.len() == 3,
        0 <= p < 3,
    ensures
        product_shares(x, y, zeros)[p] as int == (x[p] * y[p] + x[p] * y[(p + 1) % 3] + x[(p + 1)
            % 3] * y[p] + zeros[p]) % 0x1_0000_0000,
{
    lemma_right_of_three(x, p);
    lemma_right_of_three(y, p);
}

/// Each party adds its own word and takes away that of the next party.
pub proof fn lemma_difference_of_neighbours(words: Seq<u32>, p: int)
    requires
        0 <= p < words.len(),
    ensures
        differences(words).len() == words.len(),
        differences(words)[p] as int == (words[p] - words[(p + 1) % (words.len() as int)])
            % 0x1_0000_0000,
{
}

} // verus!
