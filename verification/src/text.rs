//! Messages: literal text with decimal numbers in it.

use vstd::prelude::*;

verus! {

/// The character of a decimal digit.
pub open spec fn digit(d: nat) -> char {
    (48 + d) as char
}

/// The decimal notation of `n`, without leading zeros.
pub open spec fn decimal(n: nat) -> Seq<char>
    decreases n,
{
    if n < 10 {
        seq![digit(n)]
    } else {
        decimal(n / 10).push(digit(n % 10))
    }
}

/// Text, a number, text.
pub open spec fn line1(a: Seq<char>, n: nat, b: Seq<char>) -> Seq<char> {
    a + decimal(n) + b
}

/// Text with two numbers in it.
pub open spec fn line2(a: Seq<char>, n: nat, b: Seq<char>, m: nat, c: Seq<char>) -> Seq<char> {
    line1(a, n, b) + decimal(m) + c
}

/// Text with three numbers in it.
pub open spec fn line3(
    a: Seq<char>,
    n: nat,
    b: Seq<char>,
    m: nat,
    c: Seq<char>,
    k: nat,
    d: Seq<char>,
) -> Seq<char> {
    line2(a, n, b, m, c) + decimal(k) + d
}

/// Text with four numbers in it.
pub open spec fn line4(
    a: Seq<char>,
    n: nat,
    b: Seq<char>,
    m: nat,
    c: Seq<char>,
    k: nat,
    d: Seq<char>,
    l: nat,
    e: Seq<char>,
) -> Seq<char> {
    line3(a, n, b, m, c, k, d) + decimal(l) + e
}

fn digit_text(d: u64) -> (r: &'static str)
    requires
        d < 10,
    ensures
        r@ == seq![digit(d as nat)],
{
    proof {
        reveal_strlit("0");
        reveal_strlit("1");
        reveal_strlit("2");
        reveal_strlit("3");
        reveal_strlit("4");
        reveal_strlit("5");
        reveal_strlit("6");
        reveal_strlit("7");
        reveal_strlit("8");
        reveal_strlit("9");
    }
    if d == 0 {
        "0"
    } else if d == 1 {
        "1"
    } else if d == 2 {
        "2"
    } else if d == 3 {
        "3"
    } else if d == 4 {
        "4"
    } else if d == 5 {
        "5"
    } else if d == 6 {
        "6"
    } else if d == 7 {
        "7"
    } else if d == 8 {
        "8"
    } else {
        "9"
    }
}

fn append_decimal(out: &mut String, n: u64)
    ensures
        final(out)@ == old(out)@ + decimal(n as nat),
    decreases n,
{
    if n >= 10 {
        append_decimal(out, n / 10);
    }
    out.append(digit_text(n % 10));
    proof {
        if n >= 10 {
            assert(old(out)@ + decimal((n / 10) as nat) + seq![digit((n % 10) as nat)] =~= old(out)@
                + decimal(n as nat));
        }
    }
}

/// The text of [`line1`].
pub fn text1(a: &str, n: usize, b: &str) -> (r: String)
    ensures
        r@ == line1(a@, n as nat, b@),
{
    let mut out: String = a.to_owned();
    append_decimal(&mut out, n as u64);
    out.append(b);
    out
}

/// The text of [`line2`].
pub fn text2(a: &str, n: usize, b: &str, m: usize, c: &str) -> (r: String)
    ensures
        r@ == line2(a@, n as nat, b@, m as nat, c@),
{
    let mut out: String = text1(a, n, b);
    append_decimal(&mut out, m as u64);
    out.append(c);
    out
}

/// The text of [`line3`].
pub fn text3(a: &str, n: usize, b: &str, m: usize, c: &str, k: usize, d: &str) -> (r: String)
    ensures
        r@ == line3(a@, n as nat, b@, m as nat, c@, k as nat, d@),
{
    let mut out: String = text2(a, n, b, m, c);
    append_decimal(&mut out, k as u64);
    out.append(d);
    out
}

/// The text of [`line4`].
pub fn text4(
    a: &str,
    n: usize,
    b: &str,
    m: usize,
    c: &str,
    k: usize,
    d: &str,
    l: usize,
    e: &str,
) -> (r: String)
    ensures
        r@ == line4(a@, n as nat, b@, m as nat, c@, k as nat, d@, l as nat, e@),
{
    let mut out: String = text3(a, n, b, m, c, k, d);
    append_decimal(&mut out, l as u64);
    out.append(e);
    out
}

/// One text after another.
pub fn join(a: &str, b: &str) -> (r: String)
    ensures
        r@ == a@ + b@,
{
    let mut out: String = a.to_owned();
    out.append(b);
    out
}

/// The decimal notation of `10 * n + d` is that of `n` with the digit `d` behind it, and a digit
/// alone is its own notation.
pub proof fn lemma_decimal(n: nat, d: nat)
    requires
        d < 10,
    ensures
        decimal(d) == seq![(48 + d) as char],
        n > 0 ==> decimal(10 * n + d) == decimal(n).push((48 + d) as char),
{
    assert((10 * n + d) / 10 == n && (10 * n + d) % 10 == d);
}

/// Different numbers have different notations.
pub proof fn lemma_decimal_differs(n: nat, m: nat)
    ensures
        decimal(n).len() >= 1,
        decimal(n) == decimal(m) ==> n == m,
    decreases n,
{
    if n >= 10 {
        lemma_decimal_differs(n / 10, m / 10);
    }
    if m >= 10 {
        lemma_decimal_len(m / 10);
    }
    if decimal(n) == decimal(m) {
        assert(decimal(n).last() == digit(n % 10));
        assert(decimal(m).last() == digit(m % 10));
        assert((48 + n % 10) as char as nat == 48 + n % 10);
        assert((48 + m % 10) as char as nat == 48 + m % 10);
        assert(n % 10 == m % 10);
        if n >= 10 && m >= 10 {
            assert(decimal(n).drop_last() =~= decimal(n / 10));
            assert(decimal(m).drop_last() =~= decimal(m / 10));
        } else if n >= 10 {
            assert(decimal(m).len() == 1);
            lemma_decimal_len(n / 10);
        }
    }
}

proof fn lemma_decimal_len(n: nat)
    ensures
        decimal(n).len() >= 1,
    decreases n,
{
    if n >= 10 {
        lemma_decimal_len(n / 10);
    }
}

/// A line is its texts with the decimal notations of the numbers between them.
pub proof fn lemma_lines(
    a: Seq<char>,
    n: nat,
    b: Seq<char>,
    m: nat,
    c: Seq<char>,
    k: nat,
    d: Seq<char>,
    l: nat,
    e: Seq<char>,
)
    ensures
        line1(a, n, b) == a + decimal(n) + b,
        line2(a, n, b, m, c) == a + decimal(n) + b + decimal(m) + c,
        line3(a, n, b, m, c, k, d) == a + decimal(n) + b + decimal(m) + c + decimal(k) + d,
        line4(a, n, b, m, c, k, d, l, e) == a + decimal(n) + b + decimal(m) + c + decimal(k) + d
            + decimal(l) + e,
{
}

} // verus!
