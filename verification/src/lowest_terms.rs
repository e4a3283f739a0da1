//! Greatest common divisors and fractions in lowest terms, over mathematical
//! integers. Everything here is specification and proof; the executable
//! rational type is built on these facts.

use vstd::prelude::*;
use vstd::arithmetic::div_mod::{lemma_div_multiples_vanish, lemma_fundamental_div_mod};

verus! {

/// The absolute value of an integer.
pub open spec fn abs(x: int) -> nat {
    if x < 0 {
        (-x) as nat
    } else {
        x as nat
    }
}

/// The greatest common divisor, by Euclid's recursion. `gcd(0, 0) == 0`.
pub open spec fn gcd(a: nat, b: nat) -> nat
    decreases b,
{
    if b == 0 {
        a
    } else {
        gcd(b, a % b)
    }
}

/// `n / d` is in lowest terms: the denominator is positive and shares no
/// factor with the numerator.
pub open spec fn is_lowest(n: int, d: int) -> bool {
    d > 0 && gcd(abs(n), d as nat) == 1
}

/// The numerator of `n / d` in lowest terms, for `d > 0`.
pub open spec fn lowest_num(n: int, d: int) -> int {
    n / (gcd(abs(n), d as nat) as int)
}

/// The denominator of `n / d` in lowest terms, for `d > 0`.
pub open spec fn lowest_den(n: int, d: int) -> int {
    d / (gcd(abs(n), d as nat) as int)
}

/// Both arguments are multiples of their gcd; the cofactors are returned.
pub proof fn lemma_gcd_cofactors(a: nat, b: nat) -> (r: (nat, nat))
    ensures
        a == r.0 * gcd(a, b),
        b == r.1 * gcd(a, b),
    decreases b,
{
    if b == 0 {
        (1, 0)
    } else {
        let (p, q) = lemma_gcd_cofactors(b, a % b);
        let g = gcd(a, b);
        let k = a / b;
        lemma_fundamental_div_mod(a as int, b as int);
        assert(a == (k * p + q) * g) by (nonlinear_arith)
            requires
                a == b * k + a % b,
                b == p * g,
                a % b == q * g,
        ;
        (k * p + q, p)
    }
}

/// Bezout's identity: the gcd is an integer combination of the arguments.
pub proof fn lemma_bezout(a: nat, b: nat) -> (r: (int, int))
    ensures
        a * r.0 + b * r.1 == gcd(a, b),
    decreases b,
{
    if b == 0 {
        (1, 0)
    } else {
        let (x, y) = lemma_bezout(b, a % b);
        let g = gcd(a, b) as int;
        let k = (a / b) as int;
        lemma_fundamental_div_mod(a as int, b as int);
        assert(a * y + b * (x - k * y) == g) by (nonlinear_arith)
            requires
                a == b * k + a % b,
                b * x + (a % b) * y == g,
        ;
        (y, x - k * y)
    }
}

/// The gcd is positive as soon as one argument is.
pub proof fn lemma_gcd_positive(a: nat, b: nat)
    requires
        a > 0 || b > 0,
    ensures
        gcd(a, b) > 0,
{
    let (p, q) = lemma_gcd_cofactors(a, b);
    if gcd(a, b) == 0 {
        assert(p * gcd(a, b) == 0 && q * gcd(a, b) == 0) by (nonlinear_arith)
            requires
                gcd(a, b) == 0,
        ;
    }
}

/// A signed form of Bezout's identity for a fraction in lowest terms.
pub proof fn lemma_lowest_combination(n: int, d: int) -> (r: (int, int))
    requires
        is_lowest(n, d),
    ensures
        n * r.0 + d * r.1 == 1,
{
    let (x, y) = lemma_bezout(abs(n), d as nat);
    if n < 0 {
        assert(n * (-x) + d * y == 1) by (nonlinear_arith)
            requires
                (-n) * x + d * y == 1,
        ;
        (-x, y)
    } else {
        (x, y)
    }
}

/// A fraction in lowest terms is the smallest of its value: any other
/// fraction `m / e` of the same value has `m == k * n` and `e == k * d`.
pub proof fn lemma_lowest_divides(n: int, d: int, m: int, e: int) -> (k: int)
    requires
        is_lowest(n, d),
        n * e == m * d,
    ensures
        e == k * d,
        m == k * n,
{
    let (x, y) = lemma_lowest_combination(n, d);
    let k = m * x + e * y;
    assert(e == k * d) by (nonlinear_arith)
        requires
            n * x + d * y == 1,
            n * e == m * d,
            k == m * x + e * y,
    ;
    assert(m * d == (k * n) * d) by (nonlinear_arith)
        requires
            e == k * d,
            n * e == m * d,
    ;
    assert(m == k * n) by (nonlinear_arith)
        requires
            m * d == (k * n) * d,
            d > 0,
    ;
    k
}

/// Two fractions in lowest terms with the same value are the same fraction.
pub proof fn lemma_lowest_unique(n1: int, d1: int, n2: int, d2: int)
    requires
        is_lowest(n1, d1),
        is_lowest(n2, d2),
        n1 * d2 == n2 * d1,
    ensures
        n1 == n2,
        d1 == d2,
{
    let k = lemma_lowest_divides(n1, d1, n2, d2);
    let j = lemma_lowest_divides(n2, d2, n1, d1);
    assert(k == 1) by (nonlinear_arith)
        requires
            d2 == k * d1,
            d1 == j * d2,
            d1 > 0,
            d2 > 0,
    ;
}

/// Dividing numerator and denominator by their gcd keeps the value and
/// gives a fraction in lowest terms.
pub proof fn lemma_lowest_form(n: int, d: int)
    requires
        d > 0,
    ensures
        is_lowest(lowest_num(n, d), lowest_den(n, d)),
        lowest_num(n, d) * d == n * lowest_den(n, d),
        0 < lowest_den(n, d) <= d,
        abs(lowest_num(n, d)) <= abs(n),
        n == lowest_num(n, d) * gcd(abs(n), d as nat),
        d == lowest_den(n, d) * gcd(abs(n), d as nat),
{
    let g = gcd(abs(n), d as nat) as int;
    lemma_gcd_positive(abs(n), d as nat);
    let (p, q) = lemma_gcd_cofactors(abs(n), d as nat);
    let sp: int = if n < 0 { -(p as int) } else { p as int };
    assert(n == g * sp && d == g * q) by (nonlinear_arith)
        requires
            abs(n) == p * g,
            d == q * g,
            sp == if n < 0 { -(p as int) } else { p as int },
            abs(n) == if n < 0 { -n } else { n },
    ;
    lemma_div_multiples_vanish(sp, g);
    lemma_div_multiples_vanish(q as int, g);
    assert(lowest_num(n, d) == sp);
    assert(lowest_den(n, d) == q);
    assert(sp * d == n * q) by (nonlinear_arith)
        requires
            n == g * sp,
            d == g * q,
    ;
    assert(0 < q <= d && p <= abs(n)) by (nonlinear_arith)
        requires
            abs(n) == p * g,
            d == q * g,
            d > 0,
            g > 0,
    ;
    // The cofactors share no factor: a common factor h of p and q makes h * g
    // a combination of n and d, hence h divides 1.
    let (x, y) = lemma_bezout(abs(n), d as nat);
    let h = gcd(p, q) as int;
    let (pc, qc) = lemma_gcd_cofactors(p, q);
    lemma_gcd_positive(p, q);
    assert(h * (pc * x + qc * y) == 1) by (nonlinear_arith)
        requires
            abs(n) * x + d * y == g,
            abs(n) == p * g,
            d == q * g,
            p == pc * h,
            q == qc * h,
            g > 0,
    ;
    assert(h == 1) by (nonlinear_arith)
        requires
            h * (pc * x + qc * y) == 1,
            h > 0,
    ;
    assert(abs(sp) == p);
}

/// A fraction in lowest terms with the value of `n / d` is the lowest form
/// of `n / d`.
pub proof fn lemma_lowest_is(n: int, d: int, rn: int, rd: int)
    requires
        d > 0,
        is_lowest(rn, rd),
        rn * d == n * rd,
    ensures
        rn == lowest_num(n, d),
        rd == lowest_den(n, d),
{
    lemma_lowest_form(n, d);
    let ln = lowest_num(n, d);
    let ld = lowest_den(n, d);
    assert((rn * ld - ln * rd) * d == 0) by (nonlinear_arith)
        requires
            rn * d == n * rd,
            ln * d == n * ld,
    ;
    assert(rn * ld == ln * rd) by (nonlinear_arith)
        requires
            (rn * ld - ln * rd) * d == 0,
            d > 0,
    ;
    lemma_lowest_unique(rn, rd, ln, ld);
}

/// An integer over one is in lowest terms.
pub proof fn lemma_integer_is_lowest(n: int)
    ensures
        is_lowest(n, 1),
{
    reveal_with_fuel(gcd, 3);
}

} // verus!
