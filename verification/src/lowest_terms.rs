//! A fraction in lowest terms is determined by its value.

use crate::rational::{
    common_divisor, fraction_value, in_lowest_terms, is_canonical, ratio_fraction, ratio_value,
};
use num_bigint::BigInt;
use num_rational::Ratio;
use vstd::prelude::*;

verus! {

/// The greatest common divisor, by Euclid's algorithm.
pub open spec fn gcd(a: nat, b: nat) -> nat
    decreases b,
{
    if b == 0 {
        a
    } else {
        gcd(b, a % b)
    }
}

/// The greatest common divisor divides both numbers: the result holds the
/// two quotients.
pub proof fn lemma_gcd_divides(a: nat, b: nat) -> (q: (int, int))
    ensures
        a == q.0 * gcd(a, b),
        b == q.1 * gcd(a, b),
    decreases b,
{
    if b == 0 {
        assert(a == 1 * a) by (nonlinear_arith);
        assert(0 == 0 * a) by (nonlinear_arith);
        (1, 0)
    } else {
        let r = a % b;
        let g = gcd(b, r);
        let (qb, qr) = lemma_gcd_divides(b, r);
        vstd::arithmetic::div_mod::lemma_fundamental_div_mod(a as int, b as int);
        let t = a as int / b as int;
        assert(a == (qb * t + qr) * g) by (nonlinear_arith)
            requires
                a == b * t + r,
                b == qb * g,
                r == qr * g,
        ;
        (qb * t + qr, qb)
    }
}

/// The greatest common divisor is a combination of the two numbers: the
/// result holds the two factors.
pub proof fn lemma_bezout(a: nat, b: nat) -> (c: (int, int))
    ensures
        c.0 * a + c.1 * b == gcd(a, b),
    decreases b,
{
    if b == 0 {
        assert(1 * a + 0 * b == a) by (nonlinear_arith);
        (1, 0)
    } else {
        let r = a % b;
        let (x, y) = lemma_bezout(b, r);
        vstd::arithmetic::div_mod::lemma_fundamental_div_mod(a as int, b as int);
        let t = a as int / b as int;
        assert(y * a + (x - y * t) * b == x * b + y * r) by (nonlinear_arith)
            requires
                a == b * t + r,
        ;
        (y, x - y * t)
    }
}

/// Numerator and denominator of a fraction in lowest terms combine to one.
pub proof fn lemma_lowest_terms_combine(n: int, d: int) -> (c: (int, int))
    requires
        in_lowest_terms(n, d),
    ensures
        c.0 * n + c.1 * d == 1,
{
    let m: nat = if n < 0 {
        (-n) as nat
    } else {
        n as nat
    };
    let g = gcd(m, d as nat);
    let (qm, qd) = lemma_gcd_divides(m, d as nat);
    let (x, y) = lemma_bezout(m, d as nat);
    assert(g > 0) by (nonlinear_arith)
        requires
            d == qd * g,
            d > 0,
            g >= 0,
    ;
    if g > 1 {
        vstd::arithmetic::div_mod::lemma_mod_multiples_basic(qd, g as int);
        if n < 0 {
            assert(n == (-qm) * g) by (nonlinear_arith)
                requires
                    -n == qm * g,
            ;
            vstd::arithmetic::div_mod::lemma_mod_multiples_basic(-qm, g as int);
        } else {
            vstd::arithmetic::div_mod::lemma_mod_multiples_basic(qm, g as int);
        }
        assert(common_divisor(g as int, n, d));
    }
    if n < 0 {
        assert((-x) * n + y * d == x * m + y * d) by (nonlinear_arith)
            requires
                m == -n,
        ;
        (-x, y)
    } else {
        (x, y)
    }
}

/// Of two equal fractions, the denominator of the one in lowest terms
/// divides the other denominator: the result is the quotient.
proof fn lemma_denominator_divides(n1: int, d1: int, n2: int, d2: int) -> (t: int)
    requires
        in_lowest_terms(n1, d1),
        n1 * d2 == n2 * d1,
    ensures
        d2 == d1 * t,
{
    let (x, y) = lemma_lowest_terms_combine(n1, d1);
    let t = x * n2 + y * d2;
    assert(d2 == d1 * t) by (nonlinear_arith)
        requires
            x * n1 + y * d1 == 1,
            n1 * d2 == n2 * d1,
            t == x * n2 + y * d2,
    ;
    t
}

/// Two fractions in lowest terms with the same value are the same fraction.
pub proof fn lemma_lowest_terms_unique(f: (int, int), g: (int, int))
    requires
        in_lowest_terms(f.0, f.1),
        in_lowest_terms(g.0, g.1),
        fraction_value(f) == fraction_value(g),
    ensures
        f == g,
{
    let (n1, d1) = f;
    let (n2, d2) = g;
    assert(n1 * d2 == n2 * d1) by (nonlinear_arith)
        requires
            d1 > 0,
            d2 > 0,
            n1 as real / d1 as real == n2 as real / d2 as real,
    ;
    let t = lemma_denominator_divides(n1, d1, n2, d2);
    let u = lemma_denominator_divides(n2, d2, n1, d1);
    assert(d1 == d2) by (nonlinear_arith)
        requires
            d2 == d1 * t,
            d1 == d2 * u,
            d1 > 0,
            d2 > 0,
    ;
    assert(n1 == n2) by (nonlinear_arith)
        requires
            n1 * d2 == n2 * d1,
            d1 == d2,
            d1 > 0,
    ;
}

/// Numerator and denominator of the rational number `v` in lowest terms.
pub open spec fn lowest_terms_of(v: real) -> (int, int) {
    choose|f: (int, int)| in_lowest_terms(f.0, f.1) && fraction_value(f) == v
}

/// The fractions in lowest terms of a sequence of rational numbers.
pub open spec fn fractions_from(vals: Seq<real>) -> Seq<(int, int)> {
    Seq::new(vals.len(), |i: int| lowest_terms_of(vals[i]))
}

/// A stored fraction in lowest terms is the one that its value determines.
pub proof fn lemma_lowest_terms_of(r: Ratio<BigInt>)
    requires
        is_canonical(r),
    ensures
        lowest_terms_of(ratio_value(r)) == ratio_fraction(r),
{
    let f = ratio_fraction(r);
    assert(in_lowest_terms(f.0, f.1) && fraction_value(f) == ratio_value(r));
    lemma_lowest_terms_unique(lowest_terms_of(ratio_value(r)), f);
}

} // verus!
