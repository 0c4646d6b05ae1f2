//! Facts about the polynomial model: what each operation does to the
//! coefficients and to the value at a point, and the ring laws that follow.

use crate::polynomial::{
    coeff, conv, conv_term, is_trimmed, is_zero_poly, max_len, poly_add, poly_div, poly_eval,
    poly_mul, poly_neg, poly_pow, poly_scale, poly_sub, sum_to, trim,
};
use vstd::prelude::*;

verus! {

/// Sums of functions that agree below `n` are equal.
pub proof fn lemma_sum_ext(f: spec_fn(int) -> real, g: spec_fn(int) -> real, n: int)
    requires
        forall|i: int| 0 <= i < n ==> #[trigger] f(i) == g(i),
    ensures
        sum_to(f, n) == sum_to(g, n),
    decreases n,
{
    if n > 0 {
        lemma_sum_ext(f, g, n - 1);
    }
}

/// A sum of zeros is zero.
pub proof fn lemma_sum_zero(f: spec_fn(int) -> real, n: int)
    requires
        forall|i: int| 0 <= i < n ==> #[trigger] f(i) == 0real,
    ensures
        sum_to(f, n) == 0real,
    decreases n,
{
    if n > 0 {
        lemma_sum_zero(f, n - 1);
    }
}

/// Terms that are zero from `n` on add nothing to a sum.
pub proof fn lemma_sum_extend(f: spec_fn(int) -> real, n: int, m: int)
    requires
        0 <= n <= m,
        forall|i: int| n <= i < m ==> #[trigger] f(i) == 0real,
    ensures
        sum_to(f, m) == sum_to(f, n),
    decreases m - n,
{
    if n < m {
        lemma_sum_extend(f, n, m - 1);
    }
}

/// The sum of a pointwise sum is the sum of the sums.
pub proof fn lemma_sum_add(
    f: spec_fn(int) -> real,
    g: spec_fn(int) -> real,
    h: spec_fn(int) -> real,
    n: int,
)
    requires
        forall|i: int| 0 <= i < n ==> #[trigger] h(i) == f(i) + g(i),
    ensures
        sum_to(h, n) == sum_to(f, n) + sum_to(g, n),
    decreases n,
{
    if n > 0 {
        lemma_sum_add(f, g, h, n - 1);
    }
}

/// A common factor moves out of a sum.
pub proof fn lemma_sum_scale(f: spec_fn(int) -> real, c: real, g: spec_fn(int) -> real, n: int)
    requires
        forall|i: int| 0 <= i < n ==> #[trigger] g(i) == c * f(i),
    ensures
        sum_to(g, n) == c * sum_to(f, n),
    decreases n,
{
    if n > 0 {
        lemma_sum_scale(f, c, g, n - 1);
        let s = sum_to(f, n - 1);
        let t = f(n - 1);
        assert(c * s + c * t == c * (s + t)) by (nonlinear_arith);
    } else {
        assert(c * 0real == 0real);
    }
}

/// A sum is its first term plus the sum of the rest.
pub proof fn lemma_sum_peel_first(f: spec_fn(int) -> real, g: spec_fn(int) -> real, n: int)
    requires
        n >= 1,
        forall|i: int| 0 <= i < n - 1 ==> #[trigger] g(i) == f(i + 1),
    ensures
        sum_to(f, n) == f(0) + sum_to(g, n - 1),
    decreases n,
{
    if n > 1 {
        lemma_sum_peel_first(f, g, n - 1);
    } else {
        assert(sum_to(f, 0) == 0real);
        assert(sum_to(g, 0) == 0real);
    }
}

/// Trimming gives a trimmed sequence with the same coefficients.
pub proof fn lemma_trim(p: Seq<real>)
    requires
        p.len() >= 1,
    ensures
        is_trimmed(trim(p)),
        trim(p).len() <= p.len(),
        forall|k: int| coeff(trim(p), k) == coeff(p, k),
    decreases p.len(),
{
    if p.len() > 1 && p.last() == 0real {
        lemma_trim(p.drop_last());
        assert forall|k: int| coeff(trim(p), k) == coeff(p, k) by {
            assert(coeff(p.drop_last(), k) == coeff(p, k));
        }
    }
}

/// Two trimmed sequences with the same coefficients are the same sequence.
pub proof fn lemma_trimmed_unique(p: Seq<real>, q: Seq<real>)
    requires
        is_trimmed(p),
        is_trimmed(q),
        forall|k: int| k >= 0 ==> coeff(p, k) == coeff(q, k),
    ensures
        p == q,
{
    if p.len() > q.len() {
        assert(coeff(p, p.len() - 1) == coeff(q, p.len() - 1));
    }
    if q.len() > p.len() {
        assert(coeff(p, q.len() - 1) == coeff(q, q.len() - 1));
    }
    assert forall|i: int| 0 <= i < p.len() implies p[i] == q[i] by {
        assert(coeff(p, i) == coeff(q, i));
    }
    assert(p =~= q);
}

/// The coefficient at the degree of a trimmed polynomial that is not zero is
/// not zero.
pub proof fn lemma_leading_nonzero(p: Seq<real>)
    requires
        is_trimmed(p),
        !is_zero_poly(p),
    ensures
        p[p.len() - 1] != 0real,
{
    if p.len() == 1 {
        let i = choose|i: int| 0 <= i < p.len() && p[i] != 0real;
        assert(i == 0);
    }
}

/// The coefficients of a sum.
pub proof fn lemma_add_coeff(a: Seq<real>, b: Seq<real>)
    requires
        a.len() >= 1 || b.len() >= 1,
    ensures
        is_trimmed(poly_add(a, b)),
        poly_add(a, b).len() <= max_len(a, b),
        forall|k: int| coeff(poly_add(a, b), k) == coeff(a, k) + coeff(b, k),
{
    let s = Seq::new(max_len(a, b), |i: int| coeff(a, i) + coeff(b, i));
    lemma_trim(s);
    assert forall|k: int| coeff(poly_add(a, b), k) == coeff(a, k) + coeff(b, k) by {
        assert(coeff(trim(s), k) == coeff(s, k));
    }
}

/// The coefficients of a difference.
pub proof fn lemma_sub_coeff(a: Seq<real>, b: Seq<real>)
    requires
        a.len() >= 1 || b.len() >= 1,
    ensures
        is_trimmed(poly_sub(a, b)),
        poly_sub(a, b).len() <= max_len(a, b),
        forall|k: int| coeff(poly_sub(a, b), k) == coeff(a, k) - coeff(b, k),
{
    let s = Seq::new(max_len(a, b), |i: int| coeff(a, i) - coeff(b, i));
    lemma_trim(s);
    assert forall|k: int| coeff(poly_sub(a, b), k) == coeff(a, k) - coeff(b, k) by {
        assert(coeff(trim(s), k) == coeff(s, k));
    }
}

/// The coefficients of a negation.
pub proof fn lemma_neg_coeff(a: Seq<real>)
    ensures
        poly_neg(a).len() == a.len(),
        is_trimmed(a) ==> is_trimmed(poly_neg(a)),
        forall|k: int| coeff(poly_neg(a), k) == -coeff(a, k),
{
}

/// The coefficients of a polynomial times a number.
pub proof fn lemma_scale_coeff(a: Seq<real>, c: real)
    requires
        a.len() >= 1,
    ensures
        is_trimmed(poly_scale(a, c)),
        poly_scale(a, c).len() <= a.len(),
        forall|k: int| coeff(poly_scale(a, c), k) == coeff(a, k) * c,
{
    let s = Seq::new(a.len(), |i: int| a[i] * c);
    lemma_trim(s);
    assert forall|k: int| coeff(poly_scale(a, c), k) == coeff(a, k) * c by {
        assert(coeff(trim(s), k) == coeff(s, k));
        assert(0real * c == 0real);
    }
}

/// The coefficients of a polynomial divided by a number.
pub proof fn lemma_div_coeff(a: Seq<real>, c: real)
    requires
        a.len() >= 1,
        c != 0real,
    ensures
        is_trimmed(poly_div(a, c)),
        poly_div(a, c).len() <= a.len(),
        forall|k: int| coeff(poly_div(a, c), k) == coeff(a, k) / c,
{
    let s = Seq::new(a.len(), |i: int| a[i] / c);
    lemma_trim(s);
    assert forall|k: int| coeff(poly_div(a, c), k) == coeff(a, k) / c by {
        assert(coeff(trim(s), k) == coeff(s, k));
        assert(0real / c == 0real) by (nonlinear_arith)
            requires
                c != 0real,
        ;
    }
}

/// The convolution sum may run to any limit from the length of `a` on.
pub proof fn lemma_conv_limit(a: Seq<real>, b: Seq<real>, k: int, n: int)
    requires
        n >= a.len(),
    ensures
        sum_to(conv_term(a, b, k), n) == conv(a, b, k),
{
    let f = conv_term(a, b, k);
    assert forall|i: int| a.len() <= i < n implies #[trigger] f(i) == 0real by {
        assert(0real * coeff(b, k - i) == 0real);
    }
    lemma_sum_extend(f, a.len() as int, n);
}

/// Above the sum of the degrees, and below zero, the convolution is zero.
pub proof fn lemma_conv_outside(a: Seq<real>, b: Seq<real>, k: int)
    requires
        k < 0 || k >= a.len() + b.len() - 1,
    ensures
        conv(a, b, k) == 0real,
{
    let f = conv_term(a, b, k);
    assert forall|i: int| 0 <= i < a.len() implies #[trigger] f(i) == 0real by {
        assert(coeff(b, k - i) == 0real);
        assert(coeff(a, i) * 0real == 0real);
    }
    lemma_sum_zero(f, a.len() as int);
}

/// The convolution with a zero polynomial is zero.
pub proof fn lemma_conv_zero(a: Seq<real>, b: Seq<real>, k: int)
    requires
        is_zero_poly(a) || is_zero_poly(b),
    ensures
        conv(a, b, k) == 0real,
{
    let f = conv_term(a, b, k);
    assert forall|i: int| 0 <= i < a.len() implies #[trigger] f(i) == 0real by {
        if is_zero_poly(a) {
            assert(0real * coeff(b, k - i) == 0real);
        } else {
            assert(coeff(b, k - i) == 0real);
            assert(coeff(a, i) * 0real == 0real);
        }
    }
    lemma_sum_zero(f, a.len() as int);
}

/// The coefficients of a product are the convolution of the coefficients.
pub proof fn lemma_mul_coeff(a: Seq<real>, b: Seq<real>)
    requires
        a.len() >= 1,
        b.len() >= 1,
    ensures
        is_trimmed(poly_mul(a, b)),
        poly_mul(a, b).len() <= a.len() + b.len() - 1,
        forall|k: int| k >= 0 ==> coeff(poly_mul(a, b), k) == conv(a, b, k),
{
    if is_zero_poly(a) || is_zero_poly(b) {
        assert forall|k: int| k >= 0 implies coeff(poly_mul(a, b), k) == conv(a, b, k) by {
            lemma_conv_zero(a, b, k);
        }
    } else {
        let s = Seq::new((a.len() + b.len() - 1) as nat, |k: int| conv(a, b, k));
        lemma_trim(s);
        assert forall|k: int| k >= 0 implies coeff(poly_mul(a, b), k) == conv(a, b, k) by {
            assert(coeff(trim(s), k) == coeff(s, k));
            if k >= s.len() {
                lemma_conv_outside(a, b, k);
            }
        }
    }
}

/// Every term but the `j`-th being zero, a sum is its `j`-th term.
pub proof fn lemma_sum_single(f: spec_fn(int) -> real, n: int, j: int)
    requires
        0 <= j < n,
        forall|i: int| 0 <= i < n && i != j ==> #[trigger] f(i) == 0real,
    ensures
        sum_to(f, n) == f(j),
    decreases n,
{
    if n - 1 == j {
        lemma_sum_zero(f, n - 1);
    } else {
        lemma_sum_single(f, n - 1, j);
    }
}

/// A sequence without its first element; the empty sequence stays empty.
pub open spec fn tail(p: Seq<real>) -> Seq<real> {
    if p.len() == 0 {
        p
    } else {
        p.drop_first()
    }
}

/// The value at `x` is the lowest coefficient plus `x` times the value of the rest.
pub proof fn lemma_eval_step(p: Seq<real>, x: real)
    ensures
        poly_eval(p, x) == coeff(p, 0) + x * poly_eval(tail(p), x),
        forall|k: int| k >= 0 ==> coeff(tail(p), k) == coeff(p, k + 1),
{
    if p.len() == 0 {
        assert(x * 0real == 0real);
    }
}

/// The value at a point depends on the coefficients alone.
pub proof fn lemma_eval_ext(p: Seq<real>, q: Seq<real>, x: real)
    requires
        forall|k: int| k >= 0 ==> coeff(p, k) == coeff(q, k),
    ensures
        poly_eval(p, x) == poly_eval(q, x),
    decreases p.len() + q.len(),
{
    if p.len() + q.len() > 0 {
        lemma_eval_step(p, x);
        lemma_eval_step(q, x);
        assert forall|k: int| k >= 0 implies coeff(tail(p), k) == coeff(tail(q), k) by {
            assert(coeff(p, k + 1) == coeff(q, k + 1));
        }
        lemma_eval_ext(tail(p), tail(q), x);
        assert(coeff(p, 0) == coeff(q, 0));
    }
}

/// Where the coefficients add, the values add.
pub proof fn lemma_eval_sum(a: Seq<real>, b: Seq<real>, s: Seq<real>, x: real)
    requires
        forall|k: int| k >= 0 ==> coeff(s, k) == coeff(a, k) + coeff(b, k),
    ensures
        poly_eval(s, x) == poly_eval(a, x) + poly_eval(b, x),
    decreases a.len() + b.len() + s.len(),
{
    if a.len() + b.len() + s.len() > 0 {
        lemma_eval_step(a, x);
        lemma_eval_step(b, x);
        lemma_eval_step(s, x);
        assert forall|k: int| k >= 0 implies coeff(tail(s), k) == coeff(tail(a), k) + coeff(
            tail(b),
            k,
        ) by {
            assert(coeff(s, k + 1) == coeff(a, k + 1) + coeff(b, k + 1));
        }
        lemma_eval_sum(tail(a), tail(b), tail(s), x);
        assert(coeff(s, 0) == coeff(a, 0) + coeff(b, 0));
        let ea = poly_eval(tail(a), x);
        let eb = poly_eval(tail(b), x);
        assert(x * (ea + eb) == x * ea + x * eb) by (nonlinear_arith);
    }
}

/// Where the coefficients are multiplied by `c`, so is the value.
pub proof fn lemma_eval_scaled(a: Seq<real>, c: real, s: Seq<real>, x: real)
    requires
        forall|k: int| k >= 0 ==> coeff(s, k) == c * coeff(a, k),
    ensures
        poly_eval(s, x) == c * poly_eval(a, x),
    decreases a.len() + s.len(),
{
    if a.len() + s.len() > 0 {
        lemma_eval_step(a, x);
        lemma_eval_step(s, x);
        assert forall|k: int| k >= 0 implies coeff(tail(s), k) == c * coeff(tail(a), k) by {
            assert(coeff(s, k + 1) == c * coeff(a, k + 1));
        }
        lemma_eval_scaled(tail(a), c, tail(s), x);
        assert(coeff(s, 0) == c * coeff(a, 0));
        let a0 = coeff(a, 0);
        let ea = poly_eval(tail(a), x);
        assert(c * a0 + x * (c * ea) == c * (a0 + x * ea)) by (nonlinear_arith);
    } else {
        assert(c * 0real == 0real);
    }
}

/// Where the coefficients move up by one power, the value is multiplied by `x`.
pub proof fn lemma_eval_shifted(a: Seq<real>, s: Seq<real>, x: real)
    requires
        coeff(s, 0) == 0real,
        forall|k: int| k >= 0 ==> coeff(s, k + 1) == coeff(a, k),
    ensures
        poly_eval(s, x) == x * poly_eval(a, x),
{
    lemma_eval_step(s, x);
    assert forall|k: int| k >= 0 implies coeff(tail(s), k) == coeff(a, k) by {
        assert(coeff(s, k + 1) == coeff(a, k));
    }
    lemma_eval_ext(tail(s), a, x);
}

/// The value of a negation is the negated value.
pub proof fn lemma_eval_neg(a: Seq<real>, x: real)
    ensures
        poly_eval(poly_neg(a), x) == -poly_eval(a, x),
{
    lemma_neg_coeff(a);
    assert forall|k: int| k >= 0 implies coeff(poly_neg(a), k) == (-1real) * coeff(a, k) by {
        assert(coeff(poly_neg(a), k) == -coeff(a, k));
    }
    lemma_eval_scaled(a, -1real, poly_neg(a), x);
}

/// The value of a difference is the difference of the values.
pub proof fn lemma_eval_sub(a: Seq<real>, b: Seq<real>, x: real)
    requires
        a.len() >= 1 || b.len() >= 1,
    ensures
        poly_eval(poly_sub(a, b), x) == poly_eval(a, x) - poly_eval(b, x),
{
    lemma_sub_coeff(a, b);
    lemma_neg_coeff(b);
    assert forall|k: int| k >= 0 implies coeff(poly_sub(a, b), k) == coeff(a, k) + coeff(
        poly_neg(b),
        k,
    ) by {
        assert(coeff(poly_sub(a, b), k) == coeff(a, k) - coeff(b, k));
        assert(coeff(poly_neg(b), k) == -coeff(b, k));
    }
    lemma_eval_sum(a, poly_neg(b), poly_sub(a, b), x);
    lemma_eval_neg(b, x);
}

/// The value of a polynomial divided by a number is the value divided by it.
pub proof fn lemma_eval_div(a: Seq<real>, c: real, x: real)
    requires
        a.len() >= 1,
        c != 0real,
    ensures
        poly_eval(poly_div(a, c), x) == poly_eval(a, x) / c,
{
    lemma_div_coeff(a, c);
    let r = 1real / c;
    assert forall|k: int| k >= 0 implies coeff(poly_div(a, c), k) == r * coeff(a, k) by {
        assert(coeff(poly_div(a, c), k) == coeff(a, k) / c);
        let t = coeff(a, k);
        assert(t / c == (1real / c) * t) by (nonlinear_arith)
            requires
                c != 0real,
        ;
    }
    lemma_eval_scaled(a, r, poly_div(a, c), x);
    let e = poly_eval(a, x);
    assert((1real / c) * e == e / c) by (nonlinear_arith)
        requires
            c != 0real,
    ;
}

/// The convolution is the share of the lowest coefficient of `a` plus the
/// convolution of the rest of `a`, one power lower.
pub proof fn lemma_conv_peel(a: Seq<real>, b: Seq<real>, k: int)
    requires
        a.len() >= 1,
    ensures
        conv(a, b, k) == a[0] * coeff(b, k) + conv(a.drop_first(), b, k - 1),
{
    let f = conv_term(a, b, k);
    let g = conv_term(a.drop_first(), b, k - 1);
    assert forall|i: int| 0 <= i < a.len() - 1 implies #[trigger] g(i) == f(i + 1) by {
        assert(coeff(a.drop_first(), i) == coeff(a, i + 1));
    }
    lemma_sum_peel_first(f, g, a.len() as int);
}

/// The value of a product is the product of the values.
pub proof fn lemma_eval_mul(a: Seq<real>, b: Seq<real>, x: real)
    requires
        a.len() >= 1,
        b.len() >= 1,
    ensures
        poly_eval(poly_mul(a, b), x) == poly_eval(a, x) * poly_eval(b, x),
    decreases a.len(),
{
    let m = poly_mul(a, b);
    let rest = a.drop_first();
    let a0 = a[0];
    lemma_mul_coeff(a, b);
    lemma_eval_step(a, x);
    let eb = poly_eval(b, x);
    if a.len() == 1 {
        assert forall|k: int| k >= 0 implies coeff(m, k) == a0 * coeff(b, k) by {
            lemma_conv_peel(a, b, k);
            assert(conv(rest, b, k - 1) == 0real);
        }
        lemma_eval_scaled(b, a0, m, x);
        assert(poly_eval(rest, x) == 0real);
        assert(x * 0real == 0real);
    } else {
        let lower = poly_mul(rest, b);
        lemma_mul_coeff(rest, b);
        lemma_eval_mul(rest, b, x);
        let s1 = Seq::new(b.len(), |i: int| a0 * b[i]);
        let s2 = seq![0real] + lower;
        assert forall|k: int| k >= 0 implies coeff(s1, k) == a0 * coeff(b, k) by {
            assert(a0 * 0real == 0real);
        }
        assert forall|k: int| k >= 0 implies coeff(s2, k + 1) == coeff(lower, k) by {
            if k < lower.len() {
                assert(s2[k + 1] == lower[k]);
            }
        }
        assert(coeff(s2, 0) == 0real);
        assert forall|k: int| k >= 0 implies coeff(m, k) == coeff(s1, k) + coeff(s2, k) by {
            lemma_conv_peel(a, b, k);
            if k == 0 {
                lemma_conv_outside(rest, b, -1);
            } else {
                assert(coeff(s2, (k - 1) + 1) == coeff(lower, k - 1));
            }
        }
        lemma_eval_sum(s1, s2, m, x);
        lemma_eval_scaled(b, a0, s1, x);
        lemma_eval_shifted(lower, s2, x);
        let er = poly_eval(rest, x);
        assert(a0 * eb + x * (er * eb) == (a0 + x * er) * eb) by (nonlinear_arith);
    }
}

/// The convolution depends on the coefficients of its first argument alone.
pub proof fn lemma_conv_ext(p: Seq<real>, q: Seq<real>, c: Seq<real>, k: int)
    requires
        forall|j: int| j >= 0 ==> coeff(p, j) == coeff(q, j),
    ensures
        conv(p, c, k) == conv(q, c, k),
{
    let n = max_len(p, q) as int;
    lemma_conv_limit(p, c, k, n);
    lemma_conv_limit(q, c, k, n);
    assert forall|i: int| 0 <= i < n implies #[trigger] conv_term(p, c, k)(i) == conv_term(
        q,
        c,
        k,
    )(i) by {
        assert(coeff(p, i) == coeff(q, i));
    }
    lemma_sum_ext(conv_term(p, c, k), conv_term(q, c, k), n);
}

/// Where the coefficients of the first argument add, the convolutions add.
pub proof fn lemma_conv_sum(p: Seq<real>, q: Seq<real>, r: Seq<real>, c: Seq<real>, k: int)
    requires
        forall|j: int| j >= 0 ==> coeff(p, j) == coeff(q, j) + coeff(r, j),
    ensures
        conv(p, c, k) == conv(q, c, k) + conv(r, c, k),
{
    let n = max_len(p, if q.len() >= r.len() {
        q
    } else {
        r
    }) as int;
    lemma_conv_limit(p, c, k, n);
    lemma_conv_limit(q, c, k, n);
    lemma_conv_limit(r, c, k, n);
    assert forall|i: int| 0 <= i < n implies #[trigger] conv_term(p, c, k)(i) == conv_term(
        q,
        c,
        k,
    )(i) + conv_term(r, c, k)(i) by {
        assert(coeff(p, i) == coeff(q, i) + coeff(r, i));
        let u = coeff(q, i);
        let v = coeff(r, i);
        let w = coeff(c, k - i);
        assert((u + v) * w == u * w + v * w) by (nonlinear_arith);
    }
    lemma_sum_add(conv_term(q, c, k), conv_term(r, c, k), conv_term(p, c, k), n);
}

/// Where the coefficients of the first argument are multiplied by `t`, so is
/// the convolution.
pub proof fn lemma_conv_scaled(p: Seq<real>, t: real, q: Seq<real>, c: Seq<real>, k: int)
    requires
        forall|j: int| j >= 0 ==> coeff(p, j) == t * coeff(q, j),
    ensures
        conv(p, c, k) == t * conv(q, c, k),
{
    let n = max_len(p, q) as int;
    lemma_conv_limit(p, c, k, n);
    lemma_conv_limit(q, c, k, n);
    assert forall|i: int| 0 <= i < n implies #[trigger] conv_term(p, c, k)(i) == t * conv_term(
        q,
        c,
        k,
    )(i) by {
        assert(coeff(p, i) == t * coeff(q, i));
        let u = coeff(q, i);
        let w = coeff(c, k - i);
        assert((t * u) * w == t * (u * w)) by (nonlinear_arith);
    }
    lemma_sum_scale(conv_term(q, c, k), t, conv_term(p, c, k), n);
}

/// Where the coefficients of the first argument move up by one power, the
/// convolution is that of one power lower.
pub proof fn lemma_conv_shifted(p: Seq<real>, q: Seq<real>, c: Seq<real>, k: int)
    requires
        coeff(p, 0) == 0real,
        forall|j: int| j >= 0 ==> coeff(p, j + 1) == coeff(q, j),
    ensures
        conv(p, c, k) == conv(q, c, k - 1),
{
    if p.len() == 0 {
        assert forall|j: int| j >= 0 implies coeff(q, j) == coeff(p, j) by {
            assert(coeff(p, j + 1) == coeff(q, j));
        }
        lemma_conv_ext(q, p, c, k - 1);
    } else {
        lemma_conv_peel(p, c, k);
        assert(0real * coeff(c, k) == 0real);
        assert forall|j: int| j >= 0 implies coeff(p.drop_first(), j) == coeff(q, j) by {
            assert(coeff(p, j + 1) == coeff(q, j));
        }
        lemma_conv_ext(p.drop_first(), q, c, k - 1);
    }
}

/// One coefficient of the associative law of multiplication.
pub proof fn lemma_mul_assoc_coeff(a: Seq<real>, b: Seq<real>, c: Seq<real>, k: int)
    requires
        a.len() >= 1,
        b.len() >= 1,
        c.len() >= 1,
        k >= 0,
    ensures
        conv(poly_mul(a, b), c, k) == conv(a, poly_mul(b, c), k),
    decreases a.len(),
{
    let ab = poly_mul(a, b);
    let bc = poly_mul(b, c);
    let rest = a.drop_first();
    let a0 = a[0];
    lemma_mul_coeff(a, b);
    lemma_mul_coeff(b, c);
    lemma_conv_peel(a, bc, k);
    assert(coeff(bc, k) == conv(b, c, k));
    if a.len() == 1 {
        assert forall|j: int| j >= 0 implies coeff(ab, j) == a0 * coeff(b, j) by {
            lemma_conv_peel(a, b, j);
            assert(conv(rest, b, j - 1) == 0real);
        }
        lemma_conv_scaled(ab, a0, b, c, k);
        assert(conv(rest, bc, k - 1) == 0real);
    } else {
        let lower = poly_mul(rest, b);
        lemma_mul_coeff(rest, b);
        let s1 = Seq::new(b.len(), |i: int| a0 * b[i]);
        let s2 = seq![0real] + lower;
        assert forall|j: int| j >= 0 implies coeff(s1, j) == a0 * coeff(b, j) by {
            assert(a0 * 0real == 0real);
        }
        assert forall|j: int| j >= 0 implies coeff(s2, j + 1) == coeff(lower, j) by {
            if j < lower.len() {
                assert(s2[j + 1] == lower[j]);
            }
        }
        assert(coeff(s2, 0) == 0real);
        assert forall|j: int| j >= 0 implies coeff(ab, j) == coeff(s1, j) + coeff(s2, j) by {
            lemma_conv_peel(a, b, j);
            if j == 0 {
                lemma_conv_outside(rest, b, -1);
            } else {
                assert(coeff(s2, (j - 1) + 1) == coeff(lower, j - 1));
            }
        }
        lemma_conv_sum(ab, s1, s2, c, k);
        lemma_conv_scaled(s1, a0, b, c, k);
        lemma_conv_shifted(s2, lower, c, k);
        if k == 0 {
            lemma_conv_outside(lower, c, -1);
            lemma_conv_outside(rest, bc, -1);
        } else {
            lemma_mul_assoc_coeff(rest, b, c, k - 1);
        }
    }
}

/// Multiplication is associative.
pub proof fn lemma_mul_assoc(a: Seq<real>, b: Seq<real>, c: Seq<real>)
    requires
        a.len() >= 1,
        b.len() >= 1,
        c.len() >= 1,
    ensures
        poly_mul(poly_mul(a, b), c) == poly_mul(a, poly_mul(b, c)),
{
    let ab = poly_mul(a, b);
    let bc = poly_mul(b, c);
    lemma_mul_coeff(a, b);
    lemma_mul_coeff(b, c);
    lemma_mul_coeff(ab, c);
    lemma_mul_coeff(a, bc);
    assert forall|k: int| k >= 0 implies coeff(poly_mul(ab, c), k) == coeff(poly_mul(a, bc), k) by {
        lemma_mul_assoc_coeff(a, b, c, k);
    }
    lemma_trimmed_unique(poly_mul(ab, c), poly_mul(a, bc));
}

/// One is neutral for multiplication.
pub proof fn lemma_mul_one(a: Seq<real>)
    requires
        is_trimmed(a),
    ensures
        poly_mul(a, seq![1real]) == a,
        poly_mul(seq![1real], a) == a,
{
    let one = seq![1real];
    lemma_mul_coeff(a, one);
    lemma_mul_coeff(one, a);
    assert forall|k: int| k >= 0 implies coeff(poly_mul(a, one), k) == coeff(a, k) by {
        let f = conv_term(a, one, k);
        if k < a.len() {
            assert forall|i: int| 0 <= i < a.len() && i != k implies #[trigger] f(i) == 0real by {
                assert(coeff(one, k - i) == 0real);
                assert(coeff(a, i) * 0real == 0real);
            }
            lemma_sum_single(f, a.len() as int, k);
            assert(f(k) == coeff(a, k) * coeff(one, 0));
            assert(coeff(one, 0) == 1real);
            assert(coeff(a, k) * 1real == coeff(a, k));
            assert(conv(a, one, k) == coeff(a, k));
        } else {
            assert forall|i: int| 0 <= i < a.len() implies #[trigger] f(i) == 0real by {
                assert(coeff(one, k - i) == 0real);
                assert(coeff(a, i) * 0real == 0real);
            }
            lemma_sum_zero(f, a.len() as int);
            assert(conv(a, one, k) == 0real);
        }
        assert(coeff(poly_mul(a, one), k) == conv(a, one, k));
    }
    lemma_trimmed_unique(poly_mul(a, one), a);
    assert forall|k: int| k >= 0 implies coeff(poly_mul(one, a), k) == coeff(a, k) by {
        lemma_conv_peel(one, a, k);
        assert(conv(one.drop_first(), a, k - 1) == 0real);
        assert(1real * coeff(a, k) == coeff(a, k));
    }
    lemma_trimmed_unique(poly_mul(one, a), a);
}

/// A power is trimmed, and its degree is at most the exponent times the degree.
pub proof fn lemma_pow_shape(a: Seq<real>, n: nat)
    requires
        a.len() >= 1,
    ensures
        is_trimmed(poly_pow(a, n)),
        poly_pow(a, n).len() <= (a.len() - 1) * n + 1,
    decreases n,
{
    if n > 0 {
        lemma_pow_shape(a, (n - 1) as nat);
        lemma_mul_coeff(poly_pow(a, (n - 1) as nat), a);
        assert((a.len() - 1) * (n - 1) + 1 + a.len() - 1 == (a.len() - 1) * n + 1)
            by (nonlinear_arith);
    } else {
        assert((a.len() - 1) * 0 == 0);
    }
}

/// Powers of one polynomial multiply by adding the exponents.
pub proof fn lemma_pow_add(a: Seq<real>, m: nat, n: nat)
    requires
        a.len() >= 1,
    ensures
        poly_pow(a, m + n) == poly_mul(poly_pow(a, m), poly_pow(a, n)),
    decreases n,
{
    lemma_pow_shape(a, m);
    if n == 0 {
        lemma_mul_one(poly_pow(a, m));
    } else {
        let k = (n - 1) as nat;
        lemma_pow_shape(a, k);
        lemma_pow_add(a, m, k);
        lemma_mul_assoc(poly_pow(a, m), poly_pow(a, k), a);
        assert(poly_pow(a, m + n) == poly_mul(poly_pow(a, (m + n - 1) as nat), a));
    }
}

/// Adding back what was subtracted restores the polynomial.
pub proof fn lemma_sub_then_add(a: Seq<real>, b: Seq<real>)
    requires
        is_trimmed(a),
        b.len() >= 1,
    ensures
        poly_add(poly_sub(a, b), b) == a,
{
    lemma_sub_coeff(a, b);
    lemma_add_coeff(poly_sub(a, b), b);
    assert forall|k: int| k >= 0 implies coeff(poly_add(poly_sub(a, b), b), k) == coeff(a, k) by {
        assert(coeff(poly_add(poly_sub(a, b), b), k) == coeff(poly_sub(a, b), k) + coeff(b, k));
        assert(coeff(poly_sub(a, b), k) == coeff(a, k) - coeff(b, k));
    }
    lemma_trimmed_unique(poly_add(poly_sub(a, b), b), a);
}

} // verus!
