//! The two bases in which a polynomial can be written out, and the change
//! from the power basis to the binomial basis.

use crate::algebra::{
    lemma_div_coeff, lemma_mul_coeff, lemma_scale_coeff, lemma_sub_coeff, lemma_sub_then_add,
    lemma_sum_single, lemma_trimmed_unique,
};
use crate::format::{format_from_coeffs, render};
use crate::lowest_terms::fractions_from;
use crate::pascal::{
    choose_spec, factorial, factorial_spec, lemma_factorial_positive, lemma_pick_shape, pick,
    pick_spec,
};
use crate::polynomial::{
    all_canonical, coeff, conv, conv_term, is_trimmed, lemma_value_whole, lemma_value_zero,
    poly_add, poly_scale, poly_sub, values, variable, x, Polynomial,
};
use crate::rational::{
    ratio_value, rational_from_integer, rational_is_zero, rational_mul, rational_zero,
};
use num_bigint::BigInt;
use num_rational::Ratio;
use vstd::prelude::*;

verus! {

/// The basis in which a polynomial is written out.
#[derive(Debug, Clone, Copy, PartialEq, Eq)]
pub enum Basis {
    /// Powers of the variable: `1`, `x`, `x^2`, ...
    Standard,
    /// Binomial polynomials of the variable: `1`, `x`, `C(x,2)`, ...
    Binomial,
}

/// The coefficients in the binomial basis of the powers below `m`, found
/// from the top down: the coefficient `c` of the highest power left gives
/// the binomial coefficient `c * n!`, and `c` times the falling-factorial
/// polynomial of degree `n` is taken off, which cancels that power.
pub open spec fn eliminate(residual: Seq<real>, m: nat) -> Seq<real>
    decreases m,
{
    if m == 0 {
        Seq::<real>::empty()
    } else {
        let n = (m - 1) as nat;
        let c = coeff(residual, n as int);
        eliminate(poly_sub(residual, poly_scale(pick_spec(variable(), n), c)), n).push(
            c * (factorial_spec(n) as real),
        )
    }
}

/// The coefficients of a polynomial in the binomial basis.
pub open spec fn binomial_coords(p: Seq<real>) -> Seq<real> {
    eliminate(p, p.len())
}

/// The polynomial with the coefficients `b` in the binomial basis: the sum
/// of `b[n]` times the binomial polynomial of degree `n`.
pub open spec fn from_binomial(b: Seq<real>) -> Seq<real>
    decreases b.len(),
{
    if b.len() == 0 {
        seq![0real]
    } else {
        poly_add(
            from_binomial(b.drop_last()),
            poly_scale(choose_spec(variable(), (b.len() - 1) as nat), b.last()),
        )
    }
}

/// The falling-factorial polynomial of the variable has leading coefficient one.
pub proof fn lemma_pick_monic(n: nat)
    ensures
        coeff(pick_spec(variable(), n), n as int) == 1real,
        pick_spec(variable(), n).len() == n + 1,
    decreases n,
{
    lemma_pick_shape(variable(), n);
    if n > 0 {
        let k = (n - 1) as nat;
        let lower = pick_spec(variable(), k);
        let factor = poly_sub(variable(), seq![k as real]);
        let expected = seq![-(k as real), 1real];
        lemma_pick_monic(k);
        lemma_pick_shape(variable(), k);
        lemma_sub_coeff(variable(), seq![k as real]);
        assert forall|j: int| j >= 0 implies coeff(factor, j) == coeff(expected, j) by {
            assert(coeff(factor, j) == coeff(variable(), j) - coeff(seq![k as real], j));
        }
        lemma_trimmed_unique(factor, expected);
        lemma_mul_coeff(lower, factor);
        let f = conv_term(lower, factor, n as int);
        assert forall|i: int| 0 <= i < lower.len() && i != k implies #[trigger] f(i) == 0real by {
            assert(coeff(factor, n - i) == 0real);
            assert(coeff(lower, i) * 0real == 0real);
        }
        lemma_sum_single(f, lower.len() as int, k as int);
        assert(f(k as int) == coeff(lower, k as int) * coeff(factor, 1));
        assert(1real * 1real == 1real);
        assert(conv(lower, factor, n as int) == 1real);
        assert(coeff(pick_spec(variable(), n), n as int) == 1real);
    }
}

/// A binomial polynomial times `c * n!` is the falling-factorial polynomial
/// times `c`.
pub proof fn lemma_scaled_choose(n: nat, c: real)
    ensures
        poly_scale(choose_spec(variable(), n), c * (factorial_spec(n) as real)) == poly_scale(
            pick_spec(variable(), n),
            c,
        ),
{
    let p = pick_spec(variable(), n);
    let f = factorial_spec(n) as real;
    let b = choose_spec(variable(), n);
    lemma_pick_shape(variable(), n);
    lemma_factorial_positive(n);
    lemma_div_coeff(p, f);
    lemma_scale_coeff(b, c * f);
    lemma_scale_coeff(p, c);
    assert forall|k: int| k >= 0 implies coeff(poly_scale(b, c * f), k) == coeff(
        poly_scale(p, c),
        k,
    ) by {
        let t = coeff(p, k);
        assert(coeff(b, k) == t / f);
        assert((t / f) * (c * f) == t * c) by (nonlinear_arith)
            requires
                f != 0real,
        ;
    }
    lemma_trimmed_unique(poly_scale(b, c * f), poly_scale(p, c));
}

/// Taking off the leading term leaves a polynomial of lower degree.
pub proof fn lemma_eliminate_step(r: Seq<real>, n: nat)
    requires
        is_trimmed(r),
        r.len() <= n + 1,
    ensures
        is_trimmed(poly_sub(r, poly_scale(pick_spec(variable(), n), coeff(r, n as int)))),
        n > 0 ==> poly_sub(r, poly_scale(pick_spec(variable(), n), coeff(r, n as int))).len() <= n,
        n == 0 ==> poly_sub(r, poly_scale(pick_spec(variable(), n), coeff(r, n as int))) == seq![
            0real,
        ],
{
    let c = coeff(r, n as int);
    let p = pick_spec(variable(), n);
    let u = poly_scale(p, c);
    let next = poly_sub(r, u);
    lemma_pick_monic(n);
    lemma_scale_coeff(p, c);
    lemma_sub_coeff(r, u);
    assert forall|k: int| k >= n implies coeff(next, k) == 0real by {
        assert(coeff(next, k) == coeff(r, k) - coeff(u, k));
        assert(coeff(u, k) == coeff(p, k) * c);
        if k == n {
            assert(1real * c == c);
        } else {
            assert(0real * c == 0real);
        }
    }
    if next.len() > 1 {
        assert(coeff(next, next.len() - 1) != 0real);
    }
    if n == 0 {
        assert(coeff(next, 0) == 0real);
        assert(next =~= seq![0real]);
    }
}

/// Round trip: the polynomial with the binomial coefficients that the
/// elimination finds for a polynomial is that polynomial.
pub proof fn lemma_eliminate_round_trip(r: Seq<real>, m: nat)
    requires
        is_trimmed(r),
        m > 0 ==> r.len() <= m,
        m == 0 ==> r == seq![0real],
    ensures
        eliminate(r, m).len() == m,
        from_binomial(eliminate(r, m)) == r,
    decreases m,
{
    if m > 0 {
        let n = (m - 1) as nat;
        let c = coeff(r, n as int);
        let u = poly_scale(pick_spec(variable(), n), c);
        let next = poly_sub(r, u);
        let b = eliminate(r, m);
        lemma_eliminate_step(r, n);
        lemma_eliminate_round_trip(next, n);
        lemma_scaled_choose(n, c);
        assert(b.drop_last() =~= eliminate(next, n));
        assert(b.last() == c * (factorial_spec(n) as real));
        lemma_pick_shape(variable(), n);
        lemma_scale_coeff(pick_spec(variable(), n), c);
        lemma_sub_then_add(r, u);
    }
}

/// Round trip: a polynomial is the sum of its coefficients in the binomial
/// basis times the binomial polynomials.
pub proof fn lemma_binomial_round_trip(p: Seq<real>)
    requires
        is_trimmed(p),
    ensures
        binomial_coords(p).len() == p.len(),
        from_binomial(binomial_coords(p)) == p,
{
    lemma_eliminate_round_trip(p, p.len());
}

impl Polynomial {
    /// The coefficients of the polynomial in the binomial basis, as many as
    /// in the power basis.
    pub fn to_binomial_coeffs(&self) -> (b: Vec<Ratio<BigInt>>)
        ensures
            all_canonical(b@),
            values(b@) == binomial_coords(self@),
            b@.len() == self@.len(),
            from_binomial(values(b@)) == self@,
    {
        let mut residual = self.clone();
        let len = self.coeffs().len();
        let ghost p = self@;
        assert(is_trimmed(p));
        let mut out: Vec<Ratio<BigInt>> = Vec::new();
        let mut k: usize = 0;
        while k < len
            invariant
                k <= len,
                out@.len() == k,
                all_canonical(out@),
                forall|j: int| 0 <= j < k ==> ratio_value(#[trigger] out@[j]) == 0real,
            decreases len - k,
        {
            let z = rational_zero();
            proof {
                lemma_value_whole(z);
            }
            out.push(z);
            k += 1;
        }
        let mut m: usize = len;
        assert(values(out@).subrange(m as int, len as int) =~= Seq::<real>::empty());
        assert(eliminate(p, len as nat) =~= eliminate(residual@, m as nat) + values(
            out@,
        ).subrange(m as int, len as int));
        while m > 0
            invariant
                m <= len,
                len == p.len(),
                out@.len() == len,
                all_canonical(out@),
                forall|j: int| 0 <= j < m ==> ratio_value(#[trigger] out@[j]) == 0real,
                eliminate(p, len as nat) == eliminate(residual@, m as nat) + values(
                    out@,
                ).subrange(m as int, len as int),
            decreases m,
        {
            let ghost before = values(out@);
            let ghost r = residual@;
            m -= 1;
            let c = residual.coeff_at(m);
            let ghost cv = ratio_value(c);
            let ghost next = poly_sub(r, poly_scale(pick_spec(variable(), m as nat), cv));
            proof {
                lemma_value_zero(c);
            }
            if !rational_is_zero(&c) {
                let scale = rational_from_integer(factorial(m));
                proof {
                    lemma_value_whole(scale);
                }
                out.set(m, rational_mul(&c, &scale));
                residual = residual.sub(pick(&x(), m).scale(&c));
            } else {
                proof {
                    lemma_pick_shape(variable(), m as nat);
                    lemma_scale_coeff(pick_spec(variable(), m as nat), 0real);
                    let u = poly_scale(pick_spec(variable(), m as nat), 0real);
                    lemma_sub_coeff(r, u);
                    assert forall|j: int| j >= 0 implies coeff(next, j) == coeff(r, j) by {
                        assert(coeff(u, j) == coeff(pick_spec(variable(), m as nat), j) * 0real);
                        assert(coeff(next, j) == coeff(r, j) - coeff(u, j));
                    }
                    lemma_trimmed_unique(next, r);
                    assert(cv * (factorial_spec(m as nat) as real) == 0real) by (nonlinear_arith)
                        requires
                            cv == 0real,
                    ;
                }
            }
            proof {
                let after = values(out@);
                assert(after[m as int] == cv * (factorial_spec(m as nat) as real));
                assert(after.subrange(m as int, len as int) =~= seq![after[m as int]]
                    + before.subrange(m + 1, len as int));
                assert(eliminate(r, (m + 1) as nat) == eliminate(next, m as nat).push(
                    after[m as int],
                ));
                assert(eliminate(next, m as nat).push(after[m as int]) + before.subrange(
                    m + 1,
                    len as int,
                ) =~= eliminate(next, m as nat) + after.subrange(m as int, len as int));
            }
        }
        assert(values(out@).subrange(0, len as int) =~= values(out@));
        assert(eliminate(residual@, 0) + values(out@) =~= values(out@));
        proof {
            lemma_binomial_round_trip(p);
        }
        out
    }
}

impl Basis {
    /// Writes `poly` out in this basis: in the power basis from its own
    /// coefficients, in the binomial basis from its coefficients there.
    pub fn format(&self, poly: &Polynomial) -> (text: String)
        ensures
            text@ == match *self {
                Basis::Standard => render(fractions_from(poly@), Basis::Standard),
                Basis::Binomial => render(
                    fractions_from(binomial_coords(poly@)),
                    Basis::Binomial,
                ),
            },
    {
        match self {
            Basis::Standard => format_from_coeffs(poly.coeffs(), Basis::Standard),
            Basis::Binomial => {
                let coords = poly.to_binomial_coeffs();
                format_from_coeffs(coords.as_slice(), Basis::Binomial)
            },
        }
    }
}

} // verus!
