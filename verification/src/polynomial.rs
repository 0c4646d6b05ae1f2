//! The polynomial type and its arithmetic.
//!
//! A polynomial is modelled by the sequence of its coefficients as real
//! numbers, lowest power first. Every value of [`Polynomial`] holds at least
//! one coefficient and no zero coefficient above its degree, so the zero
//! polynomial is the single sequence `[0]`.

use crate::algebra::{lemma_leading_nonzero, lemma_mul_one, lemma_pow_add, lemma_pow_shape};
use crate::rational::{
    is_canonical, lemma_integer_in_lowest_terms, lemma_negation_in_lowest_terms, ratio_denom,
    ratio_fraction, ratio_numer, ratio_value, rational_add, rational_clone, rational_div,
    rational_eq, rational_is_zero, rational_mul, rational_neg, rational_one, rational_sub,
    rational_zero,
};
use num_bigint::BigInt;
use num_rational::Ratio;
use vstd::prelude::*;

verus! {

/// The coefficient of the `i`-th power, zero outside the sequence.
pub open spec fn coeff(p: Seq<real>, i: int) -> real {
    if 0 <= i < p.len() {
        p[i]
    } else {
        0real
    }
}

/// Every coefficient is zero.
pub open spec fn is_zero_poly(p: Seq<real>) -> bool {
    forall|i: int| 0 <= i < p.len() ==> p[i] == 0real
}

/// At least one coefficient, and the last one non-zero unless it is the only one.
pub open spec fn is_trimmed(p: Seq<real>) -> bool {
    p.len() >= 1 && (p.len() > 1 ==> p.last() != 0real)
}

/// `p` without the zero coefficients at its upper end, keeping at least one.
pub open spec fn trim(p: Seq<real>) -> Seq<real>
    decreases p.len(),
{
    if p.len() > 1 && p.last() == 0real {
        trim(p.drop_last())
    } else {
        p
    }
}

/// The larger of two lengths.
pub open spec fn max_len(a: Seq<real>, b: Seq<real>) -> nat {
    if a.len() >= b.len() {
        a.len()
    } else {
        b.len()
    }
}

/// The sum of two polynomials: coefficient by coefficient, then trimmed.
pub open spec fn poly_add(a: Seq<real>, b: Seq<real>) -> Seq<real> {
    trim(Seq::new(max_len(a, b), |i: int| coeff(a, i) + coeff(b, i)))
}

/// The negation of a polynomial.
pub open spec fn poly_neg(a: Seq<real>) -> Seq<real> {
    Seq::new(a.len(), |i: int| -a[i])
}

/// The difference of two polynomials: coefficient by coefficient, then trimmed.
pub open spec fn poly_sub(a: Seq<real>, b: Seq<real>) -> Seq<real> {
    trim(Seq::new(max_len(a, b), |i: int| coeff(a, i) - coeff(b, i)))
}

/// The sum of `f(0)`, ..., `f(n - 1)`.
pub open spec fn sum_to(f: spec_fn(int) -> real, n: int) -> real
    decreases n,
{
    if n <= 0 {
        0real
    } else {
        sum_to(f, n - 1) + f(n - 1)
    }
}

/// What the `i`-th coefficient of `a` contributes to the `k`-th coefficient
/// of the product of `a` and `b`.
pub open spec fn conv_term(a: Seq<real>, b: Seq<real>, k: int) -> spec_fn(int) -> real {
    |i: int| coeff(a, i) * coeff(b, k - i)
}

/// The `k`-th coefficient of the product: the sum of `a[i] * b[j]` over all
/// `i` and `j` with `i + j == k`.
pub open spec fn conv(a: Seq<real>, b: Seq<real>, k: int) -> real {
    sum_to(conv_term(a, b, k), a.len() as int)
}

/// The product of two polynomials: zero if either is zero, else the
/// convolution of the coefficients, trimmed.
pub open spec fn poly_mul(a: Seq<real>, b: Seq<real>) -> Seq<real> {
    if is_zero_poly(a) || is_zero_poly(b) {
        seq![0real]
    } else {
        trim(Seq::new((a.len() + b.len() - 1) as nat, |k: int| conv(a, b, k)))
    }
}

/// The `n`-th power of a polynomial: one multiplied `n` times by `a`.
pub open spec fn poly_pow(a: Seq<real>, n: nat) -> Seq<real>
    decreases n,
{
    if n == 0 {
        seq![1real]
    } else {
        poly_mul(poly_pow(a, (n - 1) as nat), a)
    }
}

/// A polynomial times a number: coefficient by coefficient, then trimmed.
pub open spec fn poly_scale(a: Seq<real>, c: real) -> Seq<real> {
    trim(Seq::new(a.len(), |i: int| a[i] * c))
}

/// A polynomial divided by a non-zero number, coefficient by coefficient.
pub open spec fn poly_div(a: Seq<real>, c: real) -> Seq<real> {
    trim(Seq::new(a.len(), |i: int| a[i] / c))
}

/// The value of a polynomial at `x`.
pub open spec fn poly_eval(p: Seq<real>, x: real) -> real
    decreases p.len(),
{
    if p.len() == 0 {
        0real
    } else {
        p[0] + x * poly_eval(p.drop_first(), x)
    }
}

/// The bare variable as a coefficient sequence.
pub open spec fn variable() -> Seq<real> {
    seq![0real, 1real]
}

/// The values of a run of stored fractions.
pub open spec fn values(s: Seq<Ratio<BigInt>>) -> Seq<real> {
    Seq::new(s.len(), |i: int| ratio_value(s[i]))
}

/// Every stored fraction of the run is in lowest terms.
pub open spec fn all_canonical(s: Seq<Ratio<BigInt>>) -> bool {
    forall|i: int| 0 <= i < s.len() ==> is_canonical(#[trigger] s[i])
}

/// A fraction with a non-zero denominator is zero exactly when its numerator is.
pub proof fn lemma_value_zero(r: Ratio<BigInt>)
    requires
        ratio_denom(r) != 0,
    ensures
        ratio_value(r) == 0real <==> ratio_numer(r) == 0,
{
    let n = ratio_numer(r);
    let d = ratio_denom(r);
    assert((n as real / d as real == 0real) <==> n == 0) by (nonlinear_arith)
        requires
            d != 0,
    ;
}

/// A fraction with denominator one has the value of its numerator.
pub proof fn lemma_value_whole(r: Ratio<BigInt>)
    requires
        ratio_denom(r) == 1,
    ensures
        ratio_value(r) == ratio_numer(r) as real,
        is_canonical(r),
{
    let n = ratio_numer(r);
    assert(n as real / 1int as real == n as real) by (nonlinear_arith);
    lemma_integer_in_lowest_terms(n);
}

/// The value of a fraction whose numerator changed sign.
pub proof fn lemma_value_negated(a: Ratio<BigInt>, b: Ratio<BigInt>)
    requires
        ratio_denom(a) != 0,
        ratio_numer(b) == -ratio_numer(a),
        ratio_denom(b) == ratio_denom(a),
    ensures
        ratio_value(b) == -ratio_value(a),
{
    let n = ratio_numer(a);
    let d = ratio_denom(a);
    assert((-n) as real / d as real == -(n as real / d as real)) by (nonlinear_arith)
        requires
            d != 0,
    ;
}

/// The fraction `0/1`.
fn zero_fraction() -> (z: Ratio<BigInt>)
    ensures
        is_canonical(z),
        ratio_value(z) == 0real,
        ratio_fraction(z) == (0int, 1int),
{
    let z = rational_zero();
    proof {
        lemma_value_whole(z);
    }
    z
}

/// The fraction `1/1`.
fn one_fraction() -> (o: Ratio<BigInt>)
    ensures
        is_canonical(o),
        ratio_value(o) == 1real,
        ratio_fraction(o) == (1int, 1int),
{
    let o = rational_one();
    proof {
        lemma_value_whole(o);
    }
    o
}

/// A polynomial with exact rational coefficients.
#[derive(Debug)]
pub struct Polynomial {
    coeffs: Vec<Ratio<BigInt>>,
}

impl View for Polynomial {
    type V = Seq<real>;

    closed spec fn view(&self) -> Seq<real> {
        values(self.coeffs@)
    }
}

/// Removes zero coefficients from the upper end, keeping at least one.
fn trim_coeffs(coeffs: &mut Vec<Ratio<BigInt>>)
    requires
        old(coeffs)@.len() >= 1,
        all_canonical(old(coeffs)@),
    ensures
        all_canonical(final(coeffs)@),
        values(final(coeffs)@) == trim(values(old(coeffs)@)),
        is_trimmed(values(final(coeffs)@)),
{
    loop
        invariant
            coeffs@.len() >= 1,
            all_canonical(coeffs@),
            trim(values(coeffs@)) == trim(values(old(coeffs)@)),
        ensures
            is_trimmed(values(coeffs@)),
            values(coeffs@) == trim(values(old(coeffs)@)),
        decreases coeffs@.len(),
    {
        let n = coeffs.len();
        proof {
            lemma_value_zero(coeffs@[n - 1]);
        }
        if n > 1 && rational_is_zero(&coeffs[n - 1]) {
            assert(values(coeffs@).drop_last() == values(coeffs@.drop_last()));
            coeffs.pop();
        } else {
            break ;
        }
    }
}

impl Polynomial {
    #[verifier::type_invariant]
    spec fn inv(self) -> bool {
        &&& all_canonical(self.coeffs@)
        &&& is_trimmed(values(self.coeffs@))
    }

    /// The polynomial of degree zero that holds `val`.
    pub fn constant(val: Ratio<BigInt>) -> (p: Polynomial)
        requires
            is_canonical(val),
        ensures
            p@ == seq![ratio_value(val)],
    {
        let mut coeffs: Vec<Ratio<BigInt>> = Vec::new();
        coeffs.push(val);
        assert(values(coeffs@) == seq![ratio_value(val)]);
        Polynomial { coeffs }
    }

    /// The length of the coefficient sequence less one.
    pub fn degree(&self) -> (d: usize)
        ensures
            d == self@.len() - 1,
            is_trimmed(self@),
    {
        proof {
            use_type_invariant(self);
        }
        self.coeffs.len() - 1
    }

    /// The coefficients as stored fractions, lowest power first.
    pub fn coeffs(&self) -> (c: &[Ratio<BigInt>])
        ensures
            values(c@) == self@,
            all_canonical(c@),
            is_trimmed(self@),
    {
        proof {
            use_type_invariant(self);
        }
        self.coeffs.as_slice()
    }

    /// The coefficient of the `n`-th power, zero above the degree.
    pub fn coeff_at(&self, n: usize) -> (c: Ratio<BigInt>)
        ensures
            is_canonical(c),
            ratio_value(c) == coeff(self@, n as int),
            is_trimmed(self@),
    {
        proof {
            use_type_invariant(self);
        }
        if n < self.coeffs.len() {
            rational_clone(&self.coeffs[n])
        } else {
            let z = rational_zero();
            proof {
                lemma_value_whole(z);
            }
            z
        }
    }

    /// The single coefficient of a polynomial of degree zero, nothing otherwise.
    pub fn extract_constant(&self) -> (c: Option<Ratio<BigInt>>)
        ensures
            c is Some <==> self@.len() == 1,
            c is Some ==> is_canonical(c->0) && ratio_value(c->0) == self@[0],
    {
        proof {
            use_type_invariant(self);
        }
        if self.coeffs.len() == 1 {
            Some(rational_clone(&self.coeffs[0]))
        } else {
            None
        }
    }

    /// Whether every coefficient is zero.
    pub fn is_zero(&self) -> (z: bool)
        ensures
            z == is_zero_poly(self@),
            z == (self@ == seq![0real]),
    {
        proof {
            use_type_invariant(self);
        }
        let mut i: usize = 0;
        while i < self.coeffs.len()
            invariant
                i <= self.coeffs@.len(),
                all_canonical(self.coeffs@),
                forall|j: int| 0 <= j < i ==> values(self.coeffs@)[j] == 0real,
            decreases self.coeffs@.len() - i,
        {
            proof {
                lemma_value_zero(self.coeffs@[i as int]);
            }
            if !rational_is_zero(&self.coeffs[i]) {
                assert(self@[i as int] != 0real);
                return false;
            }
            i += 1;
        }
        assert(self@ == seq![0real]);
        true
    }

    /// The negation: every coefficient changes sign.
    pub fn neg(self) -> (r: Polynomial)
        ensures
            r@ == poly_neg(self@),
            is_trimmed(r@),
    {
        proof {
            use_type_invariant(&self);
        }
        let mut out: Vec<Ratio<BigInt>> = Vec::new();
        let mut i: usize = 0;
        while i < self.coeffs.len()
            invariant
                i <= self.coeffs@.len(),
                out@.len() == i,
                all_canonical(self.coeffs@),
                all_canonical(out@),
                forall|j: int|
                    0 <= j < i ==> ratio_value(#[trigger] out@[j]) == -ratio_value(
                        self.coeffs@[j],
                    ),
            decreases self.coeffs@.len() - i,
        {
            let c = rational_neg(&self.coeffs[i]);
            proof {
                let old_c = self.coeffs@[i as int];
                lemma_negation_in_lowest_terms(ratio_numer(old_c), ratio_denom(old_c));
                lemma_value_negated(old_c, c);
            }
            out.push(c);
            i += 1;
        }
        assert(values(out@) == poly_neg(values(self.coeffs@)));
        Polynomial { coeffs: out }
    }

    /// The sum of two polynomials.
    pub fn add(self, rhs: Polynomial) -> (r: Polynomial)
        ensures
            r@ == poly_add(self@, rhs@),
            is_trimmed(r@),
            !is_zero_poly(r@) ==> r@[r@.len() - 1] != 0real,
    {
        self.add_ref(&rhs)
    }

    /// The sum of two polynomials, leaving both in place.
    pub fn add_ref(&self, rhs: &Polynomial) -> (r: Polynomial)
        ensures
            r@ == poly_add(self@, rhs@),
            is_trimmed(r@),
            !is_zero_poly(r@) ==> r@[r@.len() - 1] != 0real,
    {
        proof {
            use_type_invariant(self);
            use_type_invariant(rhs);
        }
        let la = self.coeffs.len();
        let lb = rhs.coeffs.len();
        let n = if la >= lb {
            la
        } else {
            lb
        };
        let mut out: Vec<Ratio<BigInt>> = Vec::new();
        let mut i: usize = 0;
        while i < n
            invariant
                i <= n,
                la == self.coeffs@.len(),
                lb == rhs.coeffs@.len(),
                n == max_len(self@, rhs@),
                out@.len() == i,
                all_canonical(self.coeffs@),
                all_canonical(rhs.coeffs@),
                all_canonical(out@),
                forall|j: int|
                    0 <= j < i ==> ratio_value(#[trigger] out@[j]) == coeff(self@, j) + coeff(
                        rhs@,
                        j,
                    ),
            decreases n - i,
        {
            let c = if i < la && i < lb {
                rational_add(&self.coeffs[i], &rhs.coeffs[i])
            } else if i < la {
                rational_clone(&self.coeffs[i])
            } else {
                rational_clone(&rhs.coeffs[i])
            };
            out.push(c);
            i += 1;
        }
        assert(values(out@) == Seq::new(
            max_len(self@, rhs@),
            |i: int| coeff(self@, i) + coeff(rhs@, i),
        ));
        trim_coeffs(&mut out);
        proof {
            if !is_zero_poly(values(out@)) {
                lemma_leading_nonzero(values(out@));
            }
        }
        Polynomial { coeffs: out }
    }

    /// The difference of two polynomials.
    pub fn sub(self, rhs: Polynomial) -> (r: Polynomial)
        ensures
            r@ == poly_sub(self@, rhs@),
            is_trimmed(r@),
            !is_zero_poly(r@) ==> r@[r@.len() - 1] != 0real,
    {
        self.sub_ref(&rhs)
    }

    /// The difference of two polynomials, leaving both in place.
    pub fn sub_ref(&self, rhs: &Polynomial) -> (r: Polynomial)
        ensures
            r@ == poly_sub(self@, rhs@),
            is_trimmed(r@),
            !is_zero_poly(r@) ==> r@[r@.len() - 1] != 0real,
    {
        proof {
            use_type_invariant(self);
            use_type_invariant(rhs);
        }
        let la = self.coeffs.len();
        let lb = rhs.coeffs.len();
        let n = if la >= lb {
            la
        } else {
            lb
        };
        let mut out: Vec<Ratio<BigInt>> = Vec::new();
        let mut i: usize = 0;
        while i < n
            invariant
                i <= n,
                la == self.coeffs@.len(),
                lb == rhs.coeffs@.len(),
                n == max_len(self@, rhs@),
                out@.len() == i,
                all_canonical(self.coeffs@),
                all_canonical(rhs.coeffs@),
                all_canonical(out@),
                forall|j: int|
                    0 <= j < i ==> ratio_value(#[trigger] out@[j]) == coeff(self@, j) - coeff(
                        rhs@,
                        j,
                    ),
            decreases n - i,
        {
            let c = if i < la && i < lb {
                rational_sub(&self.coeffs[i], &rhs.coeffs[i])
            } else if i < la {
                rational_clone(&self.coeffs[i])
            } else {
                let c = rational_neg(&rhs.coeffs[i]);
                proof {
                    let old_c = rhs.coeffs@[i as int];
                    lemma_negation_in_lowest_terms(ratio_numer(old_c), ratio_denom(old_c));
                    lemma_value_negated(old_c, c);
                }
                c
            };
            out.push(c);
            i += 1;
        }
        assert(values(out@) == Seq::new(
            max_len(self@, rhs@),
            |i: int| coeff(self@, i) - coeff(rhs@, i),
        ));
        trim_coeffs(&mut out);
        proof {
            if !is_zero_poly(values(out@)) {
                lemma_leading_nonzero(values(out@));
            }
        }
        Polynomial { coeffs: out }
    }

    /// The product of two polynomials. The sum of the degrees must be below
    /// `usize::MAX`, so that the product has a length.
    pub fn mul(self, rhs: Polynomial) -> (r: Polynomial)
        requires
            self@.len() + rhs@.len() - 1 <= usize::MAX,
        ensures
            r@ == poly_mul(self@, rhs@),
            is_trimmed(r@),
            !is_zero_poly(r@) ==> r@[r@.len() - 1] != 0real,
    {
        self.mul_ref(&rhs)
    }

    /// The product of two polynomials, leaving both in place.
    pub fn mul_ref(&self, rhs: &Polynomial) -> (r: Polynomial)
        requires
            self@.len() + rhs@.len() - 1 <= usize::MAX,
        ensures
            r@ == poly_mul(self@, rhs@),
            is_trimmed(r@),
            !is_zero_poly(r@) ==> r@[r@.len() - 1] != 0real,
    {
        proof {
            use_type_invariant(self);
            use_type_invariant(rhs);
        }
        if self.is_zero() || rhs.is_zero() {
            return Polynomial::constant(zero_fraction());
        }
        let la = self.coeffs.len();
        let lb = rhs.coeffs.len();
        let n = la - 1 + lb;
        let mut out: Vec<Ratio<BigInt>> = Vec::new();
        let mut k: usize = 0;
        while k < n
            invariant
                k <= n,
                out@.len() == k,
                all_canonical(out@),
                forall|m: int| 0 <= m < k ==> ratio_value(#[trigger] out@[m]) == 0real,
            decreases n - k,
        {
            out.push(zero_fraction());
            k += 1;
        }
        let ghost a = self@;
        let ghost b = rhs@;
        let mut i: usize = 0;
        while i < la
            invariant
                i <= la,
                la == self.coeffs@.len(),
                lb == rhs.coeffs@.len(),
                lb >= 1,
                n == la + lb - 1,
                a == self@,
                b == rhs@,
                out@.len() == n,
                all_canonical(self.coeffs@),
                all_canonical(rhs.coeffs@),
                all_canonical(out@),
                forall|m: int|
                    0 <= m < n ==> ratio_value(#[trigger] out@[m]) == sum_to(
                        conv_term(a, b, m),
                        i as int,
                    ),
            decreases la - i,
        {
            let mut j: usize = 0;
            while j < lb
                invariant
                    i < la,
                    j <= lb,
                    la == self.coeffs@.len(),
                    lb == rhs.coeffs@.len(),
                    n == la + lb - 1,
                    a == self@,
                    b == rhs@,
                    out@.len() == n,
                    all_canonical(self.coeffs@),
                    all_canonical(rhs.coeffs@),
                    all_canonical(out@),
                    forall|m: int|
                        0 <= m < n ==> ratio_value(#[trigger] out@[m]) == sum_to(
                            conv_term(a, b, m),
                            i as int,
                        ) + (if i <= m < i + j {
                            a[i as int] * b[m - i]
                        } else {
                            0real
                        }),
                decreases lb - j,
            {
                let product = rational_mul(&self.coeffs[i], &rhs.coeffs[j]);
                let sum = rational_add(&out[i + j], &product);
                out.set(i + j, sum);
                j += 1;
            }
            proof {
                assert forall|m: int| 0 <= m < n implies ratio_value(#[trigger] out@[m]) == sum_to(
                    conv_term(a, b, m),
                    i + 1,
                ) by {
                    assert(conv_term(a, b, m)(i as int) == coeff(a, i as int) * coeff(b, m - i));
                    if i <= m < i + lb {
                    } else {
                        assert(coeff(b, m - i) == 0real);
                        assert(a[i as int] * 0real == 0real);
                    }
                }
            }
            i += 1;
        }
        assert(values(out@) == Seq::new((a.len() + b.len() - 1) as nat, |k: int| conv(a, b, k)));
        trim_coeffs(&mut out);
        proof {
            if !is_zero_poly(values(out@)) {
                lemma_leading_nonzero(values(out@));
            }
        }
        Polynomial { coeffs: out }
    }

    /// The polynomial times the number `c`.
    pub fn scale(self, c: &Ratio<BigInt>) -> (r: Polynomial)
        requires
            is_canonical(*c),
        ensures
            r@ == poly_scale(self@, ratio_value(*c)),
            is_trimmed(r@),
    {
        proof {
            use_type_invariant(&self);
        }
        let ghost a = self@;
        let mut out: Vec<Ratio<BigInt>> = Vec::new();
        let mut i: usize = 0;
        while i < self.coeffs.len()
            invariant
                i <= self.coeffs@.len(),
                out@.len() == i,
                a == self@,
                is_canonical(*c),
                all_canonical(self.coeffs@),
                all_canonical(out@),
                forall|j: int|
                    0 <= j < i ==> ratio_value(#[trigger] out@[j]) == a[j] * ratio_value(*c),
            decreases self.coeffs@.len() - i,
        {
            out.push(rational_mul(&self.coeffs[i], c));
            i += 1;
        }
        assert(values(out@) == Seq::new(a.len(), |i: int| a[i] * ratio_value(*c)));
        trim_coeffs(&mut out);
        proof {
            if !is_zero_poly(values(out@)) {
                lemma_leading_nonzero(values(out@));
            }
        }
        Polynomial { coeffs: out }
    }

    /// The polynomial divided by the number `c`, which must not be zero.
    pub fn div(self, c: &Ratio<BigInt>) -> (r: Polynomial)
        requires
            is_canonical(*c),
            ratio_value(*c) != 0real,
        ensures
            r@ == poly_div(self@, ratio_value(*c)),
            is_trimmed(r@),
    {
        proof {
            use_type_invariant(&self);
            lemma_value_zero(*c);
        }
        let ghost a = self@;
        let mut out: Vec<Ratio<BigInt>> = Vec::new();
        let mut i: usize = 0;
        while i < self.coeffs.len()
            invariant
                i <= self.coeffs@.len(),
                out@.len() == i,
                a == self@,
                is_canonical(*c),
                ratio_numer(*c) != 0,
                all_canonical(self.coeffs@),
                all_canonical(out@),
                forall|j: int|
                    0 <= j < i ==> ratio_value(#[trigger] out@[j]) == a[j] / ratio_value(*c),
            decreases self.coeffs@.len() - i,
        {
            out.push(rational_div(&self.coeffs[i], c));
            i += 1;
        }
        assert(values(out@) == Seq::new(a.len(), |i: int| a[i] / ratio_value(*c)));
        trim_coeffs(&mut out);
        proof {
            if !is_zero_poly(values(out@)) {
                lemma_leading_nonzero(values(out@));
            }
        }
        Polynomial { coeffs: out }
    }

    /// The polynomial plus the number `c`.
    pub fn add_constant(self, c: Ratio<BigInt>) -> (r: Polynomial)
        requires
            is_canonical(c),
        ensures
            r@ == poly_add(self@, seq![ratio_value(c)]),
            is_trimmed(r@),
    {
        self.add_ref(&Polynomial::constant(c))
    }

    /// The polynomial minus the number `c`.
    pub fn sub_constant(self, c: Ratio<BigInt>) -> (r: Polynomial)
        requires
            is_canonical(c),
        ensures
            r@ == poly_sub(self@, seq![ratio_value(c)]),
            is_trimmed(r@),
    {
        self.sub_ref(&Polynomial::constant(c))
    }

    /// The product of two polynomials where it has a length, nothing where
    /// the sum of the degrees reaches `usize::MAX`.
    pub fn checked_mul(&self, rhs: &Polynomial) -> (r: Option<Polynomial>)
        ensures
            r is Some <==> self@.len() + rhs@.len() - 1 <= usize::MAX,
            r is Some ==> r->0@ == poly_mul(self@, rhs@) && is_trimmed(r->0@),
            r is Some && !is_zero_poly(r->0@) ==> r->0@[r->0@.len() - 1] != 0real,
    {
        let fits = match self.degree().checked_add(rhs.degree()) {
            Some(d) => d < usize::MAX,
            None => false,
        };
        if fits {
            Some(self.mul_ref(rhs))
        } else {
            None
        }
    }

    /// The `n`-th power where it has a length, nothing where `n` times the
    /// degree reaches `usize::MAX`.
    pub fn checked_pow(self, n: usize) -> (r: Option<Polynomial>)
        ensures
            r is Some <==> (self@.len() - 1) * n + 1 <= usize::MAX,
            r is Some ==> r->0@ == poly_pow(self@, n as nat) && is_trimmed(r->0@),
    {
        let fits = match self.degree().checked_mul(n) {
            Some(d) => d < usize::MAX,
            None => false,
        };
        if fits {
            Some(self.pow(n))
        } else {
            None
        }
    }

    /// The `n`-th power, by repeated squaring. `n` times the degree of `self`
    /// must be below `usize::MAX`, so that the power has a length.
    pub fn pow(self, n: usize) -> (r: Polynomial)
        requires
            (self@.len() - 1) * n + 1 <= usize::MAX,
        ensures
            r@ == poly_pow(self@, n as nat),
            is_trimmed(r@),
    {
        proof {
            use_type_invariant(&self);
            lemma_mul_one(self@);
            lemma_pow_shape(self@, n as nat);
        }
        let ghost a = self@;
        let ghost d = a.len() - 1;
        let mut base = self;
        let mut acc = Polynomial::constant(one_fraction());
        let mut e: usize = n;
        let ghost mut done: nat = 0;
        let ghost mut step: nat = 1;
        assert(step * e == n) by (nonlinear_arith)
            requires
                step == 1,
                e == n,
        ;
        while e >= 1
            invariant
                a.len() >= 1,
                d == a.len() - 1,
                d * n + 1 <= usize::MAX,
                step >= 1,
                done + step * e == n,
                acc@ == poly_pow(a, done),
                base@ == poly_pow(a, step),
            decreases e,
        {
            let ghost half = e as int / 2;
            proof {
                lemma_pow_shape(a, done);
                lemma_pow_shape(a, step);
                assert(d * done + d * step <= d * n && (half >= 1 ==> d * (2 * step) <= d * n)
                    && step * (2 * half) == (2 * step) * half && d * (2 * step) == 2 * (d * step))
                    by (nonlinear_arith)
                    requires
                        done + step * e == n,
                        e >= 1,
                        step >= 1,
                        d >= 0,
                        half == e / 2,
                ;
            }
            if e % 2 == 1 {
                proof {
                    lemma_pow_add(a, done, step);
                    assert(step * e == step * (2 * half) + step) by (nonlinear_arith)
                        requires
                            e == 2 * half + 1,
                    ;
                }
                acc = acc.mul_ref(&base);
                proof {
                    done = done + step;
                }
            }
            e = e / 2;
            if e >= 1 {
                proof {
                    lemma_pow_add(a, step, step);
                }
                let square = base.mul_ref(&base);
                base = square;
                proof {
                    step = 2 * step;
                }
            } else {
                assert(step * 0 == 0);
            }
        }
        assert(step * 0 == 0);
        acc
    }

    /// The value of the polynomial at `x`, computed from the highest
    /// coefficient down by multiplying and adding.
    pub fn eval(&self, x: &Ratio<BigInt>) -> (v: Ratio<BigInt>)
        requires
            is_canonical(*x),
        ensures
            is_canonical(v),
            ratio_value(v) == poly_eval(self@, ratio_value(*x)),
    {
        proof {
            use_type_invariant(self);
        }
        let ghost a = self@;
        let n = self.coeffs.len();
        let mut result = zero_fraction();
        let mut i: usize = n;
        assert(a.subrange(n as int, n as int) == Seq::<real>::empty());
        while i > 0
            invariant
                i <= n,
                n == self.coeffs@.len(),
                a == self@,
                is_canonical(*x),
                is_canonical(result),
                all_canonical(self.coeffs@),
                ratio_value(result) == poly_eval(a.subrange(i as int, n as int), ratio_value(*x)),
            decreases i,
        {
            i -= 1;
            let scaled = rational_mul(&result, x);
            result = rational_add(&scaled, &self.coeffs[i]);
            proof {
                let tail = a.subrange(i as int, n as int);
                assert(tail.drop_first() == a.subrange(i + 1, n as int));
                assert(tail[0] == a[i as int]);
                let at = ratio_value(*x);
                let above = poly_eval(tail.drop_first(), at);
                assert(ratio_value(scaled) == at * above) by (nonlinear_arith)
                    requires
                        ratio_value(scaled) == above * at,
                ;
            }
        }
        assert(a.subrange(0, n as int) == a);
        result
    }

    /// Adds `rhs` to the polynomial in place.
    pub fn add_assign(&mut self, rhs: Polynomial)
        ensures
            final(self)@ == poly_add(old(self)@, rhs@),
            is_trimmed(final(self)@),
    {
        let sum = self.add_ref(&rhs);
        *self = sum;
    }

    /// Subtracts `rhs` from the polynomial in place.
    pub fn sub_assign(&mut self, rhs: Polynomial)
        ensures
            final(self)@ == poly_sub(old(self)@, rhs@),
            is_trimmed(final(self)@),
    {
        let difference = self.sub_ref(&rhs);
        *self = difference;
    }

    /// Multiplies the polynomial by `rhs` in place. The sum of the degrees
    /// must be below `usize::MAX`, so that the product has a length.
    pub fn mul_assign(&mut self, rhs: Polynomial)
        requires
            old(self)@.len() + rhs@.len() - 1 <= usize::MAX,
        ensures
            final(self)@ == poly_mul(old(self)@, rhs@),
            is_trimmed(final(self)@),
            !is_zero_poly(final(self)@) ==> final(self)@[final(self)@.len() - 1] != 0real,
    {
        let product = self.mul_ref(&rhs);
        *self = product;
    }

    /// Divides the polynomial by the number `c` in place; `c` must not be zero.
    pub fn div_assign(&mut self, c: &Ratio<BigInt>)
        requires
            is_canonical(*c),
            ratio_value(*c) != 0real,
        ensures
            final(self)@ == poly_div(old(self)@, ratio_value(*c)),
            is_trimmed(final(self)@),
    {
        let quotient = self.clone().div(c);
        *self = quotient;
    }
}

impl Default for Polynomial {
    /// The zero polynomial.
    fn default() -> (p: Polynomial)
        ensures
            p@ == seq![0real],
    {
        Polynomial::constant(zero_fraction())
    }
}

impl PartialEq for Polynomial {
    /// Whether two polynomials have the same coefficients.
    fn eq(&self, other: &Polynomial) -> (e: bool) {
        proof {
            use_type_invariant(self);
            use_type_invariant(other);
        }
        if self.coeffs.len() != other.coeffs.len() {
            return false;
        }
        let mut i: usize = 0;
        while i < self.coeffs.len()
            invariant
                i <= self.coeffs@.len(),
                self.coeffs@.len() == other.coeffs@.len(),
                all_canonical(self.coeffs@),
                all_canonical(other.coeffs@),
                forall|j: int| 0 <= j < i ==> self@[j] == other@[j],
            decreases self.coeffs@.len() - i,
        {
            if !rational_eq(&self.coeffs[i], &other.coeffs[i]) {
                assert(self@[i as int] != other@[i as int]);
                return false;
            }
            i += 1;
        }
        assert(self@ =~= other@);
        true
    }
}

impl vstd::std_specs::cmp::PartialEqSpecImpl for Polynomial {
    open spec fn obeys_eq_spec() -> bool {
        true
    }

    open spec fn eq_spec(&self, other: &Polynomial) -> bool {
        self@ == other@
    }
}

impl Eq for Polynomial {

}

impl Clone for Polynomial {
    fn clone(&self) -> (r: Polynomial)
        ensures
            r@ == self@,
    {
        proof {
            use_type_invariant(self);
        }
        let mut out: Vec<Ratio<BigInt>> = Vec::new();
        let mut i: usize = 0;
        while i < self.coeffs.len()
            invariant
                i <= self.coeffs@.len(),
                out@.len() == i,
                forall|j: int|
                    0 <= j < i ==> ratio_fraction(#[trigger] out@[j]) == ratio_fraction(
                        self.coeffs@[j],
                    ),
            decreases self.coeffs@.len() - i,
        {
            out.push(rational_clone(&self.coeffs[i]));
            i += 1;
        }
        assert(values(out@) == values(self.coeffs@));
        assert(all_canonical(out@)) by {
            assert forall|j: int| 0 <= j < out@.len() implies is_canonical(#[trigger] out@[j]) by {
                assert(ratio_fraction(out@[j]) == ratio_fraction(self.coeffs@[j]));
                assert(is_canonical(self.coeffs@[j]));
            }
        }
        Polynomial { coeffs: out }
    }
}

/// The polynomial that is the bare variable.
pub fn x() -> (p: Polynomial)
    ensures
        p@ == variable(),
        p@.len() == 2,
{
    let mut coeffs: Vec<Ratio<BigInt>> = Vec::new();
    coeffs.push(rational_zero());
    coeffs.push(rational_one());
    proof {
        lemma_value_whole(coeffs@[0]);
        lemma_value_whole(coeffs@[1]);
        assert(ratio_value(coeffs@[0]) == 0real);
        assert(ratio_value(coeffs@[1]) == 1real);
        assert(values(coeffs@) == seq![0real, 1real]);
    }
    Polynomial { coeffs }
}

} // verus!
