//! Exact numbers: arbitrary-precision integers and fractions.
//!
//! The arithmetic itself is done by `num-bigint` and `num-rational`. This module
//! declares their two types, names what a value of each holds, and gives every
//! operation the library uses a contract over those names. The contracts are
//! believed, not proved: each one restates what the crate's source does.

use num_bigint::BigInt;
use num_rational::Ratio;
use vstd::prelude::*;

verus! {

/// `num_bigint::BigInt`, an integer of any size.
#[verifier::external_type_specification]
#[verifier::external_body]
pub struct ExBigInt(num_bigint::BigInt);

/// `num_rational::Ratio`, a fraction of two integers.
#[verifier::external_type_specification]
#[verifier::external_body]
#[verifier::reject_recursive_types(T)]
pub struct ExRatio<T>(num_rational::Ratio<T>);

/// The integer that a `BigInt` holds.
pub uninterp spec fn bigint_value(b: BigInt) -> int;

/// The numerator that a fraction stores.
pub uninterp spec fn ratio_numer(r: Ratio<BigInt>) -> int;

/// The denominator that a fraction stores.
pub uninterp spec fn ratio_denom(r: Ratio<BigInt>) -> int;

/// Numerator and denominator of the fraction that `str::parse` reads from a
/// text, in lowest terms; nothing where it refuses the text.
pub uninterp spec fn ratio_of_text(s: Seq<char>) -> Option<(int, int)>;

/// `k` divides both `n` and `d`.
pub open spec fn common_divisor(k: int, n: int, d: int) -> bool {
    n % k == 0 && d % k == 0
}

/// `n / d` has a positive denominator and no common factor left to cancel.
pub open spec fn in_lowest_terms(n: int, d: int) -> bool {
    &&& d > 0
    &&& forall|k: int| k > 1 ==> !#[trigger] common_divisor(k, n, d)
}

/// The stored fraction is in lowest terms. Every fraction that the arithmetic
/// of `num-rational` returns is; only `Ratio::new_raw` can make one that is not.
pub open spec fn is_canonical(r: Ratio<BigInt>) -> bool {
    in_lowest_terms(ratio_numer(r), ratio_denom(r))
}

/// The number that numerator `f.0` over denominator `f.1` stands for.
pub open spec fn fraction_value(f: (int, int)) -> real {
    f.0 as real / f.1 as real
}

/// Numerator and denominator of a stored fraction.
pub open spec fn ratio_fraction(r: Ratio<BigInt>) -> (int, int) {
    (ratio_numer(r), ratio_denom(r))
}

/// The number that a stored fraction stands for.
pub open spec fn ratio_value(r: Ratio<BigInt>) -> real {
    fraction_value(ratio_fraction(r))
}

/// Integer division that rounds towards zero, for a positive divisor.
pub open spec fn truncated_quotient(n: int, d: int) -> int {
    if n >= 0 {
        n / d
    } else {
        -((-n) / d)
    }
}

/// The character of one decimal digit.
pub open spec fn digit_char(d: int) -> char {
    if d == 0 {
        '0'
    } else if d == 1 {
        '1'
    } else if d == 2 {
        '2'
    } else if d == 3 {
        '3'
    } else if d == 4 {
        '4'
    } else if d == 5 {
        '5'
    } else if d == 6 {
        '6'
    } else if d == 7 {
        '7'
    } else if d == 8 {
        '8'
    } else {
        '9'
    }
}

/// A natural number written in decimal, without leading zeros.
pub open spec fn nat_text(n: nat) -> Seq<char>
    decreases n,
{
    if n < 10 {
        seq![digit_char(n as int)]
    } else {
        nat_text(n / 10).push(digit_char((n % 10) as int))
    }
}

/// An integer written in decimal, with a leading `-` when negative.
pub open spec fn int_text(i: int) -> Seq<char> {
    if i < 0 {
        seq!['-'] + nat_text((-i) as nat)
    } else {
        nat_text(i as nat)
    }
}

/// A fraction as it is displayed: the numerator alone over denominator one,
/// else numerator, a slash, denominator.
pub open spec fn ratio_text(n: int, d: int) -> Seq<char> {
    if d == 1 {
        int_text(n)
    } else {
        int_text(n) + seq!['/'] + int_text(d)
    }
}

/// `c` is one of `0` to `9`.
pub open spec fn is_digit(c: char) -> bool {
    '0' <= c && c <= '9'
}

/// Every character of `s` is a decimal digit.
pub open spec fn all_digits(s: Seq<char>) -> bool {
    forall|i: int| 0 <= i < s.len() ==> is_digit(#[trigger] s[i])
}

/// The number that a run of decimal digits writes.
pub open spec fn decimal_value(s: Seq<char>) -> nat
    decreases s.len(),
{
    if s.len() == 0 {
        0
    } else {
        (decimal_value(s.drop_last()) * 10 + (s.last() as int - '0' as int)) as nat
    }
}

/// An integer over one is in lowest terms.
pub proof fn lemma_integer_in_lowest_terms(n: int)
    ensures
        in_lowest_terms(n, 1),
{
    assert forall|k: int| k > 1 implies !#[trigger] common_divisor(k, n, 1) by {
        assert(1int % k == 1) by (nonlinear_arith)
            requires
                k > 1,
        ;
    }
}

/// Changing the sign of the numerator keeps a fraction in lowest terms.
pub proof fn lemma_negation_in_lowest_terms(n: int, d: int)
    requires
        in_lowest_terms(n, d),
    ensures
        in_lowest_terms(-n, d),
{
    assert forall|k: int| k > 1 implies !#[trigger] common_divisor(k, -n, d) by {
        if common_divisor(k, -n, d) {
            vstd::arithmetic::div_mod::lemma_fundamental_div_mod(-n, k);
            let q = (-n) / k;
            assert(n == k * (-q)) by (nonlinear_arith)
                requires
                    -n == k * q,
            ;
            vstd::arithmetic::div_mod::lemma_mod_multiples_basic(-q, k);
            assert(n == (-q) * k) by (nonlinear_arith)
                requires
                    n == k * (-q),
            ;
            assert(common_divisor(k, n, d));
        }
    }
}

/// A fraction in lowest terms whose value is a whole number has denominator one.
pub proof fn lemma_whole_number_denominator(n: int, d: int, k: int)
    requires
        in_lowest_terms(n, d),
        fraction_value((n, d)) == k as real,
    ensures
        d == 1,
        n == k,
{
    assert(n == k * d) by (nonlinear_arith)
        requires
            d > 0,
            n as real / d as real == k as real,
    ;
    if d > 1 {
        vstd::arithmetic::div_mod::lemma_mod_multiples_basic(k, d);
        vstd::arithmetic::div_mod::lemma_mod_multiples_basic(1, d);
        assert(common_divisor(d, n, d));
    }
    assert(n == k) by (nonlinear_arith)
        requires
            n == k * d,
            d == 1,
    ;
}

/// `BigInt::from` on a `usize`: the same number.
#[verifier::external_body]
pub(crate) fn bigint_from_usize(n: usize) -> (b: BigInt)
    ensures
        bigint_value(b) == n,
{
    BigInt::from(n)
}

/// `&BigInt * &BigInt`: the product.
#[verifier::external_body]
pub(crate) fn bigint_mul(a: &BigInt, b: &BigInt) -> (p: BigInt)
    ensures
        bigint_value(p) == bigint_value(*a) * bigint_value(*b),
{
    a * b
}

/// `&BigInt + &BigInt`: the sum.
#[verifier::external_body]
pub(crate) fn bigint_add(a: &BigInt, b: &BigInt) -> (s: BigInt)
    ensures
        bigint_value(s) == bigint_value(*a) + bigint_value(*b),
{
    a + b
}

/// `ToPrimitive::to_usize` on a `BigInt`: the number itself where it lies in
/// the range of `usize`, nothing where it does not.
#[verifier::external_body]
pub(crate) fn bigint_to_usize(b: &BigInt) -> (n: Option<usize>)
    ensures
        n is Some <==> 0 <= bigint_value(*b) <= usize::MAX,
        n is Some ==> n->0 == bigint_value(*b),
{
    num_traits::ToPrimitive::to_usize(b)
}

/// `Signed::is_negative` on a `BigInt`: whether the number is below zero.
#[verifier::external_body]
pub(crate) fn bigint_is_negative(b: &BigInt) -> (neg: bool)
    ensures
        neg == (bigint_value(*b) < 0),
{
    num_traits::Signed::is_negative(b)
}

/// `str::parse::<BigInt>`: a non-empty run of decimal digits is accepted and
/// read in base ten. Nothing is claimed of any other text.
#[verifier::external_body]
pub(crate) fn bigint_from_decimal(s: &str) -> (b: Option<BigInt>)
    ensures
        s@.len() > 0 && all_digits(s@) ==> b is Some && bigint_value(b->0) == decimal_value(s@),
{
    match s.parse::<BigInt>() {
        Ok(v) => Some(v),
        Err(_) => None,
    }
}

/// `Display` of a `BigInt`: the decimal digits, after a `-` when negative.
#[verifier::external_body]
pub(crate) fn bigint_to_string(b: &BigInt) -> (s: String)
    ensures
        s@ == int_text(bigint_value(*b)),
{
    format!("{}", b)
}

/// `Zero::zero` for fractions: stored as `0/1`.
#[verifier::external_body]
pub(crate) fn rational_zero() -> (r: Ratio<BigInt>)
    ensures
        ratio_numer(r) == 0,
        ratio_denom(r) == 1,
{
    num_traits::Zero::zero()
}

/// `One::one` for fractions: stored as `1/1`.
#[verifier::external_body]
pub(crate) fn rational_one() -> (r: Ratio<BigInt>)
    ensures
        ratio_numer(r) == 1,
        ratio_denom(r) == 1,
{
    num_traits::One::one()
}

/// `Ratio::from_integer`: the integer over one.
#[verifier::external_body]
pub(crate) fn rational_from_integer(i: BigInt) -> (r: Ratio<BigInt>)
    ensures
        ratio_numer(r) == bigint_value(i),
        ratio_denom(r) == 1,
{
    Ratio::from_integer(i)
}

/// `Clone` of a fraction: the same numerator and denominator.
#[verifier::external_body]
pub(crate) fn rational_clone(a: &Ratio<BigInt>) -> (r: Ratio<BigInt>)
    ensures
        ratio_numer(r) == ratio_numer(*a),
        ratio_denom(r) == ratio_denom(*a),
{
    a.clone()
}

/// `Zero::is_zero` on a fraction: whether the numerator is zero.
#[verifier::external_body]
pub(crate) fn rational_is_zero(a: &Ratio<BigInt>) -> (z: bool)
    ensures
        z == (ratio_numer(*a) == 0),
{
    num_traits::Zero::is_zero(a)
}

/// `One::is_one` on a fraction: whether numerator and denominator are equal.
#[verifier::external_body]
pub(crate) fn rational_is_one(a: &Ratio<BigInt>) -> (o: bool)
    ensures
        o == (ratio_numer(*a) == ratio_denom(*a)),
{
    num_traits::One::is_one(a)
}

/// `Ratio::is_integer`: whether the denominator is one.
#[verifier::external_body]
pub(crate) fn rational_is_integer(a: &Ratio<BigInt>) -> (i: bool)
    ensures
        i == (ratio_denom(*a) == 1),
{
    a.is_integer()
}

/// `Signed::is_negative` on a fraction: whether numerator and denominator
/// have opposite signs.
#[verifier::external_body]
pub(crate) fn rational_is_negative(a: &Ratio<BigInt>) -> (neg: bool)
    ensures
        neg == ((ratio_numer(*a) < 0 && ratio_denom(*a) > 0) || (ratio_numer(*a) > 0
            && ratio_denom(*a) < 0)),
{
    num_traits::Signed::is_negative(a)
}

/// `==` on fractions in lowest terms: whether they are the same number.
#[verifier::external_body]
pub(crate) fn rational_eq(a: &Ratio<BigInt>, b: &Ratio<BigInt>) -> (e: bool)
    requires
        is_canonical(*a),
        is_canonical(*b),
    ensures
        e == (ratio_value(*a) == ratio_value(*b)),
{
    a == b
}

/// `Ratio::to_integer`: numerator divided by denominator, rounded towards zero.
#[verifier::external_body]
pub(crate) fn rational_to_integer(a: &Ratio<BigInt>) -> (i: BigInt)
    requires
        is_canonical(*a),
    ensures
        bigint_value(i) == truncated_quotient(ratio_numer(*a), ratio_denom(*a)),
{
    a.to_integer()
}

/// `-&Ratio`: the numerator changes sign, the denominator stays.
#[verifier::external_body]
pub(crate) fn rational_neg(a: &Ratio<BigInt>) -> (r: Ratio<BigInt>)
    ensures
        ratio_numer(r) == -ratio_numer(*a),
        ratio_denom(r) == ratio_denom(*a),
{
    -a
}

/// `Signed::abs` on a fraction: negated when negative, else unchanged.
#[verifier::external_body]
pub(crate) fn rational_abs(a: &Ratio<BigInt>) -> (r: Ratio<BigInt>)
    requires
        is_canonical(*a),
    ensures
        ratio_numer(r) == if ratio_numer(*a) < 0 {
            -ratio_numer(*a)
        } else {
            ratio_numer(*a)
        },
        ratio_denom(r) == ratio_denom(*a),
{
    num_traits::Signed::abs(a)
}

/// `&Ratio + &Ratio`: the sum, in lowest terms.
#[verifier::external_body]
pub(crate) fn rational_add(a: &Ratio<BigInt>, b: &Ratio<BigInt>) -> (r: Ratio<BigInt>)
    requires
        is_canonical(*a),
        is_canonical(*b),
    ensures
        is_canonical(r),
        ratio_value(r) == ratio_value(*a) + ratio_value(*b),
{
    a + b
}

/// `&Ratio - &Ratio`: the difference, in lowest terms.
#[verifier::external_body]
pub(crate) fn rational_sub(a: &Ratio<BigInt>, b: &Ratio<BigInt>) -> (r: Ratio<BigInt>)
    requires
        is_canonical(*a),
        is_canonical(*b),
    ensures
        is_canonical(r),
        ratio_value(r) == ratio_value(*a) - ratio_value(*b),
{
    a - b
}

/// `&Ratio * &Ratio`: the product, in lowest terms.
#[verifier::external_body]
pub(crate) fn rational_mul(a: &Ratio<BigInt>, b: &Ratio<BigInt>) -> (r: Ratio<BigInt>)
    requires
        is_canonical(*a),
        is_canonical(*b),
    ensures
        is_canonical(r),
        ratio_value(r) == ratio_value(*a) * ratio_value(*b),
{
    a * b
}

/// `&Ratio / &Ratio`: the quotient, in lowest terms. The crate panics on a
/// zero divisor, so that one is left out.
#[verifier::external_body]
pub(crate) fn rational_div(a: &Ratio<BigInt>, b: &Ratio<BigInt>) -> (r: Ratio<BigInt>)
    requires
        is_canonical(*a),
        is_canonical(*b),
        ratio_numer(*b) != 0,
    ensures
        is_canonical(r),
        ratio_value(r) == ratio_value(*a) / ratio_value(*b),
{
    a / b
}

/// `str::parse::<BigRational>`: the fraction that the text writes, in lowest
/// terms, or nothing. Which texts are accepted, and as what, is left to the
/// crate; the same text always gives the same answer.
#[verifier::external_body]
pub(crate) fn rational_from_text(s: &str) -> (r: Option<Ratio<BigInt>>)
    ensures
        r is Some <==> ratio_of_text(s@) is Some,
        r is Some ==> ratio_fraction(r->0) == ratio_of_text(s@)->0 && is_canonical(r->0),
{
    match s.parse::<Ratio<BigInt>>() {
        Ok(v) => Some(v),
        Err(_) => None,
    }
}

/// `Zero::is_zero` on what `Ratio::denom` gives: whether the stored
/// denominator is zero.
#[verifier::external_body]
pub(crate) fn rational_denom_is_zero(a: &Ratio<BigInt>) -> (z: bool)
    ensures
        z == (ratio_denom(*a) == 0),
{
    num_traits::Zero::is_zero(a.denom())
}

/// `Ratio::reduced`: the same number in lowest terms. The crate panics on a
/// zero denominator, so that one is left out.
#[verifier::external_body]
pub(crate) fn rational_reduced(a: &Ratio<BigInt>) -> (r: Ratio<BigInt>)
    requires
        ratio_denom(*a) != 0,
    ensures
        is_canonical(r),
        ratio_value(r) == ratio_value(*a),
{
    a.reduced()
}

/// The fraction in lowest terms of the number that `a` stands for; nothing
/// where the denominator of `a` is zero.
pub fn canonical_form(a: &Ratio<BigInt>) -> (r: Option<Ratio<BigInt>>)
    ensures
        r is Some <==> ratio_denom(*a) != 0,
        r is Some ==> is_canonical(r->0) && ratio_value(r->0) == ratio_value(*a),
{
    if rational_denom_is_zero(a) {
        None
    } else {
        Some(rational_reduced(a))
    }
}

/// `Display` of a fraction in lowest terms: the numerator alone when the
/// denominator is one, else numerator, `/`, denominator, each in decimal.
#[verifier::external_body]
pub(crate) fn rational_to_string(a: &Ratio<BigInt>) -> (s: String)
    requires
        is_canonical(*a),
    ensures
        s@ == ratio_text(ratio_numer(*a), ratio_denom(*a)),
{
    format!("{}", a)
}

} // verus!
