use num_bigint::BigInt;
use num_rational::BigRational;
use polycalc::polynomial::{x, Polynomial};
use polycalc::rational::canonical_form;

fn whole(n: i64) -> BigRational {
    BigRational::from_integer(BigInt::from(n))
}

fn frac(n: i64, d: i64) -> BigRational {
    BigRational::new(BigInt::from(n), BigInt::from(d))
}

/// The polynomial with the given whole coefficients, lowest power first.
fn poly(coeffs: &[i64]) -> Polynomial {
    let mut p = Polynomial::constant(whole(0));
    let mut power = Polynomial::constant(whole(1));
    for c in coeffs {
        p = p.add(power.clone().scale(&whole(*c)));
        power = power.mul(x());
    }
    p
}

fn coeffs_of(p: &Polynomial) -> Vec<BigRational> {
    p.coeffs().to_vec()
}

#[test]
fn constant_holds_its_value() {
    let p = Polynomial::constant(frac(3, 4));
    assert_eq!(coeffs_of(&p), vec![frac(3, 4)]);
    assert_eq!(p.degree(), 0);
}

#[test]
fn variable_has_coefficients_zero_one() {
    let p = x();
    assert_eq!(coeffs_of(&p), vec![whole(0), whole(1)]);
    assert_eq!(p.degree(), 1);
}

#[test]
fn default_is_the_zero_polynomial() {
    let p = Polynomial::default();
    assert_eq!(coeffs_of(&p), vec![whole(0)]);
    assert!(p.is_zero());
}

#[test]
fn add_is_coefficient_wise() {
    let sum = poly(&[1, 2, 3]).add(poly(&[10, 20]));
    assert_eq!(coeffs_of(&sum), vec![whole(11), whole(22), whole(3)]);
}

#[test]
fn add_trims_cancelled_leading_terms() {
    let sum = poly(&[1, 2, 3]).add(poly(&[0, 0, -3]));
    assert_eq!(coeffs_of(&sum), vec![whole(1), whole(2)]);
    assert_eq!(sum.degree(), 1);
}

#[test]
fn add_to_opposite_gives_canonical_zero() {
    let sum = poly(&[1, 2, 3]).add(poly(&[-1, -2, -3]));
    assert_eq!(coeffs_of(&sum), vec![whole(0)]);
    assert!(sum.is_zero());
    assert_eq!(sum.degree(), 0);
}

#[test]
fn sub_is_coefficient_wise() {
    let difference = poly(&[5, 1]).sub(poly(&[1, 1, 1]));
    assert_eq!(coeffs_of(&difference), vec![whole(4), whole(0), whole(-1)]);
}

#[test]
fn sub_of_itself_is_zero() {
    let p = poly(&[7, 0, 2]);
    let difference = p.clone().sub(p);
    assert_eq!(coeffs_of(&difference), vec![whole(0)]);
}

#[test]
fn neg_changes_every_sign() {
    let p = poly(&[1, -2, 3]).neg();
    assert_eq!(coeffs_of(&p), vec![whole(-1), whole(2), whole(-3)]);
}

#[test]
fn mul_is_the_convolution() {
    // (1 + 2x)(3 + x + x^2) = 3 + 7x + 3x^2 + 2x^3
    let product = poly(&[1, 2]).mul(poly(&[3, 1, 1]));
    assert_eq!(coeffs_of(&product), vec![whole(3), whole(7), whole(3), whole(2)]);
}

#[test]
fn mul_by_zero_is_canonical_zero() {
    let zero = Polynomial::constant(whole(0));
    let left = zero.clone().mul(poly(&[1, 2, 3]));
    let right = poly(&[1, 2, 3]).mul(zero);
    assert_eq!(coeffs_of(&left), vec![whole(0)]);
    assert_eq!(coeffs_of(&right), vec![whole(0)]);
}

#[test]
fn mul_is_associative_on_samples() {
    let a = poly(&[1, 2]);
    let b = poly(&[0, 1, 4]);
    let c = poly(&[-3, 5]);
    let left = a.clone().mul(b.clone()).mul(c.clone());
    let right = a.mul(b.mul(c));
    assert_eq!(left, right);
}

#[test]
fn nonzero_results_have_nonzero_leading_coefficient() {
    let results = vec![
        poly(&[1, 2, 3]).add(poly(&[0, 0, -3])),
        poly(&[1, 2, 3]).sub(poly(&[1, 2, 3, 4])),
        poly(&[0, 1]).mul(poly(&[2, 0, 5])),
    ];
    for r in results {
        assert!(!r.is_zero());
        assert_ne!(r.coeff_at(r.degree()), whole(0));
    }
}

#[test]
fn scale_multiplies_every_coefficient() {
    let p = poly(&[2, 4]).scale(&frac(1, 2));
    assert_eq!(coeffs_of(&p), vec![whole(1), whole(2)]);
}

#[test]
fn scale_by_zero_is_canonical_zero() {
    let p = poly(&[2, 4, 6]).scale(&whole(0));
    assert_eq!(coeffs_of(&p), vec![whole(0)]);
}

#[test]
fn div_divides_every_coefficient() {
    let p = poly(&[1, 3]).div(&whole(2));
    assert_eq!(coeffs_of(&p), vec![frac(1, 2), frac(3, 2)]);
}

#[test]
fn add_constant_changes_the_constant_term() {
    let p = poly(&[1, 1]).add_constant(frac(1, 2));
    assert_eq!(coeffs_of(&p), vec![frac(3, 2), whole(1)]);
}

#[test]
fn sub_constant_changes_the_constant_term() {
    let p = poly(&[1, 1]).sub_constant(whole(3));
    assert_eq!(coeffs_of(&p), vec![whole(-2), whole(1)]);
    let q = poly(&[4]).sub_constant(whole(4));
    assert_eq!(coeffs_of(&q), vec![whole(0)]);
}

#[test]
fn assignments_change_in_place() {
    let mut p = poly(&[1, 1]);
    p.add_assign(poly(&[1]));
    assert_eq!(coeffs_of(&p), vec![whole(2), whole(1)]);
    p.sub_assign(poly(&[0, 1]));
    assert_eq!(coeffs_of(&p), vec![whole(2)]);
    p.mul_assign(poly(&[0, 3]));
    assert_eq!(coeffs_of(&p), vec![whole(0), whole(6)]);
    p.div_assign(&whole(4));
    assert_eq!(coeffs_of(&p), vec![whole(0), frac(3, 2)]);
}

#[test]
fn pow_zero_is_one_even_of_zero() {
    let p = Polynomial::constant(whole(0)).pow(0);
    assert_eq!(coeffs_of(&p), vec![whole(1)]);
    let q = poly(&[1, 1]).pow(0);
    assert_eq!(coeffs_of(&q), vec![whole(1)]);
}

#[test]
fn pow_one_is_the_base() {
    let p = poly(&[3, 1]).pow(1);
    assert_eq!(coeffs_of(&p), vec![whole(3), whole(1)]);
}

#[test]
fn pow_gives_binomial_expansion() {
    // (1 + x)^5
    let p = poly(&[1, 1]).pow(5);
    assert_eq!(
        coeffs_of(&p),
        vec![whole(1), whole(5), whole(10), whole(10), whole(5), whole(1)]
    );
}

#[test]
fn pow_matches_repeated_multiplication() {
    let base = poly(&[2, -1, 3]);
    let mut expected = Polynomial::constant(whole(1));
    for n in 0..7 {
        assert_eq!(base.clone().pow(n), expected);
        expected = expected.mul(base.clone());
    }
}

#[test]
fn eval_is_exact() {
    // 1 + 2x + 3x^2 at 1/2 = 1 + 1 + 3/4
    let p = poly(&[1, 2, 3]);
    assert_eq!(p.eval(&frac(1, 2)), frac(11, 4));
    assert_eq!(p.eval(&whole(0)), whole(1));
    assert_eq!(p.eval(&whole(-2)), whole(9));
}

#[test]
fn eval_of_product_is_product_of_values() {
    let a = poly(&[1, 2]);
    let b = poly(&[3, 0, -1]);
    let at = frac(-3, 7);
    assert_eq!(a.clone().mul(b.clone()).eval(&at), a.eval(&at) * b.eval(&at));
}

#[test]
fn extract_constant_only_of_degree_zero() {
    assert_eq!(poly(&[5]).extract_constant(), Some(whole(5)));
    assert_eq!(poly(&[0]).extract_constant(), Some(whole(0)));
    assert_eq!(poly(&[5, 1]).extract_constant(), None);
}

#[test]
fn is_zero_only_of_zero() {
    assert!(poly(&[0]).is_zero());
    assert!(!poly(&[1]).is_zero());
    assert!(!poly(&[0, 1]).is_zero());
}

#[test]
fn coeff_at_is_zero_above_the_degree() {
    let p = poly(&[4, 5]);
    assert_eq!(p.coeff_at(0), whole(4));
    assert_eq!(p.coeff_at(1), whole(5));
    assert_eq!(p.coeff_at(2), whole(0));
    assert_eq!(p.coeff_at(1000), whole(0));
}

#[test]
fn clone_and_equality_agree() {
    let p = poly(&[1, 2, 3]);
    let q = p.clone();
    assert!(p == q);
    assert!(p != poly(&[1, 2]));
    assert!(p != poly(&[1, 2, 4]));
}

#[test]
fn canonical_form_reduces_raw_fractions() {
    let raw = BigRational::new_raw(BigInt::from(2), BigInt::from(-4));
    let reduced = canonical_form(&raw).unwrap();
    assert_eq!(reduced.numer(), &BigInt::from(-1));
    assert_eq!(reduced.denom(), &BigInt::from(2));
    let broken = BigRational::new_raw(BigInt::from(1), BigInt::from(0));
    assert!(canonical_form(&broken).is_none());
}

#[test]
fn checked_mul_multiplies_where_the_product_has_a_length() {
    let product = poly(&[1, 1]).checked_mul(&poly(&[-1, 1])).unwrap();
    assert_eq!(coeffs_of(&product), vec![whole(-1), whole(0), whole(1)]);
}

#[test]
fn checked_pow_refuses_degrees_beyond_the_machine() {
    assert!(poly(&[0, 1]).checked_pow(usize::MAX).is_none());
    assert!(poly(&[0, 0, 1]).checked_pow(usize::MAX / 2 + 1).is_none());
    let cube = poly(&[1, 1]).checked_pow(3).unwrap();
    assert_eq!(coeffs_of(&cube), vec![whole(1), whole(3), whole(3), whole(1)]);
    let one = poly(&[7]).checked_pow(0).unwrap();
    assert_eq!(coeffs_of(&one), vec![whole(1)]);
}
