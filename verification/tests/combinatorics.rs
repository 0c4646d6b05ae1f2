use num_bigint::BigInt;
use num_rational::BigRational;
use polycalc::pascal::{
    checked_choose, checked_pick, choose_poly, factorial, generate_triangle, pick,
};
use polycalc::polynomial::{x, Polynomial};

fn whole(n: i64) -> BigRational {
    BigRational::from_integer(BigInt::from(n))
}

fn frac(n: i64, d: i64) -> BigRational {
    BigRational::new(BigInt::from(n), BigInt::from(d))
}

fn binomial(n: u64, k: u64) -> u64 {
    if k > n {
        return 0;
    }
    let mut value = 1u64;
    for i in 0..k {
        value = value * (n - i) / (i + 1);
    }
    value
}

#[test]
fn factorial_of_small_numbers() {
    assert_eq!(factorial(0), BigInt::from(1));
    assert_eq!(factorial(1), BigInt::from(1));
    assert_eq!(factorial(5), BigInt::from(120));
    assert_eq!(factorial(10), BigInt::from(3628800));
}

#[test]
fn factorial_of_twenty_five_is_exact() {
    let expected: BigInt = "15511210043330985984000000".parse().unwrap();
    assert_eq!(factorial(25), expected);
}

#[test]
fn pick_zero_is_one() {
    assert_eq!(pick(&x(), 0).coeffs().to_vec(), vec![whole(1)]);
}

#[test]
fn pick_three_of_variable() {
    // x(x-1)(x-2) = x^3 - 3x^2 + 2x
    assert_eq!(
        pick(&x(), 3).coeffs().to_vec(),
        vec![whole(0), whole(2), whole(-3), whole(1)]
    );
}

#[test]
fn pick_is_monic_of_degree_k() {
    for k in 0..8 {
        let p = pick(&x(), k);
        assert_eq!(p.degree(), k);
        assert_eq!(p.coeff_at(k), whole(1));
    }
}

#[test]
fn pick_of_other_base() {
    // base 2x + 1: (2x+1)(2x) = 4x^2 + 2x
    let base = x().scale(&whole(2)).add_constant(whole(1));
    assert_eq!(
        pick(&base, 2).coeffs().to_vec(),
        vec![whole(0), whole(2), whole(4)]
    );
}

#[test]
fn pick_at_naturals_is_falling_factorial() {
    for k in 0..6usize {
        let p = pick(&x(), k);
        for n in 0..9i64 {
            let mut expected = 1i64;
            for i in 0..k as i64 {
                expected *= n - i;
            }
            assert_eq!(p.eval(&whole(n)), whole(expected));
            if n < k as i64 {
                assert_eq!(p.eval(&whole(n)), whole(0));
            }
        }
    }
}

#[test]
fn choose_zero_is_one() {
    assert_eq!(choose_poly(&x(), 0).coeffs().to_vec(), vec![whole(1)]);
}

#[test]
fn choose_two_of_variable() {
    assert_eq!(
        choose_poly(&x(), 2).coeffs().to_vec(),
        vec![whole(0), frac(-1, 2), frac(1, 2)]
    );
}

#[test]
fn choose_at_naturals_is_binomial_coefficient() {
    for k in 0..6usize {
        let p = choose_poly(&x(), k);
        for n in 0..10u64 {
            assert_eq!(p.eval(&whole(n as i64)), whole(binomial(n, k as u64) as i64));
        }
    }
}

#[test]
fn choose_of_constant_base() {
    // C(5, 2) = 10
    let five = Polynomial::constant(whole(5));
    assert_eq!(choose_poly(&five, 2).coeffs().to_vec(), vec![whole(10)]);
}

#[test]
fn triangle_rows_hold_binomial_coefficients() {
    let triangle = generate_triangle(7);
    assert_eq!(triangle.len(), 7);
    for (r, row) in triangle.iter().enumerate() {
        assert_eq!(row.len(), r + 1);
        for (c, entry) in row.iter().enumerate() {
            assert_eq!(entry, &BigInt::from(binomial(r as u64, c as u64)));
        }
    }
}

#[test]
fn triangle_of_no_rows_is_empty() {
    assert!(generate_triangle(0).is_empty());
    assert_eq!(generate_triangle(1), vec![vec![BigInt::from(1)]]);
}

#[test]
fn checked_pick_and_choose_refuse_degrees_beyond_the_machine() {
    assert!(checked_pick(&x(), usize::MAX).is_none());
    assert!(checked_choose(&x(), usize::MAX).is_none());
    assert_eq!(
        checked_pick(&x(), 2).unwrap().coeffs().to_vec(),
        vec![whole(0), whole(-1), whole(1)]
    );
    assert_eq!(
        checked_choose(&x(), 2).unwrap().coeffs().to_vec(),
        vec![whole(0), frac(-1, 2), frac(1, 2)]
    );
    let five = Polynomial::constant(whole(5));
    assert_eq!(
        checked_pick(&five, 3).unwrap().coeffs().to_vec(),
        vec![whole(60)]
    );
}
