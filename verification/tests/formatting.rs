use num_bigint::BigInt;
use num_rational::BigRational;
use polycalc::basis::Basis;
use polycalc::format::{decimal_text, format_from_coeffs, term_name};
use polycalc::pascal::choose_poly;
use polycalc::polynomial::{x, Polynomial};

fn whole(n: i64) -> BigRational {
    BigRational::from_integer(BigInt::from(n))
}

fn frac(n: i64, d: i64) -> BigRational {
    BigRational::new(BigInt::from(n), BigInt::from(d))
}

fn wholes(coeffs: &[i64]) -> Vec<BigRational> {
    coeffs.iter().map(|c| whole(*c)).collect()
}

fn poly(coeffs: &[BigRational]) -> Polynomial {
    let mut p = Polynomial::constant(whole(0));
    let mut power = Polynomial::constant(whole(1));
    for c in coeffs {
        p = p.add(power.clone().scale(c));
        power = power.mul(x());
    }
    p
}

#[test]
fn decimal_text_of_numbers() {
    assert_eq!(decimal_text(0), "0");
    assert_eq!(decimal_text(7), "7");
    assert_eq!(decimal_text(10), "10");
    assert_eq!(decimal_text(12345), "12345");
    assert_eq!(decimal_text(usize::MAX), usize::MAX.to_string());
}

#[test]
fn term_names_of_both_bases() {
    assert_eq!(term_name(Basis::Standard, 2), "x^2");
    assert_eq!(term_name(Basis::Standard, 13), "x^13");
    assert_eq!(term_name(Basis::Binomial, 2), "C(x,2)");
    assert_eq!(term_name(Basis::Binomial, 40), "C(x,40)");
}

#[test]
fn format_empty_is_zero() {
    assert_eq!(format_from_coeffs(&[], Basis::Standard), "0");
}

#[test]
fn format_all_zero_is_zero() {
    assert_eq!(format_from_coeffs(&wholes(&[0, 0, 0]), Basis::Standard), "0");
    assert_eq!(format_from_coeffs(&wholes(&[0]), Basis::Binomial), "0");
}

#[test]
fn format_square_of_sum() {
    assert_eq!(
        format_from_coeffs(&wholes(&[1, 2, 1]), Basis::Standard),
        "x^2 + 2*x + 1"
    );
}

#[test]
fn format_constants() {
    assert_eq!(format_from_coeffs(&wholes(&[1]), Basis::Standard), "1");
    assert_eq!(format_from_coeffs(&wholes(&[-1]), Basis::Standard), "-1");
    assert_eq!(format_from_coeffs(&[frac(1, 2)], Basis::Standard), "1/2");
    assert_eq!(format_from_coeffs(&[frac(-7, 3)], Basis::Standard), "-7/3");
}

#[test]
fn format_elides_unit_coefficients() {
    assert_eq!(format_from_coeffs(&wholes(&[0, 1]), Basis::Standard), "x");
    assert_eq!(format_from_coeffs(&wholes(&[0, -1]), Basis::Standard), "-x");
    assert_eq!(format_from_coeffs(&wholes(&[0, 0, -1]), Basis::Standard), "-x^2");
    assert_eq!(format_from_coeffs(&wholes(&[1, 1, 1]), Basis::Standard), "x^2 + x + 1");
    assert_eq!(format_from_coeffs(&wholes(&[-1, -1, -1]), Basis::Standard), "-x^2 - x - 1");
}

#[test]
fn format_skips_zero_terms() {
    assert_eq!(format_from_coeffs(&wholes(&[3, 0, -2]), Basis::Standard), "-2*x^2 + 3");
    assert_eq!(format_from_coeffs(&wholes(&[0, 0, 0, 5]), Basis::Standard), "5*x^3");
}

#[test]
fn format_parenthesizes_fractions() {
    assert_eq!(
        format_from_coeffs(&[whole(0), frac(-1, 2), frac(1, 2)], Basis::Standard),
        "(1/2)*x^2 - (1/2)*x"
    );
    assert_eq!(
        format_from_coeffs(&[frac(2, 3), frac(-5, 4)], Basis::Standard),
        "-(5/4)*x + 2/3"
    );
}

#[test]
fn format_large_numbers() {
    let big: BigInt = "123456789012345678901234567890".parse().unwrap();
    let coeffs = vec![BigRational::from_integer(big), whole(0), whole(12)];
    assert_eq!(
        format_from_coeffs(&coeffs, Basis::Standard),
        "12*x^2 + 123456789012345678901234567890"
    );
}

#[test]
fn format_binomial_names() {
    assert_eq!(
        format_from_coeffs(&wholes(&[1, 1, 2, -3]), Basis::Binomial),
        "-3*C(x,3) + 2*C(x,2) + x + 1"
    );
}

#[test]
fn polynomial_to_string_uses_power_basis() {
    assert_eq!(poly(&wholes(&[1, 2, 1])).to_string(), "x^2 + 2*x + 1");
    assert_eq!(Polynomial::constant(whole(0)).to_string(), "0");
}

#[test]
fn basis_format_standard() {
    let p = choose_poly(&x(), 2);
    assert_eq!(Basis::Standard.format(&p), "(1/2)*x^2 - (1/2)*x");
}

#[test]
fn basis_format_binomial() {
    let p = choose_poly(&x(), 2);
    assert_eq!(Basis::Binomial.format(&p), "C(x,2)");
    // x^2 = 2 C(x,2) + C(x,1)
    let square = x().mul(x());
    assert_eq!(Basis::Binomial.format(&square), "2*C(x,2) + x");
    assert_eq!(Basis::Binomial.format(&Polynomial::constant(whole(0))), "0");
    assert_eq!(Basis::Binomial.format(&Polynomial::constant(frac(3, 2))), "3/2");
}

#[test]
fn binomial_coefficients_of_cube() {
    // x^3 = 6 C(x,3) + 6 C(x,2) + C(x,1)
    let cube = x().pow(3);
    assert_eq!(
        cube.to_binomial_coeffs(),
        vec![whole(0), whole(1), whole(6), whole(6)]
    );
}

#[test]
fn binomial_coefficients_have_the_length_of_the_polynomial() {
    let p = poly(&[frac(1, 3), whole(0), frac(-2, 5), whole(7)]);
    assert_eq!(p.to_binomial_coeffs().len(), 4);
    assert_eq!(Polynomial::constant(whole(0)).to_binomial_coeffs(), vec![whole(0)]);
}

#[test]
fn binomial_basis_round_trip() {
    let samples = vec![
        poly(&wholes(&[0])),
        poly(&wholes(&[5])),
        poly(&wholes(&[1, 2, 1])),
        poly(&[frac(1, 3), whole(0), frac(-2, 5), whole(7)]),
        poly(&[whole(0), whole(0), whole(0), whole(0), frac(9, 11)]),
    ];
    for p in samples {
        let coords = p.to_binomial_coeffs();
        let mut rebuilt = Polynomial::constant(whole(0));
        for (n, b) in coords.iter().enumerate() {
            rebuilt = rebuilt.add(choose_poly(&x(), n).scale(b));
        }
        assert_eq!(rebuilt, p);
    }
}
