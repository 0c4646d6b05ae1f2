use num_bigint::BigInt;
use num_rational::BigRational;
use polycalc::basis::Basis;
use polycalc::error::{CallKind, OperandRole, ParseError};
use polycalc::parse::parse;
use polycalc::polynomial::Polynomial;

fn whole(n: i64) -> BigRational {
    BigRational::from_integer(BigInt::from(n))
}

fn frac(n: i64, d: i64) -> BigRational {
    BigRational::new(BigInt::from(n), BigInt::from(d))
}

fn coeffs(text: &str) -> Vec<BigRational> {
    parse(text).unwrap().coeffs().to_vec()
}

fn wholes(values: &[i64]) -> Vec<BigRational> {
    values.iter().map(|c| whole(*c)).collect()
}

fn refusal(text: &str) -> ParseError {
    match parse(text) {
        Ok(p) => panic!("{} was read as {}", text, p.to_string()),
        Err(e) => e,
    }
}

#[test]
fn parse_is_deterministic() {
    for text in ["x^2+2*x+1", "C(x,3)/7 - 2x", "(x+1)(x-1)", "3!^2"] {
        let first = parse(text).unwrap();
        let second = parse(text).unwrap();
        assert_eq!(first, second);
    }
}

#[test]
fn parse_square_of_sum() {
    assert_eq!(coeffs("x^2+2*x+1"), wholes(&[1, 2, 1]));
}

#[test]
fn parsed_square_of_sum_evaluates_to_the_square() {
    let p = parse("x^2+2*x+1").unwrap();
    for v in [whole(0), whole(3), whole(-5), frac(1, 2), frac(-7, 3)] {
        let expected = (v.clone() + whole(1)) * (v.clone() + whole(1));
        assert_eq!(p.eval(&v), expected);
    }
}

#[test]
fn parse_two_over_zero_is_division_by_zero() {
    assert!(matches!(refusal("2/0"), ParseError::DivisionByZero));
}

#[test]
fn parse_x_to_the_x_is_not_constant_exponent() {
    match refusal("x^x") {
        ParseError::NotConstant { role, term } => {
            assert_eq!(role, OperandRole::Exponent);
            assert_eq!(term.coeffs().to_vec(), wholes(&[0, 1]));
        }
        other => panic!("unexpected refusal {:?}", other),
    }
}

#[test]
fn parse_five_factorial_is_constant_120() {
    let p = parse("5!").unwrap();
    assert_eq!(p.coeffs().to_vec(), wholes(&[120]));
    for v in [whole(0), whole(17), frac(-2, 9)] {
        assert_eq!(p.eval(&v), whole(120));
    }
}

#[test]
fn parse_choose_two_renders_in_standard_basis() {
    let p = parse("C(x,2)").unwrap();
    assert_eq!(p.coeffs().to_vec(), vec![whole(0), frac(-1, 2), frac(1, 2)]);
    assert_eq!(Basis::Standard.format(&p), "(1/2)*x^2 - (1/2)*x");
}

#[test]
fn parse_empty_input_is_refused_by_the_grammar() {
    assert!(matches!(refusal(""), ParseError::ExpectedOperand { found: None }));
    assert!(matches!(refusal("   "), ParseError::ExpectedOperand { found: None }));
}

#[test]
fn parse_numbers() {
    assert_eq!(coeffs("0"), wholes(&[0]));
    assert_eq!(coeffs("42"), wholes(&[42]));
    assert_eq!(coeffs("007"), wholes(&[7]));
    let big: BigInt = "123456789012345678901234567890".parse().unwrap();
    assert_eq!(
        coeffs("123456789012345678901234567890"),
        vec![BigRational::from_integer(big)]
    );
}

#[test]
fn parse_variable() {
    assert_eq!(coeffs("x"), wholes(&[0, 1]));
    assert_eq!(coeffs("  x  "), wholes(&[0, 1]));
}

#[test]
fn parse_sums_and_differences() {
    assert_eq!(coeffs("1+2+3"), wholes(&[6]));
    assert_eq!(coeffs("1-2-3"), wholes(&[-4]));
    assert_eq!(coeffs("x - x"), wholes(&[0]));
    assert_eq!(coeffs("x+1-x"), wholes(&[1]));
}

#[test]
fn parse_products_and_quotients() {
    assert_eq!(coeffs("2*3*x"), wholes(&[0, 6]));
    assert_eq!(coeffs("x/2"), vec![whole(0), frac(1, 2)]);
    assert_eq!(coeffs("6/4"), vec![frac(3, 2)]);
    assert_eq!(coeffs("8/2/2"), wholes(&[2]));
    assert_eq!(coeffs("x*x/4*2"), vec![whole(0), whole(0), frac(1, 2)]);
}

#[test]
fn parse_precedence_of_product_over_sum() {
    assert_eq!(coeffs("1+2*3"), wholes(&[7]));
    assert_eq!(coeffs("(1+2)*3"), wholes(&[9]));
    assert_eq!(coeffs("2*x+3*x^2"), wholes(&[0, 2, 3]));
}

#[test]
fn parse_implicit_multiplication() {
    assert_eq!(coeffs("2x"), wholes(&[0, 2]));
    assert_eq!(coeffs("2 x"), wholes(&[0, 2]));
    assert_eq!(coeffs("(x+1)(x-1)"), wholes(&[-1, 0, 1]));
    assert_eq!(coeffs("3(x+1)"), wholes(&[3, 3]));
    assert_eq!(coeffs("x x"), wholes(&[0, 0, 1]));
    assert_eq!(coeffs("2C(x,2)"), wholes(&[0, -1, 1]));
    assert_eq!(coeffs("2x^2"), wholes(&[0, 0, 2]));
}

#[test]
fn parse_number_after_number_is_trailing_input() {
    match refusal("2 3") {
        ParseError::TrailingInput { rest } => assert_eq!(rest, "3"),
        other => panic!("unexpected refusal {:?}", other),
    }
}

#[test]
fn parse_unary_minus() {
    assert_eq!(coeffs("-x"), wholes(&[0, -1]));
    assert_eq!(coeffs("--x"), wholes(&[0, 1]));
    assert_eq!(coeffs("- - -3"), wholes(&[-3]));
    assert_eq!(coeffs("-x^2"), wholes(&[0, 0, -1]));
    assert_eq!(coeffs("(-x)^2"), wholes(&[0, 0, 1]));
    assert_eq!(coeffs("2*-x"), wholes(&[0, -2]));
    assert_eq!(coeffs("1--1"), wholes(&[2]));
    assert_eq!(coeffs("-0"), wholes(&[0]));
}

#[test]
fn parse_power() {
    assert_eq!(coeffs("x^3"), wholes(&[0, 0, 0, 1]));
    assert_eq!(coeffs("2^10"), wholes(&[1024]));
    assert_eq!(coeffs("(x+1)^2"), wholes(&[1, 2, 1]));
    assert_eq!(coeffs("x^0"), wholes(&[1]));
    assert_eq!(coeffs("0^0"), wholes(&[1]));
    assert_eq!(coeffs("(x-x)^0"), wholes(&[1]));
}

#[test]
fn parse_power_chains_from_left_to_right() {
    // (2^3)^2 = 64, not 2^(3^2) = 512
    assert_eq!(coeffs("2^3^2"), wholes(&[64]));
    assert_eq!(coeffs("x^2^3"), wholes(&[0, 0, 0, 0, 0, 0, 1]));
}

#[test]
fn parse_factorial() {
    assert_eq!(coeffs("0!"), wholes(&[1]));
    assert_eq!(coeffs("3!"), wholes(&[6]));
    assert_eq!(coeffs("3!!"), wholes(&[720]));
    assert_eq!(coeffs("(1+2)!"), wholes(&[6]));
    assert_eq!(coeffs("3 !"), wholes(&[6]));
    assert_eq!(coeffs("2^3!"), wholes(&[64]));
    assert_eq!(coeffs("3!x"), wholes(&[0, 6]));
}

#[test]
fn parse_pick_and_choose_calls() {
    assert_eq!(coeffs("P(x,3)"), wholes(&[0, 2, -3, 1]));
    assert_eq!(coeffs("P(5,2)"), wholes(&[20]));
    assert_eq!(coeffs("C(5,2)"), wholes(&[10]));
    assert_eq!(coeffs("C(x,0)"), wholes(&[1]));
    assert_eq!(coeffs("C ( x , 2 )"), vec![whole(0), frac(-1, 2), frac(1, 2)]);
    assert_eq!(coeffs("C(x+1, 1+1)"), vec![whole(0), frac(1, 2), frac(1, 2)]);
    assert_eq!(coeffs("C(C(x,2),2)").len(), 5);
}

#[test]
fn parse_white_space_is_insignificant() {
    assert_eq!(coeffs(" ( x + 1 ) ^ 2 "), wholes(&[1, 2, 1]));
    assert_eq!(coeffs("\tx\n+\r\n1"), wholes(&[1, 1]));
    assert_eq!(coeffs("\u{a0}x\u{2003}+\u{3000}1"), wholes(&[1, 1]));
}

#[test]
fn parse_refuses_missing_operand() {
    assert!(matches!(refusal("1+"), ParseError::ExpectedOperand { found: None }));
    assert!(matches!(refusal("*2"), ParseError::ExpectedOperand { found: Some('*') }));
    assert!(matches!(refusal("2*/3"), ParseError::ExpectedOperand { found: Some('/') }));
    assert!(matches!(refusal("()"), ParseError::ExpectedOperand { found: Some(')') }));
    assert!(matches!(refusal("x^"), ParseError::ExpectedOperand { found: None }));
}

#[test]
fn parse_refuses_characters_outside_ascii_without_panicking() {
    assert!(matches!(refusal("é"), ParseError::ExpectedOperand { found: Some('é') }));
    assert!(matches!(refusal("1+π"), ParseError::ExpectedOperand { found: Some('π') }));
}

#[test]
fn parse_refuses_mismatched_parentheses() {
    assert!(matches!(refusal("(x+1"), ParseError::MismatchedParentheses));
    assert!(matches!(refusal("((x)"), ParseError::MismatchedParentheses));
    assert!(matches!(refusal("(x 2"), ParseError::MismatchedParentheses));
}

#[test]
fn parse_refuses_trailing_input() {
    match refusal("x+1)") {
        ParseError::TrailingInput { rest } => assert_eq!(rest, ")"),
        other => panic!("unexpected refusal {:?}", other),
    }
    match refusal("x ? y") {
        ParseError::TrailingInput { rest } => assert_eq!(rest, "? y"),
        other => panic!("unexpected refusal {:?}", other),
    }
}

#[test]
fn parse_refuses_unknown_identifier() {
    match refusal("y") {
        ParseError::UnknownIdentifier { name } => assert_eq!(name, "y"),
        other => panic!("unexpected refusal {:?}", other),
    }
    match refusal("2*xy+1") {
        ParseError::UnknownIdentifier { name } => assert_eq!(name, "xy"),
        other => panic!("unexpected refusal {:?}", other),
    }
    match refusal("P") {
        ParseError::UnknownIdentifier { name } => assert_eq!(name, "P"),
        other => panic!("unexpected refusal {:?}", other),
    }
}

#[test]
fn parse_refuses_unknown_function() {
    match refusal("f(x)") {
        ParseError::UnknownFunction { name } => assert_eq!(name, "f"),
        other => panic!("unexpected refusal {:?}", other),
    }
    match refusal("x(2)") {
        ParseError::UnknownFunction { name } => assert_eq!(name, "x"),
        other => panic!("unexpected refusal {:?}", other),
    }
    match refusal("PC(x,2)") {
        ParseError::UnknownFunction { name } => assert_eq!(name, "PC"),
        other => panic!("unexpected refusal {:?}", other),
    }
}

#[test]
fn parse_refuses_wrong_argument_count() {
    assert!(matches!(
        refusal("P()"),
        ParseError::WrongArgumentCount { function: CallKind::Pick, got: 0 }
    ));
    assert!(matches!(
        refusal("C(x)"),
        ParseError::WrongArgumentCount { function: CallKind::Choose, got: 1 }
    ));
    assert!(matches!(
        refusal("C(x,2,3)"),
        ParseError::WrongArgumentCount { function: CallKind::Choose, got: 3 }
    ));
}

#[test]
fn parse_refuses_bad_argument_list() {
    assert!(matches!(refusal("C(x 2)"), ParseError::ExpectedArgumentSeparator));
    assert!(matches!(refusal("C(x,2"), ParseError::ExpectedArgumentSeparator));
    assert!(matches!(refusal("C(x;2)"), ParseError::ExpectedArgumentSeparator));
    assert!(matches!(refusal("C(x,)"), ParseError::ExpectedOperand { found: Some(')') }));
    assert!(matches!(refusal("C("), ParseError::ExpectedOperand { found: None }));
}

#[test]
fn parse_refuses_division_by_polynomial() {
    match refusal("1/x") {
        ParseError::NotConstant { role, term } => {
            assert_eq!(role, OperandRole::Divisor);
            assert_eq!(term.coeffs().to_vec(), wholes(&[0, 1]));
        }
        other => panic!("unexpected refusal {:?}", other),
    }
    assert!(matches!(refusal("x/(1-1)"), ParseError::DivisionByZero));
}

#[test]
fn parse_refuses_operands_that_are_no_counts() {
    assert!(matches!(
        refusal("x!"),
        ParseError::NotConstant { role: OperandRole::FactorialOperand, .. }
    ));
    assert!(matches!(
        refusal("C(x,x)"),
        ParseError::NotConstant { role: OperandRole::SecondArgument(CallKind::Choose), .. }
    ));
    assert!(matches!(
        refusal("x^(1/2)"),
        ParseError::NotInteger { role: OperandRole::Exponent, .. }
    ));
    assert!(matches!(
        refusal("(3/2)!"),
        ParseError::NotInteger { role: OperandRole::FactorialOperand, .. }
    ));
    match refusal("x^(0-1)") {
        ParseError::Negative { role, value } => {
            assert_eq!(role, OperandRole::Exponent);
            assert_eq!(value, BigInt::from(-1));
        }
        other => panic!("unexpected refusal {:?}", other),
    }
    match refusal("P(x,-2)") {
        ParseError::Negative { role, value } => {
            assert_eq!(role, OperandRole::SecondArgument(CallKind::Pick));
            assert_eq!(value, BigInt::from(-2));
        }
        other => panic!("unexpected refusal {:?}", other),
    }
}

#[test]
fn parse_refuses_counts_beyond_the_machine() {
    let text = "1^100000000000000000000000000000000000000";
    match refusal(text) {
        ParseError::TooLarge { role, value } => {
            assert_eq!(role, OperandRole::Exponent);
            let expected: BigInt = "100000000000000000000000000000000000000".parse().unwrap();
            assert_eq!(value, expected);
        }
        other => panic!("unexpected refusal {:?}", other),
    }
}

#[test]
fn parse_refuses_degrees_beyond_the_machine() {
    let huge = usize::MAX.to_string();
    assert!(matches!(refusal(&format!("x^{}", huge)), ParseError::DegreeOverflow));
    assert!(matches!(refusal(&format!("P(x,{})", huge)), ParseError::DegreeOverflow));
    assert!(matches!(
        refusal(&format!("(x^2)^{}", usize::MAX / 2 + 1)),
        ParseError::DegreeOverflow
    ));
}

#[test]
fn parse_first_refusal_wins() {
    assert!(matches!(refusal("2/0 + y"), ParseError::DivisionByZero));
    match refusal("y + 2/0") {
        ParseError::UnknownIdentifier { name } => assert_eq!(name, "y"),
        other => panic!("unexpected refusal {:?}", other),
    }
    match refusal("f(2/0)") {
        ParseError::DivisionByZero => {}
        other => panic!("unexpected refusal {:?}", other),
    }
}

#[test]
fn messages_name_the_rule_and_the_value() {
    assert_eq!(refusal("2/0").message(), "Division by zero is not allowed.");
    assert_eq!(
        refusal("x^x").message(),
        "Exponent must be a constant, got x"
    );
    assert_eq!(
        refusal("1/(x+1)").message(),
        "Division must be by a constant number, not a polynomial containing 'x'. \
         Problem term: x + 1"
    );
    assert_eq!(
        refusal("(1/2)!").message(),
        "Operand for ! must be an integer, got 1/2"
    );
    assert_eq!(
        refusal("C(x,0-3)").message(),
        "Second argument to C must be non-negative, got -3"
    );
    assert_eq!(
        refusal("P(x,99999999999999999999999999)").message(),
        "Second argument to P is too large, got 99999999999999999999999999"
    );
    assert_eq!(
        refusal("").message(),
        "Expected a number, variable 'x', or parenthesis but found ''"
    );
    assert_eq!(
        refusal("2+*").message(),
        "Expected a number, variable 'x', or parenthesis but found '*'"
    );
    assert_eq!(refusal("(x").message(), "Mismatched parentheses");
    assert_eq!(
        refusal("abc").message(),
        "Unexpected identifier 'abc' without function call"
    );
    assert_eq!(refusal("g(1)").message(), "Unknown function 'g'");
    assert_eq!(
        refusal("P(1,2,3)").message(),
        "Function P takes 2 arguments, got 3"
    );
    assert_eq!(
        refusal("C(1 2)").message(),
        "Expected ',' or ')' in argument list"
    );
    assert_eq!(
        refusal("x )").message(),
        "Unexpected input after the expression: ')'"
    );
    assert_eq!(
        refusal(&format!("x^{}", usize::MAX)).message(),
        "The degree of the result is too large"
    );
}

#[test]
fn invalid_number_message() {
    let e = ParseError::InvalidNumber { text: String::from("12") };
    assert_eq!(e.message(), "Invalid number format for '12'");
}

#[test]
fn role_descriptions() {
    assert_eq!(OperandRole::Divisor.describe(), "Divisor");
    assert_eq!(OperandRole::Exponent.describe(), "Exponent");
    assert_eq!(OperandRole::FactorialOperand.describe(), "Operand for !");
    assert_eq!(
        OperandRole::SecondArgument(CallKind::Pick).describe(),
        "Second argument to P"
    );
    assert_eq!(CallKind::Choose.name(), "C");
}

#[test]
fn parse_result_is_trimmed() {
    let p: Polynomial = parse("x^3 - x^3 + 2").unwrap();
    assert_eq!(p.degree(), 0);
    assert_eq!(p.coeffs().to_vec(), wholes(&[2]));
}
