use num_bigint::BigInt;
use num_rational::BigRational;
use polycalc::error::{CallKind, OperandRole, ParseError};
use polycalc::parse::poly_to_usize::poly_to_usize;
use polycalc::parse::stream::{char_is_digit, char_is_letter, char_is_space, Stream};
use polycalc::parse::{
    parse_args, parse_expr, parse_factor, parse_function_call, parse_group, parse_identifier,
    parse_named, parse_number, parse_pascal_call, parse_postfix, parse_power, parse_primary,
    parse_term,
};
use polycalc::polynomial::{x, Polynomial};

fn whole(n: i64) -> BigRational {
    BigRational::from_integer(BigInt::from(n))
}

fn wholes(values: &[i64]) -> Vec<BigRational> {
    values.iter().map(|c| whole(*c)).collect()
}

fn rest_of(stream: Stream) -> String {
    match stream.finish() {
        Ok(()) => String::new(),
        Err(rest) => rest.to_string(),
    }
}

#[test]
fn character_classes() {
    for c in [' ', '\t', '\n', '\r', '\u{b}', '\u{c}', '\u{85}', '\u{a0}', '\u{1680}', '\u{2000}',
        '\u{200a}', '\u{2028}', '\u{2029}', '\u{202f}', '\u{205f}', '\u{3000}']
    {
        assert!(char_is_space(c));
        assert!(c.is_whitespace());
    }
    for c in ['a', '0', '+', '\u{200b}', '\u{feff}', '\u{1c}'] {
        assert!(!char_is_space(c));
    }
    for code in 0u32..0x3100 {
        if let Some(c) = char::from_u32(code) {
            assert_eq!(char_is_space(c), c.is_whitespace());
            assert_eq!(char_is_letter(c), c.is_ascii_alphabetic());
            assert_eq!(char_is_digit(c), c.is_ascii_digit());
        }
    }
}

#[test]
fn stream_new_starts_at_the_beginning() {
    let stream = Stream::new("abc");
    assert_eq!(rest_of(stream), "abc");
}

#[test]
fn stream_trim_start_skips_white_space() {
    let mut stream = Stream::new(" \t\n x y ");
    stream.trim_start();
    assert_eq!(stream.peek_char(), Some('x'));
    assert_eq!(rest_of(stream), "x y ");
}

#[test]
fn stream_take_char_takes_only_the_given_character() {
    let mut stream = Stream::new("  +-");
    assert!(!stream.take_char('-'));
    assert!(stream.take_char('+'));
    assert!(!stream.take_char('+'));
    assert!(stream.take_char('-'));
    assert!(!stream.take_char('-'));
    assert_eq!(rest_of(stream), "");
}

#[test]
fn stream_take_char_of_wide_character() {
    let mut stream = Stream::new(" →x");
    assert!(stream.take_char('→'));
    assert_eq!(rest_of(stream), "x");
}

#[test]
fn stream_parse_all_matching_takes_the_longest_run() {
    let mut stream = Stream::new("  123abc");
    let digits = stream.parse_all_matching(|c: &char| c.is_ascii_digit());
    assert_eq!(digits, "123");
    let none = stream.parse_all_matching(|c: &char| c.is_ascii_digit());
    assert_eq!(none, "");
    let letters = stream.parse_all_matching(|c: &char| c.is_ascii_alphabetic());
    assert_eq!(letters, "abc");
    assert_eq!(rest_of(stream), "");
}

#[test]
fn stream_peek_char_does_not_take() {
    let mut stream = Stream::new("  q");
    assert_eq!(stream.peek_char(), Some('q'));
    assert_eq!(stream.peek_char(), Some('q'));
    let mut empty = Stream::new("   ");
    assert_eq!(empty.peek_char(), None);
}

#[test]
fn stream_finish_reports_what_is_left() {
    assert_eq!(Stream::new("").finish(), Ok(()));
    assert_eq!(Stream::new("  \n").finish(), Ok(()));
    assert_eq!(Stream::new("  rest ").finish(), Err("rest "));
}

#[test]
fn parse_identifier_splits_at_first_non_letter() {
    assert_eq!(parse_identifier("abc(1)"), ("abc", "(1)"));
    assert_eq!(parse_identifier("x"), ("x", ""));
    assert_eq!(parse_identifier("xY2z"), ("xY", "2z"));
    assert_eq!(parse_identifier(" x"), ("", " x"));
    assert_eq!(parse_identifier(""), ("", ""));
    assert_eq!(parse_identifier("éa"), ("", "éa"));
}

#[test]
fn poly_to_usize_reads_counts() {
    let role = OperandRole::Exponent;
    assert_eq!(poly_to_usize(&Polynomial::constant(whole(0)), role).unwrap(), 0);
    assert_eq!(poly_to_usize(&Polynomial::constant(whole(12)), role).unwrap(), 12);
    let max = BigRational::from_integer(BigInt::from(usize::MAX));
    assert_eq!(poly_to_usize(&Polynomial::constant(max), role).unwrap(), usize::MAX);
}

#[test]
fn poly_to_usize_refuses_what_is_no_count() {
    let role = OperandRole::SecondArgument(CallKind::Pick);
    assert!(matches!(
        poly_to_usize(&x(), role),
        Err(ParseError::NotConstant { .. })
    ));
    let half = BigRational::new(BigInt::from(1), BigInt::from(2));
    assert!(matches!(
        poly_to_usize(&Polynomial::constant(half), role),
        Err(ParseError::NotInteger { .. })
    ));
    assert!(matches!(
        poly_to_usize(&Polynomial::constant(whole(-1)), role),
        Err(ParseError::Negative { .. })
    ));
    let beyond = BigRational::from_integer(BigInt::from(usize::MAX) + BigInt::from(1));
    assert!(matches!(
        poly_to_usize(&Polynomial::constant(beyond), role),
        Err(ParseError::TooLarge { .. })
    ));
}

#[test]
fn parse_number_leaves_the_rest() {
    let mut stream = Stream::new(" 120x");
    let p = parse_number(&mut stream).unwrap();
    assert_eq!(p.coeffs().to_vec(), wholes(&[120]));
    assert_eq!(rest_of(stream), "x");
}

#[test]
fn parse_primary_reads_one_operand() {
    let mut stream = Stream::new("(x+1)2");
    let p = parse_primary(&mut stream).unwrap();
    assert_eq!(p.coeffs().to_vec(), wholes(&[1, 1]));
    assert_eq!(rest_of(stream), "2");
}

#[test]
fn parse_group_reads_up_to_the_closing_parenthesis() {
    let mut stream = Stream::new("x+1 ) rest");
    let p = parse_group(&mut stream).unwrap();
    assert_eq!(p.coeffs().to_vec(), wholes(&[1, 1]));
    assert_eq!(rest_of(stream), "rest");
}

#[test]
fn parse_named_reads_variable_or_call() {
    let mut stream = Stream::new("x+1");
    assert_eq!(parse_named(&mut stream).unwrap().coeffs().to_vec(), wholes(&[0, 1]));
    assert_eq!(rest_of(stream), "+1");
    let mut call = Stream::new("P(4,2)!");
    assert_eq!(parse_named(&mut call).unwrap().coeffs().to_vec(), wholes(&[12]));
    assert_eq!(rest_of(call), "!");
}

#[test]
fn parse_postfix_reads_factorials() {
    let mut stream = Stream::new("3!!^2");
    let p = parse_postfix(&mut stream).unwrap();
    assert_eq!(p.coeffs().to_vec(), wholes(&[720]));
    assert_eq!(rest_of(stream), "^2");
}

#[test]
fn parse_power_reads_exponents() {
    let mut stream = Stream::new("x^2^2*3");
    let p = parse_power(&mut stream).unwrap();
    assert_eq!(p.coeffs().to_vec(), wholes(&[0, 0, 0, 0, 1]));
    assert_eq!(rest_of(stream), "*3");
}

#[test]
fn parse_factor_reads_signs() {
    let mut stream = Stream::new("--x^2+1");
    let p = parse_factor(&mut stream).unwrap();
    assert_eq!(p.coeffs().to_vec(), wholes(&[0, 0, 1]));
    assert_eq!(rest_of(stream), "+1");
}

#[test]
fn parse_term_stops_before_a_sum() {
    let mut stream = Stream::new("2x/4 + 1");
    let p = parse_term(&mut stream).unwrap();
    assert_eq!(
        p.coeffs().to_vec(),
        vec![whole(0), BigRational::new(BigInt::from(1), BigInt::from(2))]
    );
    assert_eq!(rest_of(stream), "+ 1");
}

#[test]
fn parse_expr_stops_before_what_it_cannot_read() {
    let mut stream = Stream::new("x+1, 2)");
    let p = parse_expr(&mut stream).unwrap();
    assert_eq!(p.coeffs().to_vec(), wholes(&[1, 1]));
    assert_eq!(rest_of(stream), ", 2)");
}

#[test]
fn parse_args_reads_a_list() {
    let mut stream = Stream::new(" x , 2+1 , 4 ) tail");
    let args = parse_args(&mut stream).unwrap();
    assert_eq!(args.len(), 3);
    assert_eq!(args[0].coeffs().to_vec(), wholes(&[0, 1]));
    assert_eq!(args[1].coeffs().to_vec(), wholes(&[3]));
    assert_eq!(args[2].coeffs().to_vec(), wholes(&[4]));
    assert_eq!(rest_of(stream), ") tail");
    let mut empty = Stream::new(" )");
    assert!(parse_args(&mut empty).unwrap().is_empty());
    assert_eq!(rest_of(empty), ")");
    let mut single = Stream::new("x)");
    assert_eq!(parse_args(&mut single).unwrap().len(), 1);
    assert_eq!(rest_of(single), ")");
}

#[test]
fn parse_args_refuses_a_list_without_end() {
    let mut open_list = Stream::new("x, 2");
    assert!(matches!(
        parse_args(&mut open_list),
        Err(ParseError::ExpectedArgumentSeparator)
    ));
    let mut bad = Stream::new("x 2)");
    assert!(matches!(parse_args(&mut bad), Err(ParseError::ExpectedArgumentSeparator)));
    let mut missing = Stream::new("x, )");
    assert!(matches!(
        parse_args(&mut missing),
        Err(ParseError::ExpectedOperand { found: Some(')') })
    ));
}

#[test]
fn parse_function_call_applies_the_function() {
    let mut stream = Stream::new("6, 2) + 1");
    let p = parse_function_call("C", &mut stream).unwrap();
    assert_eq!(p.coeffs().to_vec(), wholes(&[15]));
    assert_eq!(rest_of(stream), "+ 1");
}

#[test]
fn parse_pascal_call_checks_its_arguments() {
    let args = vec![Polynomial::constant(whole(6)), Polynomial::constant(whole(3))];
    assert_eq!(
        parse_pascal_call(&args, CallKind::Pick).unwrap().coeffs().to_vec(),
        wholes(&[120])
    );
    assert_eq!(
        parse_pascal_call(&args, CallKind::Choose).unwrap().coeffs().to_vec(),
        wholes(&[20])
    );
    let one = vec![x()];
    assert!(matches!(
        parse_pascal_call(&one, CallKind::Pick),
        Err(ParseError::WrongArgumentCount { function: CallKind::Pick, got: 1 })
    ));
}
