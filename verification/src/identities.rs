//! A worked identity: the text `x^2+2*x+1` stands for the square of `x + 1`.

use crate::algebra::{
    lemma_add_coeff, lemma_conv_peel, lemma_mul_coeff, lemma_mul_one, lemma_trimmed_unique,
};
use crate::error::{Failure, OperandRole};
use crate::parse::poly_to_usize::count_of;
use crate::parse::stream::{is_letter, is_space, skip_spaces};
use crate::parse::{
    parse_spec, run_length, spec_expr, spec_expr_tail, spec_factor, spec_named, spec_number,
    spec_postfix, spec_postfix_tail, spec_power, spec_power_tail, spec_primary, spec_term,
    spec_term_tail, within,
};
use crate::polynomial::{coeff, conv, poly_add, poly_eval, poly_mul, poly_pow, variable};
use crate::rational::{decimal_value, is_digit};
use vstd::prelude::*;

verus! {

/// `c` is one of the operators `+`, `*` and `^`.
pub open spec fn is_operator(c: char) -> bool {
    c == '+' || c == '*' || c == '^'
}

/// A text that is empty or starts with an operator.
pub open spec fn at_operator(s: Seq<char>) -> bool {
    s.len() == 0 || is_operator(s[0])
}

/// The variable alone, before an operator or the end, is read as the variable.
pub proof fn lemma_postfix_variable(s: Seq<char>)
    requires
        s.len() >= 1,
        s[0] == 'x',
        at_operator(s.skip(1)),
    ensures
        spec_postfix(s) == Ok::<(Seq<real>, Seq<char>), Failure>((variable(), s.skip(1))),
{
    let rest = s.skip(1);
    let letter = |c: char| is_letter(c);
    assert(s.drop_first() =~= rest);
    assert(run_length(rest, letter) == 0);
    assert(run_length(s, letter) == 1);
    assert(skip_spaces(s) == s);
    assert(skip_spaces(rest) == rest);
    assert(s.take(1) =~= seq!['x']);
    assert(spec_named(s) == Ok::<(Seq<real>, Seq<char>), Failure>((variable(), rest)));
    assert(spec_primary(s) == spec_named(s));
    assert(spec_postfix_tail(variable(), rest) == Ok::<(Seq<real>, Seq<char>), Failure>(
        (variable(), rest),
    ));
}

/// A single digit, before an operator or the end, is read as its number.
pub proof fn lemma_postfix_digit(s: Seq<char>)
    requires
        s.len() >= 1,
        is_digit(s[0]),
        at_operator(s.skip(1)),
    ensures
        spec_postfix(s) == Ok::<(Seq<real>, Seq<char>), Failure>(
            (seq![(s[0] as int - '0' as int) as real], s.skip(1)),
        ),
{
    let rest = s.skip(1);
    let digit = |c: char| is_digit(c);
    let p = seq![(s[0] as int - '0' as int) as real];
    assert(s.drop_first() =~= rest);
    assert(run_length(rest, digit) == 0);
    assert(run_length(s, digit) == 1);
    assert(skip_spaces(s) == s);
    assert(skip_spaces(rest) == rest);
    assert(s.take(1).drop_last() =~= Seq::<char>::empty());
    assert(decimal_value(s.take(1).drop_last()) == 0);
    assert(s.take(1).last() == s[0]);
    assert(decimal_value(s.take(1)) == s[0] as int - '0' as int);
    assert(spec_number(s) == Ok::<(Seq<real>, Seq<char>), Failure>((p, rest)));
    assert(spec_primary(s) == spec_number(s));
    assert(spec_postfix_tail(p, rest) == Ok::<(Seq<real>, Seq<char>), Failure>((p, rest)));
}

/// A postfix expression with no `^` after it is a power, and with no `-`
/// before it a factor.
pub proof fn lemma_factor_plain(s: Seq<char>, p: Seq<real>, rest: Seq<char>)
    requires
        spec_postfix(s) == Ok::<(Seq<real>, Seq<char>), Failure>((p, rest)),
        rest.len() < s.len(),
        s.len() >= 1,
        !is_space(s[0]),
        s[0] != '-',
        rest.len() == 0 || rest[0] == '+' || rest[0] == '*',
    ensures
        spec_factor(s) == Ok::<(Seq<real>, Seq<char>), Failure>((p, rest)),
{
    assert(skip_spaces(s) == s);
    assert(skip_spaces(rest) == rest);
    assert(within(rest, s) == rest);
    assert(spec_power_tail(p, rest) == Ok::<(Seq<real>, Seq<char>), Failure>((p, rest)));
    assert(spec_power(s) == Ok::<(Seq<real>, Seq<char>), Failure>((p, rest)));
}

/// A factor with `+` or the end after it is a term.
pub proof fn lemma_term_plain(s: Seq<char>, p: Seq<real>, rest: Seq<char>)
    requires
        spec_factor(s) == Ok::<(Seq<real>, Seq<char>), Failure>((p, rest)),
        rest.len() < s.len(),
        rest.len() == 0 || rest[0] == '+',
    ensures
        spec_term(s) == Ok::<(Seq<real>, Seq<char>), Failure>((p, rest)),
{
    assert(skip_spaces(rest) == rest);
    assert(within(rest, s) == rest);
    assert(spec_term_tail(p, rest) == Ok::<(Seq<real>, Seq<char>), Failure>((p, rest)));
}

/// The square of the variable.
pub proof fn lemma_variable_squared()
    ensures
        poly_pow(variable(), 2) == seq![0real, 0real, 1real],
{
    let v = variable();
    let sq = poly_mul(v, v);
    let expected = seq![0real, 0real, 1real];
    lemma_mul_one(v);
    assert(poly_pow(v, 0) == seq![1real]);
    assert(poly_pow(v, 1) == poly_mul(poly_pow(v, 0), v));
    assert(poly_pow(v, 2) == poly_mul(poly_pow(v, 1), v));
    lemma_mul_coeff(v, v);
    assert forall|k: int| k >= 0 implies coeff(sq, k) == coeff(expected, k) by {
        lemma_conv_peel(v, v, k);
        lemma_conv_peel(v.drop_first(), v, k - 1);
        assert(v.drop_first().drop_first() =~= Seq::<real>::empty());
        assert(conv(v.drop_first().drop_first(), v, k - 2) == 0real);
        assert(v.drop_first()[0] == 1real);
    }
    lemma_trimmed_unique(sq, expected);
}

/// Twice the variable.
pub proof fn lemma_twice_variable()
    ensures
        poly_mul(seq![2real], variable()) == seq![0real, 2real],
{
    let v = variable();
    let two = seq![2real];
    let expected = seq![0real, 2real];
    lemma_mul_coeff(two, v);
    assert forall|k: int| k >= 0 implies coeff(poly_mul(two, v), k) == coeff(expected, k) by {
        lemma_conv_peel(two, v, k);
        assert(two.drop_first() =~= Seq::<real>::empty());
        assert(conv(two.drop_first(), v, k - 1) == 0real);
    }
    lemma_trimmed_unique(poly_mul(two, v), expected);
}

/// `x^2`, before `+` or the end, is a term: the square of the variable.
pub proof fn lemma_term_square(s: Seq<char>)
    requires
        s.len() >= 3,
        s[0] == 'x',
        s[1] == '^',
        s[2] == '2',
        s.len() == 3 || s[3] == '+',
    ensures
        spec_term(s) == Ok::<(Seq<real>, Seq<char>), Failure>(
            (seq![0real, 0real, 1real], s.skip(3)),
        ),
{
    let s1 = s.skip(1);
    let s2 = s.skip(2);
    let s3 = s.skip(3);
    let v = variable();
    let two = seq![2real];
    let square = seq![0real, 0real, 1real];
    assert(s2.skip(1) =~= s3);
    assert(s1.drop_first() =~= s2);
    lemma_postfix_variable(s);
    lemma_postfix_digit(s2);
    assert(two[0].floor() == 2);
    assert(count_of(two, OperandRole::Exponent) == Ok::<nat, Failure>(2nat));
    lemma_variable_squared();
    assert(skip_spaces(s1) == s1);
    assert(skip_spaces(s3) == s3);
    assert(spec_power_tail(square, s3) == Ok::<(Seq<real>, Seq<char>), Failure>((square, s3)));
    assert(within(s3, s2) == s3);
    assert(spec_power_tail(v, s1) == Ok::<(Seq<real>, Seq<char>), Failure>((square, s3)));
    assert(within(s1, s) == s1);
    assert(spec_power(s) == Ok::<(Seq<real>, Seq<char>), Failure>((square, s3)));
    assert(skip_spaces(s) == s);
    assert(spec_factor(s) == Ok::<(Seq<real>, Seq<char>), Failure>((square, s3)));
    lemma_term_plain(s, square, s3);
}

/// `2*x`, before `+` or the end, is a term: twice the variable.
pub proof fn lemma_term_twice(s: Seq<char>)
    requires
        s.len() >= 3,
        s[0] == '2',
        s[1] == '*',
        s[2] == 'x',
        s.len() == 3 || s[3] == '+',
    ensures
        spec_term(s) == Ok::<(Seq<real>, Seq<char>), Failure>((seq![0real, 2real], s.skip(3))),
{
    let s1 = s.skip(1);
    let s2 = s.skip(2);
    let s3 = s.skip(3);
    let v = variable();
    let two = seq![2real];
    let twice = seq![0real, 2real];
    assert(s2.skip(1) =~= s3);
    assert(s1.drop_first() =~= s2);
    lemma_postfix_digit(s);
    lemma_factor_plain(s, two, s1);
    lemma_postfix_variable(s2);
    lemma_factor_plain(s2, v, s3);
    lemma_twice_variable();
    assert(skip_spaces(s1) == s1);
    assert(skip_spaces(s3) == s3);
    assert(spec_term_tail(twice, s3) == Ok::<(Seq<real>, Seq<char>), Failure>((twice, s3)));
    assert(within(s3, s2) == s3);
    assert(spec_term_tail(two, s1) == Ok::<(Seq<real>, Seq<char>), Failure>((twice, s3)));
    assert(within(s1, s) == s1);
}

/// A single digit at the end of the text is a term: its number.
pub proof fn lemma_term_digit(s: Seq<char>)
    requires
        s.len() == 1,
        is_digit(s[0]),
    ensures
        spec_term(s) == Ok::<(Seq<real>, Seq<char>), Failure>(
            (seq![(s[0] as int - '0' as int) as real], s.skip(1)),
        ),
{
    let p = seq![(s[0] as int - '0' as int) as real];
    lemma_postfix_digit(s);
    lemma_factor_plain(s, p, s.skip(1));
    lemma_term_plain(s, p, s.skip(1));
}

/// The sum of the three terms of `x^2+2*x+1`.
pub proof fn lemma_sum_of_terms()
    ensures
        poly_add(seq![0real, 0real, 1real], seq![0real, 2real]) == seq![0real, 2real, 1real],
        poly_add(seq![0real, 2real, 1real], seq![1real]) == seq![1real, 2real, 1real],
{
    let square = seq![0real, 0real, 1real];
    let twice = seq![0real, 2real];
    let one = seq![1real];
    let partial = seq![0real, 2real, 1real];
    let total = seq![1real, 2real, 1real];
    lemma_add_coeff(square, twice);
    lemma_trimmed_unique(poly_add(square, twice), partial);
    lemma_add_coeff(partial, one);
    lemma_trimmed_unique(poly_add(partial, one), total);
}

/// A term alone starts an expression.
pub proof fn lemma_expr_start(s: Seq<char>, p: Seq<real>, rest: Seq<char>)
    requires
        spec_term(s) == Ok::<(Seq<real>, Seq<char>), Failure>((p, rest)),
        rest.len() <= s.len(),
    ensures
        spec_expr(s) == spec_expr_tail(p, rest),
{
    assert(within(rest, s) == rest);
}

/// After `+`, the next term is added.
pub proof fn lemma_expr_plus(acc: Seq<real>, s: Seq<char>, rhs: Seq<real>, rest: Seq<char>)
    requires
        s.len() >= 1,
        s[0] == '+',
        spec_term(s.drop_first()) == Ok::<(Seq<real>, Seq<char>), Failure>((rhs, rest)),
        rest.len() < s.len(),
    ensures
        spec_expr_tail(acc, s) == spec_expr_tail(poly_add(acc, rhs), rest),
{
    assert(skip_spaces(s) == s);
    assert(within(rest, s.drop_first()) == rest);
}

/// At the end of the text an expression is complete.
pub proof fn lemma_expr_end(acc: Seq<real>, s: Seq<char>)
    requires
        s.len() == 0,
    ensures
        spec_expr_tail(acc, s) == Ok::<(Seq<real>, Seq<char>), Failure>((acc, s)),
{
    assert(skip_spaces(s) == s);
}

/// Three terms joined by `+`, with nothing after them, are read as their sum.
pub proof fn lemma_three_terms(
    s: Seq<char>,
    t1: Seq<real>,
    r1: Seq<char>,
    t2: Seq<real>,
    r2: Seq<char>,
    t3: Seq<real>,
    r3: Seq<char>,
)
    requires
        spec_term(s) == Ok::<(Seq<real>, Seq<char>), Failure>((t1, r1)),
        r1.len() <= s.len(),
        r1.len() >= 1,
        r1[0] == '+',
        spec_term(r1.drop_first()) == Ok::<(Seq<real>, Seq<char>), Failure>((t2, r2)),
        r2.len() < r1.len(),
        r2.len() >= 1,
        r2[0] == '+',
        spec_term(r2.drop_first()) == Ok::<(Seq<real>, Seq<char>), Failure>((t3, r3)),
        r3.len() == 0,
    ensures
        parse_spec(s) == Ok::<Seq<real>, Failure>(poly_add(poly_add(t1, t2), t3)),
{
    lemma_expr_start(s, t1, r1);
    lemma_expr_plus(t1, r1, t2, r2);
    lemma_expr_plus(poly_add(t1, t2), r2, t3, r3);
    lemma_expr_end(poly_add(poly_add(t1, t2), t3), r3);
    assert(skip_spaces(r3) == r3);
}

/// In a text of nine characters with `2*x+` from the fifth on, those are a
/// term: twice the variable.
proof fn lemma_middle_term(s: Seq<char>)
    requires
        s.len() == 9,
        s[4] == '2',
        s[5] == '*',
        s[6] == 'x',
        s[7] == '+',
    ensures
        spec_term(s.skip(3).drop_first()) == Ok::<(Seq<real>, Seq<char>), Failure>(
            (seq![0real, 2real], s.skip(7)),
        ),
{
    let s4 = s.skip(4);
    assert(s4.skip(3) =~= s.skip(7));
    assert(s.skip(3).drop_first() =~= s4);
    lemma_term_twice(s4);
}

/// In a text of nine characters that ends in `1`, that is a term: one.
proof fn lemma_last_term(s: Seq<char>)
    requires
        s.len() == 9,
        s[8] == '1',
    ensures
        spec_term(s.skip(7).drop_first()) == Ok::<(Seq<real>, Seq<char>), Failure>(
            (seq![1real], s.skip(9)),
        ),
{
    let s8 = s.skip(8);
    assert(s8.skip(1) =~= s.skip(9));
    assert(s.skip(7).drop_first() =~= s8);
    lemma_term_digit(s8);
}

/// Three terms joined by `+`, with nothing after them, that are the square
/// of the variable, twice the variable and one, are read as the polynomial
/// with the coefficients one, two, one.
proof fn lemma_joined_terms(s: Seq<char>, r1: Seq<char>, r2: Seq<char>, r3: Seq<char>)
    requires
        spec_term(s) == Ok::<(Seq<real>, Seq<char>), Failure>((seq![0real, 0real, 1real], r1)),
        r1.len() <= s.len(),
        r1.len() >= 1,
        r1[0] == '+',
        spec_term(r1.drop_first()) == Ok::<(Seq<real>, Seq<char>), Failure>(
            (seq![0real, 2real], r2),
        ),
        r2.len() < r1.len(),
        r2.len() >= 1,
        r2[0] == '+',
        spec_term(r2.drop_first()) == Ok::<(Seq<real>, Seq<char>), Failure>((seq![1real], r3)),
        r3.len() == 0,
    ensures
        parse_spec(s) == Ok::<Seq<real>, Failure>(seq![1real, 2real, 1real]),
{
    lemma_sum_of_terms();
    lemma_three_terms(s, seq![0real, 0real, 1real], r1, seq![0real, 2real], r2, seq![1real], r3);
}

/// A text of the nine characters `x^2+2*x+1` is read as the polynomial with
/// the coefficients one, two, one.
pub proof fn lemma_parse_square_text(s: Seq<char>)
    requires
        s.len() == 9,
        s[0] == 'x',
        s[1] == '^',
        s[2] == '2',
        s[3] == '+',
        s[4] == '2',
        s[5] == '*',
        s[6] == 'x',
        s[7] == '+',
        s[8] == '1',
    ensures
        parse_spec(s) == Ok::<Seq<real>, Failure>(seq![1real, 2real, 1real]),
{
    lemma_term_square(s);
    lemma_middle_term(s);
    lemma_last_term(s);
    lemma_joined_terms(s, s.skip(3), s.skip(7), s.skip(9));
}

/// The text `x^2+2*x+1` is read as the polynomial with the coefficients
/// one, two, one.
pub proof fn lemma_parse_square()
    ensures
        parse_spec("x^2+2*x+1"@) == Ok::<Seq<real>, Failure>(seq![1real, 2real, 1real]),
{
    reveal_strlit("x^2+2*x+1");
    lemma_parse_square_text("x^2+2*x+1"@);
}

/// The polynomial that `x^2+2*x+1` stands for has at every point `v` the
/// value of the square of `v + 1`.
pub proof fn lemma_square_of_sum(v: real)
    ensures
        parse_spec("x^2+2*x+1"@) is Ok,
        poly_eval(parse_spec("x^2+2*x+1"@)->Ok_0, v) == (v + 1real) * (v + 1real),
{
    lemma_parse_square();
    let p = seq![1real, 2real, 1real];
    reveal_with_fuel(poly_eval, 4);
    assert(p.drop_first() =~= seq![2real, 1real]);
    assert(p.drop_first().drop_first() =~= seq![1real]);
    assert(p.drop_first().drop_first().drop_first() =~= Seq::<real>::empty());
    assert(poly_eval(p, v) == 1real + v * (2real + v * (1real + v * 0real)));
    assert(1real + v * (2real + v * (1real + v * 0real)) == (v + 1real) * (v + 1real))
        by (nonlinear_arith);
}

} // verus!
