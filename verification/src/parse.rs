//! The expression parser.
//!
//! The grammar is stated as functions on the text that is left to read; each
//! gives the polynomial read and the text after it, or the reason for
//! refusing. The parser proper walks a [`Stream`] and returns what those
//! functions say.

pub mod poly_to_usize;
pub mod progress;
pub mod stream;

use crate::error::{CallKind, Failure, OperandRole, ParseError};
use crate::parse::poly_to_usize::{count_of, poly_to_usize};
use crate::parse::stream::{
    char_is_digit, char_is_letter, is_letter, lemma_skip_spaces, skip_spaces, Stream,
};
use crate::pascal::{
    checked_choose, checked_pick, choose_spec, factorial, factorial_spec, pick_spec,
};
use crate::polynomial::{
    lemma_value_whole, lemma_value_zero, poly_add, poly_div, poly_mul, poly_neg, poly_pow,
    poly_sub, variable, x, Polynomial,
};
use crate::rational::{
    bigint_from_decimal, decimal_value, is_digit, rational_from_integer, rational_is_zero,
};
use vstd::prelude::*;
use vstd::string::*;

verus! {

/// `s` starts with `c`.
pub open spec fn starts_with(s: Seq<char>, c: char) -> bool {
    s.len() > 0 && s[0] == c
}

/// How many characters at the start of `s` are accepted, up to the first
/// that is not.
pub open spec fn run_length(s: Seq<char>, accept: spec_fn(char) -> bool) -> nat
    decreases s.len(),
{
    if s.len() > 0 && accept(s[0]) {
        1 + run_length(s.drop_first(), accept)
    } else {
        0
    }
}

/// A run is no longer than the text.
pub proof fn lemma_run_length(s: Seq<char>, accept: spec_fn(char) -> bool)
    ensures
        run_length(s, accept) <= s.len(),
    decreases s.len(),
{
    if s.len() > 0 && accept(s[0]) {
        lemma_run_length(s.drop_first(), accept);
    }
}

/// The text left by a step, which is never longer than the text given to it.
/// No step leaves more than it was given (see [`progress`]); the bound is
/// stated here so that the grammar below is well-founded by its form.
pub open spec fn within(rest: Seq<char>, given: Seq<char>) -> Seq<char> {
    if rest.len() <= given.len() {
        rest
    } else {
        given
    }
}

/// A polynomial read and the text after it, or a refusal.
pub type Step = Result<(Seq<real>, Seq<char>), Failure>;

/// A list of polynomials read and the text after it, or a refusal.
pub type ListStep = Result<(Seq<Seq<real>>, Seq<char>), Failure>;

/// `number`: a run of decimal digits, after white space.
pub open spec fn spec_number(s: Seq<char>) -> Step {
    let t = skip_spaces(s);
    let n = run_length(t, |c: char| is_digit(c));
    if n == 0 {
        Err(
            Failure::ExpectedOperand {
                found: if t.len() > 0 {
                    Some(t[0])
                } else {
                    None
                },
            },
        )
    } else {
        Ok((seq![decimal_value(t.take(n as int)) as real], t.skip(n as int)))
    }
}

/// A call of `P` or `C` on arguments already read: exactly two, the second
/// a count `k`, and the degree of the result within `usize`.
pub open spec fn spec_pascal_call(args: Seq<Seq<real>>, function: CallKind) -> Result<
    Seq<real>,
    Failure,
> {
    if args.len() != 2 {
        Err(Failure::WrongArgumentCount { function, got: args.len() })
    } else {
        match count_of(args[1], OperandRole::SecondArgument(function)) {
            Err(failure) => Err(failure),
            Ok(k) => {
                if (args[0].len() - 1) * k + 1 > usize::MAX {
                    Err(Failure::DegreeOverflow)
                } else {
                    Ok(
                        match function {
                            CallKind::Pick => pick_spec(args[0], k),
                            CallKind::Choose => choose_spec(args[0], k),
                        },
                    )
                }
            },
        }
    }
}

/// The function named `name` applied to arguments already read.
pub open spec fn spec_apply(name: Seq<char>, args: Seq<Seq<real>>) -> Result<Seq<real>, Failure> {
    if name == seq!['P'] {
        spec_pascal_call(args, CallKind::Pick)
    } else if name == seq!['C'] {
        spec_pascal_call(args, CallKind::Choose)
    } else {
        Err(Failure::UnknownFunction { name })
    }
}

/// `postfix`, after its primary: any number of `!`, each of which replaces a
/// count by its factorial.
pub open spec fn spec_postfix_tail(p: Seq<real>, s: Seq<char>) -> Step
    decreases s.len(),
{
    let t = skip_spaces(s);
    if starts_with(t, '!') {
        match count_of(p, OperandRole::FactorialOperand) {
            Err(failure) => Err(failure),
            Ok(n) => {
                proof {
                    lemma_skip_spaces(s);
                }
                spec_postfix_tail(seq![factorial_spec(n) as real], t.drop_first())
            },
        }
    } else {
        Ok((p, t))
    }
}

/// `expr := term (('+' | '-') term)*`
pub open spec fn spec_expr(s: Seq<char>) -> Step
    decreases s.len(), 12nat,
{
    match spec_term(s) {
        Err(failure) => Err(failure),
        Ok((p, rest)) => spec_expr_tail(p, within(rest, s)),
    }
}

/// `expr`, after its first term.
pub open spec fn spec_expr_tail(acc: Seq<real>, s: Seq<char>) -> Step
    decreases s.len(), 11nat,
{
    let t = skip_spaces(s);
    if starts_with(t, '+') || starts_with(t, '-') {
        proof {
            lemma_skip_spaces(s);
        }
        match spec_term(t.drop_first()) {
            Err(failure) => Err(failure),
            Ok((rhs, rest)) => spec_expr_tail(
                if t[0] == '+' {
                    poly_add(acc, rhs)
                } else {
                    poly_sub(acc, rhs)
                },
                within(rest, t.drop_first()),
            ),
        }
    } else {
        Ok((acc, t))
    }
}

/// `term := factor (('*' | '/') factor | factor)*`, where a factor without
/// an operator before it multiplies, and is read only where a letter or `(`
/// comes next.
pub open spec fn spec_term(s: Seq<char>) -> Step
    decreases s.len(), 10nat,
{
    match spec_factor(s) {
        Err(failure) => Err(failure),
        Ok((p, rest)) => spec_term_tail(p, within(rest, s)),
    }
}

/// `term`, after its first factor.
pub open spec fn spec_term_tail(acc: Seq<real>, s: Seq<char>) -> Step
    decreases s.len(), 9nat,
{
    let t = skip_spaces(s);
    if starts_with(t, '*') {
        proof {
            lemma_skip_spaces(s);
        }
        match spec_factor(t.drop_first()) {
            Err(failure) => Err(failure),
            Ok((rhs, rest)) => {
                if acc.len() + rhs.len() - 1 > usize::MAX {
                    Err(Failure::DegreeOverflow)
                } else {
                    spec_term_tail(poly_mul(acc, rhs), within(rest, t.drop_first()))
                }
            },
        }
    } else if starts_with(t, '/') {
        proof {
            lemma_skip_spaces(s);
        }
        match spec_factor(t.drop_first()) {
            Err(failure) => Err(failure),
            Ok((rhs, rest)) => {
                if rhs.len() != 1 {
                    Err(Failure::NotConstant { role: OperandRole::Divisor, term: rhs })
                } else if rhs[0] == 0real {
                    Err(Failure::DivisionByZero)
                } else {
                    spec_term_tail(poly_div(acc, rhs[0]), within(rest, t.drop_first()))
                }
            },
        }
    } else if t.len() > 0 && (is_letter(t[0]) || t[0] == '(') {
        proof {
            lemma_skip_spaces(s);
        }
        match spec_factor(t) {
            Err(failure) => Err(failure),
            Ok((rhs, rest)) => {
                if acc.len() + rhs.len() - 1 > usize::MAX {
                    Err(Failure::DegreeOverflow)
                } else if rest.len() < t.len() {
                    spec_term_tail(poly_mul(acc, rhs), rest)
                } else {
                    Ok((poly_mul(acc, rhs), rest))
                }
            },
        }
    } else {
        Ok((acc, t))
    }
}

/// `factor := '-' factor | power`
pub open spec fn spec_factor(s: Seq<char>) -> Step
    decreases s.len(), 8nat,
{
    let t = skip_spaces(s);
    proof {
        lemma_skip_spaces(s);
    }
    if starts_with(t, '-') {
        match spec_factor(t.drop_first()) {
            Err(failure) => Err(failure),
            Ok((p, rest)) => Ok((poly_neg(p), rest)),
        }
    } else {
        spec_power(t)
    }
}

/// `power := postfix ('^' postfix)*`, the powers taken from left to right.
pub open spec fn spec_power(s: Seq<char>) -> Step
    decreases s.len(), 7nat,
{
    match spec_postfix(s) {
        Err(failure) => Err(failure),
        Ok((base, rest)) => spec_power_tail(base, within(rest, s)),
    }
}

/// `power`, after its base.
pub open spec fn spec_power_tail(base: Seq<real>, s: Seq<char>) -> Step
    decreases s.len(), 6nat,
{
    let t = skip_spaces(s);
    if starts_with(t, '^') {
        proof {
            lemma_skip_spaces(s);
        }
        match spec_postfix(t.drop_first()) {
            Err(failure) => Err(failure),
            Ok((exponent, rest)) => match count_of(exponent, OperandRole::Exponent) {
                Err(failure) => Err(failure),
                Ok(n) => {
                    if (base.len() - 1) * n + 1 > usize::MAX {
                        Err(Failure::DegreeOverflow)
                    } else {
                        spec_power_tail(poly_pow(base, n), within(rest, t.drop_first()))
                    }
                },
            },
        }
    } else {
        Ok((base, t))
    }
}

/// `postfix := primary ('!')*`
pub open spec fn spec_postfix(s: Seq<char>) -> Step
    decreases s.len(), 5nat,
{
    match spec_primary(s) {
        Err(failure) => Err(failure),
        Ok((p, rest)) => spec_postfix_tail(p, rest),
    }
}

/// `primary := '(' expr ')' | identifier ['(' args ')'] | number`
pub open spec fn spec_primary(s: Seq<char>) -> Step
    decreases s.len(), 4nat,
{
    let t = skip_spaces(s);
    proof {
        lemma_skip_spaces(s);
    }
    if starts_with(t, '(') {
        spec_group(t.drop_first())
    } else if t.len() > 0 && is_letter(t[0]) {
        spec_named(t)
    } else {
        spec_number(t)
    }
}

/// An expression in parentheses, after the opening one.
pub open spec fn spec_group(s: Seq<char>) -> Step
    decreases s.len(), 16nat,
{
    match spec_expr(s) {
        Err(failure) => Err(failure),
        Ok((p, rest)) => {
            let u = skip_spaces(rest);
            if starts_with(u, ')') {
                Ok((p, u.drop_first()))
            } else {
                Err(Failure::MismatchedParentheses)
            }
        },
    }
}

/// A run of letters: a call where `(` follows, else the variable, the only
/// bare identifier being `x`.
pub open spec fn spec_named(s: Seq<char>) -> Step
    decreases s.len(), 3nat,
{
    let t = skip_spaces(s);
    let n = run_length(t, |c: char| is_letter(c));
    let name = t.take(n as int);
    let u = skip_spaces(t.skip(n as int));
    proof {
        lemma_skip_spaces(s);
        lemma_run_length(t, |c: char| is_letter(c));
        lemma_skip_spaces(t.skip(n as int));
    }
    if starts_with(u, '(') {
        spec_call(name, u.drop_first())
    } else if name == seq!['x'] {
        Ok((variable(), u))
    } else {
        Err(Failure::UnknownIdentifier { name })
    }
}

/// A call, after its opening parenthesis: the arguments, the closing
/// parenthesis at which they stop, then the function applied to them.
pub open spec fn spec_call(name: Seq<char>, s: Seq<char>) -> Step
    decreases s.len(), 15nat,
{
    match spec_args(s) {
        Err(failure) => Err(failure),
        Ok((args, rest)) => match spec_apply(name, args) {
            Err(failure) => Err(failure),
            Ok(p) => Ok((p, rest.drop_first())),
        },
    }
}

/// `args := [] | expr (',' expr)*`: the arguments of a call, read up to the
/// closing parenthesis, which is left in the text.
pub open spec fn spec_args(s: Seq<char>) -> ListStep
    decreases s.len(), 14nat,
{
    let t = skip_spaces(s);
    proof {
        lemma_skip_spaces(s);
    }
    if starts_with(t, ')') {
        Ok((Seq::<Seq<real>>::empty(), t))
    } else {
        spec_args_tail(Seq::<Seq<real>>::empty(), t)
    }
}

/// The arguments from the next one on, `done` being those already read.
pub open spec fn spec_args_tail(done: Seq<Seq<real>>, s: Seq<char>) -> ListStep
    decreases s.len(), 13nat,
{
    match spec_expr(s) {
        Err(failure) => Err(failure),
        Ok((p, rest)) => {
            let u = skip_spaces(within(rest, s));
            proof {
                lemma_skip_spaces(within(rest, s));
            }
            if starts_with(u, ')') {
                Ok((done.push(p), u))
            } else if starts_with(u, ',') {
                spec_args_tail(done.push(p), u.drop_first())
            } else {
                Err(Failure::ExpectedArgumentSeparator)
            }
        },
    }
}

/// What an expression stands for: the polynomial of a whole expression with
/// nothing but white space after it, or the first reason to refuse it.
pub open spec fn parse_spec(input: Seq<char>) -> Result<Seq<real>, Failure> {
    match spec_expr(input) {
        Err(failure) => Err(failure),
        Ok((p, rest)) => {
            if skip_spaces(rest).len() == 0 {
                Ok(p)
            } else {
                Err(Failure::TrailingInput { rest: skip_spaces(rest) })
            }
        },
    }
}

/// A text splits into its leading run of accepted characters and the rest
/// in one way only.
pub proof fn lemma_run_split(
    t: Seq<char>,
    head: Seq<char>,
    rest: Seq<char>,
    accept: spec_fn(char) -> bool,
)
    requires
        head + rest == t,
        forall|i: int| 0 <= i < head.len() ==> accept(#[trigger] head[i]),
        rest.len() > 0 ==> !accept(rest[0]),
    ensures
        head.len() == run_length(t, accept),
        head == t.take(head.len() as int),
        rest == t.skip(head.len() as int),
    decreases head.len(),
{
    if head.len() > 0 {
        assert(t[0] == head[0]);
        assert(t.drop_first() =~= head.drop_first() + rest);
        assert forall|i: int| 0 <= i < head.drop_first().len() implies accept(
            #[trigger] head.drop_first()[i],
        ) by {
            assert(head.drop_first()[i] == head[i + 1]);
        }
        lemma_run_split(t.drop_first(), head.drop_first(), rest, accept);
    } else {
        assert(t =~= rest);
    }
    assert(head =~= t.take(head.len() as int));
    assert(rest =~= t.skip(head.len() as int));
}

/// The step `step`, taken on the text `given`, came out as `r` and left `rest`.
pub open spec fn agrees(
    step: Step,
    r: Result<Polynomial, ParseError>,
    rest: Seq<char>,
    given: Seq<char>,
) -> bool {
    match step {
        Ok((p, s)) => r is Ok && r->Ok_0@ == p && rest == s && s.len() < given.len(),
        Err(failure) => r is Err && r->Err_0@ == failure,
    }
}

/// The views of a list of polynomials.
pub open spec fn views(list: Seq<Polynomial>) -> Seq<Seq<real>> {
    Seq::new(list.len(), |i: int| list[i]@)
}

/// Splits `input` into the letters at its start and the rest.
pub fn parse_identifier(input: &str) -> (parts: (&str, &str))
    ensures
        parts.0@ == input@.take(run_length(input@, |c: char| is_letter(c)) as int),
        parts.1@ == input@.skip(run_length(input@, |c: char| is_letter(c)) as int),
{
    let len = input.unicode_len();
    let mut end: usize = 0;
    loop
        invariant
            end <= len,
            len == input@.len(),
            forall|i: int| 0 <= i < end ==> is_letter(#[trigger] input@[i]),
        ensures
            end <= len,
            forall|i: int| 0 <= i < end ==> is_letter(#[trigger] input@[i]),
            end < len ==> !is_letter(input@[end as int]),
        decreases len - end,
    {
        if end >= len {
            break ;
        }
        if !char_is_letter(input.get_char(end)) {
            break ;
        }
        end += 1;
    }
    let name = input.substring_char(0, end);
    let rest = input.substring_char(end, len);
    proof {
        assert(name@ + rest@ =~= input@);
        lemma_run_split(input@, name@, rest@, |c: char| is_letter(c));
    }
    (name, rest)
}

/// Reads a number: a run of decimal digits.
pub fn parse_number(stream: &mut Stream) -> (r: Result<Polynomial, ParseError>)
    ensures
        agrees(spec_number(old(stream)@), r, final(stream)@, old(stream)@),
{
    let ghost t = skip_spaces(stream@);
    proof {
        lemma_skip_spaces(stream@);
    }
    let accept = |c: &char| -> (b: bool)
        ensures
            b == is_digit(*c),
        { char_is_digit(*c) };
    let digits = stream.parse_all_matching(accept);
    proof {
        assert forall|i: int| 0 <= i < digits@.len() implies is_digit(#[trigger] digits@[i]) by {
            assert(call_ensures(accept, (&digits@[i],), true));
        }
        if stream@.len() > 0 {
            assert(call_ensures(accept, (&stream@[0],), false));
        }
        lemma_run_split(t, digits@, stream@, |c: char| is_digit(c));
    }
    if digits.is_empty() {
        let found = stream.peek_char();
        return Err(ParseError::ExpectedOperand { found });
    }
    match bigint_from_decimal(digits) {
        Some(value) => {
            let number = rational_from_integer(value);
            proof {
                lemma_value_whole(number);
            }
            Ok(Polynomial::constant(number))
        },
        None => Err(ParseError::InvalidNumber { text: String::from_str(digits) }),
    }
}

/// Applies `P` or `C` to the arguments of a call.
pub fn parse_pascal_call(args: &Vec<Polynomial>, function: CallKind) -> (r: Result<
    Polynomial,
    ParseError,
>)
    ensures
        match spec_pascal_call(views(args@), function) {
            Ok(p) => r is Ok && r->Ok_0@ == p,
            Err(failure) => r is Err && r->Err_0@ == failure,
        },
{
    if args.len() != 2 {
        return Err(ParseError::WrongArgumentCount { function, got: args.len() });
    }
    let k = match poly_to_usize(&args[1], OperandRole::SecondArgument(function)) {
        Ok(k) => k,
        Err(e) => {
            return Err(e);
        },
    };
    let applied = match function {
        CallKind::Pick => checked_pick(&args[0], k),
        CallKind::Choose => checked_choose(&args[0], k),
    };
    match applied {
        Some(p) => Ok(p),
        None => Err(ParseError::DegreeOverflow),
    }
}

/// Reads an expression: terms joined by `+` and `-`.
pub fn parse_expr(stream: &mut Stream) -> (r: Result<Polynomial, ParseError>)
    ensures
        agrees(spec_expr(old(stream)@), r, final(stream)@, old(stream)@),
    decreases old(stream)@.len(), 12nat,
{
    let ghost start = stream@;
    let mut acc = match parse_term(stream) {
        Ok(p) => p,
        Err(e) => {
            return Err(e);
        },
    };
    loop
        invariant
            start == old(stream)@,
            stream@.len() < start.len(),
            spec_expr(start) == spec_expr_tail(acc@, stream@),
        ensures
            stream@.len() < start.len(),
            spec_expr(start) == Ok::<(Seq<real>, Seq<char>), Failure>((acc@, stream@)),
        decreases stream@.len(),
    {
        proof {
            lemma_skip_spaces(stream@);
        }
        if stream.take_char('+') {
            let rhs = match parse_term(stream) {
                Ok(p) => p,
                Err(e) => {
                    return Err(e);
                },
            };
            acc = acc.add(rhs);
        } else if stream.take_char('-') {
            let rhs = match parse_term(stream) {
                Ok(p) => p,
                Err(e) => {
                    return Err(e);
                },
            };
            acc = acc.sub(rhs);
        } else {
            break ;
        }
    }
    Ok(acc)
}

/// Reads a term: factors joined by `*` and `/`, or standing side by side.
pub fn parse_term(stream: &mut Stream) -> (r: Result<Polynomial, ParseError>)
    ensures
        agrees(spec_term(old(stream)@), r, final(stream)@, old(stream)@),
    decreases old(stream)@.len(), 10nat,
{
    let ghost start = stream@;
    let mut acc = match parse_factor(stream) {
        Ok(p) => p,
        Err(e) => {
            return Err(e);
        },
    };
    loop
        invariant
            start == old(stream)@,
            stream@.len() < start.len(),
            spec_term(start) == spec_term_tail(acc@, stream@),
        ensures
            stream@.len() < start.len(),
            spec_term(start) == Ok::<(Seq<real>, Seq<char>), Failure>((acc@, stream@)),
        decreases stream@.len(),
    {
        proof {
            lemma_skip_spaces(stream@);
        }
        if stream.take_char('*') {
            let rhs = match parse_factor(stream) {
                Ok(p) => p,
                Err(e) => {
                    return Err(e);
                },
            };
            acc = match acc.checked_mul(&rhs) {
                Some(p) => p,
                None => {
                    return Err(ParseError::DegreeOverflow);
                },
            };
        } else if stream.take_char('/') {
            let rhs = match parse_factor(stream) {
                Ok(p) => p,
                Err(e) => {
                    return Err(e);
                },
            };
            let divisor = match rhs.extract_constant() {
                Some(c) => c,
                None => {
                    return Err(ParseError::NotConstant { role: OperandRole::Divisor, term: rhs });
                },
            };
            proof {
                lemma_value_zero(divisor);
            }
            if rational_is_zero(&divisor) {
                return Err(ParseError::DivisionByZero);
            }
            acc = acc.div(&divisor);
        } else {
            let juxtaposed = match stream.peek_char() {
                Some(c) => char_is_letter(c) || c == '(',
                None => false,
            };
            if !juxtaposed {
                break ;
            }
            let rhs = match parse_factor(stream) {
                Ok(p) => p,
                Err(e) => {
                    return Err(e);
                },
            };
            acc = match acc.checked_mul(&rhs) {
                Some(p) => p,
                None => {
                    return Err(ParseError::DegreeOverflow);
                },
            };
        }
    }
    Ok(acc)
}

/// Reads a factor: any number of `-`, then a power.
pub fn parse_factor(stream: &mut Stream) -> (r: Result<Polynomial, ParseError>)
    ensures
        agrees(spec_factor(old(stream)@), r, final(stream)@, old(stream)@),
    decreases old(stream)@.len(), 8nat,
{
    proof {
        lemma_skip_spaces(stream@);
    }
    if stream.take_char('-') {
        match parse_factor(stream) {
            Ok(p) => Ok(p.neg()),
            Err(e) => Err(e),
        }
    } else {
        parse_power(stream)
    }
}

/// Reads a power: a postfix expression, raised to each exponent that follows.
pub fn parse_power(stream: &mut Stream) -> (r: Result<Polynomial, ParseError>)
    ensures
        agrees(spec_power(old(stream)@), r, final(stream)@, old(stream)@),
    decreases old(stream)@.len(), 7nat,
{
    let ghost start = stream@;
    let mut base = match parse_postfix(stream) {
        Ok(p) => p,
        Err(e) => {
            return Err(e);
        },
    };
    loop
        invariant
            start == old(stream)@,
            stream@.len() < start.len(),
            spec_power(start) == spec_power_tail(base@, stream@),
        ensures
            stream@.len() < start.len(),
            spec_power(start) == Ok::<(Seq<real>, Seq<char>), Failure>((base@, stream@)),
        decreases stream@.len(),
    {
        proof {
            lemma_skip_spaces(stream@);
        }
        if !stream.take_char('^') {
            break ;
        }
        let exponent = match parse_postfix(stream) {
            Ok(p) => p,
            Err(e) => {
                return Err(e);
            },
        };
        let n = match poly_to_usize(&exponent, OperandRole::Exponent) {
            Ok(n) => n,
            Err(e) => {
                return Err(e);
            },
        };
        base = match base.checked_pow(n) {
            Some(p) => p,
            None => {
                return Err(ParseError::DegreeOverflow);
            },
        };
    }
    Ok(base)
}

/// Reads a postfix expression: a primary, then any number of `!`.
pub fn parse_postfix(stream: &mut Stream) -> (r: Result<Polynomial, ParseError>)
    ensures
        agrees(spec_postfix(old(stream)@), r, final(stream)@, old(stream)@),
    decreases old(stream)@.len(), 5nat,
{
    let ghost start = stream@;
    let mut poly = match parse_primary(stream) {
        Ok(p) => p,
        Err(e) => {
            return Err(e);
        },
    };
    loop
        invariant
            start == old(stream)@,
            stream@.len() < start.len(),
            spec_postfix(start) == spec_postfix_tail(poly@, stream@),
        ensures
            stream@.len() < start.len(),
            spec_postfix(start) == Ok::<(Seq<real>, Seq<char>), Failure>((poly@, stream@)),
        decreases stream@.len(),
    {
        proof {
            lemma_skip_spaces(stream@);
        }
        if !stream.take_char('!') {
            break ;
        }
        let n = match poly_to_usize(&poly, OperandRole::FactorialOperand) {
            Ok(n) => n,
            Err(e) => {
                return Err(e);
            },
        };
        let value = rational_from_integer(factorial(n));
        proof {
            lemma_value_whole(value);
        }
        poly = Polynomial::constant(value);
    }
    Ok(poly)
}

/// Reads a primary: an expression in parentheses, the variable, a call of
/// `P` or `C`, or a number.
pub fn parse_primary(stream: &mut Stream) -> (r: Result<Polynomial, ParseError>)
    ensures
        agrees(spec_primary(old(stream)@), r, final(stream)@, old(stream)@),
    decreases old(stream)@.len(), 4nat,
{
    proof {
        lemma_skip_spaces(stream@);
    }
    if stream.take_char('(') {
        return parse_group(stream);
    }
    let named = match stream.peek_char() {
        Some(c) => char_is_letter(c),
        None => false,
    };
    if named {
        parse_named(stream)
    } else {
        parse_number(stream)
    }
}

/// Reads an expression in parentheses from behind the opening one.
pub fn parse_group(stream: &mut Stream) -> (r: Result<Polynomial, ParseError>)
    ensures
        agrees(spec_group(old(stream)@), r, final(stream)@, old(stream)@),
    decreases old(stream)@.len(), 16nat,
{
    let poly = match parse_expr(stream) {
        Ok(p) => p,
        Err(e) => {
            return Err(e);
        },
    };
    proof {
        lemma_skip_spaces(stream@);
    }
    if !stream.take_char(')') {
        return Err(ParseError::MismatchedParentheses);
    }
    Ok(poly)
}

/// Reads a run of letters and what it names: a call, or the variable.
pub fn parse_named(stream: &mut Stream) -> (r: Result<Polynomial, ParseError>)
    ensures
        agrees(spec_named(old(stream)@), r, final(stream)@, old(stream)@),
    decreases old(stream)@.len(), 3nat,
{
    let ghost t = skip_spaces(stream@);
    proof {
        lemma_skip_spaces(stream@);
    }
    let accept = |c: &char| -> (b: bool)
        ensures
            b == is_letter(*c),
        { char_is_letter(*c) };
    let name = stream.parse_all_matching(accept);
    proof {
        assert forall|i: int| 0 <= i < name@.len() implies is_letter(#[trigger] name@[i]) by {
            assert(call_ensures(accept, (&name@[i],), true));
        }
        if stream@.len() > 0 {
            assert(call_ensures(accept, (&stream@[0],), false));
        }
        lemma_run_split(t, name@, stream@, |c: char| is_letter(c));
        lemma_skip_spaces(stream@);
        if name@.len() == 0 {
            assert(stream@ == t);
        }
    }
    if stream.take_char('(') {
        parse_function_call(name, stream)
    } else if name.unicode_len() == 1 && name.get_char(0) == 'x' {
        assert(name@ =~= seq!['x']);
        Ok(x())
    } else {
        Err(ParseError::UnknownIdentifier { name: String::from_str(name) })
    }
}

/// Reads a call from behind its opening parenthesis: the arguments, then
/// the function applied to them.
pub fn parse_function_call(name: &str, stream: &mut Stream) -> (r: Result<Polynomial, ParseError>)
    ensures
        agrees(spec_call(name@, old(stream)@), r, final(stream)@, old(stream)@),
    decreases old(stream)@.len(), 15nat,
{
    let args = match parse_args(stream) {
        Ok(list) => list,
        Err(e) => {
            return Err(e);
        },
    };
    let closed = stream.take_char(')');
    assert(closed);
    let single = name.unicode_len() == 1;
    if single && name.get_char(0) == 'P' {
        assert(name@ =~= seq!['P']);
        parse_pascal_call(&args, CallKind::Pick)
    } else if single && name.get_char(0) == 'C' {
        assert(name@ =~= seq!['C']);
        parse_pascal_call(&args, CallKind::Choose)
    } else {
        Err(ParseError::UnknownFunction { name: String::from_str(name) })
    }
}

/// Reads the arguments of a call, up to the closing parenthesis, which it
/// leaves in the text.
pub fn parse_args(stream: &mut Stream) -> (r: Result<Vec<Polynomial>, ParseError>)
    ensures
        match spec_args(old(stream)@) {
            Ok((list, rest)) => r is Ok && views(r->Ok_0@) == list && final(stream)@ == rest
                && rest.len() <= old(stream)@.len() && starts_with(rest, ')'),
            Err(failure) => r is Err && r->Err_0@ == failure,
        },
    decreases old(stream)@.len(), 14nat,
{
    let ghost start = stream@;
    let mut args: Vec<Polynomial> = Vec::new();
    proof {
        lemma_skip_spaces(stream@);
        assert(views(args@) =~= Seq::<Seq<real>>::empty());
    }
    let closing = match stream.peek_char() {
        Some(c) => c == ')',
        None => false,
    };
    if closing {
        return Ok(args);
    }
    loop
        invariant
            start == old(stream)@,
            stream@.len() <= start.len(),
            spec_args(start) == spec_args_tail(views(args@), stream@),
        decreases stream@.len(),
    {
        let ghost done = views(args@);
        let arg = match parse_expr(stream) {
            Ok(p) => p,
            Err(e) => {
                return Err(e);
            },
        };
        args.push(arg);
        proof {
            lemma_skip_spaces(stream@);
            assert(views(args@) =~= done.push(arg@));
        }
        let closing = match stream.peek_char() {
            Some(c) => c == ')',
            None => false,
        };
        if closing {
            return Ok(args);
        }
        if !stream.take_char(',') {
            return Err(ParseError::ExpectedArgumentSeparator);
        }
    }
}

/// `r` is what reading `input` gives: the polynomial that the text stands
/// for, or the refusal that it meets first.
pub open spec fn is_reading_of(input: Seq<char>, r: Result<Polynomial, ParseError>) -> bool {
    match parse_spec(input) {
        Ok(p) => r is Ok && r->Ok_0@ == p,
        Err(failure) => r is Err && r->Err_0@ == failure,
    }
}

/// Reading is deterministic: two readings of one text give the same
/// polynomial, or the same refusal.
pub proof fn lemma_reading_is_deterministic(
    input: Seq<char>,
    first: Result<Polynomial, ParseError>,
    second: Result<Polynomial, ParseError>,
)
    requires
        is_reading_of(input, first),
        is_reading_of(input, second),
    ensures
        first is Ok <==> second is Ok,
        first is Ok ==> first->Ok_0@ == second->Ok_0@,
        first is Err ==> first->Err_0@ == second->Err_0@,
{
}

/// Reads a whole expression. Nothing but white space may follow it.
pub fn parse(input: &str) -> (r: Result<Polynomial, ParseError>)
    ensures
        is_reading_of(input@, r),
{
    let mut stream = Stream::new(input);
    let poly = match parse_expr(&mut stream) {
        Ok(p) => p,
        Err(e) => {
            return Err(e);
        },
    };
    match stream.finish() {
        Ok(()) => Ok(poly),
        Err(rest) => Err(ParseError::TrailingInput { rest: String::from_str(rest) }),
    }
}

} // verus!
