//! Every step of the grammar leaves no more text than it was given, and a
//! step that reads an operand leaves less. So the bound that the grammar
//! puts on what a step leaves never changes anything.

use crate::error::OperandRole;
use crate::parse::poly_to_usize::count_of;
use crate::parse::stream::{is_letter, lemma_skip_spaces, skip_spaces};
use crate::parse::{
    lemma_run_length, run_length, spec_args, spec_args_tail, spec_call, spec_expr, spec_expr_tail,
    spec_factor, spec_group, spec_named, spec_number, spec_postfix, spec_postfix_tail, spec_power,
    spec_power_tail, spec_primary, spec_term, spec_term_tail, starts_with, within, ListStep, Step,
};
use crate::pascal::factorial_spec;
use crate::polynomial::{poly_add, poly_div, poly_mul, poly_pow, poly_sub};
use crate::rational::is_digit;
use vstd::prelude::*;

verus! {

/// A step that was taken left less text than it was given.
pub open spec fn shrinks(step: Step, given: Seq<char>) -> bool {
    step is Ok ==> step->Ok_0.1.len() < given.len()
}

/// A step that was taken left no more text than it was given.
pub open spec fn keeps(step: Step, given: Seq<char>) -> bool {
    step is Ok ==> step->Ok_0.1.len() <= given.len()
}

/// A list step that was taken stopped at a closing parenthesis, and left
/// no more text than it was given.
pub open spec fn stops_at_closing(step: ListStep, given: Seq<char>) -> bool {
    step is Ok ==> step->Ok_0.1.len() <= given.len() && starts_with(step->Ok_0.1, ')')
}

/// A number takes at least one digit.
pub proof fn lemma_number_shrinks(s: Seq<char>)
    ensures
        shrinks(spec_number(s), s),
{
    let t = skip_spaces(s);
    lemma_skip_spaces(s);
    lemma_run_length(t, |c: char| is_digit(c));
}

/// Factorial signs only take text away.
pub proof fn lemma_postfix_tail_keeps(p: Seq<real>, s: Seq<char>)
    ensures
        keeps(spec_postfix_tail(p, s), s),
    decreases s.len(),
{
    let t = skip_spaces(s);
    lemma_skip_spaces(s);
    if starts_with(t, '!') {
        match count_of(p, OperandRole::FactorialOperand) {
            Ok(n) => {
                lemma_postfix_tail_keeps(seq![factorial_spec(n) as real], t.drop_first());
            },
            Err(_) => {},
        }
    }
}

/// An expression takes at least one character.
pub proof fn lemma_expr_shrinks(s: Seq<char>)
    ensures
        shrinks(spec_expr(s), s),
    decreases s.len(), 12nat,
{
    lemma_term_shrinks(s);
    match spec_term(s) {
        Ok((p, rest)) => {
            lemma_expr_tail_keeps(p, within(rest, s));
        },
        Err(_) => {},
    }
}

/// The further terms of an expression only take text away.
pub proof fn lemma_expr_tail_keeps(acc: Seq<real>, s: Seq<char>)
    ensures
        keeps(spec_expr_tail(acc, s), s),
    decreases s.len(), 11nat,
{
    let t = skip_spaces(s);
    lemma_skip_spaces(s);
    if starts_with(t, '+') || starts_with(t, '-') {
        lemma_term_shrinks(t.drop_first());
        match spec_term(t.drop_first()) {
            Ok((rhs, rest)) => {
                lemma_expr_tail_keeps(
                    if t[0] == '+' {
                        poly_add(acc, rhs)
                    } else {
                        poly_sub(acc, rhs)
                    },
                    within(rest, t.drop_first()),
                );
            },
            Err(_) => {},
        }
    }
}

/// A term takes at least one character.
pub proof fn lemma_term_shrinks(s: Seq<char>)
    ensures
        shrinks(spec_term(s), s),
    decreases s.len(), 10nat,
{
    lemma_factor_shrinks(s);
    match spec_factor(s) {
        Ok((p, rest)) => {
            lemma_term_tail_keeps(p, within(rest, s));
        },
        Err(_) => {},
    }
}

/// The further factors of a term only take text away.
pub proof fn lemma_term_tail_keeps(acc: Seq<real>, s: Seq<char>)
    ensures
        keeps(spec_term_tail(acc, s), s),
    decreases s.len(), 9nat,
{
    let t = skip_spaces(s);
    lemma_skip_spaces(s);
    if starts_with(t, '*') {
        lemma_factor_shrinks(t.drop_first());
        match spec_factor(t.drop_first()) {
            Ok((rhs, rest)) => {
                if acc.len() + rhs.len() - 1 <= usize::MAX {
                    lemma_term_tail_keeps(poly_mul(acc, rhs), within(rest, t.drop_first()));
                }
            },
            Err(_) => {},
        }
    } else if starts_with(t, '/') {
        lemma_factor_shrinks(t.drop_first());
        match spec_factor(t.drop_first()) {
            Ok((rhs, rest)) => {
                if rhs.len() == 1 && rhs[0] != 0real {
                    lemma_term_tail_keeps(poly_div(acc, rhs[0]), within(rest, t.drop_first()));
                }
            },
            Err(_) => {},
        }
    } else if t.len() > 0 && (is_letter(t[0]) || t[0] == '(') {
        lemma_factor_shrinks(t);
        match spec_factor(t) {
            Ok((rhs, rest)) => {
                if acc.len() + rhs.len() - 1 <= usize::MAX && rest.len() < t.len() {
                    lemma_term_tail_keeps(poly_mul(acc, rhs), rest);
                }
            },
            Err(_) => {},
        }
    }
}

/// A factor takes at least one character.
pub proof fn lemma_factor_shrinks(s: Seq<char>)
    ensures
        shrinks(spec_factor(s), s),
    decreases s.len(), 8nat,
{
    let t = skip_spaces(s);
    lemma_skip_spaces(s);
    if starts_with(t, '-') {
        lemma_factor_shrinks(t.drop_first());
    } else {
        lemma_power_shrinks(t);
    }
}

/// A power takes at least one character.
pub proof fn lemma_power_shrinks(s: Seq<char>)
    ensures
        shrinks(spec_power(s), s),
    decreases s.len(), 7nat,
{
    lemma_postfix_shrinks(s);
    match spec_postfix(s) {
        Ok((base, rest)) => {
            lemma_power_tail_keeps(base, within(rest, s));
        },
        Err(_) => {},
    }
}

/// The exponents of a power only take text away.
pub proof fn lemma_power_tail_keeps(base: Seq<real>, s: Seq<char>)
    ensures
        keeps(spec_power_tail(base, s), s),
    decreases s.len(), 6nat,
{
    let t = skip_spaces(s);
    lemma_skip_spaces(s);
    if starts_with(t, '^') {
        lemma_postfix_shrinks(t.drop_first());
        match spec_postfix(t.drop_first()) {
            Ok((exponent, rest)) => match count_of(exponent, OperandRole::Exponent) {
                Ok(n) => {
                    if (base.len() - 1) * n + 1 <= usize::MAX {
                        lemma_power_tail_keeps(poly_pow(base, n), within(rest, t.drop_first()));
                    }
                },
                Err(_) => {},
            },
            Err(_) => {},
        }
    }
}

/// A postfix expression takes at least one character.
pub proof fn lemma_postfix_shrinks(s: Seq<char>)
    ensures
        shrinks(spec_postfix(s), s),
    decreases s.len(), 5nat,
{
    lemma_primary_shrinks(s);
    match spec_primary(s) {
        Ok((p, rest)) => {
            lemma_postfix_tail_keeps(p, rest);
        },
        Err(_) => {},
    }
}

/// A primary takes at least one character.
pub proof fn lemma_primary_shrinks(s: Seq<char>)
    ensures
        shrinks(spec_primary(s), s),
    decreases s.len(), 4nat,
{
    let t = skip_spaces(s);
    lemma_skip_spaces(s);
    if starts_with(t, '(') {
        lemma_group_shrinks(t.drop_first());
    } else if t.len() > 0 && is_letter(t[0]) {
        lemma_named_shrinks(t);
    } else {
        lemma_number_shrinks(t);
    }
}

/// An expression in parentheses takes its closing parenthesis at least.
pub proof fn lemma_group_shrinks(s: Seq<char>)
    ensures
        shrinks(spec_group(s), s),
    decreases s.len(), 16nat,
{
    lemma_expr_shrinks(s);
    match spec_expr(s) {
        Ok((p, rest)) => {
            lemma_skip_spaces(rest);
        },
        Err(_) => {},
    }
}

/// A name takes at least one character where it is read as something.
pub proof fn lemma_named_shrinks(s: Seq<char>)
    ensures
        shrinks(spec_named(s), s),
    decreases s.len(), 3nat,
{
    let t = skip_spaces(s);
    let n = run_length(t, |c: char| is_letter(c));
    let name = t.take(n as int);
    let u = skip_spaces(t.skip(n as int));
    lemma_skip_spaces(s);
    lemma_run_length(t, |c: char| is_letter(c));
    lemma_skip_spaces(t.skip(n as int));
    if starts_with(u, '(') {
        lemma_call_shrinks(name, u.drop_first());
    } else if name == seq!['x'] {
        assert(name.len() == 1);
    }
}

/// A call takes its closing parenthesis at least.
pub proof fn lemma_call_shrinks(name: Seq<char>, s: Seq<char>)
    ensures
        shrinks(spec_call(name, s), s),
    decreases s.len(), 15nat,
{
    lemma_args_stop(s);
}

/// An argument list stops at its closing parenthesis.
pub proof fn lemma_args_stop(s: Seq<char>)
    ensures
        stops_at_closing(spec_args(s), s),
    decreases s.len(), 14nat,
{
    let t = skip_spaces(s);
    lemma_skip_spaces(s);
    if !starts_with(t, ')') {
        lemma_args_tail_stop(Seq::<Seq<real>>::empty(), t);
    }
}

/// The arguments from the next one on stop at the closing parenthesis.
pub proof fn lemma_args_tail_stop(done: Seq<Seq<real>>, s: Seq<char>)
    ensures
        stops_at_closing(spec_args_tail(done, s), s),
    decreases s.len(), 13nat,
{
    lemma_expr_shrinks(s);
    match spec_expr(s) {
        Ok((p, rest)) => {
            let u = skip_spaces(within(rest, s));
            lemma_skip_spaces(within(rest, s));
            if starts_with(u, ',') {
                lemma_args_tail_stop(done.push(p), u.drop_first());
            }
        },
        Err(_) => {},
    }
}

/// The bound on what a step leaves is never in effect: what a step of the
/// grammar leaves is within what it was given.
pub proof fn lemma_within_is_idle(s: Seq<char>)
    ensures
        spec_expr(s) is Ok ==> within(spec_expr(s)->Ok_0.1, s) == spec_expr(s)->Ok_0.1,
        spec_term(s) is Ok ==> within(spec_term(s)->Ok_0.1, s) == spec_term(s)->Ok_0.1,
        spec_factor(s) is Ok ==> within(spec_factor(s)->Ok_0.1, s) == spec_factor(s)->Ok_0.1,
        spec_postfix(s) is Ok ==> within(spec_postfix(s)->Ok_0.1, s) == spec_postfix(s)->Ok_0.1,
{
    lemma_expr_shrinks(s);
    lemma_term_shrinks(s);
    lemma_factor_shrinks(s);
    lemma_postfix_shrinks(s);
}

} // verus!
