//! What can go wrong while an expression is read.

use crate::basis::Basis;
use crate::format::{decimal_text, render};
use crate::lowest_terms::fractions_from;
use crate::polynomial::Polynomial;
use crate::rational::{bigint_to_string, bigint_value, int_text, nat_text};
use num_bigint::BigInt;
use vstd::prelude::*;
use vstd::string::*;

verus! {

/// The two functions that an expression can call.
#[derive(Debug, Clone, Copy, PartialEq, Eq, Structural)]
pub enum CallKind {
    /// `P`, the falling-factorial polynomial.
    Pick,
    /// `C`, the binomial polynomial.
    Choose,
}

/// The place of a sub-expression that has to be a plain number.
#[derive(Debug, Clone, Copy, PartialEq, Eq, Structural)]
pub enum OperandRole {
    /// The right operand of `/`.
    Divisor,
    /// The right operand of `^`.
    Exponent,
    /// The operand of `!`.
    FactorialOperand,
    /// The second argument of a call of `P` or `C`.
    SecondArgument(CallKind),
}

/// Why an expression was refused.
#[derive(Debug)]
pub enum ParseError {
    /// A number, the variable or an opening parenthesis had to come, and
    /// `found` came: the next character, or nothing at the end of the text.
    ExpectedOperand { found: Option<char> },
    /// An opening parenthesis has no closing one.
    MismatchedParentheses,
    /// A name other than `x` stands where no call follows.
    UnknownIdentifier { name: String },
    /// A run of digits that the number type refuses. No text leads here.
    InvalidNumber { text: String },
    /// A call of a function other than `P` and `C`.
    UnknownFunction { name: String },
    /// A call of `P` or `C` with other than two arguments.
    WrongArgumentCount { function: CallKind, got: usize },
    /// In an argument list, neither `,` nor `)` follows an argument.
    ExpectedArgumentSeparator,
    /// Text is left after a complete expression.
    TrailingInput { rest: String },
    /// A sub-expression that has to be a plain number holds the variable.
    NotConstant { role: OperandRole, term: Polynomial },
    /// A number that has to be whole is a proper fraction.
    NotInteger { role: OperandRole, term: Polynomial },
    /// A number that must not be negative is.
    Negative { role: OperandRole, value: BigInt },
    /// A number is beyond what the machine can count to.
    TooLarge { role: OperandRole, value: BigInt },
    /// A product or power would have a degree beyond what the machine can
    /// count to.
    DegreeOverflow,
    /// The right operand of `/` is zero.
    DivisionByZero,
}

/// A refusal, with the values it holds as mathematical ones.
pub enum Failure {
    ExpectedOperand { found: Option<char> },
    MismatchedParentheses,
    UnknownIdentifier { name: Seq<char> },
    InvalidNumber { text: Seq<char> },
    UnknownFunction { name: Seq<char> },
    WrongArgumentCount { function: CallKind, got: nat },
    ExpectedArgumentSeparator,
    TrailingInput { rest: Seq<char> },
    NotConstant { role: OperandRole, term: Seq<real> },
    NotInteger { role: OperandRole, term: Seq<real> },
    Negative { role: OperandRole, value: int },
    TooLarge { role: OperandRole, value: int },
    DegreeOverflow,
    DivisionByZero,
}

impl View for ParseError {
    type V = Failure;

    open spec fn view(&self) -> Failure {
        match self {
            ParseError::ExpectedOperand { found } => Failure::ExpectedOperand { found: *found },
            ParseError::MismatchedParentheses => Failure::MismatchedParentheses,
            ParseError::UnknownIdentifier { name } => Failure::UnknownIdentifier { name: name@ },
            ParseError::InvalidNumber { text } => Failure::InvalidNumber { text: text@ },
            ParseError::UnknownFunction { name } => Failure::UnknownFunction { name: name@ },
            ParseError::WrongArgumentCount { function, got } => Failure::WrongArgumentCount {
                function: *function,
                got: *got as nat,
            },
            ParseError::ExpectedArgumentSeparator => Failure::ExpectedArgumentSeparator,
            ParseError::TrailingInput { rest } => Failure::TrailingInput { rest: rest@ },
            ParseError::NotConstant { role, term } => Failure::NotConstant {
                role: *role,
                term: term@,
            },
            ParseError::NotInteger { role, term } => Failure::NotInteger {
                role: *role,
                term: term@,
            },
            ParseError::Negative { role, value } => Failure::Negative {
                role: *role,
                value: bigint_value(*value),
            },
            ParseError::TooLarge { role, value } => Failure::TooLarge {
                role: *role,
                value: bigint_value(*value),
            },
            ParseError::DegreeOverflow => Failure::DegreeOverflow,
            ParseError::DivisionByZero => Failure::DivisionByZero,
        }
    }
}

/// `String::from` on a character: the text of that one character.
#[verifier::external_body]
fn char_to_string(c: char) -> (s: String)
    ensures
        s@ == seq![c],
{
    String::from(c)
}

/// How the message on a divisor that holds the variable starts.
pub const DIVISOR_MESSAGE: &'static str =
    "Division must be by a constant number, not a polynomial containing 'x'. Problem term: ";

/// The letter by which a function is called.
pub open spec fn call_name_text(function: CallKind) -> Seq<char> {
    match function {
        CallKind::Pick => "P"@,
        CallKind::Choose => "C"@,
    }
}

/// How a message names the place of an operand.
pub open spec fn role_text(role: OperandRole) -> Seq<char> {
    match role {
        OperandRole::Divisor => "Divisor"@,
        OperandRole::Exponent => "Exponent"@,
        OperandRole::FactorialOperand => "Operand for !"@,
        OperandRole::SecondArgument(function) => "Second argument to "@ + call_name_text(
            function,
        ),
    }
}

/// The message of a refusal.
pub open spec fn message_text(failure: Failure) -> Seq<char> {
    match failure {
        Failure::ExpectedOperand { found } => {
            "Expected a number, variable 'x', or parenthesis but found '"@ + (match found {
                Some(c) => seq![c],
                None => ""@,
            }) + "'"@
        },
        Failure::MismatchedParentheses => "Mismatched parentheses"@,
        Failure::UnknownIdentifier { name } => {
            "Unexpected identifier '"@ + name + "' without function call"@
        },
        Failure::InvalidNumber { text } => "Invalid number format for '"@ + text + "'"@,
        Failure::UnknownFunction { name } => "Unknown function '"@ + name + "'"@,
        Failure::WrongArgumentCount { function, got } => {
            "Function "@ + call_name_text(function) + " takes 2 arguments, got "@ + nat_text(got)
        },
        Failure::ExpectedArgumentSeparator => "Expected ',' or ')' in argument list"@,
        Failure::TrailingInput { rest } => "Unexpected input after the expression: '"@ + rest
            + "'"@,
        Failure::NotConstant { role, term } => {
            if role == OperandRole::Divisor {
                DIVISOR_MESSAGE@ + render(fractions_from(term), Basis::Standard)
            } else {
                role_text(role) + " must be a constant, got "@ + render(
                    fractions_from(term),
                    Basis::Standard,
                )
            }
        },
        Failure::NotInteger { role, term } => {
            role_text(role) + " must be an integer, got "@ + render(
                fractions_from(term),
                Basis::Standard,
            )
        },
        Failure::Negative { role, value } => {
            role_text(role) + " must be non-negative, got "@ + int_text(value)
        },
        Failure::TooLarge { role, value } => {
            role_text(role) + " is too large, got "@ + int_text(value)
        },
        Failure::DegreeOverflow => "The degree of the result is too large"@,
        Failure::DivisionByZero => "Division by zero is not allowed."@,
    }
}

impl CallKind {
    /// The letter by which the function is called.
    pub fn name(&self) -> (s: &'static str)
        ensures
            s@ == call_name_text(*self),
    {
        match self {
            CallKind::Pick => "P",
            CallKind::Choose => "C",
        }
    }
}

impl OperandRole {
    /// How a message names the place.
    pub fn describe(&self) -> (s: String)
        ensures
            s@ == role_text(*self),
    {
        match self {
            OperandRole::Divisor => String::from_str("Divisor"),
            OperandRole::Exponent => String::from_str("Exponent"),
            OperandRole::FactorialOperand => String::from_str("Operand for !"),
            OperandRole::SecondArgument(function) => {
                let mut s = String::from_str("Second argument to ");
                s.append(function.name());
                s
            },
        }
    }
}

impl ParseError {
    /// The message to show for this refusal.
    pub fn message(&self) -> (text: String)
        ensures
            text@ == message_text(self@),
    {
        match self {
            ParseError::ExpectedOperand { found } => {
                let mut s = String::from_str(
                    "Expected a number, variable 'x', or parenthesis but found '",
                );
                match found {
                    Some(c) => {
                        s.append(char_to_string(*c).as_str());
                    },
                    None => {
                        s.append("");
                    },
                }
                s.append("'");
                s
            },
            ParseError::MismatchedParentheses => String::from_str("Mismatched parentheses"),
            ParseError::UnknownIdentifier { name } => {
                let mut s = String::from_str("Unexpected identifier '");
                s.append(name.as_str());
                s.append("' without function call");
                s
            },
            ParseError::InvalidNumber { text } => {
                let mut s = String::from_str("Invalid number format for '");
                s.append(text.as_str());
                s.append("'");
                s
            },
            ParseError::UnknownFunction { name } => {
                let mut s = String::from_str("Unknown function '");
                s.append(name.as_str());
                s.append("'");
                s
            },
            ParseError::WrongArgumentCount { function, got } => {
                let mut s = String::from_str("Function ");
                s.append(function.name());
                s.append(" takes 2 arguments, got ");
                s.append(decimal_text(*got).as_str());
                s
            },
            ParseError::ExpectedArgumentSeparator => String::from_str(
                "Expected ',' or ')' in argument list",
            ),
            ParseError::TrailingInput { rest } => {
                let mut s = String::from_str("Unexpected input after the expression: '");
                s.append(rest.as_str());
                s.append("'");
                s
            },
            ParseError::NotConstant { role, term } => {
                let rendered = term.to_string();
                match role {
                    OperandRole::Divisor => {
                        let mut s = String::from_str(DIVISOR_MESSAGE);
                        s.append(rendered.as_str());
                        s
                    },
                    _ => {
                        let mut s = role.describe();
                        s.append(" must be a constant, got ");
                        s.append(rendered.as_str());
                        s
                    },
                }
            },
            ParseError::NotInteger { role, term } => {
                let mut s = role.describe();
                s.append(" must be an integer, got ");
                s.append(term.to_string().as_str());
                s
            },
            ParseError::Negative { role, value } => {
                let mut s = role.describe();
                s.append(" must be non-negative, got ");
                s.append(bigint_to_string(value).as_str());
                s
            },
            ParseError::TooLarge { role, value } => {
                let mut s = role.describe();
                s.append(" is too large, got ");
                s.append(bigint_to_string(value).as_str());
                s
            },
            ParseError::DegreeOverflow => String::from_str("The degree of the result is too large"),
            ParseError::DivisionByZero => String::from_str("Division by zero is not allowed."),
        }
    }
}

} // verus!
