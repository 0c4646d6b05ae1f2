//! Exact single-variable polynomials over the rationals: arithmetic,
//! evaluation, an expression parser, and rendering in the power basis or in
//! the binomial basis.
//!
//! - [`rational`]: the numbers, as `num-bigint` and `num-rational` provide them.
//! - [`lowest_terms`]: a fraction in lowest terms is determined by its value.
//! - [`polynomial`]: the polynomial type, its model and its arithmetic.
//! - [`algebra`]: what the arithmetic does to coefficients and values.
//! - [`pascal`]: factorials, falling-factorial and binomial polynomials.
//! - [`basis`]: the two bases and the change to the binomial basis.
//! - [`format`]: writing coefficients out as a sum of terms.
//! - [`error`]: the refusals of the parser and their messages.
//! - [`parse`]: the grammar and the parser.
//! - [`identities`]: a worked identity that ties parser and evaluation together.
//! - [`session`]: what a calculator keeps and decides between inputs.

pub mod algebra;
pub mod basis;
pub mod error;
pub mod format;
pub mod identities;
pub mod lowest_terms;
pub mod parse;
pub mod pascal;
pub mod polynomial;
pub mod rational;
pub mod session;
