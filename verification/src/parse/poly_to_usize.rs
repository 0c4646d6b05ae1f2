//! Reading a sub-expression as a count.

use crate::error::{Failure, OperandRole, ParseError};
use crate::polynomial::Polynomial;
use crate::rational::{
    bigint_is_negative, bigint_to_usize, bigint_value, lemma_whole_number_denominator, ratio_denom,
    ratio_numer, rational_is_integer, rational_to_integer,
};
use vstd::prelude::*;

verus! {

/// `v` is a whole number.
pub open spec fn is_whole(v: real) -> bool {
    v.floor() as real == v
}

/// The count that a polynomial stands for where a count has to stand: it must
/// be a constant, whole, not negative, and within `usize`.
pub open spec fn count_of(p: Seq<real>, role: OperandRole) -> Result<nat, Failure> {
    if p.len() != 1 {
        Err(Failure::NotConstant { role, term: p })
    } else if !is_whole(p[0]) {
        Err(Failure::NotInteger { role, term: p })
    } else if p[0] < 0real {
        Err(Failure::Negative { role, value: p[0].floor() })
    } else if p[0].floor() > usize::MAX {
        Err(Failure::TooLarge { role, value: p[0].floor() })
    } else {
        Ok(p[0].floor() as nat)
    }
}

/// Reads `poly` as a count for the place `role`.
pub fn poly_to_usize(poly: &Polynomial, role: OperandRole) -> (r: Result<usize, ParseError>)
    ensures
        match count_of(poly@, role) {
            Ok(n) => r is Ok && r->Ok_0 == n,
            Err(failure) => r is Err && r->Err_0@ == failure,
        },
{
    let constant = match poly.extract_constant() {
        Some(c) => c,
        None => {
            return Err(ParseError::NotConstant { role, term: poly.clone() });
        },
    };
    let ghost v = poly@[0];
    let ghost n = ratio_numer(constant);
    let ghost d = ratio_denom(constant);
    if !rational_is_integer(&constant) {
        proof {
            if is_whole(v) {
                lemma_whole_number_denominator(n, d, v.floor());
            }
        }
        return Err(ParseError::NotInteger { role, term: poly.clone() });
    }
    proof {
        assert(n as real / 1int as real == n as real) by (nonlinear_arith);
        assert(v == n as real);
        assert(v.floor() == n);
    }
    let whole = rational_to_integer(&constant);
    assert(bigint_value(whole) == n);
    match bigint_to_usize(&whole) {
        Some(k) => Ok(k),
        None => {
            if bigint_is_negative(&whole) {
                Err(ParseError::Negative { role, value: whole })
            } else {
                Err(ParseError::TooLarge { role, value: whole })
            }
        },
    }
}

} // verus!
