//! Writing a coefficient sequence out as a signed sum of terms.

use crate::basis::Basis;
use crate::lowest_terms::{fractions_from, lemma_lowest_terms_of};
use crate::polynomial::{all_canonical, values, Polynomial};
use crate::rational::{
    digit_char, is_canonical, lemma_negation_in_lowest_terms, nat_text, ratio_fraction,
    ratio_numer, ratio_text, rational_abs, rational_is_integer, rational_is_negative,
    rational_is_one, rational_is_zero, rational_to_string,
};
use num_bigint::BigInt;
use num_rational::Ratio;
use vstd::prelude::*;
use vstd::string::*;

verus! {

/// The absolute value of an integer.
pub open spec fn abs(i: int) -> int {
    if i < 0 {
        -i
    } else {
        i
    }
}

/// What stands before a term: a bare `-` or nothing before the first term,
/// ` - ` or ` + ` before every later one.
pub open spec fn sign_text(negative: bool, first: bool) -> Seq<char> {
    if first {
        if negative {
            "-"@
        } else {
            ""@
        }
    } else if negative {
        " - "@
    } else {
        " + "@
    }
}

/// The magnitude of a coefficient as a number.
pub open spec fn magnitude_text(f: (int, int)) -> Seq<char> {
    ratio_text(abs(f.0), f.1)
}

/// The magnitude of a coefficient as a factor before a term name: nothing
/// for one, the bare number and `*` for an integer, the number in
/// parentheses and `*` for a proper fraction.
pub open spec fn factor_text(f: (int, int)) -> Seq<char> {
    if abs(f.0) == f.1 {
        ""@
    } else if f.1 == 1 {
        magnitude_text(f) + "*"@
    } else {
        "("@ + magnitude_text(f) + ")*"@
    }
}

/// The name of the term of degree `i` in a basis, for `i` from two on.
pub open spec fn term_name_text(basis: Basis, i: nat) -> Seq<char> {
    match basis {
        Basis::Standard => "x^"@ + nat_text(i),
        Basis::Binomial => "C(x,"@ + nat_text(i) + ")"@,
    }
}

/// One term of the sum: sign, then the bare number at degree zero, else the
/// factor and the term name, which at degree one is the bare variable.
pub open spec fn term_text(f: (int, int), i: nat, first: bool, basis: Basis) -> Seq<char> {
    sign_text(f.0 < 0, first) + (if i == 0 {
        magnitude_text(f)
    } else if i == 1 {
        factor_text(f) + "x"@
    } else {
        factor_text(f) + term_name_text(basis, i)
    })
}

/// The terms of the coefficients below index `n`, highest first, without the
/// zero ones. `first` says that no term stands before them.
pub open spec fn render_terms(fracs: Seq<(int, int)>, basis: Basis, n: nat, first: bool) -> Seq<
    char,
>
    decreases n,
{
    if n == 0 {
        Seq::<char>::empty()
    } else {
        let i = (n - 1) as nat;
        if fracs[i as int].0 == 0 {
            render_terms(fracs, basis, i, first)
        } else {
            term_text(fracs[i as int], i, first, basis) + render_terms(fracs, basis, i, false)
        }
    }
}

/// Some coefficient below index `n` is not zero.
pub open spec fn has_term(fracs: Seq<(int, int)>, n: nat) -> bool {
    exists|i: int| 0 <= i < n && (#[trigger] fracs[i]).0 != 0
}

/// A coefficient sequence written out: `0` where every coefficient is zero,
/// else its non-zero terms from the highest degree down.
pub open spec fn render(fracs: Seq<(int, int)>, basis: Basis) -> Seq<char> {
    if has_term(fracs, fracs.len()) {
        render_terms(fracs, basis, fracs.len(), true)
    } else {
        "0"@
    }
}

/// One decimal digit as text.
fn digit_str(d: usize) -> (s: &'static str)
    requires
        d < 10,
    ensures
        s@ == seq![digit_char(d as int)],
{
    proof {
        reveal_strlit("0");
        reveal_strlit("1");
        reveal_strlit("2");
        reveal_strlit("3");
        reveal_strlit("4");
        reveal_strlit("5");
        reveal_strlit("6");
        reveal_strlit("7");
        reveal_strlit("8");
        reveal_strlit("9");
    }
    let s = if d == 0 {
        "0"
    } else if d == 1 {
        "1"
    } else if d == 2 {
        "2"
    } else if d == 3 {
        "3"
    } else if d == 4 {
        "4"
    } else if d == 5 {
        "5"
    } else if d == 6 {
        "6"
    } else if d == 7 {
        "7"
    } else if d == 8 {
        "8"
    } else {
        "9"
    };
    assert(s@ =~= seq![digit_char(d as int)]);
    s
}

/// A number written in decimal.
pub fn decimal_text(n: usize) -> (s: String)
    ensures
        s@ == nat_text(n as nat),
    decreases n,
{
    if n < 10 {
        String::from_str(digit_str(n))
    } else {
        let mut s = decimal_text(n / 10);
        s.append(digit_str(n % 10));
        assert(s@ =~= nat_text((n / 10) as nat).push(digit_char((n % 10) as int)));
        s
    }
}

/// The name of the term of degree `i` in `basis`: `x^i` or `C(x,i)`.
pub fn term_name(basis: Basis, i: usize) -> (s: String)
    ensures
        s@ == term_name_text(basis, i as nat),
{
    let digits = decimal_text(i);
    match basis {
        Basis::Standard => {
            let mut s = String::from_str("x^");
            s.append(digits.as_str());
            s
        },
        Basis::Binomial => {
            let mut s = String::from_str("C(x,");
            s.append(digits.as_str());
            s.append(")");
            s
        },
    }
}

/// What stands before a term.
fn sign_str(negative: bool, first: bool) -> (s: &'static str)
    ensures
        s@ == sign_text(negative, first),
{
    if first {
        if negative {
            "-"
        } else {
            ""
        }
    } else if negative {
        " - "
    } else {
        " + "
    }
}

/// The magnitude of a coefficient as a factor before a term name.
fn factor_string(magnitude: &Ratio<BigInt>) -> (s: String)
    requires
        is_canonical(*magnitude),
        ratio_numer(*magnitude) >= 0,
    ensures
        s@ == factor_text(ratio_fraction(*magnitude)),
{
    if rational_is_one(magnitude) {
        String::from_str("")
    } else {
        let number = rational_to_string(magnitude);
        if rational_is_integer(magnitude) {
            let mut s = number;
            s.append("*");
            s
        } else {
            let mut s = String::from_str("(");
            s.append(number.as_str());
            s.append(")*");
            s
        }
    }
}

/// One term of the sum, for a coefficient that is not zero.
fn term_string(c: &Ratio<BigInt>, i: usize, first: bool, basis: Basis) -> (s: String)
    requires
        is_canonical(*c),
    ensures
        s@ == term_text(ratio_fraction(*c), i as nat, first, basis),
{
    let ghost f = ratio_fraction(*c);
    let negative = rational_is_negative(c);
    let magnitude = rational_abs(c);
    proof {
        if f.0 < 0 {
            lemma_negation_in_lowest_terms(f.0, f.1);
        }
        assert(ratio_fraction(magnitude) == (abs(f.0), f.1));
        assert(factor_text(ratio_fraction(magnitude)) == factor_text(f));
        assert(magnitude_text(ratio_fraction(magnitude)) == magnitude_text(f));
    }
    let mut s = String::from_str(sign_str(negative, first));
    if i == 0 {
        let number = rational_to_string(&magnitude);
        s.append(number.as_str());
    } else {
        let factor = factor_string(&magnitude);
        s.append(factor.as_str());
        if i == 1 {
            s.append("x");
        } else {
            let name = term_name(basis, i);
            s.append(name.as_str());
        }
        assert(s@ =~= sign_text(negative, first) + (factor_text(f) + if i == 1 {
            "x"@
        } else {
            term_name_text(basis, i as nat)
        }));
    }
    s
}

/// Writes the coefficients out as a signed sum of terms in `basis`, from the
/// highest degree down, leaving out the zero ones; `0` where there is none.
pub fn format_from_coeffs(coeffs: &[Ratio<BigInt>], basis: Basis) -> (text: String)
    requires
        all_canonical(coeffs@),
    ensures
        text@ == render(fractions_from(values(coeffs@)), basis),
{
    let ghost fracs = fractions_from(values(coeffs@));
    let n = coeffs.len();
    let mut out = String::new();
    let mut emitted = false;
    let mut i: usize = n;
    while i > 0
        invariant
            i <= n,
            n == coeffs@.len(),
            fracs == fractions_from(values(coeffs@)),
            all_canonical(coeffs@),
            emitted <==> exists|j: int| i <= j < n && (#[trigger] fracs[j]).0 != 0,
            out@ + render_terms(fracs, basis, i as nat, !emitted) == render_terms(
                fracs,
                basis,
                n as nat,
                true,
            ),
        decreases i,
    {
        let ghost before = out@;
        let ghost first = !emitted;
        i -= 1;
        let c = &coeffs[i];
        proof {
            lemma_lowest_terms_of(*c);
        }
        assert(fracs[i as int] == ratio_fraction(*c));
        if !rational_is_zero(c) {
            let term = term_string(c, i, !emitted, basis);
            out.append(term.as_str());
            proof {
                let rest = render_terms(fracs, basis, i as nat, false);
                assert(render_terms(fracs, basis, (i + 1) as nat, first) == term@ + rest);
                assert((before + term@) + rest =~= before + (term@ + rest));
            }
            emitted = true;
        }
    }
    if emitted {
        assert(has_term(fracs, n as nat));
        assert(out@ + Seq::<char>::empty() =~= out@);
        out
    } else {
        assert(!has_term(fracs, n as nat));
        String::from_str("0")
    }
}

impl Polynomial {
    /// The polynomial written out in the power basis.
    pub fn to_string(&self) -> (text: String)
        ensures
            text@ == render(fractions_from(self@), Basis::Standard),
    {
        format_from_coeffs(self.coeffs(), Basis::Standard)
    }
}

} // verus!
