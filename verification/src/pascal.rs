//! Factorials, falling factorials and binomial coefficients, as numbers and
//! as polynomials.

use crate::algebra::{
    lemma_eval_div, lemma_eval_mul, lemma_eval_sub, lemma_mul_coeff, lemma_sub_coeff,
};
use crate::polynomial::{
    is_trimmed, lemma_value_whole, poly_div, poly_eval, poly_mul, poly_sub, variable, Polynomial,
};
use crate::rational::{
    bigint_add, bigint_from_usize, bigint_mul, bigint_value, rational_from_integer,
};
use num_bigint::BigInt;
use vstd::prelude::*;

verus! {

/// The product of `1`, ..., `n`; one for `n == 0`.
pub open spec fn factorial_spec(n: nat) -> nat
    decreases n,
{
    if n == 0 {
        1
    } else {
        n * factorial_spec((n - 1) as nat)
    }
}

/// The falling factorial `n * (n - 1) * ... * (n - k + 1)`; one for `k == 0`.
pub open spec fn falling(n: int, k: nat) -> int
    decreases k,
{
    if k == 0 {
        1
    } else {
        falling(n, (k - 1) as nat) * (n - (k - 1))
    }
}

/// The binomial coefficient, by the rule of Pascal's triangle.
pub open spec fn binomial(n: nat, k: nat) -> nat
    decreases n,
{
    if k == 0 {
        1
    } else if n == 0 {
        0
    } else {
        binomial((n - 1) as nat, (k - 1) as nat) + binomial((n - 1) as nat, k)
    }
}

/// The falling-factorial polynomial of `p`: the product of `p - i` for `i`
/// from `0` to `k - 1`; one for `k == 0`.
pub open spec fn pick_spec(p: Seq<real>, k: nat) -> Seq<real>
    decreases k,
{
    if k == 0 {
        seq![1real]
    } else {
        poly_mul(pick_spec(p, (k - 1) as nat), poly_sub(p, seq![(k - 1) as real]))
    }
}

/// The binomial polynomial of `p`: the falling-factorial polynomial divided
/// by `k!`.
pub open spec fn choose_spec(p: Seq<real>, k: nat) -> Seq<real> {
    poly_div(pick_spec(p, k), factorial_spec(k) as real)
}

/// A factorial is at least one.
pub proof fn lemma_factorial_positive(n: nat)
    ensures
        factorial_spec(n) >= 1,
    decreases n,
{
    if n > 0 {
        lemma_factorial_positive((n - 1) as nat);
        assert(n * factorial_spec((n - 1) as nat) >= 1) by (nonlinear_arith)
            requires
                n >= 1,
                factorial_spec((n - 1) as nat) >= 1,
        ;
    }
}

/// A falling-factorial polynomial is trimmed, and its degree is at most `k`
/// times the degree of `p`.
pub proof fn lemma_pick_shape(p: Seq<real>, k: nat)
    requires
        p.len() >= 1,
    ensures
        is_trimmed(pick_spec(p, k)),
        pick_spec(p, k).len() <= (p.len() - 1) * k + 1,
    decreases k,
{
    if k > 0 {
        let j = (k - 1) as nat;
        lemma_pick_shape(p, j);
        lemma_sub_coeff(p, seq![j as real]);
        lemma_mul_coeff(pick_spec(p, j), poly_sub(p, seq![j as real]));
        assert((p.len() - 1) * j + 1 + p.len() - 1 == (p.len() - 1) * k + 1) by (nonlinear_arith)
            requires
                j == k - 1,
        ;
    } else {
        assert((p.len() - 1) * 0 == 0);
    }
}

/// The value of the variable at `v` is `v`, and of a constant its number.
pub proof fn lemma_eval_linear(j: real, v: real)
    ensures
        poly_eval(variable(), v) == v,
        poly_eval(seq![j], v) == j,
        poly_eval(poly_sub(variable(), seq![j]), v) == v - j,
{
    let x = variable();
    reveal_with_fuel(poly_eval, 3);
    assert(x.drop_first() =~= seq![1real]);
    assert(x.drop_first().drop_first() =~= Seq::<real>::empty());
    assert(seq![j].drop_first() =~= Seq::<real>::empty());
    assert(v * 0real == 0real);
    assert(v * (1real + v * 0real) == v) by (nonlinear_arith);
    lemma_eval_sub(x, seq![j], v);
}

/// A falling factorial with more factors than its start is zero.
pub proof fn lemma_falling_zero(n: nat, k: nat)
    requires
        n < k,
    ensures
        falling(n as int, k) == 0,
    decreases k,
{
    let j = (k - 1) as nat;
    if n < j {
        lemma_falling_zero(n, j);
        assert(0 * (n - j) == 0);
    } else {
        assert(falling(n as int, j) * 0 == 0);
    }
}

/// The falling-factorial polynomial of the variable has at a natural number
/// `n` the value `n * (n - 1) * ... * (n - k + 1)`, which is zero for `n < k`.
pub proof fn lemma_pick_at_natural(k: nat, n: nat)
    ensures
        poly_eval(pick_spec(variable(), k), n as real) == falling(n as int, k) as real,
        n < k ==> poly_eval(pick_spec(variable(), k), n as real) == 0real,
    decreases k,
{
    let v = n as real;
    if k == 0 {
        lemma_eval_linear(1real, v);
    } else {
        let j = (k - 1) as nat;
        let lower = pick_spec(variable(), j);
        let factor = poly_sub(variable(), seq![j as real]);
        lemma_pick_at_natural(j, n);
        lemma_pick_shape(variable(), j);
        lemma_sub_coeff(variable(), seq![j as real]);
        lemma_eval_mul(lower, factor, v);
        lemma_eval_linear(j as real, v);
        let f = falling(n as int, j);
        assert((f as real) * (n as real - j as real) == (f * (n - j)) as real)
            by (nonlinear_arith);
    }
    if n < k {
        lemma_falling_zero(n, k);
    }
}

/// A falling factorial is its first factor times the falling factorial that
/// starts one lower and has one factor less.
pub proof fn lemma_falling_first(n: int, k: nat)
    requires
        k >= 1,
    ensures
        falling(n, k) == n * falling(n - 1, (k - 1) as nat),
    decreases k,
{
    let j = (k - 1) as nat;
    if j == 0 {
        assert(falling(n, 1) == falling(n, 0) * (n - 0));
        assert(1 * n == n * 1) by (nonlinear_arith);
    } else {
        let i = (j - 1) as nat;
        lemma_falling_first(n, j);
        let g = falling(n - 1, i);
        assert(falling(n, k) == falling(n, j) * (n - j));
        assert(falling(n - 1, j) == g * (n - 1 - i));
        assert((n * g) * (n - j) == n * (g * (n - 1 - i))) by (nonlinear_arith)
            requires
                i == j - 1,
        ;
    }
}

/// A falling factorial of natural numbers is the binomial coefficient times
/// the factorial of the number of factors.
pub proof fn lemma_falling_binomial(n: nat, k: nat)
    ensures
        falling(n as int, k) == binomial(n, k) * factorial_spec(k),
    decreases n,
{
    if k == 0 {
        assert(1 * 1 == 1);
    } else if n == 0 {
        lemma_falling_zero(0, k);
        assert(0 * factorial_spec(k) == 0);
    } else {
        let m = (n - 1) as nat;
        let j = (k - 1) as nat;
        lemma_falling_binomial(m, j);
        lemma_falling_binomial(m, k);
        lemma_falling_first(n as int, k);
        let g = falling(m as int, j);
        let fj = factorial_spec(j);
        let a = binomial(m, j);
        let b = binomial(m, k);
        assert(falling(m as int, k) == g * (m - j));
        assert(factorial_spec(k) == k * fj);
        assert((a + b) * (k * fj) == n * g) by (nonlinear_arith)
            requires
                g == a * fj,
                g * (m - j) == b * (k * fj),
                m == n - 1,
                j == k - 1,
        ;
    }
}

/// The binomial polynomial of the variable has at a natural number `n` the
/// value of the binomial coefficient of `n` and `k`, which is zero for `n < k`.
pub proof fn lemma_choose_at_natural(k: nat, n: nat)
    ensures
        poly_eval(choose_spec(variable(), k), n as real) == binomial(n, k) as real,
        n < k ==> binomial(n, k) == 0,
{
    let v = n as real;
    let f = factorial_spec(k);
    lemma_pick_at_natural(k, n);
    lemma_pick_shape(variable(), k);
    lemma_factorial_positive(k);
    lemma_eval_div(pick_spec(variable(), k), f as real, v);
    lemma_falling_binomial(n, k);
    let b = binomial(n, k);
    assert(((b * f) as real) / (f as real) == b as real) by (nonlinear_arith)
        requires
            f >= 1,
    ;
    if n < k {
        lemma_falling_zero(n, k);
        assert(b == 0) by (nonlinear_arith)
            requires
                b * f == 0,
                f >= 1,
                b >= 0,
        ;
    }
}

/// `p` has at every natural number `n` the value of the falling factorial
/// of `n` with `k` factors, which is zero for `n < k`.
pub open spec fn takes_falling_values(p: Seq<real>, k: nat) -> bool {
    forall|n: nat|
        poly_eval(p, n as real) == (#[trigger] falling(n as int, k)) as real && (n < k
            ==> poly_eval(p, n as real) == 0real)
}

/// `p` has at every natural number `n` the value of the binomial
/// coefficient of `n` and `k`, which is zero for `n < k`.
pub open spec fn takes_binomial_values(p: Seq<real>, k: nat) -> bool {
    forall|n: nat|
        poly_eval(p, n as real) == (#[trigger] binomial(n, k)) as real && (n < k ==> poly_eval(
            p,
            n as real,
        ) == 0real)
}

/// The falling-factorial polynomial of the variable takes the values of the
/// falling factorial.
pub proof fn lemma_pick_values(k: nat)
    ensures
        takes_falling_values(pick_spec(variable(), k), k),
{
    assert forall|n: nat|
        poly_eval(pick_spec(variable(), k), n as real) == (#[trigger] falling(
            n as int,
            k,
        )) as real && (n < k ==> poly_eval(pick_spec(variable(), k), n as real) == 0real) by {
        lemma_pick_at_natural(k, n);
    }
}

/// The binomial polynomial of the variable takes the values of the binomial
/// coefficient.
pub proof fn lemma_choose_values(k: nat)
    ensures
        takes_binomial_values(choose_spec(variable(), k), k),
{
    assert forall|n: nat|
        poly_eval(choose_spec(variable(), k), n as real) == (#[trigger] binomial(n, k)) as real
            && (n < k ==> poly_eval(choose_spec(variable(), k), n as real) == 0real) by {
        lemma_choose_at_natural(k, n);
    }
}

/// The factorial of `n`.
pub fn factorial(n: usize) -> (f: BigInt)
    ensures
        bigint_value(f) == factorial_spec(n as nat),
{
    let mut product = bigint_from_usize(1);
    let mut i: usize = 0;
    while i < n
        invariant
            i <= n,
            bigint_value(product) == factorial_spec(i as nat),
        decreases n - i,
    {
        i += 1;
        let factor = bigint_from_usize(i);
        product = bigint_mul(&product, &factor);
        assert(factorial_spec(i as nat) == i * factorial_spec((i - 1) as nat));
        assert(factorial_spec((i - 1) as nat) * i == i * factorial_spec((i - 1) as nat))
            by (nonlinear_arith);
    }
    product
}

/// The falling-factorial polynomial of `poly`: the product of `poly - i` for
/// `i` from `0` to `k - 1`. `k` times the degree of `poly` must be below
/// `usize::MAX`, so that the product has a length.
pub fn pick(poly: &Polynomial, k: usize) -> (r: Polynomial)
    requires
        (poly@.len() - 1) * k + 1 <= usize::MAX,
    ensures
        r@ == pick_spec(poly@, k as nat),
        is_trimmed(r@),
        poly@ == variable() ==> takes_falling_values(r@, k as nat),
{
    proof {
        lemma_pick_values(k as nat);
    }
    let ghost p = poly@;
    let _degree = poly.degree();
    let one = rational_from_integer(bigint_from_usize(1));
    proof {
        lemma_value_whole(one);
        lemma_pick_shape(p, k as nat);
    }
    let mut result = Polynomial::constant(one);
    let mut i: usize = 0;
    while i < k
        invariant
            i <= k,
            p == poly@,
            p.len() >= 1,
            (p.len() - 1) * k + 1 <= usize::MAX,
            result@ == pick_spec(p, i as nat),
        decreases k - i,
    {
        let shift = rational_from_integer(bigint_from_usize(i));
        proof {
            lemma_value_whole(shift);
            lemma_pick_shape(p, i as nat);
            lemma_sub_coeff(p, seq![i as real]);
            assert((p.len() - 1) * i + (p.len() - 1) <= (p.len() - 1) * k) by (nonlinear_arith)
                requires
                    i < k,
                    p.len() >= 1,
            ;
        }
        let factor = poly.sub_ref(&Polynomial::constant(shift));
        result = result.mul_ref(&factor);
        i += 1;
    }
    result
}

/// The binomial polynomial of `poly`: its falling-factorial polynomial
/// divided by `k!`.
pub fn choose_poly(poly: &Polynomial, k: usize) -> (r: Polynomial)
    requires
        (poly@.len() - 1) * k + 1 <= usize::MAX,
    ensures
        r@ == choose_spec(poly@, k as nat),
        is_trimmed(r@),
        poly@ == variable() ==> takes_binomial_values(r@, k as nat),
{
    proof {
        lemma_choose_values(k as nat);
    }
    let divisor = rational_from_integer(factorial(k));
    proof {
        lemma_value_whole(divisor);
        lemma_factorial_positive(k as nat);
    }
    pick(poly, k).div(&divisor)
}

/// The falling-factorial polynomial of `poly` where it has a length, nothing
/// where `k` times the degree of `poly` reaches `usize::MAX`.
pub fn checked_pick(poly: &Polynomial, k: usize) -> (r: Option<Polynomial>)
    ensures
        r is Some <==> (poly@.len() - 1) * k + 1 <= usize::MAX,
        r is Some ==> r->0@ == pick_spec(poly@, k as nat) && is_trimmed(r->0@),
        r is Some && poly@ == variable() ==> takes_falling_values(r->0@, k as nat),
{
    let fits = match poly.degree().checked_mul(k) {
        Some(d) => d < usize::MAX,
        None => false,
    };
    if fits {
        Some(pick(poly, k))
    } else {
        None
    }
}

/// The binomial polynomial of `poly` where it has a length, nothing where
/// `k` times the degree of `poly` reaches `usize::MAX`.
pub fn checked_choose(poly: &Polynomial, k: usize) -> (r: Option<Polynomial>)
    ensures
        r is Some <==> (poly@.len() - 1) * k + 1 <= usize::MAX,
        r is Some ==> r->0@ == choose_spec(poly@, k as nat) && is_trimmed(r->0@),
        r is Some && poly@ == variable() ==> takes_binomial_values(r->0@, k as nat),
{
    let fits = match poly.degree().checked_mul(k) {
        Some(d) => d < usize::MAX,
        None => false,
    };
    if fits {
        Some(choose_poly(poly, k))
    } else {
        None
    }
}

/// Above the diagonal the binomial coefficient is zero, on it one.
pub proof fn lemma_binomial_diagonal(n: nat, k: nat)
    ensures
        k > n ==> binomial(n, k) == 0,
        k == n ==> binomial(n, k) == 1,
    decreases n,
{
    if n > 0 && k > 0 {
        lemma_binomial_diagonal((n - 1) as nat, (k - 1) as nat);
        lemma_binomial_diagonal((n - 1) as nat, k);
    }
}

/// Row `r` of the triangle: `r + 1` entries, the binomial coefficients of `r`.
pub open spec fn is_triangle_row(row: Seq<BigInt>, r: nat) -> bool {
    &&& row.len() == r + 1
    &&& forall|c: int| 0 <= c <= r ==> bigint_value(#[trigger] row[c]) == binomial(r, c as nat)
}

/// The first `rows` rows of Pascal's triangle.
pub fn generate_triangle(rows: usize) -> (triangle: Vec<Vec<BigInt>>)
    ensures
        triangle@.len() == rows,
        forall|r: int| 0 <= r < rows ==> is_triangle_row((#[trigger] triangle@[r])@, r as nat),
{
    let mut triangle: Vec<Vec<BigInt>> = Vec::new();
    let mut r: usize = 0;
    while r < rows
        invariant
            r <= rows,
            triangle@.len() == r,
            forall|i: int| 0 <= i < r ==> is_triangle_row((#[trigger] triangle@[i])@, i as nat),
        decreases rows - r,
    {
        let mut row: Vec<BigInt> = Vec::new();
        let mut c: usize = 0;
        while c <= r
            invariant
                c <= r + 1,
                r < rows,
                triangle@.len() == r,
                r > 0 ==> is_triangle_row(triangle@[r - 1]@, (r - 1) as nat),
                row@.len() == c,
                forall|j: int| 0 <= j < c ==> bigint_value(#[trigger] row@[j]) == binomial(
                    r as nat,
                    j as nat,
                ),
            decreases r + 1 - c,
        {
            let entry = if c == 0 || c == r {
                proof {
                    lemma_binomial_diagonal(r as nat, c as nat);
                }
                bigint_from_usize(1)
            } else {
                let above = &triangle[r - 1];
                assert(bigint_value(above@[c - 1]) == binomial((r - 1) as nat, (c - 1) as nat));
                assert(bigint_value(above@[c as int]) == binomial((r - 1) as nat, c as nat));
                bigint_add(&above[c - 1], &above[c])
            };
            row.push(entry);
            c += 1;
        }
        triangle.push(row);
        r += 1;
    }
    triangle
}

} // verus!
