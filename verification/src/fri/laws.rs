//! The identity that links two layers of the protocol: the fold of the
//! values that a polynomial takes at `x` and `-x` is the value that the
//! folded polynomial takes at `x * x`.
use crate::fields::element::FieldElement;
use crate::fields::fermat::lemma_field_inv_is_inverse;
use crate::fields::modular::{field_inv, field_neg, field_pow, is_prime};
use crate::fri::fri_verify::fold_value_spec;
use crate::polynomial::evaluation::{
    lemma_eval_congruent_sum, lemma_eval_scaled_shift, lemma_eval_unfold,
};
use crate::polynomial::model::{coeff, lemma_trim_props, poly_eval, poly_eval_from, poly_fold};
use crate::polynomial::ops::Polynomial;
use vstd::arithmetic::div_mod::*;
use vstd::arithmetic::mul::*;
use vstd::arithmetic::power::*;
use vstd::prelude::*;

verus! {

/// The coefficients of the even powers.
pub open spec fn even_part(p: Seq<int>) -> Seq<int> {
    Seq::new(((p.len() + 1) / 2) as nat, |i: int| p[2 * i])
}

/// The coefficients of the odd powers.
pub open spec fn odd_part(p: Seq<int>) -> Seq<int> {
    Seq::new((p.len() / 2) as nat, |i: int| p[2 * i + 1])
}

/// A polynomial is its even part at the square plus `x` times its odd part
/// at the square.
pub proof fn lemma_eval_split(p: Seq<int>, x: int, i: int)
    requires
        0 <= i,
    ensures
        poly_eval_from(p, x, 2 * i) == poly_eval_from(even_part(p), x * x, i) + x * poly_eval_from(
            odd_part(p),
            x * x,
            i,
        ),
    decreases p.len() + 1 - 2 * i,
{
    let y = x * x;
    let even = even_part(p);
    let odd = odd_part(p);
    if 2 * i >= p.len() {
        assert(poly_eval_from(even, y, i) == 0);
        assert(poly_eval_from(odd, y, i) == 0);
        assert(x * 0 == 0);
    } else {
        lemma_eval_split(p, x, i + 1);
        lemma_eval_unfold(p, x, 2 * i);
        lemma_eval_unfold(p, x, 2 * i + 1);
        lemma_eval_unfold(even, y, i);
        lemma_eval_unfold(odd, y, i);
        assert(coeff(even, i) == coeff(p, 2 * i));
        assert(coeff(odd, i) == coeff(p, 2 * i + 1));
        let rest = poly_eval_from(p, x, 2 * i + 2);
        let re = poly_eval_from(even, y, i + 1);
        let ro = poly_eval_from(odd, y, i + 1);
        let c0 = coeff(p, 2 * i);
        let c1 = coeff(p, 2 * i + 1);
        assert(rest == re + x * ro);
        assert(c0 + x * (c1 + x * (re + x * ro)) == (c0 + (x * x) * re) + x * (c1 + (x * x) * ro))
            by (nonlinear_arith);
    }
}

/// The value of the folded polynomial is the value of the even part plus
/// `beta` times the value of the odd part.
pub proof fn lemma_eval_fold(p: Seq<int>, beta: int, y: int, m: int)
    requires
        m > 0,
    ensures
        poly_eval(poly_fold(p, beta, m), y) % m == (poly_eval(even_part(p), y) + beta * poly_eval(
            odd_part(p),
            y,
        )) % m,
{
    let even = even_part(p);
    let odd = odd_part(p);
    let raw = Seq::new(
        ((p.len() + 1) / 2) as nat,
        |i: int| (coeff(p, 2 * i) + beta * coeff(p, 2 * i + 1)) % m,
    );
    let folded = poly_fold(p, beta, m);
    lemma_trim_props(raw);
    let scaled = Seq::new(odd.len(), |i: int| beta * odd[i]);
    assert forall|j: int| 0 <= j implies #[trigger] coeff(scaled, j + 0) % m == (beta * coeff(
        odd,
        j,
    )) % m by {
        if j >= odd.len() {
            assert(beta * 0 == 0);
        }
    }
    lemma_eval_scaled_shift(scaled, odd, beta, 0, y, m, 0);
    assert forall|j: int| 0 <= j implies #[trigger] coeff(folded, j) % m == (coeff(even, j)
        + coeff(scaled, j)) % m by {
        assert(coeff(folded, j) == coeff(raw, j));
        if j < raw.len() {
            lemma_mod_twice(coeff(p, 2 * j) + beta * coeff(p, 2 * j + 1), m);
            assert(coeff(even, j) == coeff(p, 2 * j));
            if j < odd.len() {
                assert(coeff(scaled, j) == beta * coeff(p, 2 * j + 1));
            } else {
                assert(coeff(p, 2 * j + 1) == 0);
                assert(beta * 0 == 0);
            }
        }
    }
    lemma_eval_congruent_sum(folded, even, scaled, y, m, 0);
    lemma_add_mod_noop_right(poly_eval(even, y), poly_eval(scaled, y), m);
    lemma_add_mod_noop_right(poly_eval(even, y), beta * poly_eval(odd, y), m);
}

/// Congruent arguments give congruent values.
pub proof fn lemma_eval_congruent_argument(p: Seq<int>, a: int, b: int, m: int, i: int)
    requires
        m > 0,
        0 <= i,
        a % m == b % m,
    ensures
        poly_eval_from(p, a, i) % m == poly_eval_from(p, b, i) % m,
    decreases p.len() - i,
{
    if i < p.len() {
        lemma_eval_congruent_argument(p, a, b, m, i + 1);
        let ra = poly_eval_from(p, a, i + 1);
        let rb = poly_eval_from(p, b, i + 1);
        lemma_mul_mod_noop(a, ra, m);
        lemma_mul_mod_noop(b, rb, m);
        lemma_add_mod_noop_right(p[i], a * ra, m);
        lemma_add_mod_noop_right(p[i], b * rb, m);
    }
}

/// Products of congruent factors are congruent.
proof fn lemma_congruent_products(a: int, b: int, c: int, d: int, m: int)
    requires
        m > 0,
        a % m == b % m,
        c % m == d % m,
    ensures
        (a * c) % m == (b * d) % m,
{
    lemma_mul_mod_noop(a, c, m);
    lemma_mul_mod_noop(b, d, m);
}

/// Sums of congruent summands are congruent.
proof fn lemma_congruent_sums(a: int, b: int, c: int, d: int, m: int)
    requires
        m > 0,
        a % m == b % m,
        c % m == d % m,
    ensures
        (a + c) % m == (b + d) % m,
        (a - c) % m == (b - d) % m,
{
    lemma_add_mod_noop(a, c, m);
    lemma_add_mod_noop(b, d, m);
    lemma_sub_mod_noop(a, c, m);
    lemma_sub_mod_noop(b, d, m);
}

/// The fold of `e + x o` and `e - x o` is `e + beta o`.
proof fn lemma_fold_of_split(v: int, s: int, e: int, o: int, beta: int, x: int, m: int)
    requires
        is_prime(m),
        m > 2,
        0 < x < m,
        v % m == (e + x * o) % m,
        s % m == (e - x * o) % m,
    ensures
        fold_value_spec(v % m, s % m, beta, x, m) == (e + beta * o) % m,
{
    lemma_small_mod(2, m as nat);
    let half = field_inv(2int % m, m);
    let xinv = field_inv(x, m);
    lemma_field_inv_is_inverse(2, m);
    lemma_field_inv_is_inverse(x, m);
    lemma_mod_twice(v, m);
    lemma_mod_twice(s, m);
    // the even part: ((v + s) * half) is congruent to e
    let sum = (v % m + s % m) % m;
    lemma_congruent_sums(v % m, e + x * o, s % m, e - x * o, m);
    lemma_mod_twice(v % m + s % m, m);
    assert(sum % m == ((e + x * o) + (e - x * o)) % m);
    assert((e + x * o) + (e - x * o) == 2 * e);
    lemma_mod_twice(half, m);
    lemma_congruent_products(sum, 2 * e, half, half, m);
    let even = (sum * half) % m;
    assert((2 * e) * half == e * (2 * half)) by (nonlinear_arith);
    lemma_mul_mod_noop_right(e, 2 * half, m);
    assert(e * 1 == e);
    assert(even == e % m);
    // the odd part: ((v - s) * half * xinv) is congruent to o
    let diff = (v % m - s % m) % m;
    lemma_mod_twice(v % m - s % m, m);
    assert(diff % m == ((e + x * o) - (e - x * o)) % m);
    assert((e + x * o) - (e - x * o) == 2 * (x * o)) by (nonlinear_arith);
    lemma_congruent_products(diff, 2 * (x * o), half, half, m);
    let halved = (diff * half) % m;
    assert((2 * (x * o)) * half == (x * o) * (2 * half)) by (nonlinear_arith);
    lemma_mul_mod_noop_right(x * o, 2 * half, m);
    assert((x * o) * 1 == x * o);
    assert(halved == (x * o) % m);
    lemma_mod_twice(x * o, m);
    lemma_mod_twice(xinv, m);
    lemma_congruent_products(halved, x * o, xinv, xinv, m);
    let odd = (halved * xinv) % m;
    assert((x * o) * xinv == o * (x * xinv)) by (nonlinear_arith);
    lemma_mul_mod_noop_right(o, x * xinv, m);
    assert(o * 1 == o);
    assert(odd == o % m);
    // together
    lemma_mod_twice(o, m);
    lemma_mod_twice(beta, m);
    lemma_congruent_products(beta, beta, odd, o, m);
    let scaled = (beta * odd) % m;
    lemma_mod_twice(beta * odd, m);
    lemma_mod_twice(e, m);
    lemma_congruent_sums(even, e, scaled, beta * o, m);
}

/// Over a prime field with more than two elements, for a point `x` other
/// than zero: the fold of the values of a polynomial at `x` and at `-x` is
/// the value of the folded polynomial at the square of `x`.
pub proof fn law_fold_identity<const MODULUS: u64>(
    p: Polynomial<MODULUS>,
    beta: FieldElement<MODULUS>,
    x: FieldElement<MODULUS>,
)
    requires
        is_prime(MODULUS as int),
        MODULUS > 2,
        p.wf(),
        beta.wf(),
        x.wf(),
        x@ != 0,
    ensures
        fold_value_spec(
            poly_eval(p@, x@) % (MODULUS as int),
            poly_eval(p@, field_neg(x@, MODULUS as int)) % (MODULUS as int),
            beta@,
            x@,
            MODULUS as int,
        ) == poly_eval(
            poly_fold(p@, beta@, MODULUS as int),
            field_pow(x@, 2, MODULUS as int),
        ) % (MODULUS as int),
{
    let m = MODULUS as int;
    let a = x@;
    let y = a * a;
    let e = poly_eval(even_part(p@), y);
    let o = poly_eval(odd_part(p@), y);
    let v = poly_eval(p@, a);
    let s = poly_eval(p@, field_neg(a, m));
    // the values at x and at -x
    lemma_eval_split(p@, a, 0);
    lemma_eval_split(p@, -a, 0);
    assert((-a) * (-a) == a * a) by (nonlinear_arith);
    assert(poly_eval(p@, -a) == e + (-a) * o);
    assert((-a) * o == -(a * o)) by (nonlinear_arith);
    lemma_mod_twice(-a, m);
    lemma_eval_congruent_argument(p@, field_neg(a, m), -a, m, 0);
    assert(s % m == (e - a * o) % m);
    lemma_fold_of_split(v, s, e, o, beta@, a, m);
    // the folded polynomial at the square
    lemma_eval_fold(p@, beta@, y, m);
    lemma_square_is_pow2(a);
    lemma_mod_twice(pow(a, 2), m);
    lemma_eval_congruent_argument(poly_fold(p@, beta@, m), field_pow(a, 2, m), y, m, 0);
}

} // verus!
