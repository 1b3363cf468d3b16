//! How evaluation goes with the ring operations: the value of a sum, of a
//! multiple and of a product is the sum, the multiple and the product of
//! the values.
use crate::polynomial::model::{
    coeff, conv, conv_upto, lemma_trim_props, poly_add, poly_eval, poly_eval_from, poly_mul,
    poly_scale, poly_sub,
};
use vstd::arithmetic::div_mod::*;
use vstd::arithmetic::mul::*;
use vstd::arithmetic::power::*;
use vstd::prelude::*;

verus! {

/// Horner's rule unfolds at every index, stored or not.
pub proof fn lemma_eval_unfold(s: Seq<int>, x: int, i: int)
    requires
        0 <= i,
    ensures
        poly_eval_from(s, x, i) == coeff(s, i) + x * poly_eval_from(s, x, i + 1),
{
    if i >= s.len() {
        assert(x * 0 == 0);
    }
}

/// If the coefficients of `c` are congruent to the sums of those of `a` and
/// `b`, then so are the values.
pub proof fn lemma_eval_congruent_sum(
    c: Seq<int>,
    a: Seq<int>,
    b: Seq<int>,
    x: int,
    m: int,
    i: int,
)
    requires
        m > 0,
        0 <= i,
        forall|j: int| 0 <= j ==> #[trigger] coeff(c, j) % m == (coeff(a, j) + coeff(b, j)) % m,
    ensures
        poly_eval_from(c, x, i) % m == (poly_eval_from(a, x, i) + poly_eval_from(b, x, i)) % m,
    decreases c.len() + a.len() + b.len() - i,
{
    if i >= c.len() && i >= a.len() && i >= b.len() {
    } else {
        lemma_eval_congruent_sum(c, a, b, x, m, i + 1);
        lemma_eval_unfold(c, x, i);
        lemma_eval_unfold(a, x, i);
        lemma_eval_unfold(b, x, i);
        let ec = poly_eval_from(c, x, i + 1);
        let ea = poly_eval_from(a, x, i + 1);
        let eb = poly_eval_from(b, x, i + 1);
        assert(coeff(c, i) % m == (coeff(a, i) + coeff(b, i)) % m);
        lemma_mul_mod_noop_right(x, ec, m);
        lemma_mul_mod_noop_right(x, ea + eb, m);
        lemma_add_mod_noop(coeff(c, i), x * ec, m);
        lemma_add_mod_noop(coeff(a, i) + coeff(b, i), x * (ea + eb), m);
        assert(x * (ea + eb) == x * ea + x * eb) by (nonlinear_arith);
    }
}

/// If the coefficients of `c`, from index `n` on, are congruent to `k`
/// times those of `a`, then the value of that part of `c` is congruent to
/// `k` times the value of `a`.
pub proof fn lemma_eval_scaled_shift(c: Seq<int>, a: Seq<int>, k: int, n: int, x: int, m: int, i: int)
    requires
        m > 0,
        0 <= i,
        0 <= n,
        forall|j: int| 0 <= j ==> #[trigger] coeff(c, j + n) % m == (k * coeff(a, j)) % m,
    ensures
        poly_eval_from(c, x, i + n) % m == (k * poly_eval_from(a, x, i)) % m,
    decreases c.len() + a.len() - i,
{
    if i + n >= c.len() && i >= a.len() {
        assert(k * 0 == 0);
    } else {
        lemma_eval_scaled_shift(c, a, k, n, x, m, i + 1);
        lemma_eval_unfold(c, x, i + n);
        lemma_eval_unfold(a, x, i);
        let ec = poly_eval_from(c, x, i + n + 1);
        let ea = poly_eval_from(a, x, i + 1);
        assert(coeff(c, i + n) % m == (k * coeff(a, i)) % m);
        lemma_mul_mod_noop_right(x, ec, m);
        lemma_mul_mod_noop_right(x, k * ea, m);
        lemma_add_mod_noop(coeff(c, i + n), x * ec, m);
        lemma_add_mod_noop(k * coeff(a, i), x * (k * ea), m);
        assert(k * (coeff(a, i) + x * ea) == k * coeff(a, i) + x * (k * ea)) by (nonlinear_arith);
    }
}

/// Coefficients congruent to zero below index `n` leave the value of the
/// rest, times `x^(n - i)`.
pub proof fn lemma_eval_leading_zeros(c: Seq<int>, n: int, x: int, m: int, i: int)
    requires
        m > 0,
        0 <= i <= n,
        forall|j: int| 0 <= j < n ==> #[trigger] coeff(c, j) % m == 0,
    ensures
        poly_eval_from(c, x, i) % m == (pow(x, (n - i) as nat) * poly_eval_from(c, x, n)) % m,
    decreases n - i,
{
    reveal(pow);
    if i == n {
        assert(pow(x, 0) == 1);
        assert(1 * poly_eval_from(c, x, n) == poly_eval_from(c, x, n));
    } else {
        lemma_eval_leading_zeros(c, n, x, m, i + 1);
        lemma_eval_unfold(c, x, i);
        let rest = poly_eval_from(c, x, i + 1);
        let tail = poly_eval_from(c, x, n);
        let p1 = pow(x, (n - i - 1) as nat);
        assert(pow(x, (n - i) as nat) == x * p1);
        assert(coeff(c, i) % m == 0);
        lemma_add_mod_noop(coeff(c, i), x * rest, m);
        lemma_mul_mod_noop_right(x, rest, m);
        lemma_mul_mod_noop_right(x, p1 * tail, m);
        lemma_mod_twice(x * rest, m);
        assert(x * (p1 * tail) == (x * p1) * tail) by (nonlinear_arith);
        assert((0 + (x * rest) % m) % m == (x * rest) % m);
    }
}

/// One more coefficient adds its term.
pub proof fn lemma_eval_push(s: Seq<int>, c: int, x: int, i: int)
    requires
        0 <= i <= s.len(),
    ensures
        poly_eval_from(s.push(c), x, i) == poly_eval_from(s, x, i) + c * pow(
            x,
            (s.len() - i) as nat,
        ),
    decreases s.len() - i,
{
    reveal(pow);
    let t = s.push(c);
    if i == s.len() {
        assert(poly_eval_from(t, x, i + 1) == 0);
        assert(poly_eval_from(t, x, i) == c + x * 0);
        assert(pow(x, 0) == 1);
    } else {
        lemma_eval_push(s, c, x, i + 1);
        assert(t[i] == s[i]);
        let p1 = pow(x, (s.len() - i - 1) as nat);
        assert(pow(x, (s.len() - i) as nat) == x * p1);
        assert(x * (poly_eval_from(s, x, i + 1) + c * p1) == x * poly_eval_from(s, x, i + 1) + c
            * (x * p1)) by (nonlinear_arith);
    }
}

/// The product up to `n` looks at the first `n` coefficients of the first
/// factor only.
pub proof fn lemma_conv_first_factor(a: Seq<int>, a2: Seq<int>, b: Seq<int>, k: int, n: int)
    requires
        forall|i: int| 0 <= i < n ==> coeff(a, i) == coeff(a2, i),
    ensures
        conv_upto(a, b, k, n) == conv_upto(a2, b, k, n),
    decreases n,
{
    if n > 0 {
        lemma_conv_first_factor(a, a2, b, k, n - 1);
        assert(coeff(a, n - 1) == coeff(a2, n - 1));
    }
}

/// Beyond the degrees of its factors the product has no coefficient.
pub proof fn lemma_conv_above(b: Seq<int>, q: Seq<int>, k: int, n: int)
    requires
        0 <= n <= b.len(),
        k >= b.len() + q.len() - 1,
    ensures
        conv_upto(b, q, k, n) == 0,
    decreases n,
{
    if n > 0 {
        lemma_conv_above(b, q, k, n - 1);
        assert(coeff(q, k - (n - 1)) == 0);
        assert(coeff(b, n - 1) * 0 == 0);
    }
}

/// A product with the zero polynomial has no coefficient.
pub proof fn lemma_conv_zero_second(b: Seq<int>, k: int, n: int)
    ensures
        conv_upto(b, Seq::<int>::empty(), k, n) == 0,
    decreases n,
{
    if n > 0 {
        lemma_conv_zero_second(b, k, n - 1);
        assert(coeff(b, n - 1) * 0 == 0);
    }
}

/// The product depends on the second factor through its coefficients only.
pub proof fn lemma_conv_coefficients(b: Seq<int>, q: Seq<int>, t: Seq<int>, k: int, n: int)
    requires
        forall|i: int| coeff(q, i) == coeff(t, i),
    ensures
        conv_upto(b, q, k, n) == conv_upto(b, t, k, n),
    decreases n,
{
    if n > 0 {
        lemma_conv_coefficients(b, q, t, k, n - 1);
        assert(coeff(q, k - (n - 1)) == coeff(t, k - (n - 1)));
    }
}

/// Every coefficient of the product modulo `m` is the convolution,
/// reduced.
pub proof fn lemma_mul_coefficients(a: Seq<int>, b: Seq<int>, m: int, i: int)
    requires
        m > 0,
        0 <= i,
    ensures
        coeff(poly_mul(a, b, m), i) == conv(a, b, i) % m,
{
    if a.len() == 0 {
        assert(conv(a, b, i) == 0);
        lemma_small_mod(0, m as nat);
    } else if b.len() == 0 {
        assert(b =~= Seq::<int>::empty());
        lemma_conv_zero_second(a, i, a.len() as int);
        lemma_small_mod(0, m as nat);
    } else {
        let full = Seq::new((a.len() + b.len() - 1) as nat, |k: int| conv(a, b, k) % m);
        lemma_trim_props(full);
        assert(coeff(poly_mul(a, b, m), i) == coeff(full, i));
        if i >= a.len() + b.len() - 1 {
            lemma_conv_above(a, b, i, a.len() as int);
            lemma_small_mod(0, m as nat);
        }
    }
}

/// If the coefficients of `c` are congruent to the convolution of `a` and
/// `b`, then the value of `c` is congruent to the product of the values.
pub proof fn lemma_eval_convolution(c: Seq<int>, a: Seq<int>, b: Seq<int>, x: int, m: int)
    requires
        m > 0,
        forall|k: int| 0 <= k ==> #[trigger] coeff(c, k) % m == conv(a, b, k) % m,
    ensures
        poly_eval(c, x) % m == (poly_eval(a, x) * poly_eval(b, x)) % m,
    decreases a.len(),
{
    let eb = poly_eval(b, x);
    if a.len() == 0 {
        assert forall|j: int| 0 <= j implies #[trigger] coeff(c, j) % m == (coeff(
            Seq::<int>::empty(),
            j,
        ) + coeff(Seq::<int>::empty(), j)) % m by {
            assert(conv(a, b, j) == 0);
        }
        lemma_eval_congruent_sum(c, Seq::<int>::empty(), Seq::<int>::empty(), x, m, 0);
        assert(0 * eb == 0);
    } else {
        let n = a.len() - 1;
        let a1 = a.drop_last();
        let k0 = a[n];
        // the product of the shorter factor, and the last coefficient's share
        let c1 = Seq::new((a.len() + b.len()) as nat, |k: int| conv(a1, b, k));
        let c2 = Seq::new((n + b.len()) as nat, |k: int| k0 * coeff(b, k - n));
        assert forall|k: int| 0 <= k implies #[trigger] coeff(c1, k) % m == conv(a1, b, k) % m by {
            if k >= c1.len() {
                lemma_conv_above(a1, b, k, a1.len() as int);
            }
        }
        lemma_eval_convolution(c1, a1, b, x, m);
        assert forall|k: int| 0 <= k implies #[trigger] coeff(c, k) % m == (coeff(c1, k) + coeff(
            c2,
            k,
        )) % m by {
            lemma_conv_first_factor(a, a1, b, k, n);
            assert(conv(a, b, k) == conv(a1, b, k) + k0 * coeff(b, k - n));
            if k >= c1.len() {
                lemma_conv_above(a1, b, k, a1.len() as int);
            }
            if k >= c2.len() {
                assert(coeff(b, k - n) == 0);
                assert(k0 * 0 == 0);
            }
        }
        lemma_eval_congruent_sum(c, c1, c2, x, m, 0);
        // the share of the last coefficient: k0 * x^n * b(x)
        assert forall|j: int| 0 <= j < n implies #[trigger] coeff(c2, j) % m == 0 by {
            assert(coeff(b, j - n) == 0);
            assert(k0 * 0 == 0);
            lemma_small_mod(0, m as nat);
        }
        lemma_eval_leading_zeros(c2, n, x, m, 0);
        assert forall|j: int| 0 <= j implies #[trigger] coeff(c2, j + n) % m == (k0 * coeff(b, j))
            % m by {
            if j + n >= c2.len() {
                assert(coeff(b, j) == 0);
                assert(k0 * 0 == 0);
            }
        }
        lemma_eval_scaled_shift(c2, b, k0, n, x, m, 0);
        let xn = pow(x, n as nat);
        let e2 = poly_eval_from(c2, x, n);
        lemma_mul_mod_noop_right(xn, e2, m);
        lemma_mul_mod_noop_right(xn, k0 * eb, m);
        assert(poly_eval(c2, x) % m == (xn * (k0 * eb)) % m);
        // a(x) = a1(x) + k0 * x^n
        assert(a =~= a1.push(k0));
        lemma_eval_push(a1, k0, x, 0);
        let ea1 = poly_eval(a1, x);
        assert(poly_eval(a, x) == ea1 + k0 * xn);
        let e1 = poly_eval(c1, x);
        lemma_add_mod_noop(e1, poly_eval(c2, x), m);
        lemma_add_mod_noop(ea1 * eb, xn * (k0 * eb), m);
        assert((ea1 + k0 * xn) * eb == ea1 * eb + xn * (k0 * eb)) by (nonlinear_arith);
    }
}

/// The value of a product is the product of the values.
pub proof fn lemma_eval_mul(a: Seq<int>, b: Seq<int>, x: int, m: int)
    requires
        m > 0,
    ensures
        poly_eval(poly_mul(a, b, m), x) % m == (poly_eval(a, x) * poly_eval(b, x)) % m,
{
    let c = poly_mul(a, b, m);
    assert forall|k: int| 0 <= k implies #[trigger] coeff(c, k) % m == conv(a, b, k) % m by {
        lemma_mul_coefficients(a, b, m, k);
        lemma_mod_twice(conv(a, b, k), m);
    }
    lemma_eval_convolution(c, a, b, x, m);
}

/// The value of a sum is the sum of the values.
pub proof fn lemma_eval_add(a: Seq<int>, b: Seq<int>, x: int, m: int)
    requires
        m > 0,
    ensures
        poly_eval(poly_add(a, b, m), x) % m == (poly_eval(a, x) + poly_eval(b, x)) % m,
{
    let n = if a.len() >= b.len() {
        a.len()
    } else {
        b.len()
    };
    let raw = Seq::new(n, |i: int| (coeff(a, i) + coeff(b, i)) % m);
    let c = poly_add(a, b, m);
    lemma_trim_props(raw);
    assert forall|j: int| 0 <= j implies #[trigger] coeff(c, j) % m == (coeff(a, j) + coeff(b, j))
        % m by {
        assert(coeff(c, j) == coeff(raw, j));
        if j < n {
            lemma_mod_twice(coeff(a, j) + coeff(b, j), m);
        }
    }
    lemma_eval_congruent_sum(c, a, b, x, m, 0);
}

/// The value of a difference is the difference of the values.
pub proof fn lemma_eval_sub(a: Seq<int>, b: Seq<int>, x: int, m: int)
    requires
        m > 0,
    ensures
        poly_eval(poly_sub(a, b, m), x) % m == (poly_eval(a, x) - poly_eval(b, x)) % m,
{
    let n = if a.len() >= b.len() {
        a.len()
    } else {
        b.len()
    };
    let raw = Seq::new(n, |i: int| (coeff(a, i) - coeff(b, i)) % m);
    let d = poly_sub(a, b, m);
    lemma_trim_props(raw);
    // a is congruent to d + b, coefficient by coefficient
    assert forall|j: int| 0 <= j implies #[trigger] coeff(a, j) % m == (coeff(d, j) + coeff(b, j))
        % m by {
        assert(coeff(d, j) == coeff(raw, j));
        if j < n {
            lemma_add_mod_noop_left_one(coeff(a, j) - coeff(b, j), coeff(b, j), m);
        }
    }
    lemma_eval_congruent_sum(a, d, b, x, m, 0);
    let ed = poly_eval(d, x);
    let eb = poly_eval(b, x);
    let ea = poly_eval(a, x);
    lemma_sub_mod_noop(ed + eb, eb, m);
    lemma_sub_mod_noop(ea, eb, m);
}

/// Reducing the first summand changes nothing modulo `m`.
pub proof fn lemma_add_mod_noop_left_one(x: int, y: int, m: int)
    requires
        m > 0,
    ensures
        ((x % m) + y) % m == (x + y) % m,
{
    lemma_add_mod_noop(x, y, m);
    lemma_add_mod_noop(x % m, y, m);
    lemma_mod_twice(x, m);
}

/// The value of a multiple is the multiple of the value.
pub proof fn lemma_eval_scale(a: Seq<int>, k: int, x: int, m: int)
    requires
        m > 0,
    ensures
        poly_eval(poly_scale(a, k, m), x) % m == (k * poly_eval(a, x)) % m,
{
    let raw = Seq::new(a.len(), |i: int| (a[i] * k) % m);
    let c = poly_scale(a, k, m);
    lemma_trim_props(raw);
    assert forall|j: int| 0 <= j implies #[trigger] coeff(c, j + 0) % m == (k * coeff(a, j))
        % m by {
        assert(coeff(c, j) == coeff(raw, j));
        if j < a.len() {
            lemma_mod_twice(a[j] * k, m);
            lemma_mul_is_commutative(a[j], k);
        } else {
            assert(k * 0 == 0);
        }
    }
    lemma_eval_scaled_shift(c, a, k, 0, x, m, 0);
}

/// Every coefficient of the sum modulo `m` is the sum of the
/// coefficients, reduced.
pub proof fn lemma_add_coefficients(a: Seq<int>, b: Seq<int>, m: int, i: int)
    requires
        m > 0,
        0 <= i,
    ensures
        coeff(poly_add(a, b, m), i) == (coeff(a, i) + coeff(b, i)) % m,
{
    let n = if a.len() >= b.len() {
        a.len()
    } else {
        b.len()
    };
    let raw = Seq::new(n, |i: int| (coeff(a, i) + coeff(b, i)) % m);
    lemma_trim_props(raw);
    assert(coeff(poly_add(a, b, m), i) == coeff(raw, i));
    if i >= n {
        lemma_small_mod(0, m as nat);
    }
}

/// The first `n` terms of a coefficient of the product vanish where the
/// second factor has no coefficient opposite them.
pub proof fn lemma_conv_partial_zero(a: Seq<int>, b: Seq<int>, k: int, n: int)
    requires
        k - (n - 1) >= b.len(),
    ensures
        conv_upto(a, b, k, n) == 0,
    decreases n,
{
    if n > 0 {
        lemma_conv_partial_zero(a, b, k, n - 1);
        assert(coeff(b, k - (n - 1)) == 0);
        assert(coeff(a, n - 1) * 0 == 0);
    }
}

/// The highest coefficient of the product is the product of the highest
/// coefficients.
pub proof fn lemma_conv_top(a: Seq<int>, b: Seq<int>)
    requires
        a.len() >= 1,
        b.len() >= 1,
    ensures
        conv(a, b, a.len() + b.len() - 2) == a.last() * b.last(),
{
    let k = a.len() + b.len() - 2;
    lemma_conv_partial_zero(a, b, k, a.len() - 1);
    assert(conv(a, b, k) == conv_upto(a, b, k, a.len() - 1) + coeff(a, a.len() - 1) * coeff(
        b,
        k - (a.len() - 1),
    ));
}

} // verus!
