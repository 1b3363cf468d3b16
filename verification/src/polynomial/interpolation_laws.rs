//! Laws of Lagrange interpolation over a prime field: the basis
//! polynomials are one at their own point and zero at the others, and
//! interpolating the values of a polynomial gives the polynomial back.
use crate::error::StarkError;
use crate::fields::element::FieldElement;
use crate::fields::fermat::{lemma_field_inv_is_inverse, lemma_prime_divides_factor};
use crate::fields::modular::{field_inv, is_prime};
use crate::polynomial::evaluation::{
    lemma_add_coefficients, lemma_conv_top, lemma_eval_add, lemma_eval_mul, lemma_eval_scale,
    lemma_mul_coefficients,
};
use crate::polynomial::interpolation::{
    interpolation_sum, lagrange_denominator, lagrange_failure, lagrange_outcome, linear_factor,
    poly_from_roots, product_of_factors,
};
use crate::polynomial::laws::lemma_div_rem;
use crate::polynomial::model::{
    coeff, conv, lemma_trim_props, lemma_trim_reduced, poly_add, poly_div_rem, poly_eval,
    poly_mul, poly_scale, reduced, trim, trimmed,
};
use crate::polynomial::ops::{lemma_add_len, lemma_mul_len, values, Polynomial};
use crate::polynomial::roots::{
    distinct_residues, lemma_agreement, lemma_agreement_same_lead, lemma_difference_nonzero,
    lemma_distinct_count, lemma_eval_constant, lemma_eval_division, lemma_linear_factor,
};
use vstd::arithmetic::div_mod::*;
use vstd::arithmetic::mul::*;
use vstd::prelude::*;

verus! {

/// The product of `t - xs[j]` over `j < k`.
pub open spec fn root_product(xs: Seq<int>, t: int, k: int) -> int
    decreases k,
{
    if k <= 0 {
        1
    } else {
        root_product(xs, t, k - 1) * (t - xs[k - 1])
    }
}

/// The product of `t - xs[j]` over `j < k`, `j != i`.
pub open spec fn root_product_skipping(xs: Seq<int>, t: int, i: int, k: int) -> int
    decreases k,
{
    if k <= 0 {
        1
    } else if k - 1 == i {
        root_product_skipping(xs, t, i, k - 1)
    } else {
        root_product_skipping(xs, t, i, k - 1) * (t - xs[k - 1])
    }
}

/// The product of `x - xs[j]` over `j < k`, `j != i`, modulo `m`.
pub open spec fn product_skipping(xs: Seq<int>, m: int, i: int, k: int) -> Seq<int>
    decreases k,
{
    if k <= 0 {
        trim(seq![1int % m])
    } else if k - 1 == i {
        product_skipping(xs, m, i, k - 1)
    } else {
        poly_mul(product_skipping(xs, m, i, k - 1), linear_factor(xs[k - 1], m), m)
    }
}

/// A product modulo `m` holds residues and is trimmed.
pub proof fn lemma_mul_wf(a: Seq<int>, b: Seq<int>, m: int)
    requires
        m > 0,
    ensures
        reduced(poly_mul(a, b, m), m),
        trimmed(poly_mul(a, b, m)),
{
    if a.len() > 0 && b.len() > 0 {
        let raw = Seq::new((a.len() + b.len() - 1) as nat, |k: int| conv(a, b, k) % m);
        assert(reduced(raw, m)) by {
            assert forall|k: int| 0 <= k < raw.len() implies 0 <= #[trigger] raw[k] < m by {
                lemma_mod_bound(conv(a, b, k), m);
            }
        }
        lemma_trim_props(raw);
        lemma_trim_reduced(raw, m);
    }
}

/// A sum modulo `m` holds residues and is trimmed.
pub proof fn lemma_add_wf(a: Seq<int>, b: Seq<int>, m: int)
    requires
        m > 0,
    ensures
        reduced(poly_add(a, b, m), m),
        trimmed(poly_add(a, b, m)),
{
    let n = if a.len() >= b.len() {
        a.len()
    } else {
        b.len()
    };
    let raw = Seq::new(n, |i: int| (coeff(a, i) + coeff(b, i)) % m);
    assert(reduced(raw, m)) by {
        assert forall|k: int| 0 <= k < raw.len() implies 0 <= #[trigger] raw[k] < m by {
            lemma_mod_bound(coeff(a, k) + coeff(b, k), m);
        }
    }
    lemma_trim_props(raw);
    lemma_trim_reduced(raw, m);
}

/// A multiple modulo `m` holds residues, is trimmed, and is no longer than
/// the polynomial.
pub proof fn lemma_scale_wf(a: Seq<int>, k: int, m: int)
    requires
        m > 0,
    ensures
        reduced(poly_scale(a, k, m), m),
        trimmed(poly_scale(a, k, m)),
        poly_scale(a, k, m).len() <= a.len(),
{
    let raw = Seq::new(a.len(), |i: int| (a[i] * k) % m);
    assert(reduced(raw, m)) by {
        assert forall|j: int| 0 <= j < raw.len() implies 0 <= #[trigger] raw[j] < m by {
            lemma_mod_bound(a[j] * k, m);
        }
    }
    lemma_trim_props(raw);
    lemma_trim_reduced(raw, m);
}

/// The polynomial one: its value is one.
proof fn lemma_one(t: int, m: int)
    requires
        m > 1,
    ensures
        trim(seq![1int % m]) == seq![1int],
        poly_eval(trim(seq![1int % m]), t) == 1,
        reduced(trim(seq![1int % m]), m),
        trimmed(trim(seq![1int % m])),
{
    lemma_small_mod(1, m as nat);
    let one = seq![1int % m];
    assert(one =~= seq![1int]);
    lemma_trim_props(one);
    lemma_eval_constant(one, t);
}

/// Multiplying a polynomial with leading coefficient one by `x - r` adds
/// one coefficient and keeps the leading coefficient one.
proof fn lemma_mul_linear_monic(prev: Seq<int>, r: int, m: int)
    requires
        m > 1,
        prev.len() >= 1,
        prev.last() == 1,
    ensures
        poly_mul(prev, linear_factor(r, m), m).len() == prev.len() + 1,
        poly_mul(prev, linear_factor(r, m), m).last() == 1,
{
    let lin = linear_factor(r, m);
    lemma_linear_factor(r, 0, m);
    let raw = Seq::new((prev.len() + lin.len() - 1) as nat, |k: int| conv(prev, lin, k) % m);
    lemma_conv_top(prev, lin);
    assert(lin.last() == 1);
    assert(1int * 1int == 1);
    lemma_small_mod(1, m as nat);
    assert(raw.last() == 1);
    lemma_trim_props(raw);
}

/// The product of the first `k` linear factors: its value at `t` is the
/// product of the differences `t - xs[j]`, and it has at most `k + 1`
/// coefficients.
pub proof fn lemma_product_of_factors(xs: Seq<int>, m: int, k: int, t: int)
    requires
        m > 1,
        0 <= k <= xs.len(),
    ensures
        poly_eval(product_of_factors(xs, m, k), t) % m == root_product(xs, t, k) % m,
        reduced(product_of_factors(xs, m, k), m),
        trimmed(product_of_factors(xs, m, k)),
        product_of_factors(xs, m, k).len() == k + 1,
        product_of_factors(xs, m, k).last() == 1,
    decreases k,
{
    if k <= 0 {
        lemma_one(t, m);
    } else {
        lemma_product_of_factors(xs, m, k - 1, t);
        lemma_mul_linear_monic(product_of_factors(xs, m, k - 1), xs[k - 1], m);
        lemma_product_of_factors(xs, m, k - 1, t);
        let prev = product_of_factors(xs, m, k - 1);
        let lin = linear_factor(xs[k - 1], m);
        lemma_linear_factor(xs[k - 1], t, m);
        lemma_eval_mul(prev, lin, t, m);
        lemma_mul_wf(prev, lin, m);
        lemma_mul_len(prev, lin, m);
        lemma_mul_mod_noop(poly_eval(prev, t), poly_eval(lin, t), m);
        lemma_mul_mod_noop(root_product(xs, t, k - 1), t - xs[k - 1], m);
    }
}

/// The same for the product that leaves the factor of `xs[i]` out.
pub proof fn lemma_product_skipping(xs: Seq<int>, m: int, i: int, k: int, t: int)
    requires
        m > 1,
        0 <= k <= xs.len(),
        0 <= i,
    ensures
        poly_eval(product_skipping(xs, m, i, k), t) % m == root_product_skipping(xs, t, i, k) % m,
        reduced(product_skipping(xs, m, i, k), m),
        trimmed(product_skipping(xs, m, i, k)),
        product_skipping(xs, m, i, k).len() == (if i < k {
            k
        } else {
            k + 1
        }),
        product_skipping(xs, m, i, k).last() == 1,
    decreases k,
{
    if k <= 0 {
        lemma_one(t, m);
    } else {
        lemma_product_skipping(xs, m, i, k - 1, t);
        if k - 1 != i {
            lemma_mul_linear_monic(product_skipping(xs, m, i, k - 1), xs[k - 1], m);
            let prev = product_skipping(xs, m, i, k - 1);
            let lin = linear_factor(xs[k - 1], m);
            lemma_linear_factor(xs[k - 1], t, m);
            lemma_eval_mul(prev, lin, t, m);
            lemma_mul_wf(prev, lin, m);
            lemma_mul_len(prev, lin, m);
            lemma_mul_mod_noop(poly_eval(prev, t), poly_eval(lin, t), m);
            lemma_mul_mod_noop(root_product_skipping(xs, t, i, k - 1), t - xs[k - 1], m);
        }
    }
}

/// At one of the points the product of the differences is zero.
pub proof fn lemma_root_product_at_root(xs: Seq<int>, i: int, k: int)
    requires
        0 <= i < k,
    ensures
        root_product(xs, xs[i], k) == 0,
    decreases k,
{
    let t = xs[i];
    if k - 1 == i {
        assert(root_product(xs, t, k - 1) * (t - xs[k - 1]) == 0) by (nonlinear_arith)
            requires
                t - xs[k - 1] == 0,
        ;
    } else {
        lemma_root_product_at_root(xs, i, k - 1);
        assert(0 * (t - xs[k - 1]) == 0);
    }
}

/// The product over all points is the product that skips `i` times the
/// factor of `i`.
pub proof fn lemma_root_product_split(xs: Seq<int>, t: int, i: int, k: int)
    requires
        0 <= i,
        0 <= k,
    ensures
        root_product(xs, t, k) == (if i < k {
            root_product_skipping(xs, t, i, k) * (t - xs[i])
        } else {
            root_product_skipping(xs, t, i, k)
        }),
    decreases k,
{
    if k > 0 {
        lemma_root_product_split(xs, t, i, k - 1);
        let a = root_product_skipping(xs, t, i, k - 1);
        if k - 1 == i {
        } else if i < k - 1 {
            assert((a * (t - xs[i])) * (t - xs[k - 1]) == (a * (t - xs[k - 1])) * (t - xs[i]))
                by (nonlinear_arith);
        }
    }
}

/// The denominator of a basis polynomial is the product of the differences
/// of its point from the others, reduced.
pub proof fn lemma_denominator(xs: Seq<int>, i: int, m: int, k: int)
    requires
        m > 1,
        0 <= k,
    ensures
        lagrange_denominator(xs, i, m, k) == root_product_skipping(xs, xs[i], i, k) % m,
    decreases k,
{
    if k <= 0 {
    } else {
        lemma_denominator(xs, i, m, k - 1);
        if k - 1 != i {
            lemma_mul_mod_noop(
                root_product_skipping(xs, xs[i], i, k - 1),
                xs[i] - xs[k - 1],
                m,
            );
            lemma_mod_twice(root_product_skipping(xs, xs[i], i, k - 1), m);
            lemma_mul_mod_noop(
                root_product_skipping(xs, xs[i], i, k - 1) % m,
                (xs[i] - xs[k - 1]) % m,
                m,
            );
            lemma_mod_twice(xs[i] - xs[k - 1], m);
        }
    }
}

/// Modulo a prime a factor that is not a multiple of the prime can be
/// cancelled from a multiple.
pub proof fn lemma_cancel_factor(a: int, b: int, m: int)
    requires
        is_prime(m),
        a % m != 0,
        (a * b) % m == 0,
    ensures
        b % m == 0,
{
    lemma_mod_bound(a, m);
    lemma_mul_mod_noop_left(a, b, m);
    lemma_prime_divides_factor(m, a % m, b);
}

/// For distinct points the denominator is not zero.
pub proof fn lemma_denominator_nonzero(xs: Seq<int>, i: int, m: int, k: int)
    requires
        is_prime(m),
        distinct_residues(xs, m),
        0 <= i < xs.len(),
        0 <= k <= xs.len(),
    ensures
        root_product_skipping(xs, xs[i], i, k) % m != 0,
    decreases k,
{
    if k <= 0 {
        lemma_small_mod(1, m as nat);
    } else {
        lemma_denominator_nonzero(xs, i, m, k - 1);
        if k - 1 != i {
            let a = xs[i] - xs[k - 1];
            let b = root_product_skipping(xs, xs[i], i, k - 1);
            assert(0 <= xs[i] < m);
            assert(0 <= xs[k - 1] < m);
            if i < k - 1 {
                assert(xs[i] != xs[k - 1]);
            } else {
                assert(xs[k - 1] != xs[i]);
            }
            lemma_difference_nonzero(xs[i], xs[k - 1], m);
            if (b * a) % m == 0 {
                lemma_mul_is_commutative(a, b);
                lemma_cancel_factor(a, b, m);
            }
        }
    }
}

/// All residues modulo `m` but `x`, in increasing order.
pub open spec fn residues_without(x: int, m: int) -> Seq<int> {
    Seq::new(
        (m - 1) as nat,
        |j: int|
            if j < x {
                j
            } else {
                j + 1
            },
    )
}

/// What holds of the quotient of the vanishing polynomial by the factor of
/// point `i`: the division is exact, and the quotient is the product of
/// the other factors.
proof fn lemma_basis_quotient(xs: Seq<int>, i: int, m: int)
    requires
        is_prime(m),
        m > 2,
        distinct_residues(xs, m),
        0 <= i < xs.len(),
    ensures
        ({
            let (q, r) = poly_div_rem(poly_from_roots(xs, m), poly_from_roots(seq![xs[i]], m), m);
            &&& r.len() == 0
            &&& q == product_skipping(xs, m, i, xs.len() as int)
            &&& reduced(q, m)
            &&& trimmed(q)
            &&& q.len() <= xs.len()
        }),
{
    let n = xs.len() as int;
    let xi = xs[i];
    let z = poly_from_roots(xs, m);
    let one_root = seq![xi];
    let b = poly_from_roots(one_root, m);
    assert(z == product_of_factors(xs, m, n));
    assert(b == product_of_factors(one_root, m, 1));
    lemma_product_of_factors(xs, m, n, xi);
    lemma_product_of_factors(one_root, m, 1, xi);
    assert(b.len() == 2 && b.last() == 1);
    lemma_div_rem(z, b, m);
    let (q, r) = poly_div_rem(z, b, m);
    // the remainder is a constant, and zero at xi
    lemma_eval_division(z, b, xi, m);
    lemma_eval_constant(r, xi);
    lemma_root_product_at_root(xs, i, n);
    assert(poly_eval(b, xi) % m == 0) by {
        reveal_with_fuel(root_product, 2);
        assert(root_product(one_root, xi, 1) == 1 * (xi - one_root[0]));
        lemma_small_mod(0, m as nat);
    }
    lemma_small_mod(0, m as nat);
    assert(coeff(r, 0) % m == 0) by {
        let eb = poly_eval(b, xi);
        let eq = poly_eval(q, xi);
        lemma_mul_mod_noop_left(eb, eq, m);
        assert((0 * eq) == 0);
        lemma_add_mod_noop(eb * eq, coeff(r, 0), m);
        lemma_mod_twice(coeff(r, 0), m);
    }
    if r.len() > 0 {
        assert(0 <= r[0] < m);
        lemma_small_mod(r[0] as nat, m as nat);
        assert(false);
    }
    // the quotient agrees with the product of the other factors wherever
    // x - xi does not vanish
    let other = product_skipping(xs, m, i, n);
    let pts = residues_without(xi, m);
    assert(0 <= xs[i] < m);
    assert(distinct_residues(pts, m)) by {
        assert forall|j: int| 0 <= j < pts.len() implies 0 <= #[trigger] pts[j] < m by {}
        assert forall|j: int, k: int| 0 <= j < k < pts.len() implies pts[j] != pts[k] by {}
    }
    lemma_product_skipping(xs, m, i, n, xi);
    assert forall|j: int| 0 <= j < pts.len() implies poly_eval(q, #[trigger] pts[j]) % m
        == poly_eval(other, pts[j]) % m by {
        let t = pts[j];
        assert(t != xi);
        lemma_eval_division(z, b, t, m);
        lemma_eval_constant(r, t);
        lemma_product_of_factors(xs, m, n, t);
        lemma_product_of_factors(one_root, m, 1, t);
        lemma_product_skipping(xs, m, i, n, t);
        lemma_root_product_split(xs, t, i, n);
        reveal_with_fuel(root_product, 2);
        assert(root_product(one_root, t, 1) == 1 * (t - one_root[0]));
        let d = t - xi;
        let eq = poly_eval(q, t);
        let eo = poly_eval(other, t);
        let w = root_product_skipping(xs, t, i, n);
        // d * eq == z(t) == w * d == d * eo   (mod m)
        lemma_mul_mod_noop_left(poly_eval(b, t), eq, m);
        lemma_mul_mod_noop_left(d, eq, m);
        assert(poly_eval(z, t) % m == (d * eq) % m);
        lemma_mul_mod_noop_left(eo, d, m);
        lemma_mul_mod_noop_left(w, d, m);
        assert((w * d) % m == (eo * d) % m);
        lemma_mul_is_commutative(eo, d);
        assert((d * eq) % m == (d * eo) % m);
        lemma_sub_mod_noop(d * eq, d * eo, m);
        assert(d * (eq - eo) == d * eq - d * eo) by (nonlinear_arith);
        assert((d * (eq - eo)) % m == 0);
        lemma_difference_nonzero(t, xi, m);
        lemma_cancel_factor(d, eq - eo, m);
        lemma_mod_equivalence(eq, eo, m);
    }
    // both have the leading coefficient one: z = b * q, coefficient n
    assert(q.len() == n && q.last() == 1) by {
        lemma_add_coefficients(poly_mul(b, q, m), r, m, n);
        lemma_mul_coefficients(b, q, m, n);
        reveal_with_fuel(crate::polynomial::model::conv_upto, 3);
        assert(conv(b, q, n) == b[0] * coeff(q, n) + b[1] * coeff(q, n - 1));
        assert(coeff(q, n) == 0);
        assert(b[0] * 0 == 0);
        assert(1 * coeff(q, n - 1) == coeff(q, n - 1));
        assert(z[n] == 1);
        lemma_mod_twice(coeff(q, n - 1), m);
        if q.len() < n {
            lemma_small_mod(0, m as nat);
        } else {
            assert(0 <= q[n - 1] < m);
            lemma_small_mod(q[n - 1] as nat, m as nat);
        }
    }
    lemma_distinct_count(xs, m);
    lemma_agreement_same_lead(q, other, pts, m);
}

/// The `i`-th Lagrange basis polynomial for distinct points over a prime
/// field exists, has at most as many coefficients as there are points, is
/// one at its own point and zero at every other.
pub proof fn lemma_lagrange_basis(xs: Seq<int>, i: int, m: int, j: int)
    requires
        is_prime(m),
        m > 2,
        distinct_residues(xs, m),
        0 <= i < xs.len(),
        0 <= j < xs.len(),
    ensures
        lagrange_outcome(xs, i, m) is Ok,
        reduced(lagrange_outcome(xs, i, m)->Ok_0, m),
        trimmed(lagrange_outcome(xs, i, m)->Ok_0),
        lagrange_outcome(xs, i, m)->Ok_0.len() <= xs.len(),
        poly_eval(lagrange_outcome(xs, i, m)->Ok_0, xs[j]) % m == (if i == j {
            1int
        } else {
            0int
        }),
{
    let n = xs.len() as int;
    let z = poly_from_roots(xs, m);
    let b = poly_from_roots(seq![xs[i]], m);
    let (q, r) = poly_div_rem(z, b, m);
    lemma_basis_quotient(xs, i, m);
    let denom = lagrange_denominator(xs, i, m, n);
    lemma_denominator(xs, i, m, n);
    lemma_denominator_nonzero(xs, i, m, n);
    lemma_mod_bound(root_product_skipping(xs, xs[i], i, n), m);
    let inv = field_inv(denom, m);
    lemma_field_inv_is_inverse(denom, m);
    let basis = poly_scale(q, inv, m);
    assert(lagrange_outcome(xs, i, m) == Ok::<Seq<int>, StarkError>(basis));
    lemma_scale_wf(q, inv, m);
    let t = xs[j];
    lemma_eval_scale(q, inv, t, m);
    lemma_product_skipping(xs, m, i, n, t);
    let w = root_product_skipping(xs, t, i, n);
    let eq = poly_eval(q, t);
    lemma_mul_mod_noop_right(inv, eq, m);
    lemma_mul_mod_noop_right(inv, w, m);
    assert(poly_eval(basis, t) % m == (inv * w) % m);
    if i == j {
        lemma_mul_mod_noop_right(inv, denom, m);
        lemma_small_mod(denom as nat, m as nat);
    } else {
        // the product of the other factors has the factor of xs[j]
        lemma_skipping_at_other_root(xs, i, j, n);
        assert(inv * 0 == 0);
        lemma_small_mod(0, m as nat);
    }
}

/// The product that skips `i` is zero at every other point.
proof fn lemma_skipping_at_other_root(xs: Seq<int>, i: int, j: int, k: int)
    requires
        0 <= j < k,
        i != j,
    ensures
        root_product_skipping(xs, xs[j], i, k) == 0,
    decreases k,
{
    let t = xs[j];
    if k - 1 == j {
        assert(root_product_skipping(xs, t, i, k - 1) * (t - xs[k - 1]) == 0) by (nonlinear_arith)
            requires
                t - xs[k - 1] == 0,
        ;
    } else {
        lemma_skipping_at_other_root(xs, i, j, k - 1);
        assert(0 * (t - xs[k - 1]) == 0);
    }
}

/// No basis polynomial fails for distinct points over a prime field.
pub proof fn lemma_no_lagrange_failure(xs: Seq<int>, m: int, k: int)
    requires
        is_prime(m),
        m > 2,
        distinct_residues(xs, m),
        0 <= k <= xs.len(),
    ensures
        lagrange_failure(xs, m, k) is None,
    decreases k,
{
    if k > 0 {
        lemma_no_lagrange_failure(xs, m, k - 1);
        lemma_lagrange_basis(xs, k - 1, m, 0);
    }
}

/// The sum of the first `k` terms of the interpolation takes the value
/// `ys[j]` at the point `xs[j]` for `j < k`, and zero at the later points.
pub proof fn lemma_interpolation_values(xs: Seq<int>, ys: Seq<int>, m: int, k: int, j: int)
    requires
        is_prime(m),
        m > 2,
        distinct_residues(xs, m),
        reduced(ys, m),
        ys.len() == xs.len(),
        0 <= k <= xs.len(),
        0 <= j < xs.len(),
    ensures
        reduced(interpolation_sum(xs, ys, m, k), m),
        trimmed(interpolation_sum(xs, ys, m, k)),
        interpolation_sum(xs, ys, m, k).len() <= xs.len(),
        poly_eval(interpolation_sum(xs, ys, m, k), xs[j]) % m == (if j < k {
            ys[j]
        } else {
            0int
        }),
    decreases k,
{
    let t = xs[j];
    if k <= 0 {
        lemma_small_mod(0, m as nat);
    } else {
        lemma_interpolation_values(xs, ys, m, k - 1, j);
        lemma_lagrange_basis(xs, k - 1, m, j);
        let before = interpolation_sum(xs, ys, m, k - 1);
        let basis = lagrange_outcome(xs, k - 1, m)->Ok_0;
        let y = ys[k - 1];
        let term = poly_scale(basis, y, m);
        lemma_scale_wf(basis, y, m);
        lemma_add_wf(before, term, m);
        lemma_add_len(before, term, m);
        lemma_eval_add(before, term, t, m);
        lemma_eval_scale(basis, y, t, m);
        let eb = poly_eval(before, t);
        let el = poly_eval(basis, t);
        lemma_add_mod_noop(eb, poly_eval(term, t), m);
        lemma_mul_mod_noop_right(y, el, m);
        assert(0 <= ys[k - 1] < m);
        if j == k - 1 {
            assert(y * 1 == y);
            lemma_small_mod(y as nat, m as nat);
            assert((0 + y % m) % m == y) by {
                lemma_small_mod(y as nat, m as nat);
            }
        } else {
            assert(y * 0 == 0);
            lemma_small_mod(0, m as nat);
            if j < k - 1 {
                assert(0 <= ys[j] < m);
                lemma_small_mod(ys[j] as nat, m as nat);
            }
        }
    }
}

/// The values of `p` at the points `xs`, as residues.
pub open spec fn values_at(p: Seq<int>, xs: Seq<int>, m: int) -> Seq<int> {
    Seq::new(xs.len(), |i: int| poly_eval(p, xs[i]) % m)
}

/// Over a prime field the `i`-th Lagrange basis polynomial of distinct
/// points exists, is one at the `i`-th point and zero at every other.
pub proof fn law_lagrange_basis<const MODULUS: u64>(
    xs: Seq<FieldElement<MODULUS>>,
    i: int,
    j: int,
)
    requires
        is_prime(MODULUS as int),
        MODULUS > 2,
        distinct_residues(values(xs), MODULUS as int),
        0 <= i < xs.len(),
        0 <= j < xs.len(),
    ensures
        lagrange_outcome(values(xs), i, MODULUS as int) is Ok,
        poly_eval(lagrange_outcome(values(xs), i, MODULUS as int)->Ok_0, xs[j]@) % (MODULUS as int)
            == (if i == j {
            1int
        } else {
            0int
        }),
{
    lemma_lagrange_basis(values(xs), i, MODULUS as int, j);
}

/// Over a prime field, interpolating the values of a polynomial at distinct
/// points, at least as many as it has coefficients, gives the polynomial
/// back.
pub proof fn law_interpolation_recovers<const MODULUS: u64>(
    p: Polynomial<MODULUS>,
    xs: Seq<FieldElement<MODULUS>>,
)
    requires
        is_prime(MODULUS as int),
        MODULUS > 2,
        p.wf(),
        distinct_residues(values(xs), MODULUS as int),
        p@.len() <= xs.len(),
    ensures
        lagrange_failure(values(xs), MODULUS as int, xs.len() as int) is None,
        interpolation_sum(
            values(xs),
            values_at(p@, values(xs), MODULUS as int),
            MODULUS as int,
            xs.len() as int,
        ) == p@,
{
    let m = MODULUS as int;
    let pts = values(xs);
    let n = pts.len() as int;
    let ys = values_at(p@, pts, m);
    lemma_no_lagrange_failure(pts, m, n);
    assert(reduced(ys, m)) by {
        assert forall|i: int| 0 <= i < ys.len() implies 0 <= #[trigger] ys[i] < m by {
            lemma_mod_bound(poly_eval(p@, pts[i]), m);
        }
    }
    let s = interpolation_sum(pts, ys, m, n);
    if n == 0 {
        assert(p@ =~= s);
    } else {
        lemma_interpolation_values(pts, ys, m, n, 0);
        assert forall|i: int| 0 <= i < pts.len() implies poly_eval(s, #[trigger] pts[i]) % m
            == poly_eval(p@, pts[i]) % m by {
            lemma_interpolation_values(pts, ys, m, n, i);
            lemma_mod_twice(poly_eval(p@, pts[i]), m);
        }
        lemma_agreement(s, p@, pts, m);
    }
}

} // verus!
