//! Roots of polynomials over a prime field: a nonzero polynomial has fewer
//! roots than coefficients, so two polynomials that agree at enough points
//! are the same.
use crate::fields::fermat::lemma_prime_divides_factor;
use crate::fields::modular::is_prime;
use crate::polynomial::evaluation::{
    lemma_add_mod_noop_left_one, lemma_eval_add, lemma_eval_mul, lemma_eval_sub, lemma_eval_unfold,
};
use crate::polynomial::interpolation::linear_factor;
use crate::polynomial::laws::{lemma_div_rem, lemma_trim_bound};
use crate::polynomial::model::{
    coeff, lemma_trim_props, lemma_trim_reduced, lemma_trimmed_equal, poly_div_rem,
    poly_eval, poly_eval_from, poly_mul, poly_sub, reduced, trim, trimmed,
};
use vstd::arithmetic::div_mod::*;
use vstd::arithmetic::mul::*;
use vstd::prelude::*;
use vstd::set_lib::{lemma_int_range, lemma_len_subset, set_int_range};

verus! {

/// The points are residues modulo `m`, no two of them the same.
pub open spec fn distinct_residues(xs: Seq<int>, m: int) -> bool {
    &&& reduced(xs, m)
    &&& forall|i: int, j: int| 0 <= i < j < xs.len() ==> xs[i] != xs[j]
}

/// The difference of two different residues is not a multiple of `m`.
pub proof fn lemma_difference_nonzero(t: int, r: int, m: int)
    requires
        m > 0,
        0 <= t < m,
        0 <= r < m,
        t != r,
    ensures
        0 < (t - r) % m < m,
{
    if t > r {
        lemma_small_mod((t - r) as nat, m as nat);
    } else {
        lemma_mod_add_multiples_vanish(t - r, m);
        lemma_small_mod((t - r + m) as nat, m as nat);
    }
}

/// The polynomial `x - r`: two coefficients, and the value `x - r`.
pub proof fn lemma_linear_factor(r: int, x: int, m: int)
    requires
        m > 1,
    ensures
        linear_factor(r, m) == seq![(-r) % m, 1int],
        linear_factor(r, m).len() == 2,
        reduced(linear_factor(r, m), m),
        trimmed(linear_factor(r, m)),
        poly_eval(linear_factor(r, m), x) % m == (x - r) % m,
{
    lemma_small_mod(1, m as nat);
    let lin = seq![(-r) % m, 1int % m];
    assert(lin =~= seq![(-r) % m, 1int]);
    lemma_trim_props(lin);
    lemma_mod_bound(-r, m);
    assert(reduced(lin, m)) by {
        assert forall|i: int| 0 <= i < lin.len() implies 0 <= #[trigger] lin[i] < m by {
            if i == 0 {
            } else {
                assert(lin[i] == 1);
            }
        }
    }
    reveal_with_fuel(poly_eval_from, 3);
    assert(poly_eval(lin, x) == (-r) % m + x * (1 + x * 0));
    assert(x * (1 + x * 0) == x) by (nonlinear_arith);
    lemma_add_mod_noop_left_one(-r, x, m);
}

/// The value of a polynomial with at most one coefficient is that
/// coefficient.
pub proof fn lemma_eval_constant(c: Seq<int>, x: int)
    requires
        c.len() <= 1,
    ensures
        poly_eval(c, x) == coeff(c, 0),
{
    lemma_eval_unfold(c, x, 0);
    assert(poly_eval_from(c, x, 1) == 0);
    assert(x * 0 == 0);
}

/// Dividing and evaluating: the value of the dividend at `t` is the value
/// of the divisor times the value of the quotient, plus the value of the
/// remainder.
pub proof fn lemma_eval_division(p: Seq<int>, b: Seq<int>, t: int, m: int)
    requires
        is_prime(m),
        m > 2,
        reduced(p, m),
        trimmed(p),
        reduced(b, m),
        trimmed(b),
        b.len() > 0,
    ensures
        ({
            let (q, c) = poly_div_rem(p, b, m);
            poly_eval(p, t) % m == (poly_eval(b, t) * poly_eval(q, t) + poly_eval(c, t)) % m
        }),
{
    lemma_div_rem(p, b, m);
    let (q, c) = poly_div_rem(p, b, m);
    let prod = poly_mul(b, q, m);
    lemma_eval_add(prod, c, t, m);
    lemma_eval_mul(b, q, t, m);
    lemma_add_mod_noop(poly_eval(prod, t), poly_eval(c, t), m);
    lemma_add_mod_noop(poly_eval(b, t) * poly_eval(q, t), poly_eval(c, t), m);
}

/// Dividing by `x - r` and evaluating: the value of the dividend at `t` is
/// `t - r` times the value of the quotient, plus the remainder.
pub proof fn lemma_eval_linear_division(p: Seq<int>, r: int, t: int, m: int)
    requires
        is_prime(m),
        m > 2,
        reduced(p, m),
        trimmed(p),
    ensures
        ({
            let (q, c) = poly_div_rem(p, linear_factor(r, m), m);
            poly_eval(p, t) % m == ((t - r) * poly_eval(q, t) + coeff(c, 0)) % m
        }),
{
    let b = linear_factor(r, m);
    lemma_linear_factor(r, t, m);
    lemma_div_rem(p, b, m);
    lemma_eval_division(p, b, t, m);
    let (q, c) = poly_div_rem(p, b, m);
    lemma_eval_constant(c, t);
    let eq = poly_eval(q, t);
    lemma_mul_mod_noop_left(poly_eval(b, t), eq, m);
    lemma_mul_mod_noop_left(t - r, eq, m);
    lemma_add_mod_noop(poly_eval(b, t) * eq, coeff(c, 0), m);
    lemma_add_mod_noop((t - r) * eq, coeff(c, 0), m);
}

/// A polynomial over a prime field with at least as many distinct roots as
/// coefficients is the zero polynomial.
pub proof fn lemma_roots_bound(p: Seq<int>, roots: Seq<int>, m: int)
    requires
        is_prime(m),
        m > 2,
        reduced(p, m),
        trimmed(p),
        distinct_residues(roots, m),
        p.len() <= roots.len(),
        forall|i: int| 0 <= i < roots.len() ==> poly_eval(p, #[trigger] roots[i]) % m == 0,
    ensures
        p.len() == 0,
    decreases roots.len(),
{
    if p.len() > 0 {
        let k = roots.len() as int;
        let r = roots[k - 1];
        let b = linear_factor(r, m);
        lemma_linear_factor(r, r, m);
        lemma_div_rem(p, b, m);
        let (q, c) = poly_div_rem(p, b, m);
        // at the root r the remainder is left alone: it is zero
        lemma_eval_linear_division(p, r, r, m);
        assert(poly_eval(p, roots[k - 1]) % m == 0);
        assert((r - r) * poly_eval(q, r) == 0) by (nonlinear_arith);
        assert(coeff(c, 0) % m == 0);
        if c.len() > 0 {
            assert(0 <= c[0] < m);
            lemma_small_mod(c[0] as nat, m as nat);
            assert(false);
        }
        // every other root is a root of the quotient
        let rest = roots.drop_last();
        assert forall|i: int| 0 <= i < rest.len() implies poly_eval(q, #[trigger] rest[i]) % m
            == 0 by {
            let t = roots[i];
            assert(rest[i] == t);
            assert(poly_eval(p, roots[i]) % m == 0);
            lemma_eval_linear_division(p, r, t, m);
            assert(0 <= roots[i] < m);
            assert(0 <= roots[k - 1] < m);
            lemma_difference_nonzero(t, r, m);
            let a = (t - r) % m;
            let e = poly_eval(q, t);
            lemma_mul_mod_noop_left(t - r, e, m);
            assert((a * e) % m == 0);
            lemma_prime_divides_factor(m, a, e);
        }
        assert(distinct_residues(rest, m)) by {
            assert forall|i: int| 0 <= i < rest.len() implies 0 <= #[trigger] rest[i] < m by {
                assert(0 <= roots[i] < m);
            }
            assert forall|i: int, j: int| 0 <= i < j < rest.len() implies rest[i] != rest[j] by {
                assert(roots[i] != roots[j]);
            }
        }
        lemma_roots_bound(q, rest, m);
        assert(poly_mul(b, q, m) =~= Seq::<int>::empty());
        let sum = Seq::new(0, |i: int| (coeff(Seq::<int>::empty(), i) + coeff(c, i)) % m);
        assert(sum =~= Seq::<int>::empty());
        assert(trim(Seq::<int>::empty()) =~= Seq::<int>::empty());
        assert(p.len() == 0);
    }
}

/// Distinct residues modulo `m` are at most `m`.
pub proof fn lemma_distinct_count(xs: Seq<int>, m: int)
    requires
        m >= 0,
        distinct_residues(xs, m),
    ensures
        xs.len() <= m,
{
    assert(xs.no_duplicates()) by {
        assert forall|i: int, j: int| 0 <= i < xs.len() && 0 <= j < xs.len() && i != j implies xs[i]
            != xs[j] by {
            if i < j {
                assert(xs[i] != xs[j]);
            } else {
                assert(xs[j] != xs[i]);
            }
        }
    }
    xs.unique_seq_to_set();
    lemma_int_range(0, m);
    assert(xs.to_set().subset_of(set_int_range(0, m))) by {
        assert forall|v: int| xs.to_set().contains(v) implies set_int_range(0, m).contains(v) by {
            let i = choose|i: int| 0 <= i < xs.len() && xs[i] == v;
            assert(0 <= xs[i] < m);
        }
    }
    lemma_len_subset(xs.to_set(), set_int_range(0, m));
}

/// Two polynomials over a prime field whose difference is no longer than
/// the number of distinct points at which they agree are the same.
proof fn lemma_agreement_of_difference(p: Seq<int>, q: Seq<int>, pts: Seq<int>, m: int)
    requires
        is_prime(m),
        m > 2,
        reduced(p, m),
        trimmed(p),
        reduced(q, m),
        trimmed(q),
        distinct_residues(pts, m),
        poly_sub(p, q, m).len() <= pts.len(),
        forall|i: int|
            0 <= i < pts.len() ==> poly_eval(p, #[trigger] pts[i]) % m == poly_eval(q, pts[i]) % m,
    ensures
        p == q,
{
    let n = if p.len() >= q.len() {
        p.len()
    } else {
        q.len()
    };
    let raw = Seq::new(n, |i: int| (coeff(p, i) - coeff(q, i)) % m);
    let d = poly_sub(p, q, m);
    lemma_trim_props(raw);
    assert(reduced(raw, m)) by {
        assert forall|i: int| 0 <= i < raw.len() implies 0 <= #[trigger] raw[i] < m by {
            lemma_mod_bound(coeff(p, i) - coeff(q, i), m);
        }
    }
    lemma_trim_reduced(raw, m);
    assert forall|i: int| 0 <= i < pts.len() implies poly_eval(d, #[trigger] pts[i]) % m == 0 by {
        let t = pts[i];
        lemma_eval_sub(p, q, t, m);
        lemma_sub_mod_noop(poly_eval(p, t), poly_eval(q, t), m);
        lemma_small_mod(0, m as nat);
    }
    lemma_roots_bound(d, pts, m);
    assert forall|i: int| coeff(p, i) == coeff(q, i) by {
        if 0 <= i < n {
            assert(coeff(d, i) == coeff(raw, i));
            assert(raw[i] == 0);
            let x = coeff(p, i);
            let y = coeff(q, i);
            assert(0 <= x < m) by {
                if i < p.len() {
                    assert(0 <= p[i] < m);
                }
            }
            assert(0 <= y < m) by {
                if i < q.len() {
                    assert(0 <= q[i] < m);
                }
            }
            if x != y {
                lemma_difference_nonzero(x, y, m);
            }
        }
    }
    lemma_trimmed_equal(p, q);
}

/// Two polynomials over a prime field that agree at as many distinct
/// points as the longer has coefficients are the same polynomial.
pub proof fn lemma_agreement(p: Seq<int>, q: Seq<int>, pts: Seq<int>, m: int)
    requires
        is_prime(m),
        m > 2,
        reduced(p, m),
        trimmed(p),
        reduced(q, m),
        trimmed(q),
        distinct_residues(pts, m),
        p.len() <= pts.len(),
        q.len() <= pts.len(),
        forall|i: int|
            0 <= i < pts.len() ==> poly_eval(p, #[trigger] pts[i]) % m == poly_eval(q, pts[i]) % m,
    ensures
        p == q,
{
    let n = if p.len() >= q.len() {
        p.len()
    } else {
        q.len()
    };
    lemma_trim_props(Seq::new(n, |i: int| (coeff(p, i) - coeff(q, i)) % m));
    lemma_agreement_of_difference(p, q, pts, m);
}

/// Two polynomials over a prime field of one length and with one leading
/// coefficient that agree at distinct points, one fewer than they have
/// coefficients, are the same polynomial.
pub proof fn lemma_agreement_same_lead(p: Seq<int>, q: Seq<int>, pts: Seq<int>, m: int)
    requires
        is_prime(m),
        m > 2,
        reduced(p, m),
        trimmed(p),
        reduced(q, m),
        trimmed(q),
        distinct_residues(pts, m),
        p.len() == q.len(),
        p.len() >= 1,
        p.last() == q.last(),
        p.len() - 1 <= pts.len(),
        forall|i: int|
            0 <= i < pts.len() ==> poly_eval(p, #[trigger] pts[i]) % m == poly_eval(q, pts[i]) % m,
    ensures
        p == q,
{
    let n = p.len();
    let raw = Seq::new(n, |i: int| (coeff(p, i) - coeff(q, i)) % m);
    assert(raw[n - 1] == 0) by {
        lemma_small_mod(0, m as nat);
    }
    lemma_trim_bound(raw, n - 1);
    lemma_agreement_of_difference(p, q, pts, m);
}

} // verus!
