//! Laws that relate the operations on polynomials to each other.
use crate::fields::element::FieldElement;
use crate::fields::fermat::lemma_field_inv_is_inverse;
use crate::fields::modular::{field_add, field_inv, is_prime};
use crate::polynomial::evaluation::{
    lemma_conv_above, lemma_conv_coefficients, lemma_conv_zero_second, lemma_eval_add,
    lemma_mul_coefficients,
};
use crate::polynomial::model::{
    coeff, conv, conv_upto, div_state, div_step, lemma_trim_props, lemma_trim_reduced,
    lemma_trim_unique, poly_add, poly_div_rem, poly_eval, poly_mul, reduced, trim, trimmed,
};
use crate::polynomial::ops::Polynomial;
use vstd::arithmetic::div_mod::*;
use vstd::arithmetic::mul::*;
use vstd::prelude::*;

verus! {

/// Evaluation is additive: `(p + q)(x) == p(x) + q(x)` in the field.
pub proof fn law_evaluate_sum<const MODULUS: u64>(
    p: Polynomial<MODULUS>,
    q: Polynomial<MODULUS>,
    x: FieldElement<MODULUS>,
)
    requires
        MODULUS > 0,
        p.wf(),
        q.wf(),
        x.wf(),
    ensures
        poly_eval(poly_add(p@, q@, MODULUS as int), x@) % (MODULUS as int) == field_add(
            poly_eval(p@, x@) % (MODULUS as int),
            poly_eval(q@, x@) % (MODULUS as int),
            MODULUS as int,
        ),
{
    let m = MODULUS as int;
    lemma_eval_add(p@, q@, x@, m);
    lemma_add_mod_noop(poly_eval(p@, x@), poly_eval(q@, x@), m);
}

/// Changing one coefficient of the second factor changes each coefficient
/// of the product by the matching multiple of the first factor.
pub proof fn lemma_conv_update(b: Seq<int>, q: Seq<int>, s: int, v: int, k: int, n: int)
    requires
        0 <= s < q.len(),
        0 <= n <= b.len(),
    ensures
        conv_upto(b, q.update(s, v), k, n) == conv_upto(b, q, k, n) + (if 0 <= k - s < n {
            b[k - s] * (v - q[s])
        } else {
            0
        }),
    decreases n,
{
    if n > 0 {
        lemma_conv_update(b, q, s, v, k, n - 1);
        let i = n - 1;
        let q2 = q.update(s, v);
        if k - i == s {
            assert(coeff(q2, k - i) == v);
            assert(coeff(q, k - i) == q[s]);
            assert(b[i] * v == b[i] * q[s] + b[i] * (v - q[s])) by (nonlinear_arith);
        } else {
            assert(coeff(q2, k - i) == coeff(q, k - i));
        }
    }
}

/// What the long division keeps true after each of its steps: the zeros
/// not yet written to the quotient, the cleared top of the remainder, and
/// the dividend as divisor times quotient plus remainder.
pub open spec fn div_invariant(a: Seq<int>, b: Seq<int>, m: int, t: nat) -> bool {
    let (q, r) = div_state(a, b, m, t);
    &&& q.len() == a.len() - b.len() + 1
    &&& r.len() == a.len()
    &&& reduced(q, m)
    &&& reduced(r, m)
    &&& forall|j: int| 0 <= j < a.len() - b.len() + 1 - t ==> #[trigger] q[j] == 0
    &&& forall|k: int| a.len() - t <= k < a.len() ==> #[trigger] r[k] == 0
    &&& forall|k: int| 0 <= k < a.len() ==> (conv(b, q, k) + #[trigger] r[k]) % m == a[k]
}

proof fn lemma_div_invariant(a: Seq<int>, b: Seq<int>, m: int, t: nat)
    requires
        is_prime(m),
        m > 2,
        reduced(a, m),
        reduced(b, m),
        trimmed(b),
        0 < b.len() <= a.len(),
        t <= a.len() - b.len() + 1,
    ensures
        div_invariant(a, b, m, t),
    decreases t,
{
    let n = a.len() as int;
    let d = b.len() as int;
    if t == 0 {
        let (q, r) = div_state(a, b, m, 0);
        assert forall|k: int| 0 <= k < n implies (conv(b, q, k) + #[trigger] r[k]) % m == a[k] by {
            lemma_conv_coefficients(b, q, Seq::<int>::empty(), k, d);
            lemma_conv_zero_second(b, k, d);
            lemma_small_mod(a[k] as nat, m as nat);
        }
    } else {
        let t0 = (t - 1) as nat;
        lemma_div_invariant(a, b, m, t0);
        let (q, r) = div_state(a, b, m, t0);
        let s = n - d - t0;
        let lead = b.last();
        let inv = field_inv(lead, m);
        lemma_field_inv_is_inverse(lead, m);
        let top = r[s + d - 1];
        let ratio = (top * inv) % m;
        let (q2, r2) = div_step(q, r, b, inv, s, m);
        assert(q[s] == 0);
        assert(reduced(q2, m)) by {
            assert forall|k: int| 0 <= k < q2.len() implies 0 <= #[trigger] q2[k] < m by {
                if k == s {
                    lemma_mod_bound(top * inv, m);
                } else {
                    assert(0 <= q[k] < m);
                }
            }
        }
        assert(reduced(r2, m)) by {
            assert forall|k: int| 0 <= k < r2.len() implies 0 <= #[trigger] r2[k] < m by {
                if s <= k < s + d {
                    lemma_mod_bound(r[k] - ratio * b[k - s], m);
                } else {
                    assert(0 <= r[k] < m);
                }
            }
        }
        assert forall|k: int| n - t <= k < n implies #[trigger] r2[k] == 0 by {
            if k == s + d - 1 {
                // ratio * lead == top * (inv * lead) == top (mod m)
                lemma_mul_mod_noop_left(top * inv, lead, m);
                lemma_mul_is_associative(top, inv, lead);
                lemma_mul_mod_noop_right(top, inv * lead, m);
                assert(top * 1 == top);
                assert((ratio * lead) % m == top % m);
                lemma_sub_mod_noop(top, ratio * lead, m);
                lemma_sub_mod_noop(top, top, m);
                lemma_small_mod(0, m as nat);
            } else {
                assert(r[k] == 0);
            }
        }
        assert forall|k: int| 0 <= k < n implies (conv(b, q2, k) + #[trigger] r2[k]) % m
            == a[k] by {
            lemma_conv_update(b, q, s, ratio, k, d);
            assert((conv(b, q, k) + r[k]) % m == a[k]);
            if s <= k < s + d {
                let c = conv(b, q, k);
                let bk = b[k - s];
                assert(conv(b, q2, k) == c + bk * (ratio - 0));
                lemma_add_mod_noop_right(c + bk * ratio, r[k] - ratio * bk, m);
                assert(c + bk * ratio + (r[k] - ratio * bk) == c + r[k]) by (nonlinear_arith);
            }
        }
    }
}

/// A sequence that is zero from index `bound` on trims to at most `bound`
/// coefficients.
pub proof fn lemma_trim_bound(s: Seq<int>, bound: int)
    requires
        0 <= bound,
        forall|k: int| bound <= k < s.len() ==> #[trigger] s[k] == 0,
    ensures
        trim(s).len() <= bound,
    decreases s.len(),
{
    if s.len() > bound {
        assert(s[s.len() - 1] == 0);
        lemma_trim_bound(s.drop_last(), bound);
    } else {
        lemma_trim_props(s);
    }
}

/// Division with remainder modulo a prime: the dividend is the divisor
/// times the quotient plus the remainder, the remainder is shorter than the
/// divisor, and the quotient as much shorter than the dividend as the
/// divisor is long.
pub proof fn lemma_div_rem(av: Seq<int>, bv: Seq<int>, m: int)
    requires
        is_prime(m),
        m > 2,
        reduced(av, m),
        trimmed(av),
        reduced(bv, m),
        trimmed(bv),
        bv.len() > 0,
    ensures
        ({
            let (q, r) = poly_div_rem(av, bv, m);
            &&& av == poly_add(poly_mul(bv, q, m), r, m)
            &&& r.len() < bv.len()
            &&& q.len() + bv.len() <= av.len() + 1 || q.len() == 0
            &&& reduced(q, m)
            &&& trimmed(q)
            &&& reduced(r, m)
            &&& trimmed(r)
        }),
{
    let n = av.len() as int;
    let d = bv.len() as int;
    let (q, r) = poly_div_rem(av, bv, m);
    // the untrimmed quotient and remainder
    let (q0, r0) = if n < d {
        (Seq::<int>::empty(), av)
    } else {
        div_state(av, bv, m, (n - d + 1) as nat)
    };
    if n < d {
        lemma_trim_props(av);
        assert forall|k: int| 0 <= k < n implies (conv(bv, q0, k) + #[trigger] r0[k]) % m
            == av[k] by {
            lemma_conv_zero_second(bv, k, d);
            lemma_small_mod(av[k] as nat, m as nat);
        }
    } else {
        lemma_div_invariant(av, bv, m, (n - d + 1) as nat);
        lemma_trim_bound(r0, d - 1);
    }
    lemma_trim_props(q0);
    lemma_trim_props(r0);
    lemma_trim_reduced(q0, m);
    lemma_trim_reduced(r0, m);
    assert(q == trim(q0));
    assert(r == trim(r0));
    let pm = poly_mul(bv, q, m);
    let len = if pm.len() >= r.len() {
        pm.len()
    } else {
        r.len()
    };
    let raw = Seq::new(len, |i: int| (coeff(pm, i) + coeff(r, i)) % m);
    // every coefficient of the product is the convolution with the
    // untrimmed quotient, reduced
    assert forall|i: int| 0 <= i implies coeff(pm, i) == conv(bv, q0, i) % m by {
        lemma_conv_coefficients(bv, q, q0, i, d);
        lemma_mul_coefficients(bv, q, m, i);
    }
    assert forall|i: int| coeff(raw, i) == coeff(av, i) by {
        if 0 <= i {
            assert(coeff(pm, i) == conv(bv, q0, i) % m);
            assert(coeff(r, i) == coeff(r0, i));
            if i < n {
                assert((conv(bv, q0, i) + r0[i]) % m == av[i]);
                lemma_add_mod_noop(conv(bv, q0, i), r0[i], m);
                lemma_small_mod(r0[i] as nat, m as nat);
                lemma_mod_bound(conv(bv, q0, i), m);
                lemma_small_mod((conv(bv, q0, i) % m) as nat, m as nat);
                lemma_add_mod_noop(conv(bv, q0, i) % m, r0[i], m);
                assert((coeff(pm, i) + coeff(r, i)) % m == av[i]);
                if i >= len {
                    assert(coeff(pm, i) == 0 && coeff(r, i) == 0);
                    lemma_small_mod(0, m as nat);
                }
            } else {
                if n < d {
                    lemma_conv_zero_second(bv, i, d);
                } else {
                    assert(q0.len() == n - d + 1);
                    lemma_conv_above(bv, q0, i, d);
                }
                lemma_small_mod(0, m as nat);
            }
        }
    }
    lemma_trim_unique(raw, av);
}

/// Division with remainder over a prime field: the dividend is the divisor
/// times the quotient plus the remainder, and the remainder has lower degree
/// than the divisor.
pub proof fn law_div_rem<const MODULUS: u64>(a: Polynomial<MODULUS>, b: Polynomial<MODULUS>)
    requires
        is_prime(MODULUS as int),
        MODULUS > 2,
        a.wf(),
        b.wf(),
        b@.len() > 0,
    ensures
        ({
            let (q, r) = poly_div_rem(a@, b@, MODULUS as int);
            &&& a@ == poly_add(poly_mul(b@, q, MODULUS as int), r, MODULUS as int)
            &&& r.len() < b@.len()
        }),
{
    lemma_div_rem(a@, b@, MODULUS as int);
}

} // verus!
