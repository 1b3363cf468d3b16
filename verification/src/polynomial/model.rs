//! Polynomials over the integers modulo `m` as coefficient sequences: index
//! `i` holds the coefficient of `x^i`.
use crate::fields::modular::field_inv;
use vstd::arithmetic::div_mod::*;
use vstd::arithmetic::mul::*;
use vstd::prelude::*;

verus! {

/// The coefficient of `x^i`, zero beyond the stored ones.
pub open spec fn coeff(s: Seq<int>, i: int) -> int {
    if 0 <= i < s.len() {
        s[i]
    } else {
        0
    }
}

/// Every coefficient is a residue in `[0, m)`.
pub open spec fn reduced(s: Seq<int>, m: int) -> bool {
    forall|i: int| 0 <= i < s.len() ==> 0 <= #[trigger] s[i] < m
}

/// The highest stored coefficient, if any, is not zero.
pub open spec fn trimmed(s: Seq<int>) -> bool {
    s.len() == 0 || s.last() != 0
}

/// `s` without its trailing zeros.
pub open spec fn trim(s: Seq<int>) -> Seq<int>
    decreases s.len(),
{
    if s.len() > 0 && s.last() == 0 {
        trim(s.drop_last())
    } else {
        s
    }
}

/// The value at `x` of the part of `s` from index `i` on, divided by `x^i`:
/// Horner's rule over the integers.
pub open spec fn poly_eval_from(s: Seq<int>, x: int, i: int) -> int
    decreases s.len() - i,
{
    if 0 <= i < s.len() {
        s[i] + x * poly_eval_from(s, x, i + 1)
    } else {
        0
    }
}

/// The value of the integer polynomial `s` at `x`.
pub open spec fn poly_eval(s: Seq<int>, x: int) -> int {
    poly_eval_from(s, x, 0)
}

/// The sum of two polynomials modulo `m`.
pub open spec fn poly_add(a: Seq<int>, b: Seq<int>, m: int) -> Seq<int> {
    trim(
        Seq::new(
            if a.len() >= b.len() {
                a.len()
            } else {
                b.len()
            },
            |i: int| (coeff(a, i) + coeff(b, i)) % m,
        ),
    )
}

/// The difference of two polynomials modulo `m`.
pub open spec fn poly_sub(a: Seq<int>, b: Seq<int>, m: int) -> Seq<int> {
    trim(
        Seq::new(
            if a.len() >= b.len() {
                a.len()
            } else {
                b.len()
            },
            |i: int| (coeff(a, i) - coeff(b, i)) % m,
        ),
    )
}

/// The negation of a polynomial modulo `m`.
pub open spec fn poly_neg(a: Seq<int>, m: int) -> Seq<int> {
    trim(Seq::new(a.len(), |i: int| (-a[i]) % m))
}

/// Every coefficient multiplied by `c`, modulo `m`.
pub open spec fn poly_scale(a: Seq<int>, c: int, m: int) -> Seq<int> {
    trim(Seq::new(a.len(), |i: int| (a[i] * c) % m))
}

/// The sum of `a[i] * b[k - i]` over the first `n` indices `i`.
pub open spec fn conv_upto(a: Seq<int>, b: Seq<int>, k: int, n: int) -> int
    decreases n,
{
    if n <= 0 {
        0
    } else {
        conv_upto(a, b, k, n - 1) + coeff(a, n - 1) * coeff(b, k - (n - 1))
    }
}

/// The coefficient of `x^k` in the product of the integer polynomials `a`
/// and `b`.
pub open spec fn conv(a: Seq<int>, b: Seq<int>, k: int) -> int {
    conv_upto(a, b, k, a.len() as int)
}

/// The product of two polynomials modulo `m`.
pub open spec fn poly_mul(a: Seq<int>, b: Seq<int>, m: int) -> Seq<int> {
    if a.len() == 0 || b.len() == 0 {
        Seq::empty()
    } else {
        trim(Seq::new((a.len() + b.len() - 1) as nat, |k: int| conv(a, b, k) % m))
    }
}

/// One step of long division: the quotient coefficient at `shift` becomes
/// the remainder's coefficient opposite the divisor's leading one, times
/// `inv`, and that multiple of the shifted divisor leaves the remainder.
pub open spec fn div_step(
    q: Seq<int>,
    r: Seq<int>,
    b: Seq<int>,
    inv: int,
    shift: int,
    m: int,
) -> (Seq<int>, Seq<int>) {
    let ratio = (r[shift + b.len() - 1] * inv) % m;
    (
        q.update(shift, ratio),
        Seq::new(
            r.len(),
            |k: int|
                if shift <= k < shift + b.len() {
                    (r[k] - ratio * b[k - shift]) % m
                } else {
                    r[k]
                },
        ),
    )
}

/// Quotient and remainder of the long division of `a` by `b` after `t`
/// steps, from the highest quotient coefficient down, neither trimmed.
pub open spec fn div_state(a: Seq<int>, b: Seq<int>, m: int, t: nat) -> (Seq<int>, Seq<int>)
    decreases t,
{
    if t == 0 {
        (Seq::new((a.len() - b.len() + 1) as nat, |i: int| 0), a)
    } else {
        let (q, r) = div_state(a, b, m, (t - 1) as nat);
        div_step(q, r, b, field_inv(b.last(), m), a.len() - b.len() - (t - 1), m)
    }
}

/// Quotient and remainder of `a` by `b` modulo `m`, by schoolbook long
/// division with the inverse of the divisor's leading coefficient.
pub open spec fn poly_div_rem(a: Seq<int>, b: Seq<int>, m: int) -> (Seq<int>, Seq<int>) {
    if a.len() < b.len() || b.len() == 0 {
        (Seq::empty(), a)
    } else {
        let (q, r) = div_state(a, b, m, (a.len() - b.len() + 1) as nat);
        (trim(q), trim(r))
    }
}

/// The composition of `a`, from its coefficient `i` on, with `b`:
/// Horner's rule in the ring of polynomials modulo `m`.
pub open spec fn poly_compose_from(a: Seq<int>, b: Seq<int>, m: int, i: int) -> Seq<int>
    decreases a.len() - i,
{
    if 0 <= i < a.len() {
        poly_add(poly_mul(poly_compose_from(a, b, m, i + 1), b, m), trim(seq![a[i]]), m)
    } else {
        Seq::empty()
    }
}

/// The polynomial `a(b(x))` modulo `m`.
pub open spec fn poly_compose(a: Seq<int>, b: Seq<int>, m: int) -> Seq<int> {
    poly_compose_from(a, b, m, 0)
}

/// One folding step: the even-indexed coefficients plus `beta` times the
/// odd-indexed ones, modulo `m`.
pub open spec fn poly_fold(a: Seq<int>, beta: int, m: int) -> Seq<int> {
    trim(
        Seq::new(
            ((a.len() + 1) / 2) as nat,
            |i: int| (coeff(a, 2 * i) + beta * coeff(a, 2 * i + 1)) % m,
        ),
    )
}

/// Trimming removes zeros only: every coefficient stays.
pub proof fn lemma_trim_props(s: Seq<int>)
    ensures
        trimmed(trim(s)),
        trim(s).len() <= s.len(),
        forall|i: int| coeff(trim(s), i) == coeff(s, i),
        forall|i: int| 0 <= i < trim(s).len() ==> #[trigger] trim(s)[i] == s[i],
        trimmed(s) ==> trim(s) == s,
    decreases s.len(),
{
    if s.len() > 0 && s.last() == 0 {
        let d = s.drop_last();
        lemma_trim_props(d);
        assert forall|i: int| coeff(trim(s), i) == coeff(s, i) by {
            assert(coeff(d, i) == coeff(s, i));
        }
        assert forall|i: int| 0 <= i < trim(s).len() implies #[trigger] trim(s)[i] == s[i] by {
            assert(trim(d)[i] == d[i]);
        }
    }
}

/// Trimming keeps residues residues.
pub proof fn lemma_trim_reduced(s: Seq<int>, m: int)
    requires
        reduced(s, m),
    ensures
        reduced(trim(s), m),
{
    lemma_trim_props(s);
    assert forall|i: int| 0 <= i < trim(s).len() implies 0 <= #[trigger] trim(s)[i] < m by {
        assert(trim(s)[i] == s[i]);
    }
}

/// A trimmed sequence is the trim of every sequence with the same
/// coefficients.
pub proof fn lemma_trim_unique(s: Seq<int>, t: Seq<int>)
    requires
        trimmed(t),
        forall|i: int| coeff(s, i) == coeff(t, i),
    ensures
        trim(s) == t,
    decreases s.len(),
{
    if s.len() > 0 && s.last() == 0 {
        assert forall|i: int| coeff(s.drop_last(), i) == coeff(t, i) by {
            assert(coeff(s, i) == coeff(t, i));
            if i == s.len() - 1 {
                assert(coeff(s, i) == 0);
            }
        }
        lemma_trim_unique(s.drop_last(), t);
    } else {
        if s.len() > 0 {
            let k = s.len() - 1;
            assert(coeff(s, k) == coeff(t, k));
            assert(t.len() >= s.len());
        }
        if t.len() > 0 {
            let k = t.len() - 1;
            assert(coeff(s, k) == coeff(t, k));
            assert(s.len() >= t.len());
        }
        assert forall|i: int| 0 <= i < s.len() implies s[i] == t[i] by {
            assert(coeff(s, i) == coeff(t, i));
        }
        assert(s =~= t);
    }
}

/// Two trimmed sequences with the same coefficients are the same sequence.
pub proof fn lemma_trimmed_equal(s: Seq<int>, t: Seq<int>)
    requires
        trimmed(s),
        trimmed(t),
        forall|i: int| coeff(s, i) == coeff(t, i),
    ensures
        s == t,
{
    lemma_trim_props(s);
    lemma_trim_unique(s, t);
}

} // verus!
