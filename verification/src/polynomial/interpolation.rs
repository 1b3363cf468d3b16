use crate::error::StarkError;
use crate::fields::element::FieldElement;
use crate::fields::modular::field_inv;
use crate::polynomial::model::{
    conv, conv_upto, lemma_trim_props, poly_add, poly_div_rem, poly_mul, poly_scale, reduced, trim,
};
use crate::polynomial::ops::{lemma_mul_len, values, Polynomial};
use rayon::iter::IntoParallelIterator;
use rayon::iter::ParallelIterator;
use vstd::arithmetic::div_mod::*;
use vstd::prelude::*;

verus! {

/// The polynomial `x - root` modulo `m`.
pub open spec fn linear_factor(root: int, m: int) -> Seq<int> {
    trim(seq![(-root) % m, 1int % m])
}

/// The product of `x - roots[j]` over the first `k` roots, modulo `m`.
pub open spec fn product_of_factors(roots: Seq<int>, m: int, k: int) -> Seq<int>
    decreases k,
{
    if k <= 0 {
        trim(seq![1int % m])
    } else {
        poly_mul(product_of_factors(roots, m, k - 1), linear_factor(roots[k - 1], m), m)
    }
}

/// The monic polynomial that vanishes exactly at `roots`; for no roots at
/// all, the zero polynomial.
pub open spec fn poly_from_roots(roots: Seq<int>, m: int) -> Seq<int> {
    if roots.len() == 0 {
        Seq::empty()
    } else {
        product_of_factors(roots, m, roots.len() as int)
    }
}

/// The product of `xs[i] - xs[j]` over `j < n`, `j != i`, modulo `m`.
pub open spec fn lagrange_denominator(xs: Seq<int>, i: int, m: int, n: int) -> int
    decreases n,
{
    if n <= 0 {
        1int % m
    } else if n - 1 == i {
        lagrange_denominator(xs, i, m, n - 1)
    } else {
        (lagrange_denominator(xs, i, m, n - 1) * ((xs[i] - xs[n - 1]) % m)) % m
    }
}

/// The `i`-th Lagrange basis polynomial for the points `xs`: the vanishing
/// polynomial of `xs` divided by `x - xs[i]` and by the product of the
/// differences `xs[i] - xs[j]`. It does not exist where that product is
/// zero, or where the division leaves a remainder.
pub open spec fn lagrange_outcome(xs: Seq<int>, i: int, m: int) -> Result<Seq<int>, StarkError> {
    let denom = lagrange_denominator(xs, i, m, xs.len() as int);
    let (q, r) = poly_div_rem(poly_from_roots(xs, m), poly_from_roots(seq![xs[i]], m), m);
    if m <= 2 {
        Err(StarkError::ConfigurationError)
    } else if denom == 0 {
        Err(StarkError::ArithmeticError)
    } else if r.len() != 0 {
        Err(StarkError::ArithmeticError)
    } else {
        Ok(poly_scale(q, field_inv(denom, m), m))
    }
}

/// The error of the first of the first `k` basis polynomials that does not
/// exist, if any.
pub open spec fn lagrange_failure(xs: Seq<int>, m: int, k: int) -> Option<StarkError>
    decreases k,
{
    if k <= 0 {
        None
    } else {
        match lagrange_failure(xs, m, k - 1) {
            Some(e) => Some(e),
            None => match lagrange_outcome(xs, k - 1, m) {
                Err(e) => Some(e),
                Ok(_) => None,
            },
        }
    }
}

/// The sum of `ys[j]` times the `j`-th basis polynomial over `j < k`.
pub open spec fn interpolation_sum(xs: Seq<int>, ys: Seq<int>, m: int, k: int) -> Seq<int>
    decreases k,
{
    if k <= 0 {
        Seq::empty()
    } else {
        poly_add(
            interpolation_sum(xs, ys, m, k - 1),
            poly_scale(lagrange_outcome(xs, k - 1, m)->Ok_0, ys[k - 1], m),
            m,
        )
    }
}

/// An executable result agrees with a specified one.
pub open spec fn agrees<const MODULUS: u64>(
    r: Result<Polynomial<MODULUS>, StarkError>,
    o: Result<Seq<int>, StarkError>,
) -> bool {
    match r {
        Ok(p) => o == Ok::<Seq<int>, StarkError>(p@) && p.wf(),
        Err(e) => o == Err::<Seq<int>, StarkError>(e),
    }
}

/// The product of `x - root` over all `roots`, built by multiplying one
/// linear factor after another; the zero polynomial for no roots.
pub fn gen_polynomial_from_roots<const MODULUS: u64>(roots: &[FieldElement<MODULUS>]) -> (p:
    Polynomial<MODULUS>)
    requires
        reduced(values(roots@), MODULUS as int),
        roots@.len() + 3 <= isize::MAX,
    ensures
        p@ == poly_from_roots(values(roots@), MODULUS as int),
        p@.len() <= roots@.len() + 1,
        p.wf(),
{
    let n = roots.len();
    if n == 0 {
        return Polynomial::zero();
    }
    assert(MODULUS > 0) by {
        assert(0 <= values(roots@)[0] < MODULUS);
    }
    let ghost m = MODULUS as int;
    let ghost rs = values(roots@);
    let mut start: Vec<FieldElement<MODULUS>> = Vec::new();
    start.push(FieldElement::new(1));
    assert(values(start@) =~= seq![1int % m]);
    let mut p = Polynomial::new(start);
    proof {
        lemma_trim_props(seq![1int % m]);
    }
    let mut k: usize = 0;
    while k < n
        invariant
            MODULUS > 0,
            m == MODULUS,
            rs == values(roots@),
            reduced(rs, m),
            n == roots@.len(),
            n + 3 <= isize::MAX,
            k <= n,
            p.wf(),
            p@ == product_of_factors(rs, m, k as int),
            p@.len() <= k + 1,
        decreases n - k,
    {
        let root = roots[k];
        assert(root@ == rs[k as int]);
        let mut pair: Vec<FieldElement<MODULUS>> = Vec::new();
        pair.push(core::ops::Neg::neg(root));
        pair.push(FieldElement::new(1));
        assert(values(pair@) =~= seq![(-root@) % m, 1int % m]);
        let factor = Polynomial::new(pair);
        proof {
            lemma_trim_props(seq![(-root@) % m, 1int % m]);
            lemma_mul_len(p@, factor@, m);
        }
        p = p * factor;
        k = k + 1;
    }
    p
}

/// The `i`-th Lagrange basis polynomial for the points `xs`, from their
/// vanishing polynomial `z`.
pub fn lagrange_basis_polynomial<const MODULUS: u64>(
    z: &Polynomial<MODULUS>,
    xs: &[FieldElement<MODULUS>],
    i: usize,
) -> (r: Result<Polynomial<MODULUS>, StarkError>)
    requires
        reduced(values(xs@), MODULUS as int),
        i < xs@.len(),
        z.wf(),
        z@ == poly_from_roots(values(xs@), MODULUS as int),
    ensures
        agrees(r, lagrange_outcome(values(xs@), i as int, MODULUS as int)),
{
    let n = xs.len();
    let ghost m = MODULUS as int;
    let ghost pts = values(xs@);
    let xi = xs[i];
    assert(xi@ == pts[i as int]);
    let mut denom = FieldElement::<MODULUS>::new(1);
    let mut j: usize = 0;
    while j < n
        invariant
            m == MODULUS,
            pts == values(xs@),
            reduced(pts, m),
            n == xs@.len(),
            i < n,
            j <= n,
            xi@ == pts[i as int],
            xi.wf(),
            denom.wf(),
            denom@ == lagrange_denominator(pts, i as int, m, j as int),
        decreases n - j,
    {
        if i != j {
            let xj = xs[j];
            assert(xj@ == pts[j as int]);
            denom.mul_assign(xi - xj);
        }
        j = j + 1;
    }
    let denom_inv = match denom.inverse() {
        Ok(v) => v,
        Err(e) => {
            return Err(e);
        },
    };
    let single = [xi];
    assert(values(single@) =~= seq![xi@]);
    let single_root = single.as_slice();
    assert(single_root@ == single@);
    let divisor = gen_polynomial_from_roots(single_root);
    proof {
        // the divisor is x - xi, times one: it is not zero
        let lin = seq![(-xi@) % m, 1int % m];
        lemma_small_mod(1, m as nat);
        lemma_trim_props(lin);
        lemma_trim_props(seq![1int % m]);
        reveal_with_fuel(product_of_factors, 2);
        let one_root = seq![xi@];
        assert(values(single_root@) == one_root);
        assert(one_root[0] == xi@);
        assert(product_of_factors(one_root, m, 0) == trim(seq![1int % m]));
        assert(divisor@ == poly_mul(trim(seq![1int % m]), trim(lin), m));
        lemma_divisor_nonzero(xi@, m);
    }
    match z.clone().div(divisor) {
        Ok(li) => {
            let mut li = li;
            li.scalar_mul(denom_inv);
            Ok(li)
        },
        Err(e) => Err(e),
    }
}

/// One times `x - root` has two coefficients.
proof fn lemma_divisor_nonzero(root: int, m: int)
    requires
        m > 2,
    ensures
        poly_mul(trim(seq![1int % m]), trim(seq![(-root) % m, 1int % m]), m).len() == 2,
{
    let one = seq![1int % m];
    let lin = seq![(-root) % m, 1int % m];
    lemma_small_mod(1, m as nat);
    lemma_trim_props(one);
    lemma_trim_props(lin);
    assert(trim(one) == one);
    assert(trim(lin) == lin);
    let raw = Seq::new(2, |k: int| conv(one, lin, k) % m);
    reveal_with_fuel(conv_upto, 3);
    assert(conv(one, lin, 1) == 1 * 1) by {
        assert(conv_upto(one, lin, 1, 0) == 0);
    }
    assert(raw[1] == 1);
    assert(raw.last() == 1);
    lemma_trim_props(raw);
}

/// The Lagrange basis polynomials for the points `xs`, one after another.
/// The first one that does not exist gives the error.
pub fn gen_lagrange_polynomials<const MODULUS: u64>(xs: &[FieldElement<MODULUS>]) -> (r: Result<
    Vec<Polynomial<MODULUS>>,
    StarkError,
>)
    requires
        reduced(values(xs@), MODULUS as int),
        xs@.len() + 3 <= isize::MAX,
    ensures
        match r {
            Ok(v) => {
                &&& lagrange_failure(values(xs@), MODULUS as int, xs@.len() as int) is None
                &&& v@.len() == xs@.len()
                &&& forall|i: int|
                    0 <= i < xs@.len() ==> agrees(
                        Ok(#[trigger] v@[i]),
                        lagrange_outcome(values(xs@), i, MODULUS as int),
                    )
            },
            Err(e) => lagrange_failure(values(xs@), MODULUS as int, xs@.len() as int) == Some(e),
        },
{
    let n = xs.len();
    let mut basis: Vec<Polynomial<MODULUS>> = Vec::new();
    if n == 0 {
        return Ok(basis);
    }
    let z = gen_polynomial_from_roots(xs);
    let mut i: usize = 0;
    while i < n
        invariant
            reduced(values(xs@), MODULUS as int),
            n == xs@.len(),
            i <= n,
            z.wf(),
            z@ == poly_from_roots(values(xs@), MODULUS as int),
            basis@.len() == i,
            lagrange_failure(values(xs@), MODULUS as int, i as int) is None,
            forall|k: int|
                0 <= k < i ==> agrees(
                    Ok(#[trigger] basis@[k]),
                    lagrange_outcome(values(xs@), k, MODULUS as int),
                ),
        decreases n - i,
    {
        match lagrange_basis_polynomial(&z, xs, i) {
            Ok(li) => {
                basis.push(li);
            },
            Err(e) => {
                proof {
                    lemma_failure_persists(values(xs@), MODULUS as int, i + 1, n as int);
                }
                return Err(e);
            },
        }
        i = i + 1;
    }
    Ok(basis)
}

/// Once a basis polynomial has failed, later ones do not change the error.
proof fn lemma_failure_persists(xs: Seq<int>, m: int, k: int, n: int)
    requires
        0 <= k <= n,
        lagrange_failure(xs, m, k) is Some,
    ensures
        lagrange_failure(xs, m, n) == lagrange_failure(xs, m, k),
    decreases n - k,
{
    if k < n {
        lemma_failure_persists(xs, m, k, n - 1);
    }
}

/// Calls rayon's `into_par_iter`, `map` and `collect` on the index range
/// `0..roots.len()`: every index is handed to `lagrange_basis_polynomial`
/// on some worker thread, and the results are collected in index order.
#[verifier::external_body]
fn par_lagrange_basis<const MODULUS: u64>(
    z: &Polynomial<MODULUS>,
    roots: &[FieldElement<MODULUS>],
) -> (r: Vec<Result<Polynomial<MODULUS>, StarkError>>)
    requires
        reduced(values(roots@), MODULUS as int),
        z.wf(),
        z@ == poly_from_roots(values(roots@), MODULUS as int),
    ensures
        r@.len() == roots@.len(),
        forall|i: int|
            0 <= i < roots@.len() ==> agrees(
                #[trigger] r@[i],
                lagrange_outcome(values(roots@), i, MODULUS as int),
            ),
{
    (0..roots.len()).into_par_iter().map(|i| lagrange_basis_polynomial(z, roots, i)).collect()
}

/// The Lagrange basis polynomials for the points `roots`, each computed on
/// its own by a pool of worker threads. The result is that of
/// `gen_lagrange_polynomials`.
pub fn gen_lagrange_polynomials_parallel<const MODULUS: u64>(
    roots: &[FieldElement<MODULUS>],
) -> (r: Result<Vec<Polynomial<MODULUS>>, StarkError>)
    requires
        reduced(values(roots@), MODULUS as int),
        roots@.len() + 3 <= isize::MAX,
    ensures
        match r {
            Ok(v) => {
                &&& lagrange_failure(values(roots@), MODULUS as int, roots@.len() as int) is None
                &&& v@.len() == roots@.len()
                &&& forall|i: int|
                    0 <= i < roots@.len() ==> agrees(
                        Ok(#[trigger] v@[i]),
                        lagrange_outcome(values(roots@), i, MODULUS as int),
                    )
            },
            Err(e) => lagrange_failure(values(roots@), MODULUS as int, roots@.len() as int)
                == Some(e),
        },
{
    let n = roots.len();
    let mut basis: Vec<Polynomial<MODULUS>> = Vec::new();
    if n == 0 {
        return Ok(basis);
    }
    let z = gen_polynomial_from_roots(roots);
    let results = par_lagrange_basis(&z, roots);
    let mut i: usize = 0;
    while i < n
        invariant
            n == roots@.len(),
            results@.len() == n,
            i <= n,
            forall|k: int|
                0 <= k < n ==> agrees(
                    #[trigger] results@[k],
                    lagrange_outcome(values(roots@), k, MODULUS as int),
                ),
            basis@.len() == i,
            lagrange_failure(values(roots@), MODULUS as int, i as int) is None,
            forall|k: int|
                0 <= k < i ==> agrees(
                    Ok(#[trigger] basis@[k]),
                    lagrange_outcome(values(roots@), k, MODULUS as int),
                ),
        decreases n - i,
    {
        assert(agrees(results@[i as int], lagrange_outcome(values(roots@), i as int, MODULUS as int)));
        match &results[i] {
            Ok(li) => {
                basis.push(li.clone());
            },
            Err(e) => {
                proof {
                    lemma_failure_persists(values(roots@), MODULUS as int, i + 1, n as int);
                }
                return Err(*e);
            },
        }
        i = i + 1;
    }
    Ok(basis)
}

/// The polynomial of degree below `xs.len()` through the points
/// `(xs[i], ys[i])`: the sum of `ys[i]` times the `i`-th Lagrange basis
/// polynomial. The two lists must have one length; no points give the zero
/// polynomial.
pub fn interpolate_lagrange_polynomials<const MODULUS: u64>(
    xs: &[FieldElement<MODULUS>],
    ys: &[FieldElement<MODULUS>],
) -> (r: Result<Polynomial<MODULUS>, StarkError>)
    requires
        reduced(values(xs@), MODULUS as int),
        reduced(values(ys@), MODULUS as int),
        xs@.len() + 3 <= isize::MAX,
    ensures
        xs@.len() != ys@.len() ==> r == Err::<Polynomial<MODULUS>, StarkError>(
            StarkError::ShapeError,
        ),
        xs@.len() == ys@.len() ==> match r {
            Ok(p) => {
                &&& lagrange_failure(values(xs@), MODULUS as int, xs@.len() as int) is None
                &&& p@ == interpolation_sum(
                    values(xs@),
                    values(ys@),
                    MODULUS as int,
                    xs@.len() as int,
                )
                &&& p.wf()
            },
            Err(e) => lagrange_failure(values(xs@), MODULUS as int, xs@.len() as int) == Some(e),
        },
{
    if xs.len() != ys.len() {
        return Err(StarkError::ShapeError);
    }
    let n = xs.len();
    if n == 0 {
        return Ok(Polynomial::zero());
    }
    let basis = match gen_lagrange_polynomials_parallel(xs) {
        Ok(b) => b,
        Err(e) => {
            return Err(e);
        },
    };
    let mut acc = Polynomial::<MODULUS>::zero();
    let mut i: usize = 0;
    while i < n
        invariant
            reduced(values(ys@), MODULUS as int),
            n == xs@.len(),
            n == ys@.len(),
            basis@.len() == n,
            i <= n,
            forall|k: int|
                0 <= k < n ==> agrees(
                    Ok(#[trigger] basis@[k]),
                    lagrange_outcome(values(xs@), k, MODULUS as int),
                ),
            acc.wf(),
            acc@ == interpolation_sum(values(xs@), values(ys@), MODULUS as int, i as int),
        decreases n - i,
    {
        assert(agrees(Ok(basis@[i as int]), lagrange_outcome(values(xs@), i as int, MODULUS as int)));
        let mut term = basis[i].clone();
        let y = ys[i];
        assert(y@ == values(ys@)[i as int]);
        term.scalar_mul(y);
        acc.add_assign(&term);
        i = i + 1;
    }
    Ok(acc)
}

} // verus!
