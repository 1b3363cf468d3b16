use crate::error::StarkError;
use crate::fields::element::FieldElement;
use crate::fields::modular::field_inv;
use crate::polynomial::model::{
    coeff, conv, conv_upto, div_state, div_step, lemma_trim_props, lemma_trim_reduced, poly_add, poly_compose, poly_compose_from,
    poly_eval,
    poly_div_rem, poly_eval_from, poly_fold, poly_mul, poly_neg, poly_scale, poly_sub, reduced, trim, trimmed,
};
use vstd::arithmetic::mul::*;
use vstd::arithmetic::div_mod::*;
use vstd::prelude::*;
use vstd::std_specs::cmp::PartialEqSpecImpl;
use vstd::std_specs::ops::AddSpecImpl;
use vstd::std_specs::ops::MulSpecImpl;
use vstd::std_specs::ops::NegSpecImpl;
use vstd::std_specs::ops::SubSpecImpl;

verus! {

/// The representatives of a sequence of field elements.
pub open spec fn values<const MODULUS: u64>(s: Seq<FieldElement<MODULUS>>) -> Seq<int> {
    Seq::new(s.len(), |i: int| s[i]@)
}

/// A polynomial over the field of integers modulo `MODULUS`;
/// `coefficients[i]` is the coefficient of `x^i`.
#[derive(Debug)]
pub struct Polynomial<const MODULUS: u64> {
    pub coefficients: Vec<FieldElement<MODULUS>>,
    pub degree: isize,
}

impl<const MODULUS: u64> View for Polynomial<MODULUS> {
    type V = Seq<int>;

    open spec fn view(&self) -> Seq<int> {
        values(self.coefficients@)
    }
}

/// Removes the trailing zero coefficients.
fn trim_coefficients<const MODULUS: u64>(coeffs: &mut Vec<FieldElement<MODULUS>>)
    ensures
        values(final(coeffs)@) == trim(values(old(coeffs)@)),
        final(coeffs)@ == old(coeffs)@.take(final(coeffs)@.len() as int),
{
    let zero = FieldElement::<MODULUS>::zero();
    loop
        invariant
            zero@ == 0,
            coeffs@.len() <= old(coeffs)@.len(),
            coeffs@ == old(coeffs)@.take(coeffs@.len() as int),
            trim(values(coeffs@)) == trim(values(old(coeffs)@)),
        ensures
            values(coeffs@) == trim(values(old(coeffs)@)),
        decreases coeffs@.len(),
    {
        let n = coeffs.len();
        if n == 0 {
            break ;
        }
        let last = coeffs[n - 1];
        if !(last == zero) {
            break ;
        }
        proof {
            assert(values(coeffs@).last() == 0);
            assert(values(coeffs@).drop_last() =~= values(coeffs@.drop_last()));
            assert(coeffs@.drop_last() =~= old(coeffs)@.take(n - 1));
        }
        coeffs.pop();
    }
}

impl<const MODULUS: u64> Polynomial<MODULUS> {
    /// The coefficients are residues, the leading one is not zero, and
    /// `degree` is the index of the leading one, or -1 for the zero
    /// polynomial.
    pub open spec fn wf(&self) -> bool {
        &&& reduced(self@, MODULUS as int)
        &&& trimmed(self@)
        &&& self.degree == self@.len() - 1
    }

    /// The polynomial with the given coefficients, trailing zeros dropped.
    pub fn new(coeffs: Vec<FieldElement<MODULUS>>) -> (r: Self)
        requires
            reduced(values(coeffs@), MODULUS as int),
            coeffs@.len() <= isize::MAX + 1,
        ensures
            r@ == trim(values(coeffs@)),
            r.wf(),
    {
        let mut coeffs = coeffs;
        let ghost before = values(coeffs@);
        trim_coefficients(&mut coeffs);
        proof {
            lemma_trim_props(before);
            lemma_trim_reduced(before, MODULUS as int);
        }
        let deg: isize = if coeffs.len() == 0 {
            -1
        } else {
            (coeffs.len() - 1) as isize
        };
        Polynomial { coefficients: coeffs, degree: deg }
    }

    /// The zero polynomial.
    pub fn zero() -> (r: Self)
        ensures
            r@ == Seq::<int>::empty(),
            r.wf(),
    {
        let r = Polynomial { coefficients: Vec::new(), degree: -1 };
        assert(r@ =~= Seq::<int>::empty());
        r
    }

    /// Drops trailing zero coefficients and recomputes `degree`.
    pub fn update_degree(&mut self)
        requires
            reduced(old(self)@, MODULUS as int),
            old(self)@.len() <= isize::MAX + 1,
        ensures
            final(self)@ == trim(old(self)@),
            final(self).wf(),
    {
        let ghost before = self@;
        trim_coefficients(&mut self.coefficients);
        proof {
            lemma_trim_props(before);
            lemma_trim_reduced(before, MODULUS as int);
        }
        self.degree = if self.coefficients.len() == 0 {
            -1
        } else {
            (self.coefficients.len() - 1) as isize
        };
    }

    /// Whether this is the zero polynomial.
    pub fn is_zero(&self) -> (r: bool)
        ensures
            r == (self.degree == -1),
            self.wf() ==> r == (self@.len() == 0),
    {
        self.degree == -1
    }

    /// The coefficient of the highest power, if the polynomial is not zero.
    pub fn leading_coefficient(&self) -> (r: Option<FieldElement<MODULUS>>)
        requires
            self.wf(),
        ensures
            self@.len() == 0 ==> r is None,
            self@.len() > 0 ==> r is Some && r->Some_0@ == self@.last() && r->Some_0
                == self.coefficients@.last(),
    {
        if self.is_zero() {
            None
        } else {
            Some(self.coefficients[self.degree as usize])
        }
    }

    /// The value at `x`, by Horner's rule.
    pub fn evaluate(&self, x: FieldElement<MODULUS>) -> (r: FieldElement<MODULUS>)
        requires
            self.wf(),
            x.wf(),
        ensures
            r@ == poly_eval(self@, x@) % (MODULUS as int),
            r.wf(),
    {
        let mut result = FieldElement::<MODULUS>::zero();
        let mut i: usize = self.coefficients.len();
        proof {
            lemma_small_mod(0, MODULUS as nat);
        }
        while i > 0
            invariant
                self.wf(),
                x.wf(),
                result.wf(),
                i <= self.coefficients@.len(),
                result@ == poly_eval_from(self@, x@, i as int) % (MODULUS as int),
            decreases i,
        {
            i = i - 1;
            let c = self.coefficients[i];
            proof {
                let m = MODULUS as int;
                let rest = poly_eval_from(self@, x@, i + 1);
                assert(c@ == self@[i as int]);
                assert(0 <= c@ < m);
                // ((rest % m) * x) % m + c  ==  c + x * rest   (mod m)
                lemma_mul_mod_noop_left(rest, x@, m);
                lemma_add_mod_noop(rest * x@, c@, m);
                lemma_small_mod(c@ as nat, m as nat);
                assert(rest * x@ == x@ * rest) by (nonlinear_arith);
            }
            result = result * x + c;
        }
        result
    }
}

/// A vector of `n` zeros.
fn zero_coefficients<const MODULUS: u64>(n: usize) -> (v: Vec<FieldElement<MODULUS>>)
    ensures
        v@.len() == n,
        forall|i: int| 0 <= i < n ==> (#[trigger] v@[i])@ == 0,
{
    let mut v: Vec<FieldElement<MODULUS>> = Vec::new();
    let mut i: usize = 0;
    while i < n
        invariant
            i <= n,
            v@.len() == i,
            forall|j: int| 0 <= j < i ==> (#[trigger] v@[j])@ == 0,
        decreases n - i,
    {
        v.push(FieldElement::zero());
        i = i + 1;
    }
    v
}

/// The coefficient at index `i`, zero beyond the stored ones.
fn coefficient_or_zero<const MODULUS: u64>(v: &Vec<FieldElement<MODULUS>>, i: usize) -> (c:
    FieldElement<MODULUS>)
    requires
        MODULUS > 0,
        reduced(values(v@), MODULUS as int),
    ensures
        c@ == coeff(values(v@), i as int),
        c.wf(),
{
    if i < v.len() {
        let c = v[i];
        assert(c@ == values(v@)[i as int]);
        c
    } else {
        FieldElement::zero()
    }
}

impl<const MODULUS: u64> Polynomial<MODULUS> {
    /// Replaces `self` by `self + rhs`.
    pub fn add_assign(&mut self, rhs: &Self)
        requires
            old(self).wf(),
            rhs.wf(),
        ensures
            final(self)@ == poly_add(old(self)@, rhs@, MODULUS as int),
            final(self).wf(),
    {
        let n = if self.coefficients.len() >= rhs.coefficients.len() {
            self.coefficients.len()
        } else {
            rhs.coefficients.len()
        };
        if n == 0 {
            assert(poly_add(self@, rhs@, MODULUS as int) =~= self@);
            return ;
        }
        assert(MODULUS > 0) by {
            if self@.len() > 0 {
                assert(0 <= self@[0] < MODULUS);
            } else {
                assert(0 <= rhs@[0] < MODULUS);
            }
        }
        let mut out: Vec<FieldElement<MODULUS>> = Vec::new();
        let mut i: usize = 0;
        while i < n
            invariant
                MODULUS > 0,
                self.wf(),
                rhs.wf(),
                i <= n,
                out@.len() == i,
                forall|j: int|
                    0 <= j < i ==> (#[trigger] out@[j])@ == (coeff(self@, j) + coeff(rhs@, j)) % (
                    MODULUS as int),
            decreases n - i,
        {
            let a = coefficient_or_zero(&self.coefficients, i);
            let b = coefficient_or_zero(&rhs.coefficients, i);
            out.push(a + b);
            i = i + 1;
        }
        proof {
            let m = MODULUS as int;
            let a = self@;
            let b = rhs@;
            let sum = Seq::new(n as nat, |i: int| (coeff(a, i) + coeff(b, i)) % m);
            assert(values(out@) =~= sum);
            assert(reduced(sum, m)) by {
                assert forall|i: int| 0 <= i < sum.len() implies 0 <= #[trigger] sum[i] < m by {
                    lemma_mod_bound(coeff(a, i) + coeff(b, i), m);
                }
            }
        }
        self.coefficients = out;
        self.update_degree();
    }

    /// Replaces `self` by `self - rhs`.
    pub fn sub_assign(&mut self, rhs: &Self)
        requires
            old(self).wf(),
            rhs.wf(),
        ensures
            final(self)@ == poly_sub(old(self)@, rhs@, MODULUS as int),
            final(self).wf(),
    {
        let n = if self.coefficients.len() >= rhs.coefficients.len() {
            self.coefficients.len()
        } else {
            rhs.coefficients.len()
        };
        if n == 0 {
            assert(poly_sub(self@, rhs@, MODULUS as int) =~= self@);
            return ;
        }
        assert(MODULUS > 0) by {
            if self@.len() > 0 {
                assert(0 <= self@[0] < MODULUS);
            } else {
                assert(0 <= rhs@[0] < MODULUS);
            }
        }
        let mut out: Vec<FieldElement<MODULUS>> = Vec::new();
        let mut i: usize = 0;
        while i < n
            invariant
                MODULUS > 0,
                self.wf(),
                rhs.wf(),
                i <= n,
                out@.len() == i,
                forall|j: int|
                    0 <= j < i ==> (#[trigger] out@[j])@ == (coeff(self@, j) - coeff(rhs@, j)) % (
                    MODULUS as int),
            decreases n - i,
        {
            let a = coefficient_or_zero(&self.coefficients, i);
            let b = coefficient_or_zero(&rhs.coefficients, i);
            out.push(a - b);
            i = i + 1;
        }
        proof {
            let m = MODULUS as int;
            let a = self@;
            let b = rhs@;
            let diff = Seq::new(n as nat, |i: int| (coeff(a, i) - coeff(b, i)) % m);
            assert(values(out@) =~= diff);
            assert(reduced(diff, m)) by {
                assert forall|i: int| 0 <= i < diff.len() implies 0 <= #[trigger] diff[i] < m by {
                    lemma_mod_bound(coeff(a, i) - coeff(b, i), m);
                }
            }
        }
        self.coefficients = out;
        self.update_degree();
    }

    /// Replaces every coefficient by its negative.
    pub fn neg_assign(&mut self)
        requires
            old(self).wf(),
        ensures
            final(self)@ == poly_neg(old(self)@, MODULUS as int),
            final(self).wf(),
    {
        let n = self.coefficients.len();
        let mut out: Vec<FieldElement<MODULUS>> = Vec::new();
        let mut i: usize = 0;
        while i < n
            invariant
                self.wf(),
                n == self.coefficients@.len(),
                i <= n,
                out@.len() == i,
                forall|j: int| 0 <= j < i ==> (#[trigger] out@[j])@ == (-self@[j]) % (MODULUS as int),
                forall|j: int| 0 <= j < i ==> (#[trigger] out@[j]).wf(),
            decreases n - i,
        {
            let c = self.coefficients[i];
            assert(c@ == self@[i as int]);
            out.push(core::ops::Neg::neg(c));
            i = i + 1;
        }
        proof {
            let a = self@;
            let m = MODULUS as int;
            assert(values(out@) =~= Seq::new(a.len(), |i: int| (-a[i]) % m));
            assert(reduced(values(out@), m)) by {
                assert forall|i: int| 0 <= i < out@.len() implies 0 <= #[trigger] values(out@)[i]
                    < m by {
                    assert(out@[i].wf());
                }
            }
        }
        self.coefficients = out;
        self.update_degree();
    }

    /// Replaces `self` by `self * rhs`, by the schoolbook convolution.
    pub fn mul_assign(&mut self, rhs: &Self)
        requires
            old(self).wf(),
            rhs.wf(),
            old(self)@.len() + rhs@.len() <= isize::MAX,
        ensures
            final(self)@ == poly_mul(old(self)@, rhs@, MODULUS as int),
            final(self).wf(),
    {
        if self.is_zero() {
            return ;
        }
        if rhs.is_zero() {
            *self = Self::zero();
            return ;
        }
        assert(MODULUS > 0) by {
            assert(0 <= self@[0] < MODULUS);
        }
        let la = self.coefficients.len();
        let lb = rhs.coefficients.len();
        let new_len = la + lb - 1;
        let mut product = zero_coefficients::<MODULUS>(new_len);
        let mut i: usize = 0;
        proof {
            lemma_small_mod(0, MODULUS as nat);
        }
        while i < la
            invariant
                MODULUS > 0,
                self.wf(),
                rhs.wf(),
                la == self.coefficients@.len(),
                lb == rhs.coefficients@.len(),
                lb > 0,
                new_len == la + lb - 1,
                i <= la,
                product@.len() == new_len,
                forall|k: int|
                    0 <= k < new_len ==> (#[trigger] product@[k])@ == conv_upto(
                        self@,
                        rhs@,
                        k,
                        i as int,
                    ) % (MODULUS as int),
            decreases la - i,
        {
            let a = self.coefficients[i];
            assert(a@ == self@[i as int]);
            let mut j: usize = 0;
            while j < lb
                invariant
                    MODULUS > 0,
                    self.wf(),
                    rhs.wf(),
                    la == self.coefficients@.len(),
                    lb == rhs.coefficients@.len(),
                    new_len == la + lb - 1,
                    i < la,
                    j <= lb,
                    a@ == self@[i as int],
                    a.wf(),
                    product@.len() == new_len,
                    forall|k: int|
                        0 <= k < new_len ==> (#[trigger] product@[k])@ == (conv_upto(
                            self@,
                            rhs@,
                            k,
                            i as int,
                        ) + (if i <= k < i + j {
                            a@ * rhs@[k - i]
                        } else {
                            0
                        })) % (MODULUS as int),
                decreases lb - j,
            {
                let b = rhs.coefficients[j];
                assert(b@ == rhs@[j as int]);
                let cur = product[i + j];
                proof {
                    let m = MODULUS as int;
                    let base = conv_upto(self@, rhs@, (i + j) as int, i as int);
                    assert(cur@ == base % m);
                    lemma_mod_bound(base, m);
                    lemma_add_mod_noop(base, a@ * b@, m);
                }
                product.set(i + j, cur + a * b);
                j = j + 1;
            }
            proof {
                assert forall|k: int| 0 <= k < new_len implies (#[trigger] product@[k])@
                    == conv_upto(self@, rhs@, k, i + 1) % (MODULUS as int) by {
                    if !(i <= k < i + lb) {
                        assert(coeff(rhs@, k - i) == 0);
                        assert(coeff(self@, i as int) * 0 == 0);
                    }
                }
            }
            i = i + 1;
        }
        proof {
            let m = MODULUS as int;
            let a = self@;
            let b = rhs@;
            let prod = Seq::new(new_len as nat, |k: int| conv(a, b, k) % m);
            assert(values(product@) =~= prod);
            assert(reduced(prod, m)) by {
                assert forall|k: int| 0 <= k < prod.len() implies 0 <= #[trigger] prod[k] < m by {
                    lemma_mod_bound(conv(a, b, k), m);
                }
            }
        }
        self.coefficients = product;
        self.update_degree();
    }

    /// Quotient and remainder of `self` by `rhs`, by schoolbook long
    /// division. The zero polynomial cannot be divided by. A dividend of
    /// lower degree than the divisor is its own remainder; any other
    /// division needs the inverse of the divisor's leading coefficient.
    pub fn div_rem(&self, rhs: &Self) -> (r: Result<(Self, Self), StarkError>)
        requires
            self.wf(),
            rhs.wf(),
        ensures
            rhs@.len() == 0 ==> r == Err::<(Self, Self), StarkError>(StarkError::ArithmeticError),
            rhs@.len() > 0 && self@.len() >= rhs@.len() && MODULUS <= 2 ==> r == Err::<
                (Self, Self),
                StarkError,
            >(StarkError::ConfigurationError),
            rhs@.len() > 0 && (self@.len() < rhs@.len() || MODULUS > 2) ==> r is Ok && (
                r->Ok_0.0@,
                r->Ok_0.1@,
            ) == poly_div_rem(self@, rhs@, MODULUS as int) && r->Ok_0.0.wf() && r->Ok_0.1.wf(),
    {
        if rhs.is_zero() {
            return Err(StarkError::ArithmeticError);
        }
        if self.is_zero() || self.degree < rhs.degree {
            return Ok((Self::zero(), self.clone()));
        }
        let la = self.coefficients.len();
        let lb = rhs.coefficients.len();
        let den_lead = rhs.coefficients[lb - 1];
        assert(den_lead@ == rhs@.last());
        let inv = match den_lead.inverse() {
            Ok(inv) => inv,
            Err(e) => {
                return Err(e);
            },
        };
        let steps = la - lb + 1;
        let mut rem = self.clone().coefficients;
        let mut quotient = zero_coefficients::<MODULUS>(steps);
        let mut t: usize = 0;
        proof {
            assert(values(quotient@) =~= Seq::new(steps as nat, |i: int| 0));
        }
        while t < steps
            invariant
                MODULUS > 2,
                self.wf(),
                rhs.wf(),
                inv.wf(),
                inv@ == field_inv(rhs@.last(), MODULUS as int),
                la == self.coefficients@.len(),
                lb == rhs.coefficients@.len(),
                0 < lb <= la,
                steps == la - lb + 1,
                t <= steps,
                quotient@.len() == steps,
                rem@.len() == la,
                reduced(values(quotient@), MODULUS as int),
                reduced(values(rem@), MODULUS as int),
                (values(quotient@), values(rem@)) == div_state(
                    self@,
                    rhs@,
                    MODULUS as int,
                    t as nat,
                ),
            decreases steps - t,
        {
            let shift = la - lb - t;
            let lead = rem[shift + lb - 1];
            assert(lead@ == values(rem@)[shift + lb - 1]);
            let ratio = lead * inv;
            let ghost q0 = values(quotient@);
            let ghost r0 = values(rem@);
            quotient.set(shift, ratio);
            let mut i: usize = 0;
            while i < lb
                invariant
                    MODULUS > 2,
                    rhs.wf(),
                    ratio.wf(),
                    lb == rhs.coefficients@.len(),
                    0 < lb <= la,
                    shift + lb <= la,
                    i <= lb,
                    rem@.len() == la,
                    r0.len() == la,
                    reduced(r0, MODULUS as int),
                    reduced(values(rem@), MODULUS as int),
                    values(rem@) == Seq::new(
                        la as nat,
                        |k: int|
                            if shift <= k < shift + i {
                                (r0[k] - ratio@ * rhs@[k - shift]) % (MODULUS as int)
                            } else {
                                r0[k]
                            },
                    ),
                decreases lb - i,
            {
                let cur = rem[i + shift];
                let b = rhs.coefficients[i];
                assert(b@ == rhs@[i as int]);
                assert(cur@ == values(rem@)[i + shift]);
                let ghost before = values(rem@);
                let next = cur - ratio * b;
                proof {
                    let m = MODULUS as int;
                    lemma_sub_mod_noop_right(cur@, ratio@ * b@, m);
                }
                rem.set(i + shift, next);
                proof {
                    let m = MODULUS as int;
                    assert(values(rem@) =~= before.update(i + shift, next@));
                    assert(values(rem@) =~= Seq::new(
                        la as nat,
                        |k: int|
                            if shift <= k < shift + (i + 1) {
                                (r0[k] - ratio@ * rhs@[k - shift]) % m
                            } else {
                                r0[k]
                            },
                    ));
                }
                i = i + 1;
            }
            proof {
                let m = MODULUS as int;
                assert(values(quotient@) =~= q0.update(shift as int, ratio@));
                let next = div_step(q0, r0, rhs@, inv@, shift as int, m);
                assert(values(rem@) =~= next.1);
                assert(values(quotient@) == next.0);
            }
            t = t + 1;
        }
        Ok((Polynomial::new(quotient), Polynomial::new(rem)))
    }

    /// The exact quotient of `self` by `rhs`: a division that leaves a
    /// remainder is an error.
    pub fn div(self, rhs: Self) -> (r: Result<Self, StarkError>)
        requires
            self.wf(),
            rhs.wf(),
        ensures
            rhs@.len() == 0 ==> r == Err::<Self, StarkError>(StarkError::ArithmeticError),
            rhs@.len() > 0 && self@.len() >= rhs@.len() && MODULUS <= 2 ==> r == Err::<
                Self,
                StarkError,
            >(StarkError::ConfigurationError),
            rhs@.len() > 0 && (self@.len() < rhs@.len() || MODULUS > 2) ==> (if poly_div_rem(
                self@,
                rhs@,
                MODULUS as int,
            ).1.len() == 0 {
                r is Ok && r->Ok_0@ == poly_div_rem(self@, rhs@, MODULUS as int).0 && r->Ok_0.wf()
            } else {
                r == Err::<Self, StarkError>(StarkError::ArithmeticError)
            }),
    {
        match self.div_rem(&rhs) {
            Ok((q, rem)) => {
                if rem.is_zero() {
                    Ok(q)
                } else {
                    Err(StarkError::ArithmeticError)
                }
            },
            Err(e) => Err(e),
        }
    }

    /// The remainder of `self` by `rhs`.
    pub fn rem(self, rhs: Self) -> (r: Result<Self, StarkError>)
        requires
            self.wf(),
            rhs.wf(),
        ensures
            rhs@.len() == 0 ==> r == Err::<Self, StarkError>(StarkError::ArithmeticError),
            rhs@.len() > 0 && self@.len() >= rhs@.len() && MODULUS <= 2 ==> r == Err::<
                Self,
                StarkError,
            >(StarkError::ConfigurationError),
            rhs@.len() > 0 && (self@.len() < rhs@.len() || MODULUS > 2) ==> r is Ok && r->Ok_0@
                == poly_div_rem(self@, rhs@, MODULUS as int).1 && r->Ok_0.wf(),
    {
        match self.div_rem(&rhs) {
            Ok((q, rem)) => Ok(rem),
            Err(e) => Err(e),
        }
    }

    /// Replaces `self` by its remainder by `rhs`; on an error `self` is
    /// unchanged.
    pub fn rem_assign(&mut self, rhs: Self) -> (r: Result<(), StarkError>)
        requires
            old(self).wf(),
            rhs.wf(),
        ensures
            rhs@.len() == 0 ==> r == Err::<(), StarkError>(StarkError::ArithmeticError),
            rhs@.len() > 0 && old(self)@.len() >= rhs@.len() && MODULUS <= 2 ==> r == Err::<
                (),
                StarkError,
            >(StarkError::ConfigurationError),
            rhs@.len() > 0 && (old(self)@.len() < rhs@.len() || MODULUS > 2) ==> r is Ok
                && final(self)@ == poly_div_rem(old(self)@, rhs@, MODULUS as int).1,
            r is Err ==> *final(self) == *old(self),
            final(self).wf(),
    {
        match self.div_rem(&rhs) {
            Ok((q, rem)) => {
                *self = rem;
                Ok(())
            },
            Err(e) => Err(e),
        }
    }

    /// The composition `self(other(x))`, by Horner's rule in the ring.
    pub fn compose(&self, other: &Polynomial<MODULUS>) -> (r: Polynomial<MODULUS>)
        requires
            self.wf(),
            other.wf(),
            self@.len() * other@.len() + 1 <= isize::MAX,
        ensures
            r@ == poly_compose(self@, other@, MODULUS as int),
            r.wf(),
    {
        let la = self.coefficients.len();
        let ghost lb = other@.len() as int;
        let mut result = Polynomial::<MODULUS>::zero();
        let mut i: usize = la;
        proof {
            assert(0 * lb == 0) by (nonlinear_arith);
        }
        while i > 0
            invariant
                self.wf(),
                other.wf(),
                result.wf(),
                la == self.coefficients@.len(),
                lb == other@.len(),
                la * lb + 1 <= isize::MAX,
                i <= la,
                result@.len() <= (la - i) * lb + 1,
                result@ == poly_compose_from(self@, other@, MODULUS as int, i as int),
            decreases i,
        {
            i = i - 1;
            let c = self.coefficients[i];
            assert(c@ == self@[i as int]);
            proof {
                let k = la - i - 1;
                assert((k + 1) * lb <= la * lb && (k + 1) * lb == k * lb + lb) by (nonlinear_arith)
                    requires
                        0 <= k,
                        k + 1 <= la,
                        0 <= lb,
                ;
            }
            let ghost prev = result@;
            result.mul_assign(other);
            let mut single: Vec<FieldElement<MODULUS>> = Vec::new();
            single.push(c);
            assert(values(single@) =~= seq![c@]);
            let constant = Polynomial::new(single);
            proof {
                lemma_trim_props(seq![c@]);
                lemma_mul_len(prev, other@, MODULUS as int);
                lemma_add_len(result@, constant@, MODULUS as int);
            }
            result.add_assign(&constant);
        }
        result
    }

    /// One folding step: the even-indexed coefficients plus `beta` times
    /// the odd-indexed ones. The length is halved, rounding up.
    pub fn fold(&self, beta: FieldElement<MODULUS>) -> (r: Polynomial<MODULUS>)
        requires
            self.wf(),
            beta.wf(),
        ensures
            r@ == poly_fold(self@, beta@, MODULUS as int),
            r@.len() <= (self@.len() + 1) / 2,
            r.wf(),
    {
        let la = self.coefficients.len();
        let half = la / 2 + la % 2;
        let mut out: Vec<FieldElement<MODULUS>> = Vec::new();
        let mut i: usize = 0;
        while i < half
            invariant
                self.wf(),
                beta.wf(),
                la == self.coefficients@.len(),
                half == (la + 1) / 2,
                i <= half,
                out@.len() == i,
                forall|j: int|
                    0 <= j < i ==> (#[trigger] out@[j])@ == (coeff(self@, 2 * j) + beta@ * coeff(
                        self@,
                        2 * j + 1,
                    )) % (MODULUS as int),
                forall|j: int| 0 <= j < i ==> (#[trigger] out@[j]).wf(),
            decreases half - i,
        {
            let even = self.coefficients[2 * i];
            assert(even@ == self@[2 * i]);
            let odd = coefficient_or_zero(&self.coefficients, 2 * i + 1);
            proof {
                let m = MODULUS as int;
                lemma_add_mod_noop_right(even@, odd@ * beta@, m);
                assert(odd@ * beta@ == beta@ * odd@) by (nonlinear_arith);
            }
            out.push(even + odd * beta);
            i = i + 1;
        }
        proof {
            let a = self@;
            let m = MODULUS as int;
            let b = beta@;
            let folded = Seq::new(
                half as nat,
                |i: int| (coeff(a, 2 * i) + b * coeff(a, 2 * i + 1)) % m,
            );
            assert(values(out@) =~= folded);
            assert(reduced(values(out@), m)) by {
                assert forall|i: int| 0 <= i < out@.len() implies 0 <= #[trigger] values(out@)[i]
                    < m by {
                    assert(out@[i].wf());
                }
            }
            lemma_trim_props(folded);
        }
        Polynomial::new(out)
    }

    /// Divides every coefficient by `scalar`; `scalar_div` under the name
    /// of the compound operator.
    pub fn div_assign(&mut self, scalar: FieldElement<MODULUS>) -> (r: Result<(), StarkError>)
        requires
            old(self).wf(),
            scalar.wf(),
        ensures
            scalar@ == 0 ==> r == Err::<(), StarkError>(StarkError::ArithmeticError),
            scalar@ != 0 && MODULUS <= 2 ==> r == Err::<(), StarkError>(
                StarkError::ConfigurationError,
            ),
            scalar@ != 0 && MODULUS > 2 ==> r is Ok && final(self)@ == poly_scale(
                old(self)@,
                field_inv(scalar@, MODULUS as int),
                MODULUS as int,
            ),
            r is Err ==> *final(self) == *old(self),
            final(self).wf(),
    {
        self.scalar_div(scalar)
    }

    /// Multiplies every coefficient by `scalar`.
    pub fn scalar_mul(&mut self, scalar: FieldElement<MODULUS>)
        requires
            old(self).wf(),
            scalar.wf(),
        ensures
            final(self)@ == poly_scale(old(self)@, scalar@, MODULUS as int),
            final(self).wf(),
    {
        let n = self.coefficients.len();
        let mut out: Vec<FieldElement<MODULUS>> = Vec::new();
        let mut i: usize = 0;
        while i < n
            invariant
                self.wf(),
                scalar.wf(),
                n == self.coefficients@.len(),
                i <= n,
                out@.len() == i,
                forall|j: int|
                    0 <= j < i ==> (#[trigger] out@[j])@ == (self@[j] * scalar@) % (MODULUS as int),
                forall|j: int| 0 <= j < i ==> (#[trigger] out@[j]).wf(),
            decreases n - i,
        {
            let c = self.coefficients[i];
            assert(c@ == self@[i as int]);
            out.push(c * scalar);
            i = i + 1;
        }
        proof {
            let a = self@;
            let m = MODULUS as int;
            let c = scalar@;
            assert(values(out@) =~= Seq::new(a.len(), |i: int| (a[i] * c) % m));
            assert(reduced(values(out@), m)) by {
                assert forall|i: int| 0 <= i < out@.len() implies 0 <= #[trigger] values(out@)[i]
                    < m by {
                    assert(out@[i].wf());
                }
            }
        }
        self.coefficients = out;
        self.update_degree();
    }

    /// Multiplies every coefficient by the inverse of `scalar`. A zero
    /// scalar cannot be divided by; on an error `self` is unchanged.
    pub fn scalar_div(&mut self, scalar: FieldElement<MODULUS>) -> (r: Result<(), StarkError>)
        requires
            old(self).wf(),
            scalar.wf(),
        ensures
            scalar@ == 0 ==> r == Err::<(), StarkError>(StarkError::ArithmeticError),
            scalar@ != 0 && MODULUS <= 2 ==> r == Err::<(), StarkError>(
                StarkError::ConfigurationError,
            ),
            scalar@ != 0 && MODULUS > 2 ==> r is Ok && final(self)@ == poly_scale(
                old(self)@,
                field_inv(scalar@, MODULUS as int),
                MODULUS as int,
            ),
            r is Err ==> *final(self) == *old(self),
            final(self).wf(),
    {
        if scalar == FieldElement::<MODULUS>::zero() {
            return Err(StarkError::ArithmeticError);
        }
        match scalar.inverse() {
            Ok(inv) => {
                self.scalar_mul(inv);
                Ok(())
            },
            Err(e) => Err(e),
        }
    }
}

/// The product has at most `a.len() + b.len() - 1` coefficients.
pub proof fn lemma_mul_len(a: Seq<int>, b: Seq<int>, m: int)
    ensures
        poly_mul(a, b, m).len() <= (if a.len() == 0 || b.len() == 0 {
            0
        } else {
            a.len() + b.len() - 1
        }),
{
    if a.len() > 0 && b.len() > 0 {
        lemma_trim_props(Seq::new((a.len() + b.len() - 1) as nat, |k: int| conv(a, b, k) % m));
    }
}

/// The sum has at most as many coefficients as the longer summand.
pub proof fn lemma_add_len(a: Seq<int>, b: Seq<int>, m: int)
    ensures
        poly_add(a, b, m).len() <= (if a.len() >= b.len() {
            a.len()
        } else {
            b.len()
        }),
{
    lemma_trim_props(
        Seq::new(
            if a.len() >= b.len() {
                a.len()
            } else {
                b.len()
            },
            |i: int| (coeff(a, i) + coeff(b, i)) % m,
        ),
    );
}

impl<const MODULUS: u64> core::ops::Add for Polynomial<MODULUS> {
    type Output = Self;

    fn add(self, rhs: Self) -> (r: Self)
        ensures
            r@ == poly_add(self@, rhs@, MODULUS as int),
            r.wf(),
    {
        let mut out = self;
        out.add_assign(&rhs);
        out
    }
}

impl<const MODULUS: u64> AddSpecImpl for Polynomial<MODULUS> {
    open spec fn obeys_add_spec() -> bool {
        false
    }

    open spec fn add_req(self, rhs: Self) -> bool {
        self.wf() && rhs.wf()
    }

    open spec fn add_spec(self, rhs: Self) -> Self {
        arbitrary()
    }
}

impl<const MODULUS: u64> core::ops::Sub for Polynomial<MODULUS> {
    type Output = Self;

    fn sub(self, rhs: Self) -> (r: Self)
        ensures
            r@ == poly_sub(self@, rhs@, MODULUS as int),
            r.wf(),
    {
        let mut out = self;
        out.sub_assign(&rhs);
        out
    }
}

impl<const MODULUS: u64> SubSpecImpl for Polynomial<MODULUS> {
    open spec fn obeys_sub_spec() -> bool {
        false
    }

    open spec fn sub_req(self, rhs: Self) -> bool {
        self.wf() && rhs.wf()
    }

    open spec fn sub_spec(self, rhs: Self) -> Self {
        arbitrary()
    }
}

impl<const MODULUS: u64> core::ops::Mul for Polynomial<MODULUS> {
    type Output = Self;

    fn mul(self, rhs: Self) -> (r: Self)
        ensures
            r@ == poly_mul(self@, rhs@, MODULUS as int),
            r.wf(),
    {
        let mut out = self;
        out.mul_assign(&rhs);
        out
    }
}

impl<const MODULUS: u64> MulSpecImpl for Polynomial<MODULUS> {
    open spec fn obeys_mul_spec() -> bool {
        false
    }

    open spec fn mul_req(self, rhs: Self) -> bool {
        self.wf() && rhs.wf() && self@.len() + rhs@.len() <= isize::MAX
    }

    open spec fn mul_spec(self, rhs: Self) -> Self {
        arbitrary()
    }
}

impl<const MODULUS: u64> core::ops::Mul<FieldElement<MODULUS>> for Polynomial<MODULUS> {
    type Output = Self;

    fn mul(self, scalar: FieldElement<MODULUS>) -> (r: Self)
        ensures
            r@ == poly_scale(self@, scalar@, MODULUS as int),
            r.wf(),
    {
        let mut out = self;
        out.scalar_mul(scalar);
        out
    }
}

impl<const MODULUS: u64> MulSpecImpl<FieldElement<MODULUS>> for Polynomial<MODULUS> {
    open spec fn obeys_mul_spec() -> bool {
        false
    }

    open spec fn mul_req(self, scalar: FieldElement<MODULUS>) -> bool {
        self.wf() && scalar.wf()
    }

    open spec fn mul_spec(self, scalar: FieldElement<MODULUS>) -> Self {
        arbitrary()
    }
}

impl<const MODULUS: u64> core::ops::Neg for Polynomial<MODULUS> {
    type Output = Self;

    fn neg(self) -> (r: Self)
        ensures
            r@ == poly_neg(self@, MODULUS as int),
            r.wf(),
    {
        let mut out = self;
        out.neg_assign();
        out
    }
}

impl<const MODULUS: u64> NegSpecImpl for Polynomial<MODULUS> {
    open spec fn obeys_neg_spec() -> bool {
        false
    }

    open spec fn neg_req(self) -> bool {
        self.wf()
    }

    open spec fn neg_spec(self) -> Self {
        arbitrary()
    }
}

impl<const MODULUS: u64> Clone for Polynomial<MODULUS> {
    fn clone(&self) -> (r: Self)
        ensures
            r.coefficients@ == self.coefficients@,
            r.degree == self.degree,
            r@ == self@,
    {
        let mut v: Vec<FieldElement<MODULUS>> = Vec::new();
        let mut i: usize = 0;
        while i < self.coefficients.len()
            invariant
                i <= self.coefficients@.len(),
                v@ == self.coefficients@.take(i as int),
            decreases self.coefficients@.len() - i,
        {
            v.push(self.coefficients[i]);
            i = i + 1;
            assert(v@ =~= self.coefficients@.take(i as int));
        }
        assert(v@ =~= self.coefficients@);
        Polynomial { coefficients: v, degree: self.degree }
    }
}

impl<const MODULUS: u64> PartialEq for Polynomial<MODULUS> {
    fn eq(&self, other: &Self) -> (r: bool) {
        if self.degree != other.degree {
            return false;
        }
        if self.coefficients.len() != other.coefficients.len() {
            assert(self@.len() != other@.len());
            return false;
        }
        let mut i: usize = 0;
        while i < self.coefficients.len()
            invariant
                i <= self.coefficients@.len(),
                self.coefficients@.len() == other.coefficients@.len(),
                forall|j: int| 0 <= j < i ==> self@[j] == other@[j],
            decreases self.coefficients@.len() - i,
        {
            if self.coefficients[i] != other.coefficients[i] {
                assert(self@[i as int] != other@[i as int]);
                return false;
            }
            i = i + 1;
        }
        assert(self@ =~= other@);
        true
    }
}

impl<const MODULUS: u64> PartialEqSpecImpl for Polynomial<MODULUS> {
    open spec fn obeys_eq_spec() -> bool {
        true
    }

    open spec fn eq_spec(&self, other: &Self) -> bool {
        self.degree == other.degree && self@ == other@
    }
}

impl<const MODULUS: u64> Eq for Polynomial<MODULUS> {

}

} // verus!
