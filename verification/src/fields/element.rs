use crate::error::StarkError;
use crate::fields::modular::{
    field_add, field_div, field_inv, field_mul, field_neg, field_pow, field_sub,
    lemma_square_and_multiply_step,
};
use rand_core::OsRng;
use rand_core::RngCore;
use subtle::ConstantTimeEq;
use vstd::arithmetic::div_mod::*;
use vstd::arithmetic::power::*;
use vstd::prelude::*;
use vstd::std_specs::cmp::PartialEqSpecImpl;
use vstd::std_specs::ops::AddSpecImpl;
use vstd::std_specs::ops::MulSpecImpl;
use vstd::std_specs::ops::NegSpecImpl;
use vstd::std_specs::ops::SubSpecImpl;

verus! {

/// An element of the field of integers modulo `MODULUS`.
#[derive(Debug, Clone, Copy)]
pub struct FieldElement<const MODULUS: u64> {
    value: u64,
}

impl<const MODULUS: u64> View for FieldElement<MODULUS> {
    type V = int;

    closed spec fn view(&self) -> int {
        self.value as int
    }
}

/// The big-endian digits of `v` in base 256, `n` of them.
pub open spec fn be_bytes(v: int, n: nat) -> Seq<u8>
    decreases n,
{
    if n == 0 {
        Seq::empty()
    } else {
        be_bytes(v / 256, (n - 1) as nat).push((v % 256) as u8)
    }
}

/// The number whose big-endian digits in base 256 are `s`.
pub open spec fn be_value(s: Seq<u8>) -> int
    decreases s.len(),
{
    if s.len() == 0 {
        0
    } else {
        be_value(s.drop_last()) * 256 + s.last()
    }
}

/// Decoding undoes encoding for every number that fits in `n` digits.
pub proof fn lemma_be_roundtrip(v: int, n: nat)
    requires
        0 <= v < pow(256, n),
    ensures
        be_bytes(v, n).len() == n,
        be_value(be_bytes(v, n)) == v,
    decreases n,
{
    reveal(pow);
    if n > 0 {
        assert(pow(256, n) == 256 * pow(256, (n - 1) as nat));
        lemma_be_roundtrip(v / 256, (n - 1) as nat);
        let s = be_bytes(v, n);
        assert(s.drop_last() =~= be_bytes(v / 256, (n - 1) as nat));
    }
}

/// The eight big-endian bytes of a machine word.
pub fn word_to_be_bytes(v: u64) -> (r: [u8; 8])
    ensures
        r@ == be_bytes(v as int, 8),
{
    let b7 = (v % 256) as u8;
    let v6 = v / 256;
    let b6 = (v6 % 256) as u8;
    let v5 = v6 / 256;
    let b5 = (v5 % 256) as u8;
    let v4 = v5 / 256;
    let b4 = (v4 % 256) as u8;
    let v3 = v4 / 256;
    let b3 = (v3 % 256) as u8;
    let v2 = v3 / 256;
    let b2 = (v2 % 256) as u8;
    let v1 = v2 / 256;
    let b1 = (v1 % 256) as u8;
    let v0 = v1 / 256;
    let b0 = (v0 % 256) as u8;
    let r = [b0, b1, b2, b3, b4, b5, b6, b7];
    proof {
        reveal_with_fuel(be_bytes, 9);
        assert(r@ =~= be_bytes(v as int, 8));
    }
    r
}

/// Calls `subtle::ConstantTimeEq::ct_eq` on two words and unwraps the
/// `Choice`: the comparison runs in constant time and yields 1 exactly when
/// the words are equal, 0 otherwise.
#[verifier::external_body]
fn ct_eq_u64(a: u64, b: u64) -> (r: u8)
    ensures
        r == (if a == b { 1u8 } else { 0u8 }),
{
    a.ct_eq(&b).unwrap_u8()
}

/// Calls `rand_core::RngCore::next_u64` on the operating system's generator
/// `rand_core::OsRng`. Nothing is known of the word that comes back.
#[verifier::external_body]
fn os_random_u64() -> u64 {
    let mut rng = OsRng;
    rng.next_u64()
}

impl<const MODULUS: u64> FieldElement<MODULUS> {
    /// The representative lies in `[0, MODULUS)`.
    pub open spec fn wf(&self) -> bool {
        0 <= self@ < MODULUS
    }

    /// The element whose representative is `v`.
    pub closed spec fn from_int(v: int) -> Self {
        FieldElement { value: v as u64 }
    }

    /// Reduces `value` modulo `MODULUS`.
    pub fn new(value: u64) -> (r: Self)
        requires
            MODULUS > 0,
        ensures
            r@ == value % MODULUS,
            r.wf(),
    {
        FieldElement { value: value % MODULUS }
    }

    /// The additive identity.
    pub fn zero() -> (r: Self)
        ensures
            r@ == 0,
            MODULUS > 0 ==> r.wf(),
    {
        FieldElement { value: 0 }
    }

    /// The multiplicative identity.
    pub fn one() -> (r: Self)
        ensures
            r@ == 1,
            MODULUS > 1 ==> r.wf(),
    {
        FieldElement { value: 1 }
    }

    /// The representative in `[0, MODULUS)`.
    pub fn value(&self) -> (v: u64)
        ensures
            v == self@,
    {
        self.value
    }

    /// An element drawn from the operating system's random generator.
    pub fn random() -> (r: Self)
        requires
            MODULUS > 0,
        ensures
            r.wf(),
    {
        let word = os_random_u64();
        FieldElement::new(word % MODULUS)
    }

    /// Modular exponentiation by square-and-multiply.
    pub fn pow(&self, exp: u64) -> (r: Self)
        requires
            self.wf(),
        ensures
            r@ == field_pow(self@, exp as nat, MODULUS as int),
            r.wf(),
    {
        let m: u128 = MODULUS as u128;
        let mut result: u64 = 1 % MODULUS;
        let mut base: u64 = self.value;
        let mut e: u64 = exp;
        proof {
            lemma_mul_mod_noop_left(1, pow(self@, exp as nat), MODULUS as int);
        }
        while e > 0
            invariant
                MODULUS > 0,
                m == MODULUS,
                result < MODULUS,
                base < MODULUS,
                (result * pow(base as int, e as nat)) % (MODULUS as int) == pow(
                    self@,
                    exp as nat,
                ) % (MODULUS as int),
            decreases e,
        {
            proof {
                lemma_square_and_multiply_step(result as int, base as int, e as nat, MODULUS as int);
            }
            if e % 2 == 1 {
                assert(result as u128 * base as u128 <= u64::MAX * u64::MAX) by (nonlinear_arith)
                    requires
                        result <= u64::MAX,
                        base <= u64::MAX,
                ;
                result = ((result as u128 * base as u128) % m) as u64;
            }
            assert(base as u128 * base as u128 <= u64::MAX * u64::MAX) by (nonlinear_arith)
                requires
                    base <= u64::MAX,
            ;
            base = ((base as u128 * base as u128) % m) as u64;
            e = e / 2;
        }
        proof {
            reveal(pow);
            assert(pow(base as int, 0) == 1);
            lemma_small_mod(result as nat, MODULUS as nat);
        }
        FieldElement { value: result }
    }

    /// The multiplicative inverse by Fermat's little theorem: `self` raised
    /// to the power `MODULUS - 2`. Zero has no inverse, and a modulus of 2 or
    /// less leaves no such exponent.
    pub fn inverse(&self) -> (r: Result<Self, StarkError>)
        requires
            self.wf(),
        ensures
            MODULUS <= 2 ==> r == Err::<Self, StarkError>(StarkError::ConfigurationError),
            MODULUS > 2 && self@ == 0 ==> r == Err::<Self, StarkError>(StarkError::ArithmeticError),
            MODULUS > 2 && self@ != 0 ==> r is Ok && r->Ok_0@ == field_inv(self@, MODULUS as int)
                && r->Ok_0.wf(),
    {
        if MODULUS <= 2 {
            return Err(StarkError::ConfigurationError);
        }
        if self.value == 0 {
            return Err(StarkError::ArithmeticError);
        }
        Ok(self.pow(MODULUS - 2))
    }

    /// `self` divided by `rhs`: `self` times the inverse of `rhs`.
    pub fn div(self, rhs: Self) -> (r: Result<Self, StarkError>)
        requires
            self.wf(),
            rhs.wf(),
        ensures
            MODULUS <= 2 ==> r == Err::<Self, StarkError>(StarkError::ConfigurationError),
            MODULUS > 2 && rhs@ == 0 ==> r == Err::<Self, StarkError>(StarkError::ArithmeticError),
            MODULUS > 2 && rhs@ != 0 ==> r is Ok && r->Ok_0@ == field_div(
                self@,
                rhs@,
                MODULUS as int,
            ) && r->Ok_0.wf(),
    {
        match rhs.inverse() {
            Ok(inv) => Ok(self * inv),
            Err(e) => Err(e),
        }
    }

    /// Replaces `self` by `self + rhs`.
    pub fn add_assign(&mut self, rhs: Self)
        requires
            old(self).wf(),
            rhs.wf(),
        ensures
            final(self)@ == field_add(old(self)@, rhs@, MODULUS as int),
            final(self).wf(),
    {
        *self = *self + rhs;
    }

    /// Replaces `self` by `self - rhs`.
    pub fn sub_assign(&mut self, rhs: Self)
        requires
            old(self).wf(),
            rhs.wf(),
        ensures
            final(self)@ == field_sub(old(self)@, rhs@, MODULUS as int),
            final(self).wf(),
    {
        *self = *self - rhs;
    }

    /// Replaces `self` by `self * rhs`.
    pub fn mul_assign(&mut self, rhs: Self)
        requires
            old(self).wf(),
            rhs.wf(),
        ensures
            final(self)@ == field_mul(old(self)@, rhs@, MODULUS as int),
            final(self).wf(),
    {
        *self = *self * rhs;
    }

    /// Replaces `self` by `self / rhs`; on an error `self` is unchanged.
    pub fn div_assign(&mut self, rhs: Self) -> (r: Result<(), StarkError>)
        requires
            old(self).wf(),
            rhs.wf(),
        ensures
            MODULUS <= 2 ==> r == Err::<(), StarkError>(StarkError::ConfigurationError),
            MODULUS > 2 && rhs@ == 0 ==> r == Err::<(), StarkError>(StarkError::ArithmeticError),
            MODULUS > 2 && rhs@ != 0 ==> r is Ok && final(self)@ == field_div(
                old(self)@,
                rhs@,
                MODULUS as int,
            ),
            r is Err ==> *final(self) == *old(self),
            final(self).wf(),
    {
        match self.div(rhs) {
            Ok(q) => {
                *self = q;
                Ok(())
            },
            Err(e) => Err(e),
        }
    }

    /// The representative as eight big-endian bytes.
    pub fn to_bytes(&self) -> (r: [u8; 8])
        ensures
            r@ == be_bytes(self@, 8),
    {
        word_to_be_bytes(self.value)
    }

    /// Reads eight big-endian bytes and reduces the number modulo `MODULUS`.
    /// Any other length is not an encoded element.
    pub fn from_bytes(bytes: &[u8]) -> (r: Result<Self, StarkError>)
        requires
            MODULUS > 0,
        ensures
            bytes@.len() != 8 ==> r == Err::<Self, StarkError>(StarkError::ProtocolError),
            bytes@.len() == 8 ==> r is Ok && r->Ok_0@ == be_value(bytes@) % (MODULUS as int)
                && r->Ok_0.wf(),
    {
        if bytes.len() != 8 {
            return Err(StarkError::ProtocolError);
        }
        let mut acc: u64 = 0;
        let mut i: usize = 0;
        proof {
            lemma_pow0(256);
        }
        while i < 8
            invariant
                bytes@.len() == 8,
                i <= 8,
                acc == be_value(bytes@.take(i as int)),
                acc < pow(256, i as nat),
            decreases 8 - i,
        {
            proof {
                reveal(pow);
                assert(pow(256, (i + 1) as nat) == 256 * pow(256, i as nat));
                lemma_pow_increases(256, (i + 1) as nat, 8);
                assert(pow(256, 8) == 0x1_0000_0000_0000_0000) by {
                    reveal_with_fuel(pow, 9);
                }
                assert(bytes@.take(i + 1).drop_last() =~= bytes@.take(i as int));
            }
            acc = acc * 256 + bytes[i] as u64;
            i = i + 1;
        }
        proof {
            assert(bytes@.take(8) =~= bytes@);
        }
        Ok(FieldElement::new(acc))
    }
}

impl<const MODULUS: u64> PartialEq for FieldElement<MODULUS> {
    /// Compares the representatives in constant time.
    fn eq(&self, other: &Self) -> (r: bool) {
        ct_eq_u64(self.value, other.value) == 1
    }
}

impl<const MODULUS: u64> PartialEqSpecImpl for FieldElement<MODULUS> {
    open spec fn obeys_eq_spec() -> bool {
        true
    }

    open spec fn eq_spec(&self, other: &Self) -> bool {
        self@ == other@
    }
}

impl<const MODULUS: u64> Eq for FieldElement<MODULUS> {

}

impl<const MODULUS: u64> core::ops::Add for FieldElement<MODULUS> {
    type Output = Self;

    fn add(self, rhs: Self) -> (r: Self)
        ensures
            r@ == field_add(self@, rhs@, MODULUS as int),
            r.wf(),
    {
        let sum: u128 = self.value as u128 + rhs.value as u128;
        FieldElement { value: (sum % (MODULUS as u128)) as u64 }
    }
}

impl<const MODULUS: u64> AddSpecImpl for FieldElement<MODULUS> {
    open spec fn obeys_add_spec() -> bool {
        true
    }

    open spec fn add_req(self, rhs: Self) -> bool {
        self.wf() && rhs.wf()
    }

    open spec fn add_spec(self, rhs: Self) -> Self {
        Self::from_int(field_add(self@, rhs@, MODULUS as int))
    }
}

impl<const MODULUS: u64> core::ops::Sub for FieldElement<MODULUS> {
    type Output = Self;

    fn sub(self, rhs: Self) -> (r: Self)
        ensures
            r@ == field_sub(self@, rhs@, MODULUS as int),
            r.wf(),
    {
        let diff: u128 = MODULUS as u128 + self.value as u128 - rhs.value as u128;
        proof {
            lemma_mod_add_multiples_vanish(self@ - rhs@, MODULUS as int);
        }
        FieldElement { value: (diff % (MODULUS as u128)) as u64 }
    }
}

impl<const MODULUS: u64> SubSpecImpl for FieldElement<MODULUS> {
    open spec fn obeys_sub_spec() -> bool {
        true
    }

    open spec fn sub_req(self, rhs: Self) -> bool {
        self.wf() && rhs.wf()
    }

    open spec fn sub_spec(self, rhs: Self) -> Self {
        Self::from_int(field_sub(self@, rhs@, MODULUS as int))
    }
}

impl<const MODULUS: u64> core::ops::Mul for FieldElement<MODULUS> {
    type Output = Self;

    fn mul(self, rhs: Self) -> (r: Self)
        ensures
            r@ == field_mul(self@, rhs@, MODULUS as int),
            r.wf(),
    {
        assert(self.value as u128 * rhs.value as u128 <= u64::MAX * u64::MAX) by (nonlinear_arith)
            requires
                self.value <= u64::MAX,
                rhs.value <= u64::MAX,
        ;
        let prod: u128 = self.value as u128 * rhs.value as u128;
        FieldElement { value: (prod % (MODULUS as u128)) as u64 }
    }
}

impl<const MODULUS: u64> MulSpecImpl for FieldElement<MODULUS> {
    open spec fn obeys_mul_spec() -> bool {
        true
    }

    open spec fn mul_req(self, rhs: Self) -> bool {
        self.wf() && rhs.wf()
    }

    open spec fn mul_spec(self, rhs: Self) -> Self {
        Self::from_int(field_mul(self@, rhs@, MODULUS as int))
    }
}

impl<const MODULUS: u64> core::ops::Neg for FieldElement<MODULUS> {
    type Output = Self;

    fn neg(self) -> (r: Self)
        ensures
            r@ == field_neg(self@, MODULUS as int),
            r.wf(),
    {
        proof {
            lemma_mod_add_multiples_vanish(-self@, MODULUS as int);
        }
        FieldElement { value: (MODULUS - self.value) % MODULUS }
    }
}

impl<const MODULUS: u64> NegSpecImpl for FieldElement<MODULUS> {
    open spec fn obeys_neg_spec() -> bool {
        true
    }

    open spec fn neg_req(self) -> bool {
        self.wf()
    }

    open spec fn neg_spec(self) -> Self {
        Self::from_int(field_neg(self@, MODULUS as int))
    }
}

} // verus!
