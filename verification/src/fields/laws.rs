//! Algebraic laws of the field operations.
use crate::fields::element::{be_bytes, be_value, lemma_be_roundtrip, FieldElement};
use crate::fields::fermat::lemma_field_inv_is_inverse;
use crate::fields::modular::{field_add, field_div, field_inv, field_mul, field_sub, is_prime};
use vstd::arithmetic::div_mod::*;
use vstd::arithmetic::mul::*;
use vstd::arithmetic::power::pow;
use vstd::prelude::*;

verus! {

/// Subtraction undoes addition: `(a + b) - b == a`.
pub proof fn law_add_then_sub<const MODULUS: u64>(
    a: FieldElement<MODULUS>,
    b: FieldElement<MODULUS>,
)
    requires
        a.wf(),
        b.wf(),
    ensures
        field_sub(field_add(a@, b@, MODULUS as int), b@, MODULUS as int) == a@,
{
    let m = MODULUS as int;
    lemma_sub_mod_noop(a@ + b@, b@, m);
    lemma_small_mod(b@ as nat, m as nat);
    lemma_small_mod(a@ as nat, m as nat);
    lemma_mod_twice(a@ + b@, m);
    lemma_sub_mod_noop((a@ + b@) % m, b@, m);
}

/// In a prime field the inverse of a nonzero element, times the element, is
/// one.
pub proof fn law_inverse_times_self<const MODULUS: u64>(a: FieldElement<MODULUS>)
    requires
        is_prime(MODULUS as int),
        MODULUS > 2,
        a.wf(),
        a@ != 0,
    ensures
        field_mul(field_inv(a@, MODULUS as int), a@, MODULUS as int) == 1,
{
    lemma_field_inv_is_inverse(a@, MODULUS as int);
}

/// In a prime field division by a nonzero element undoes multiplication by
/// it: `(a * b) / b == a`.
pub proof fn law_mul_then_div<const MODULUS: u64>(
    a: FieldElement<MODULUS>,
    b: FieldElement<MODULUS>,
)
    requires
        is_prime(MODULUS as int),
        MODULUS > 2,
        a.wf(),
        b.wf(),
        b@ != 0,
    ensures
        field_div(field_mul(a@, b@, MODULUS as int), b@, MODULUS as int) == a@,
{
    let m = MODULUS as int;
    let inv = field_inv(b@, m);
    lemma_field_inv_is_inverse(b@, m);
    lemma_mul_mod_noop_left(a@ * b@, inv, m);
    lemma_mul_is_associative(a@, b@, inv);
    lemma_mul_mod_noop_right(a@, b@ * inv, m);
    assert(a@ * 1 == a@);
    lemma_small_mod(a@ as nat, m as nat);
}

/// Decoding undoes encoding: the eight bytes of an element read back as
/// the element.
pub proof fn law_bytes_roundtrip<const MODULUS: u64>(a: FieldElement<MODULUS>)
    requires
        a.wf(),
    ensures
        be_bytes(a@, 8).len() == 8,
        be_value(be_bytes(a@, 8)) % (MODULUS as int) == a@,
{
    assert(pow(256, 8) == 0x1_0000_0000_0000_0000) by {
        reveal_with_fuel(pow, 9);
    }
    lemma_be_roundtrip(a@, 8);
    lemma_small_mod(a@ as nat, MODULUS as nat);
}

} // verus!
