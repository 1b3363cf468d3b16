//! The arithmetic of residues modulo `m`, stated over mathematical integers.
use vstd::arithmetic::div_mod::*;
use vstd::arithmetic::mul::*;
use vstd::arithmetic::power::*;
use vstd::prelude::*;

verus! {

/// `a + b` in the integers modulo `m`.
pub open spec fn field_add(a: int, b: int, m: int) -> int {
    (a + b) % m
}

/// `a - b` in the integers modulo `m`.
pub open spec fn field_sub(a: int, b: int, m: int) -> int {
    (a - b) % m
}

/// `a * b` in the integers modulo `m`.
pub open spec fn field_mul(a: int, b: int, m: int) -> int {
    (a * b) % m
}

/// `-a` in the integers modulo `m`.
pub open spec fn field_neg(a: int, m: int) -> int {
    (-a) % m
}

/// `a` raised to the power `e` in the integers modulo `m`.
pub open spec fn field_pow(a: int, e: nat, m: int) -> int {
    pow(a, e) % m
}

/// The candidate inverse of `a`: `a` raised to the power `m - 2`.
pub open spec fn field_inv(a: int, m: int) -> int {
    field_pow(a, (m - 2) as nat, m)
}

/// `a` times the candidate inverse of `b`.
pub open spec fn field_div(a: int, b: int, m: int) -> int {
    field_mul(a, field_inv(b, m), m)
}

/// `m` has no divisor strictly between 1 and itself.
pub open spec fn is_prime(m: int) -> bool {
    &&& m >= 2
    &&& forall|d: int| 1 < d < m ==> #[trigger] (m % d) != 0
}

/// One round of square-and-multiply keeps `acc * base^e` fixed modulo `m`.
pub proof fn lemma_square_and_multiply_step(acc: int, base: int, e: nat, m: int)
    requires
        m > 0,
        e > 0,
    ensures
        ({
            let acc2 = if e % 2 == 1 { (acc * base) % m } else { acc };
            let base2 = (base * base) % m;
            (acc2 * pow(base2, e / 2)) % m == (acc * pow(base, e)) % m
        }),
{
    let q = e / 2;
    let acc2 = if e % 2 == 1 { (acc * base) % m } else { acc };
    let base2 = (base * base) % m;
    lemma_pow_mod_noop(base * base, q, m);
    lemma_square_is_pow2(base);
    lemma_pow_multiplies(base, 2, q);
    assert(pow(base * base, q) == pow(base, 2 * q));
    let p2 = pow(base, 2 * q);
    // acc2 * base2^q == acc2 * (base^2)^q  (mod m)
    lemma_mul_mod_noop_right(acc2, pow(base2, q), m);
    lemma_mul_mod_noop_right(acc2, p2, m);
    assert((acc2 * pow(base2, q)) % m == (acc2 * p2) % m);
    if e % 2 == 1 {
        assert(e == 2 * q + 1);
        reveal(pow);
        assert(pow(base, e) == base * pow(base, (e - 1) as nat));
        assert(pow(base, e) == base * p2);
        lemma_mul_mod_noop_left(acc * base, p2, m);
        lemma_mul_is_associative(acc, base, p2);
    } else {
        assert(e == 2 * q);
    }
}

} // verus!
