//! Fermat's little theorem, proved from the binomial theorem, and with it the
//! fact that `a^(p-2)` inverts `a` modulo a prime `p`.
use crate::fields::modular::{field_inv, field_mul, is_prime};
use vstd::arithmetic::div_mod::*;
use vstd::arithmetic::mul::*;
use vstd::arithmetic::power::*;
use vstd::prelude::*;

verus! {

/// The binomial coefficient, by Pascal's rule.
pub open spec fn binom(n: nat, k: nat) -> nat
    decreases n,
{
    if k == 0 {
        1
    } else if n == 0 {
        0
    } else {
        binom((n - 1) as nat, (k - 1) as nat) + binom((n - 1) as nat, k)
    }
}

/// The first `k + 1` terms of the expansion of `(a + 1)^n`.
pub open spec fn binom_sum(a: int, n: nat, k: nat) -> int
    decreases k,
{
    binom(n, k) * pow(a, k) + if k == 0 {
        0
    } else {
        binom_sum(a, n, (k - 1) as nat)
    }
}

proof fn lemma_binom_above(n: nat, k: nat)
    requires
        k > n,
    ensures
        binom(n, k) == 0,
    decreases n,
{
    if n > 0 {
        lemma_binom_above((n - 1) as nat, (k - 1) as nat);
        lemma_binom_above((n - 1) as nat, k);
    }
}

proof fn lemma_binom_diagonal(n: nat)
    ensures
        binom(n, n) == 1,
    decreases n,
{
    if n > 0 {
        lemma_binom_diagonal((n - 1) as nat);
        lemma_binom_above((n - 1) as nat, n);
    }
}

/// `k * C(n, k) == n * C(n - 1, k - 1)`.
proof fn lemma_binom_absorb(n: nat, k: nat)
    requires
        n >= 1,
        k >= 1,
    ensures
        k * binom(n, k) == n * binom((n - 1) as nat, (k - 1) as nat),
    decreases n,
{
    let n1 = (n - 1) as nat;
    let k1 = (k - 1) as nat;
    if n == 1 {
        if k > 1 {
            lemma_binom_above(0, k1);
            lemma_binom_above(0, k);
            assert(binom(1, k) == 0);
        } else {
            assert(binom(1, 1) == binom(0, 0) + binom(0, 1));
        }
    } else {
        let x = binom(n1, k1);
        let y = binom(n1, k);
        assert(binom(n, k) == x + y);
        lemma_binom_absorb(n1, k);
        let n2 = (n1 - 1) as nat;
        let u = binom(n2, k1);
        assert(k * y == n1 * u);
        if k == 1 {
            assert(x == 1);
            assert(u == 1);
            assert(k * (x + y) == n * x) by (nonlinear_arith)
                requires
                    k == 1,
                    x == 1,
                    u == 1,
                    k * y == n1 * u,
                    n == n1 + 1,
            ;
        } else {
            lemma_binom_absorb(n1, k1);
            let k2 = (k1 - 1) as nat;
            let w = binom(n2, k2);
            assert(k1 * x == n1 * w);
            assert(x == w + u);
            assert(k * (x + y) == n * x) by (nonlinear_arith)
                requires
                    k1 * x == n1 * w,
                    k * y == n1 * u,
                    x == w + u,
                    k == k1 + 1,
                    n == n1 + 1,
            ;
        }
    }
}

/// A prime that divides `a * b`, with `0 < a < p`, divides `b`.
pub proof fn lemma_prime_divides_factor(p: int, a: int, b: int)
    requires
        is_prime(p),
        0 < a < p,
        (a * b) % p == 0,
    ensures
        b % p == 0,
    decreases a,
{
    if a == 1 {
        assert(a * b == b) by (nonlinear_arith)
            requires
                a == 1,
        ;
    } else {
        let r = p % a;
        let q = p / a;
        assert(r != 0);
        lemma_fundamental_div_mod(p, a);
        lemma_mod_bound(p, a);
        let y = a * b;
        let k1 = y / p;
        lemma_fundamental_div_mod(y, p);
        assert(y == p * k1);
        assert(r * b == (b - q * k1) * p) by (nonlinear_arith)
            requires
                p == a * q + r,
                a * b == p * k1,
        ;
        lemma_mod_multiples_basic(b - q * k1, p);
        lemma_prime_divides_factor(p, r, b);
    }
}

proof fn lemma_binom_sum_shift(a: int, n: nat, k: nat)
    ensures
        binom_sum(a, n + 1, k + 1) == a * binom_sum(a, n, k) + binom_sum(a, n, k + 1),
    decreases k,
{
    reveal(pow);
    if k == 0 {
        assert(pow(a, 0) == 1);
        assert(pow(a, 1) == a * pow(a, 0));
        assert(binom(n + 1, 1) == binom(n, 0) + binom(n, 1));
        assert(binom(n + 1, 0) == 1);
        assert(binom(n, 0) == 1);
        let c = binom(n, 1) as int;
        assert(binom_sum(a, n, 0) == 1 * pow(a, 0));
        assert(binom_sum(a, n, 1) == c * pow(a, 1) + binom_sum(a, n, 0));
        assert(binom_sum(a, n + 1, 0) == 1 * pow(a, 0));
        assert(binom_sum(a, n + 1, 1) == (1 + c) * pow(a, 1) + binom_sum(a, n + 1, 0));
        assert((1 + c) * a + 1 == a * 1 + (c * a + 1)) by (nonlinear_arith);
    } else {
        let k0 = (k - 1) as nat;
        lemma_binom_sum_shift(a, n, k0);
        let c1 = binom(n, k) as int;
        let c2 = binom(n, k + 1) as int;
        assert(binom(n + 1, k + 1) == c1 + c2);
        let pk = pow(a, k);
        let pk1 = pow(a, k + 1);
        assert(pk1 == a * pk);
        let s0 = binom_sum(a, n, k0);
        let s1 = binom_sum(a, n, k);
        let s2 = binom_sum(a, n, k + 1);
        assert(s1 == c1 * pk + s0);
        assert(s2 == c2 * pk1 + s1);
        let t1 = binom_sum(a, n + 1, k);
        let t2 = binom_sum(a, n + 1, k + 1);
        assert(t1 == a * s0 + s1);
        assert(t2 == (c1 + c2) * pk1 + t1);
        assert(t2 == a * s1 + s2) by (nonlinear_arith)
            requires
                t2 == (c1 + c2) * pk1 + t1,
                t1 == a * s0 + s1,
                s2 == c2 * pk1 + s1,
                s1 == c1 * pk + s0,
                pk1 == a * pk,
        ;
    }
}

/// The binomial theorem for `(a + 1)^n`.
proof fn lemma_binomial_theorem(a: int, n: nat)
    ensures
        pow(a + 1, n) == binom_sum(a, n, n),
    decreases n,
{
    reveal(pow);
    if n == 0 {
        assert(binom_sum(a, 0, 0) == 1 * pow(a, 0));
    } else {
        let n1 = (n - 1) as nat;
        lemma_binomial_theorem(a, n1);
        lemma_binom_sum_shift(a, n1, n1);
        lemma_binom_above(n1, n);
        let s = binom_sum(a, n1, n1);
        assert(binom_sum(a, n1, n) == binom(n1, n) * pow(a, n) + s);
        assert(binom_sum(a, n1, n) == s) by (nonlinear_arith)
            requires
                binom_sum(a, n1, n) == binom(n1, n) * pow(a, n) + s,
                binom(n1, n) == 0,
        ;
        assert(pow(a + 1, n) == (a + 1) * pow(a + 1, n1));
        assert((a + 1) * s == a * s + s) by (nonlinear_arith);
    }
}

proof fn lemma_binom_prime_row(p: nat, k: nat)
    requires
        is_prime(p as int),
        0 < k < p,
    ensures
        binom(p, k) % p == 0,
{
    lemma_binom_absorb(p, k);
    let c = binom((p - 1) as nat, (k - 1) as nat);
    assert(k * binom(p, k) == c * p) by (nonlinear_arith)
        requires
            k * binom(p, k) == p * c,
    ;
    lemma_mod_multiples_basic(c as int, p as int);
    lemma_prime_divides_factor(p as int, k as int, binom(p, k) as int);
}

proof fn lemma_binom_sum_prime_prefix(a: int, p: nat, k: nat)
    requires
        is_prime(p as int),
        k < p,
    ensures
        binom_sum(a, p, k) % (p as int) == 1,
    decreases k,
{
    reveal(pow);
    if k == 0 {
        assert(binom_sum(a, p, 0) == 1 * pow(a, 0));
        lemma_small_mod(1, p);
    } else {
        lemma_binom_sum_prime_prefix(a, p, (k - 1) as nat);
        lemma_binom_prime_row(p, k);
        let c = binom(p, k) as int;
        let rest = binom_sum(a, p, (k - 1) as nat);
        lemma_mul_mod_noop_left(c, pow(a, k), p as int);
        assert((c * pow(a, k)) % (p as int) == 0) by {
            assert((c % (p as int)) * pow(a, k) == 0) by (nonlinear_arith)
                requires
                    c % (p as int) == 0,
            ;
            lemma_small_mod(0, p);
        }
        lemma_add_mod_noop(c * pow(a, k), rest, p as int);
        lemma_small_mod(1, p);
    }
}

/// Modulo a prime `p`, raising to the power `p` commutes with adding one.
proof fn lemma_successor_power(a: int, p: nat)
    requires
        is_prime(p as int),
    ensures
        pow(a + 1, p) % (p as int) == (pow(a, p) + 1) % (p as int),
{
    lemma_binomial_theorem(a, p);
    lemma_binom_diagonal(p);
    let rest = binom_sum(a, p, (p - 1) as nat);
    lemma_binom_sum_prime_prefix(a, p, (p - 1) as nat);
    assert(binom_sum(a, p, p) == binom(p, p) * pow(a, p) + rest);
    assert(binom_sum(a, p, p) == pow(a, p) + rest) by (nonlinear_arith)
        requires
            binom_sum(a, p, p) == binom(p, p) * pow(a, p) + rest,
            binom(p, p) == 1,
    ;
    lemma_add_mod_noop_right(pow(a, p), rest, p as int);
}

/// Fermat's little theorem: `a^p` is congruent to `a` modulo a prime `p`.
pub proof fn lemma_fermat_power(a: nat, p: nat)
    requires
        is_prime(p as int),
    ensures
        pow(a as int, p) % (p as int) == a % p,
    decreases a,
{
    if a == 0 {
        lemma0_pow(p);
        lemma_small_mod(0, p);
    } else {
        let b = (a - 1) as nat;
        lemma_fermat_power(b, p);
        lemma_successor_power(b as int, p);
        lemma_add_mod_noop(pow(b as int, p), 1, p as int);
        lemma_add_mod_noop(b as int, 1, p as int);
    }
}

/// For `0 < a < p` with `p` prime, `a^(p-1)` is congruent to 1.
pub proof fn lemma_fermat_little(a: int, p: int)
    requires
        is_prime(p),
        0 < a < p,
    ensures
        pow(a, (p - 1) as nat) % p == 1,
{
    reveal(pow);
    let e = (p - 1) as nat;
    let x = pow(a, e);
    lemma_fermat_power(a as nat, p as nat);
    assert(pow(a, p as nat) == a * x);
    lemma_small_mod(a as nat, p as nat);
    lemma_pow_positive(a, e);
    assert((a * x) % p == a % p);
    assert(a * (x - 1) == a * x - a) by (nonlinear_arith);
    lemma_mod_equivalence(a * x, a, p);
    assert((a * (x - 1)) % p == 0);
    lemma_prime_divides_factor(p, a, x - 1);
    lemma_mod_equivalence(x, 1, p);
    lemma_small_mod(1, p as nat);
}

/// Modulo a prime greater than 2, `a^(p-2)` is the multiplicative inverse of
/// every nonzero residue `a`.
pub proof fn lemma_field_inv_is_inverse(a: int, p: int)
    requires
        is_prime(p),
        p > 2,
        0 < a < p,
    ensures
        field_mul(field_inv(a, p), a, p) == 1,
        field_mul(a, field_inv(a, p), p) == 1,
        0 < field_inv(a, p) < p,
{
    reveal(pow);
    let e = (p - 2) as nat;
    lemma_fermat_little(a, p);
    assert(pow(a, (p - 1) as nat) == a * pow(a, e));
    lemma_mul_mod_noop_left(pow(a, e), a, p);
    lemma_mul_is_commutative(pow(a, e), a);
    lemma_mul_is_commutative(field_inv(a, p), a);
    lemma_mod_bound(pow(a, e), p);
    if field_inv(a, p) == 0 {
        assert(field_inv(a, p) * a == 0) by (nonlinear_arith)
            requires
                field_inv(a, p) == 0,
        ;
        lemma_small_mod(0, p as nat);
    }
}

} // verus!
