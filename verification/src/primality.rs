//! How a number is shown to be prime: by trial division where it is small,
//! and by Pocklington's criterion where a large part of its predecessor
//! factors into primes already known.

use crate::number_theory::{ipow, is_prime, lemma_fermat, lemma_prime_inverse};
use vstd::arithmetic::div_mod::{
    lemma_fundamental_div_mod, lemma_fundamental_div_mod_converse,
    lemma_mod_multiples_basic, lemma_mod_multiples_vanish, lemma_mul_mod_noop,
    lemma_mul_mod_noop_left, lemma_small_mod,
};
use vstd::prelude::*;

verus! {

/// A power whose exponent is a sum is the product of the two powers.
pub proof fn lemma_ipow_add(a: int, m: nat, n: nat)
    ensures
        ipow(a, m + n) == ipow(a, m) * ipow(a, n),
    decreases n,
{
    if n == 0 {
        assert(ipow(a, m) * 1 == ipow(a, m)) by (nonlinear_arith);
    } else {
        lemma_ipow_add(a, m, (n - 1) as nat);
        let (x, y) = (ipow(a, m), ipow(a, (n - 1) as nat));
        assert(ipow(a, m + n) == ipow(a, (m + n - 1) as nat) * a);
        assert((x * y) * a == x * (y * a)) by (nonlinear_arith);
    }
}

/// A power of a power is the power whose exponent is the product.
pub proof fn lemma_ipow_mul(a: int, m: nat, n: nat)
    ensures
        ipow(ipow(a, m), n) == ipow(a, m * n),
    decreases n,
{
    if n == 0 {
        assert(m * 0 == 0) by (nonlinear_arith);
    } else {
        lemma_ipow_mul(a, m, (n - 1) as nat);
        lemma_ipow_add(a, m * ((n - 1) as nat), m);
        assert(m * ((n - 1) as nat) + m == m * n) by (nonlinear_arith)
            requires
                n > 0,
        ;
    }
}

/// Every power of one is one.
pub proof fn lemma_ipow_of_one(n: nat)
    ensures
        ipow(1, n) == 1,
    decreases n,
{
    if n > 0 {
        lemma_ipow_of_one((n - 1) as nat);
    }
}

/// Every power of zero but the one with exponent zero is zero.
pub proof fn lemma_ipow_of_zero(n: nat)
    requires
        n > 0,
    ensures
        ipow(0, n) == 0,
{
    assert(ipow(0, (n - 1) as nat) * 0 == 0) by (nonlinear_arith);
}

/// The remainder of a power depends on the remainder of its base alone.
pub proof fn lemma_ipow_mod(a: int, n: nat, p: int)
    requires
        p > 0,
    ensures
        ipow(a, n) % p == ipow(a % p, n) % p,
    decreases n,
{
    if n > 0 {
        lemma_ipow_mod(a, (n - 1) as nat, p);
        lemma_mul_mod_noop(ipow(a, (n - 1) as nat), a, p);
        lemma_mul_mod_noop(ipow(a % p, (n - 1) as nat), a % p, p);
        vstd::arithmetic::div_mod::lemma_mod_twice(a, p);
    }
}

/// A number that leaves the remainder `c` modulo `n` leaves the remainder
/// of `c` modulo every divisor of `n`.
pub proof fn lemma_mod_of_divisor(x: int, n: int, p: int, c: int)
    requires
        p > 0,
        n > 0,
        n % p == 0,
        x % n == c,
    ensures
        x % p == c % p,
{
    lemma_fundamental_div_mod(x, n);
    lemma_fundamental_div_mod(n, p);
    let (k, l) = (x / n, n / p);
    assert(x == p * (l * k) + c) by (nonlinear_arith)
        requires
            x == n * k + c,
            n == p * l + 0,
    ;
    lemma_mod_multiples_vanish(l * k, c, p);
}

/// The power `e` of `a` leaves the remainder `c` modulo `n`.
#[verifier::opaque]
pub open spec fn power_is(a: int, e: nat, n: int, c: int) -> bool {
    ipow(a, e) % n == c
}

/// One step of square and multiply on a remainder `c` modulo `n`: its
/// square, times the base `a` where `bit` is one.
pub open spec fn bit_step(c: int, a: int, n: int, bit: int) -> int {
    if bit == 1 {
        (c * c * a) % n
    } else {
        (c * c) % n
    }
}

/// The power with exponent zero leaves the remainder one.
pub proof fn lemma_chain_start(a: int, n: int)
    requires
        n > 1,
    ensures
        power_is(a, 0, n, 1),
{
    reveal(power_is);
    lemma_small_mod(1, n as nat);
}

/// What one step of square and multiply computes: from the remainder `c`
/// of the power `e`, the remainder `c2` of the power `2 * e + bit`, which is
/// the exponent that comes back.
pub proof fn lemma_bit_step(a: int, n: int, e: nat, c: int, bit: int, c2: int) -> (e2: nat)
    requires
        n > 0,
        power_is(a, e, n, c),
        bit == 0 || bit == 1,
        bit_step(c, a, n, bit) == c2,
    ensures
        e2 == 2 * e + bit,
        power_is(a, e2, n, c2),
{
    reveal(power_is);
    lemma_ipow_add(a, e, e);
    lemma_mul_mod_noop(ipow(a, e), ipow(a, e), n);
    if bit == 1 {
        assert(ipow(a, 2 * e + 1) == ipow(a, 2 * e) * a);
        lemma_mul_mod_noop_left(ipow(a, 2 * e), a, n);
        lemma_mul_mod_noop_left(c * c, a, n);
    }
    (2 * e + bit) as nat
}

/// A power of a power, from the remainders of the two.
pub proof fn lemma_power_of_power(a: int, n: int, r: nat, c: int, q: nat, c2: int)
    requires
        n > 0,
        power_is(a, r, n, c),
        power_is(c, q, n, c2),
    ensures
        power_is(a, r * q, n, c2),
{
    reveal(power_is);
    lemma_ipow_mul(a, r, q);
    lemma_ipow_mod(ipow(a, r), q, n);
    lemma_ipow_mod(c, q, n);
    vstd::arithmetic::div_mod::lemma_mod_twice(ipow(a, r), n);
}

/// The least divisor of `n` from two up, given any divisor `d` from two
/// up.
pub proof fn lemma_least_divisor(n: int, d: int) -> (p: int)
    requires
        2 <= d,
        n % d == 0,
    ensures
        2 <= p <= d,
        n % p == 0,
        forall|j: int| 2 <= j < p ==> #[trigger] (n % j) != 0,
    decreases d,
{
    if exists|j: int| 2 <= j < d && #[trigger] (n % j) == 0 {
        let j = choose|j: int| 2 <= j < d && #[trigger] (n % j) == 0;
        lemma_least_divisor(n, j)
    } else {
        d
    }
}

/// A divisor of a divisor of `n` divides `n`.
pub proof fn lemma_divides_transitive(n: int, p: int, j: int)
    requires
        p > 0,
        j > 0,
        n % p == 0,
        p % j == 0,
    ensures
        n % j == 0,
{
    lemma_mod_of_divisor(n, p, j, 0);
    lemma_small_mod(0, j as nat);
}

/// A number from two up that is not prime has a prime divisor whose square
/// does not exceed it.
pub proof fn lemma_small_prime_divisor(n: int) -> (p: int)
    requires
        n >= 2,
        !is_prime(n),
    ensures
        is_prime(p),
        n % p == 0,
        p * p <= n,
{
    let d = choose|d: int| 2 <= d < n && #[trigger] (n % d) == 0;
    let p = lemma_least_divisor(n, d);
    assert forall|j: int| 2 <= j < p implies #[trigger] (p % j) != 0 by {
        if p % j == 0 {
            lemma_divides_transitive(n, p, j);
        }
    }
    let e = n / p;
    lemma_fundamental_div_mod(n, p);
    assert(e >= 2) by (nonlinear_arith)
        requires
            n == p * e + 0,
            2 <= p < n,
    ;
    assert(n == e * p + 0) by (nonlinear_arith)
        requires
            n == p * e + 0,
    ;
    lemma_fundamental_div_mod_converse(n, e, p, 0);
    assert(n % e == 0);
    assert(e >= p);
    assert(p * p <= n) by (nonlinear_arith)
        requires
            n == p * e + 0,
            e >= p,
            p >= 2,
    ;
    p
}

/// Trial division: a number is prime where nothing from two up to a bound
/// divides it and the square of the bound reaches it.
pub proof fn lemma_prime_by_trial(n: int, bound: int)
    requires
        n >= 2,
        bound >= 1,
        bound * bound >= n,
        forall|j: int| 2 <= j <= bound ==> #[trigger] (n % j) != 0,
    ensures
        is_prime(n),
{
    if !is_prime(n) {
        let p = lemma_small_prime_divisor(n);
        assert(p <= bound) by (nonlinear_arith)
            requires
                p * p <= n,
                n <= bound * bound,
                p >= 2,
                bound >= 1,
        ;
    }
}

/// Every prime divisor of `n` is one more than a multiple of `f`.
pub open spec fn prime_divisors_follow(n: int, f: int) -> bool {
    forall|p: int| is_prime(p) && #[trigger] (n % p) == 0 ==> (p - 1) % f == 0
}

/// One prime divisor of `n`, under the conditions of `lemma_witness`.
proof fn lemma_witness_at(n: int, q: int, m: nat, a: int, c: int, s: int, t: int, p: int)
    requires
        n >= 2,
        is_prime(q),
        q * m == n - 1,
        power_is(a, (n - 1) as nat, n, 1),
        power_is(a, m, n, c),
        s * (c - 1) + t * n == 1,
        is_prime(p),
        n % p == 0,
    ensures
        (p - 1) % q == 0,
{
    reveal(power_is);
    assert(m * (q as nat) == n - 1) by (nonlinear_arith)
        requires
            q * m == n - 1,
            q >= 2,
    ;
    let b = ipow(a, m);
    let b1 = b % p;
    // the power q of b is one modulo p
    lemma_ipow_mul(a, m, q as nat);
    lemma_mod_of_divisor(ipow(a, (n - 1) as nat), n, p, 1);
    lemma_small_mod(1, p as nat);
    assert(ipow(b, q as nat) % p == 1);
    lemma_ipow_mod(b, q as nat, p);
    // b itself is not one modulo p
    lemma_mod_of_divisor(b, n, p, c);
    if b1 == 1 {
        lemma_fundamental_div_mod(c, p);
        lemma_fundamental_div_mod(n, p);
        let (k, l) = (c / p, n / p);
        assert(s * (c - 1) + t * n == p * (s * k + t * l)) by (nonlinear_arith)
            requires
                c == p * k + 1,
                n == p * l + 0,
        ;
        lemma_mod_multiples_vanish(s * k + t * l, 0, p);
        lemma_small_mod(0, p as nat);
        assert(false);
    }
    // nor zero
    if b1 == 0 {
        lemma_ipow_of_zero(q as nat);
        lemma_small_mod(0, p as nat);
        assert(false);
    }
    if (p - 1) % q != 0 {
        let r = (p - 1) % q;
        let x = lemma_prime_inverse(q, r);
        lemma_mul_mod_noop_left(p - 1, x, q);
        let big = (p - 1) * x;
        assert(big >= 0) by (nonlinear_arith)
            requires
                big == (p - 1) * x,
                p >= 2,
                x > 0,
        ;
        lemma_fundamental_div_mod(big, q);
        let w = big / q;
        assert(w >= 0) by (nonlinear_arith)
            requires
                big == q * w + 1,
                big >= 0,
                q >= 2,
        ;
        // by Fermat the power (p - 1) * x of b is one
        lemma_fermat(p as nat, b1 as nat);
        lemma_ipow_mul(b1, (p - 1) as nat, x as nat);
        lemma_ipow_mod(ipow(b1, (p - 1) as nat), x as nat, p);
        lemma_ipow_of_one(x as nat);
        assert(((p - 1) as nat) * (x as nat) == big) by (nonlinear_arith)
            requires
                big == (p - 1) * x,
                p >= 2,
                x > 0,
        ;
        assert(ipow(b1, big as nat) % p == 1);
        // and it is b, as the power q of b is one
        lemma_ipow_mul(b1, q as nat, w as nat);
        lemma_ipow_mod(ipow(b1, q as nat), w as nat, p);
        lemma_ipow_of_one(w as nat);
        assert((q as nat) * (w as nat) == q * w) by (nonlinear_arith)
            requires
                q >= 2,
                w >= 0,
        ;
        let y = ipow(b1, (q * w) as nat);
        assert(y % p == 1);
        assert(ipow(b1, big as nat) == y * b1);
        lemma_mul_mod_noop_left(y, b1, p);
        assert(1 * b1 == b1) by (nonlinear_arith);
        lemma_small_mod(b1 as nat, p as nat);
        assert(false);
    }
}

/// The heart of Pocklington's criterion. Where `q` is a prime with
/// `q * m == n - 1`, the power `n - 1` of `a` is one modulo `n`, and its
/// power `m`, less one, has no divisor in common with `n`, every prime
/// divisor of `n` is one more than a multiple of `q`.
///
/// `c` is the remainder of the power `m`, and `s` and `t` show that `c - 1`
/// and `n` have no common divisor.
pub proof fn lemma_witness(n: int, q: int, m: nat, a: int, c: int, s: int, t: int)
    requires
        n >= 2,
        is_prime(q),
        q * m == n - 1,
        power_is(a, (n - 1) as nat, n, 1),
        power_is(a, m, n, c),
        s * (c - 1) + t * n == 1,
    ensures
        prime_divisors_follow(n, q),
{
    assert forall|p: int| is_prime(p) && #[trigger] (n % p) == 0 implies (p - 1) % q == 0 by {
        lemma_witness_at(n, q, m, a, c, s, t, p);
    }
}

/// What holds of the prime divisors of `n` for two numbers without a
/// common divisor holds for their product. `u` and `v` show that the two
/// have no common divisor.
pub proof fn lemma_combine(n: int, f1: int, f2: int, u: int, v: int)
    requires
        f1 > 0,
        f2 > 0,
        prime_divisors_follow(n, f1),
        prime_divisors_follow(n, f2),
        u * f1 + v * f2 == 1,
    ensures
        prime_divisors_follow(n, f1 * f2),
{
    assert forall|p: int| is_prime(p) && #[trigger] (n % p) == 0 implies (p - 1) % (f1 * f2)
        == 0 by {
        lemma_fundamental_div_mod(p - 1, f1);
        lemma_fundamental_div_mod(p - 1, f2);
        let (x, y) = ((p - 1) / f1, (p - 1) / f2);
        assert(p - 1 == (u * y + v * x) * (f1 * f2)) by (nonlinear_arith)
            requires
                p - 1 == f1 * x + 0,
                p - 1 == f2 * y + 0,
                u * f1 + v * f2 == 1,
        ;
        assert(f1 * f2 > 0) by (nonlinear_arith)
            requires
                f1 > 0,
                f2 > 0,
        ;
        lemma_mod_multiples_basic(u * y + v * x, f1 * f2);
    }
}

/// Pocklington's criterion: a number is prime where each of its prime
/// divisors is one more than a multiple of a number whose square reaches
/// it.
pub proof fn lemma_pocklington(n: int, f: int)
    requires
        n >= 2,
        f >= 1,
        f * f >= n,
        prime_divisors_follow(n, f),
    ensures
        is_prime(n),
{
    if !is_prime(n) {
        let p = lemma_small_prime_divisor(n);
        assert((p - 1) % f == 0);
        lemma_fundamental_div_mod(p - 1, f);
        let k = (p - 1) / f;
        assert(p > f) by (nonlinear_arith)
            requires
                p - 1 == f * k + 0,
                p >= 2,
                f >= 1,
        ;
        assert(p * p > n) by (nonlinear_arith)
            requires
                p > f,
                f * f >= n,
                f >= 1,
        ;
    }
}

} // verus!
