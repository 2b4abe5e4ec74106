//! Fermat's little theorem, from the binomial theorem: what makes raising
//! to the inverse exponent undo raising to the fifth power in a prime
//! field.

use vstd::arithmetic::div_mod::{
    lemma_add_mod_noop, lemma_fundamental_div_mod, lemma_mod_multiples_vanish,
    lemma_mul_mod_noop_left, lemma_mul_mod_noop_right, lemma_small_mod, lemma_sub_mod_noop,
};
use vstd::prelude::*;

verus! {

/// `p` is a prime number.
pub open spec fn is_prime(p: int) -> bool {
    p >= 2 && forall|d: int| 2 <= d < p ==> #[trigger] (p % d) != 0
}

/// `a` raised to the power `n`, as an integer.
pub open spec fn ipow(a: int, n: nat) -> int
    decreases n,
{
    if n == 0 {
        1
    } else {
        ipow(a, (n - 1) as nat) * a
    }
}

/// The binomial coefficient: in how many ways `k` of `n` things can be
/// picked.
pub open spec fn binomial(n: nat, k: nat) -> nat
    decreases n,
{
    if k == 0 {
        1
    } else if n == 0 {
        0
    } else {
        binomial((n - 1) as nat, (k - 1) as nat) + binomial((n - 1) as nat, k)
    }
}

/// The first `m + 1` terms of the binomial expansion of `(a + 1)^n`.
pub open spec fn binomial_sum(n: nat, a: int, m: nat) -> int
    decreases m,
{
    if m == 0 {
        1
    } else {
        binomial_sum(n, a, (m - 1) as nat) + binomial(n, m) * ipow(a, m)
    }
}

/// Modulo a prime, every number between zero and the prime has an
/// inverse.
pub proof fn lemma_prime_inverse(p: int, a: int) -> (x: int)
    requires
        is_prime(p),
        0 < a < p,
    ensures
        0 < x < p,
        (a * x) % p == 1,
    decreases a,
{
    if a == 1 {
        lemma_small_mod(1, p as nat);
        assert(1 * 1 == 1) by (nonlinear_arith);
        1
    } else {
        let q = p / a;
        let r = p % a;
        lemma_fundamental_div_mod(p, a);
        assert(p % a != 0);
        let y = lemma_prime_inverse(p, r);
        let x = (-(q * y)) % p;
        lemma_mul_mod_noop_right(a, -(q * y), p);
        assert(a * (-(q * y)) == p * (-y) + r * y) by (nonlinear_arith)
            requires
                p == a * q + r,
        ;
        lemma_mod_multiples_vanish(-y, r * y, p);
        assert((a * x) % p == 1);
        if x == 0 {
            assert(a * 0 == 0) by (nonlinear_arith);
            lemma_small_mod(0, p as nat);
        }
        x
    }
}

/// Modulo a prime, a product is zero only where a factor is.
pub proof fn lemma_no_zero_divisors(p: int, a: int, b: int)
    requires
        is_prime(p),
        (a * b) % p == 0,
    ensures
        a % p == 0 || b % p == 0,
{
    if a % p != 0 {
        let a1 = a % p;
        let x = lemma_prime_inverse(p, a1);
        lemma_mul_mod_noop_right(b, a1 * x, p);
        assert(b * 1 == b) by (nonlinear_arith);
        assert(b * (a1 * x) == (b * a1) * x) by (nonlinear_arith);
        lemma_mul_mod_noop_right(b, a, p);
        assert(b * a == a * b) by (nonlinear_arith);
        lemma_mul_mod_noop_left(b * a1, x, p);
        assert(0 * x == 0) by (nonlinear_arith);
        lemma_small_mod(0, p as nat);
    }
}

/// There is no way to pick more things than there are.
pub proof fn lemma_binomial_above(n: nat, k: nat)
    requires
        k > n,
    ensures
        binomial(n, k) == 0,
    decreases n,
{
    if n > 0 {
        lemma_binomial_above((n - 1) as nat, (k - 1) as nat);
        lemma_binomial_above((n - 1) as nat, k);
    }
}

/// There is one way to pick all things.
pub proof fn lemma_binomial_all(n: nat)
    ensures
        binomial(n, n) == 1,
    decreases n,
{
    if n > 0 {
        lemma_binomial_all((n - 1) as nat);
        lemma_binomial_above((n - 1) as nat, n);
    }
}

/// The absorption identity of binomial coefficients.
pub proof fn lemma_absorption(n: nat, k: nat)
    ensures
        (k + 1) * binomial(n + 1, k + 1) == (n + 1) * binomial(n, k),
    decreases n,
{
    if n == 0 {
        if k > 0 {
            lemma_binomial_above(0, k);
            lemma_binomial_above(0, k + 1);
        }
        assert(binomial(1, k + 1) == binomial(0, k) + binomial(0, k + 1));
        if k == 0 {
            assert((k + 1) * binomial(n + 1, k + 1) == (n + 1) * binomial(n, k));
        } else {
            assert((k + 1) * 0 == 0 && (n + 1) * 0 == 0) by (nonlinear_arith);
        }
    } else {
        let m = (n - 1) as nat;
        // the coefficient is the sum of the two above it
        assert(binomial(n + 1, k + 1) == binomial(n, k) + binomial(n, k + 1));
        lemma_absorption(m, k);
        assert((k + 1) * binomial(n, k + 1) == n * binomial(m, k));
        if k == 0 {
            assert(binomial(m, 0) == 1);
            assert(binomial(n, 0) == 1);
            assert(binomial(n, 1) == n) by (nonlinear_arith)
                requires
                    (0 + 1) * binomial(n, 1) == n * 1,
            ;
            assert((k + 1) * binomial(n + 1, k + 1) == (n + 1) * binomial(n, k))
                by (nonlinear_arith)
                requires
                    k == 0,
                    binomial(n + 1, k + 1) == binomial(n, k) + binomial(n, k + 1),
                    binomial(n, k) == 1,
                    binomial(n, k + 1) == n,
            ;
        } else {
            let j = (k - 1) as nat;
            lemma_absorption(m, j);
            assert(k * binomial(n, k) == n * binomial(m, j));
            assert(binomial(n, k) == binomial(m, j) + binomial(m, k));
            let (c, c1, d, d1) = (
                binomial(n, k) as int,
                binomial(n, k + 1) as int,
                binomial(m, j) as int,
                binomial(m, k) as int,
            );
            assert((k + 1) * (c + c1) == (n + 1) * c) by (nonlinear_arith)
                requires
                    (k + 1) * c1 == n * d1,
                    k * c == n * d,
                    c == d + d1,
            ;
        }
    }
}

/// A prime divides the binomial coefficients of its own row, but for the
/// first and the last.
pub proof fn lemma_prime_divides_binomial(p: nat, k: nat)
    requires
        is_prime(p as int),
        0 < k < p,
    ensures
        binomial(p, k) % p == 0,
{
    lemma_absorption((p - 1) as nat, (k - 1) as nat);
    let c = binomial(p, k) as int;
    let d = binomial((p - 1) as nat, (k - 1) as nat) as int;
    assert(k * c == p * d);
    lemma_mod_multiples_vanish(d, 0, p as int);
    lemma_small_mod(0, p);
    lemma_no_zero_divisors(p as int, k as int, c);
    lemma_small_mod(k, p);
}

/// What multiplying a partial binomial sum by `a + 1` gives.
pub proof fn lemma_binomial_sum_step(n: nat, a: int, m: nat)
    ensures
        (a + 1) * binomial_sum(n, a, m) == binomial_sum(n + 1, a, m) + binomial(n, m) * ipow(
            a,
            m + 1,
        ),
    decreases m,
{
    if m == 0 {
        reveal_with_fuel(ipow, 2);
        assert((a + 1) * 1 == 1 + 1 * (1 * a)) by (nonlinear_arith);
    } else {
        let k = (m - 1) as nat;
        lemma_binomial_sum_step(n, a, k);
        let s = binomial_sum(n, a, k);
        let s1 = binomial_sum(n + 1, a, k);
        let (c, ck) = (binomial(n, m) as int, binomial(n, k) as int);
        let (x, x1) = (ipow(a, m), ipow(a, m + 1));
        assert(x1 == x * a);
        assert(binomial(n + 1, m) == ck + c);
        assert((a + 1) * (s + c * x) == (s1 + (ck + c) * x) + c * x1) by (nonlinear_arith)
            requires
                (a + 1) * s == s1 + ck * x,
                x1 == x * a,
        ;
    }
}

/// The binomial theorem for `(a + 1)^n`.
pub proof fn lemma_binomial_theorem(a: int, n: nat)
    ensures
        ipow(a + 1, n) == binomial_sum(n, a, n),
    decreases n,
{
    if n > 0 {
        let m = (n - 1) as nat;
        lemma_binomial_theorem(a, m);
        lemma_binomial_sum_step(m, a, m);
        lemma_binomial_all(m);
        lemma_binomial_all(n);
        let s = binomial_sum(m, a, m);
        assert(ipow(a + 1, n) == s * (a + 1));
        assert(s * (a + 1) == (a + 1) * s) by (nonlinear_arith);
        assert(1 * ipow(a, n) == ipow(a, n)) by (nonlinear_arith);
    }
}

/// Modulo a prime, the binomial expansion of `(a + 1)^p` without its last
/// term is one.
pub proof fn lemma_binomial_sum_mod(p: nat, a: int, m: nat)
    requires
        is_prime(p as int),
        m < p,
    ensures
        binomial_sum(p, a, m) % (p as int) == 1,
    decreases m,
{
    if m == 0 {
        lemma_small_mod(1, p);
    } else {
        lemma_binomial_sum_mod(p, a, (m - 1) as nat);
        lemma_prime_divides_binomial(p, m);
        let c = binomial(p, m) as int;
        let x = ipow(a, m);
        lemma_mul_mod_noop_left(c, x, p as int);
        assert(0 * x == 0) by (nonlinear_arith);
        lemma_small_mod(0, p);
        lemma_add_mod_noop(binomial_sum(p, a, (m - 1) as nat), c * x, p as int);
        lemma_small_mod(1, p);
    }
}

/// Modulo a prime `p`, the `p`-th power of `a + 1` is the `p`-th power of
/// `a`, plus one.
pub proof fn lemma_power_of_successor(p: nat, a: int)
    requires
        is_prime(p as int),
    ensures
        ipow(a + 1, p) % (p as int) == (ipow(a, p) + 1) % (p as int),
{
    lemma_binomial_theorem(a, p);
    lemma_binomial_sum_mod(p, a, (p - 1) as nat);
    lemma_binomial_all(p);
    let s = binomial_sum(p, a, (p - 1) as nat);
    let x = ipow(a, p);
    assert(1 * x == x) by (nonlinear_arith);
    assert(binomial_sum(p, a, p) == s + x);
    lemma_add_mod_noop(s, x, p as int);
    lemma_add_mod_noop(1, x, p as int);
    lemma_small_mod(1, p);
}

/// Fermat's little theorem: modulo a prime `p`, the `p`-th power of a
/// number is the number itself.
pub proof fn lemma_fermat_power(p: nat, a: nat)
    requires
        is_prime(p as int),
    ensures
        ipow(a as int, p) % (p as int) == a % p,
    decreases a,
{
    if a == 0 {
        assert(ipow(0, p) == ipow(0, (p - 1) as nat) * 0);
        assert(ipow(0, (p - 1) as nat) * 0 == 0) by (nonlinear_arith);
    } else {
        let b = (a - 1) as nat;
        lemma_fermat_power(p, b);
        lemma_power_of_successor(p, b as int);
        lemma_add_mod_noop(ipow(b as int, p), 1, p as int);
        lemma_add_mod_noop(b as int, 1, p as int);
    }
}

/// Fermat's little theorem: modulo a prime `p`, the power `p - 1` of a
/// number that `p` does not divide is one.
pub proof fn lemma_fermat(p: nat, a: nat)
    requires
        is_prime(p as int),
        0 < a < p,
    ensures
        ipow(a as int, (p - 1) as nat) % (p as int) == 1,
{
    lemma_fermat_power(p, a);
    let x = ipow(a as int, (p - 1) as nat);
    assert(ipow(a as int, p) == x * a);
    // a * (x - 1) is a multiple of p, and a is not
    lemma_sub_mod_noop(x * a, a as int, p as int);
    lemma_small_mod(0, p);
    assert(x * a - a == a * (x - 1)) by (nonlinear_arith);
    lemma_no_zero_divisors(p as int, a as int, x - 1);
    lemma_small_mod(a, p);
    assert((x - 1) % (p as int) == 0);
    lemma_add_mod_noop(x - 1, 1, p as int);
    lemma_small_mod(1, p);
}

} // verus!
