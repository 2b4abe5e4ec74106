//! Arithmetic on exponents: four-limb numbers divided and multiplied by a
//! machine word, and inverses modulo a machine word by the extended
//! Euclidean algorithm.

use crate::field::limbs_value;
use vstd::arithmetic::div_mod::{
    lemma_add_mod_noop, lemma_fundamental_div_mod, lemma_mod_multiples_vanish, lemma_mod_self_0,
    lemma_mul_mod_noop, lemma_small_mod, lemma_sub_mod_noop,
};
use vstd::prelude::*;

verus! {

/// The weight of one limb: 2^64.
pub open spec fn radix() -> int {
    0x1_0000_0000_0000_0000int
}

/// What four limbs cannot reach: 2^256.
pub open spec fn limbs_bound() -> int {
    0x1_0000_0000_0000_0000_0000_0000_0000_0000_0000_0000_0000_0000_0000_0000_0000_0000int
}

/// A four-limb number times `k`, limb by limb.
proof fn lemma_scale_limbs(l: Seq<u64>, k: int)
    ensures
        limbs_value(l) * k == l[0] * k + (l[1] * k) * 0x1_0000_0000_0000_0000int + (l[2] * k)
            * 0x1_0000_0000_0000_0000_0000_0000_0000_0000int + (l[3] * k)
            * 0x1_0000_0000_0000_0000_0000_0000_0000_0000_0000_0000_0000_0000int,
{
    let (l0, l1, l2, l3) = (l[0] as int, l[1] as int, l[2] as int, l[3] as int);
    let b1 = 0x1_0000_0000_0000_0000int;
    let b2 = 0x1_0000_0000_0000_0000_0000_0000_0000_0000int;
    let b3 = 0x1_0000_0000_0000_0000_0000_0000_0000_0000_0000_0000_0000_0000int;
    assert((l0 + l1 * b1 + l2 * b2 + l3 * b3) * k == l0 * k + (l1 * k) * b1 + (l2 * k) * b2 + (l3
        * k) * b3) by (nonlinear_arith);
}

/// One step of long division: the running remainder, followed by the next
/// limb, divided by `d`.
pub fn div_step(rem: u64, limb: u64, d: u64) -> (r: (u64, u64))
    requires
        d > 0,
        rem < d,
    ensures
        rem * radix() + limb == r.0 * d + r.1,
        r.1 < d,
{
    let cur: u128 = (rem as u128) * 0x1_0000_0000_0000_0000u128 + (limb as u128);
    let q: u128 = cur / (d as u128);
    let r: u128 = cur % (d as u128);
    proof {
        lemma_fundamental_div_mod(cur as int, d as int);
        assert(q < 0x1_0000_0000_0000_0000u128) by (nonlinear_arith)
            requires
                cur == d * q + r,
                cur < d * 0x1_0000_0000_0000_0000int,
                0 <= r,
                d > 0,
        ;
        assert(q * d == d * q) by (nonlinear_arith);
    }
    (q as u64, r as u64)
}

/// One step of a multiplication by a word: a limb times `k`, plus what was
/// carried, as a limb and a new carry.
pub fn mac_step(a: u64, k: u64, carry: u64) -> (r: (u64, u64))
    ensures
        a * k + carry == r.0 + r.1 * radix(),
{
    assert(a * k <= 0xffff_ffff_ffff_ffffint * 0xffff_ffff_ffff_ffffint) by (nonlinear_arith)
        requires
            0 <= a <= 0xffff_ffff_ffff_ffffint,
            0 <= k <= 0xffff_ffff_ffff_ffffint,
    ;
    let t: u128 = (a as u128) * (k as u128) + (carry as u128);
    let lo: u128 = t % 0x1_0000_0000_0000_0000u128;
    let hi: u128 = t / 0x1_0000_0000_0000_0000u128;
    (lo as u64, hi as u64)
}

/// Long division of a four-limb number by a word.
pub fn divide_limbs(l: &[u64; 4], d: u64) -> (r: ([u64; 4], u64))
    requires
        d > 0,
    ensures
        limbs_value(l@) == limbs_value(r.0@) * d + r.1,
        r.1 < d,
{
    let (q3, r3) = div_step(0, l[3], d);
    let (q2, r2) = div_step(r3, l[2], d);
    let (q1, r1) = div_step(r2, l[1], d);
    let (q0, r0) = div_step(r1, l[0], d);
    let q: [u64; 4] = [q0, q1, q2, q3];
    proof {
        lemma_scale_limbs(q@, d as int);
    }
    (q, r0)
}

/// A four-limb number times a word, plus a word: four limbs and what is
/// carried out of them.
pub fn mul_add_limbs(l: &[u64; 4], k: u64, c: u64) -> (r: ([u64; 4], u64))
    ensures
        limbs_value(r.0@) + r.1 * limbs_bound() == limbs_value(l@) * k + c,
{
    let (e0, c0) = mac_step(l[0], k, c);
    let (e1, c1) = mac_step(l[1], k, c0);
    let (e2, c2) = mac_step(l[2], k, c1);
    let (e3, c3) = mac_step(l[3], k, c2);
    let e: [u64; 4] = [e0, e1, e2, e3];
    proof {
        lemma_scale_limbs(l@, k as int);
    }
    (e, c3)
}

/// `d` divides both `a` and `b`.
pub open spec fn divides_both(d: int, a: int, b: int) -> bool {
    a % d == 0 && b % d == 0
}

/// Congruences modulo `n` are kept by the step of the extended Euclidean
/// algorithm.
proof fn lemma_euclid_step(
    n: int,
    a: int,
    r0: int,
    r1: int,
    t0: int,
    t1: int,
    quo: int,
    qt: int,
    t2: int,
)
    requires
        n >= 2,
        (t0 * a) % n == r0 % n,
        (t1 * a) % n == r1 % n,
        qt == (quo * t1) % n,
        t2 == (t0 + n - qt) % n,
    ensures
        (t2 * a) % n == (r0 - quo * r1) % n,
{
    // t2 is congruent to t0 - quo * t1
    lemma_mod_multiples_vanish(1, t0 - qt, n);
    assert(t2 == (t0 - qt) % n);
    lemma_sub_mod_noop(t0, quo * t1, n);
    lemma_sub_mod_noop(t0, qt, n);
    lemma_small_mod(qt as nat, n as nat);
    assert(t2 == (t0 - quo * t1) % n);
    // so t2 * a is congruent to (t0 - quo * t1) * a
    lemma_mul_mod_noop(t2, a, n);
    lemma_mul_mod_noop(t0 - quo * t1, a, n);
    lemma_small_mod(t2 as nat, n as nat);
    assert((t2 * a) % n == ((t0 - quo * t1) * a) % n);
    assert((t0 - quo * t1) * a == t0 * a - quo * (t1 * a)) by (nonlinear_arith);
    // and that to r0 - quo * r1
    lemma_sub_mod_noop(t0 * a, quo * (t1 * a), n);
    lemma_sub_mod_noop(r0, quo * r1, n);
    lemma_mul_mod_noop(quo, t1 * a, n);
    lemma_mul_mod_noop(quo, r1, n);
}

/// A divisor of `y` and of `x - k * y` divides `x`.
proof fn lemma_divides_combination(d: int, x: int, y: int, k: int)
    requires
        d >= 1,
        y % d == 0,
        (x - k * y) % d == 0,
    ensures
        x % d == 0,
{
    lemma_mul_mod_noop(k, y, d);
    assert((k * y) % d == 0) by {
        assert(k % d * 0 == 0) by (nonlinear_arith);
        lemma_small_mod(0, d as nat);
    }
    lemma_add_mod_noop(x - k * y, k * y, d);
    lemma_small_mod(0, d as nat);
}

/// Where a number of two or more divides both `a` and `n`, no multiple of
/// `a` is congruent to one modulo `n`.
proof fn lemma_no_inverse(d: int, a: int, n: int, t: int)
    requires
        d >= 2,
        n >= 1,
        divides_both(d, n, a),
    ensures
        (t * a) % n != 1,
{
    if (t * a) % n == 1 {
        let s = (t * a) / n;
        lemma_fundamental_div_mod(t * a, n);
        assert(t * a == n * s + 1);
        lemma_mul_mod_noop(t, a, d);
        assert((t * a) % d == 0) by {
            assert(t % d * 0 == 0) by (nonlinear_arith);
            lemma_small_mod(0, d as nat);
        }
        lemma_mul_mod_noop(n, s, d);
        assert((n * s) % d == 0) by {
            assert(0 * (s % d) == 0) by (nonlinear_arith);
            lemma_small_mod(0, d as nat);
        }
        lemma_add_mod_noop(n * s, 1, d);
        lemma_small_mod(1, d as nat);
        assert(false);
    }
}

/// The inverse of `a` modulo `n` by the extended Euclidean algorithm, if
/// there is one.
pub fn inv_mod(a: u64, n: u64) -> (r: Option<u64>)
    requires
        n >= 2,
        a < n,
    ensures
        r matches Some(t) ==> t < n && (t * a) % (n as int) == 1,
        r is None ==> forall|t: int| (#[trigger] (t * a)) % (n as int) != 1,
{
    let mut r0: u64 = n;
    let mut r1: u64 = a;
    let mut t0: u64 = 0;
    let mut t1: u64 = 1;
    proof {
        lemma_mod_self_0(n as int);
        lemma_small_mod(0, n as nat);
        assert(0 * a == 0) by (nonlinear_arith);
        assert(1 * a == a) by (nonlinear_arith);
    }
    while r1 != 0
        invariant
            n >= 2,
            a < n,
            0 < r0 <= n,
            r1 < n,
            t0 < n,
            t1 < n,
            (t0 * a) % (n as int) == (r0 as int) % (n as int),
            (t1 * a) % (n as int) == (r1 as int) % (n as int),
            forall|d: int|
                d >= 1 && #[trigger] divides_both(d, r0 as int, r1 as int) ==> divides_both(
                    d,
                    n as int,
                    a as int,
                ),
        decreases r1,
    {
        let quo: u64 = r0 / r1;
        let r2: u64 = r0 % r1;
        assert(quo * t1 <= 0xffff_ffff_ffff_ffffint * 0xffff_ffff_ffff_ffffint)
            by (nonlinear_arith)
            requires
                0 <= quo <= 0xffff_ffff_ffff_ffffint,
                0 <= t1 <= 0xffff_ffff_ffff_ffffint,
        ;
        let qt: u128 = ((quo as u128) * (t1 as u128)) % (n as u128);
        let t2: u128 = ((t0 as u128) + (n as u128) - qt) % (n as u128);
        proof {
            lemma_fundamental_div_mod(r0 as int, r1 as int);
            assert(r2 == r0 - quo * r1) by (nonlinear_arith)
                requires
                    r0 == r1 * quo + r2,
            ;
            lemma_euclid_step(
                n as int,
                a as int,
                r0 as int,
                r1 as int,
                t0 as int,
                t1 as int,
                quo as int,
                qt as int,
                t2 as int,
            );
            assert forall|d: int| d >= 1 && #[trigger] divides_both(d, r1 as int, r2 as int)
                implies divides_both(d, n as int, a as int) by {
                lemma_divides_combination(d, r0 as int, r1 as int, quo as int);
                assert(divides_both(d, r0 as int, r1 as int));
            }
        }
        r0 = r1;
        r1 = r2;
        t0 = t1;
        t1 = t2 as u64;
    }
    if r0 == 1 {
        proof {
            lemma_small_mod(1, n as nat);
        }
        Some(t0)
    } else {
        proof {
            lemma_mod_self_0(r0 as int);
            lemma_small_mod(0, r0 as nat);
            assert(divides_both(r0 as int, r0 as int, r1 as int));
            assert forall|t: int| (#[trigger] (t * a)) % (n as int) != 1 by {
                lemma_no_inverse(r0 as int, a as int, n as int, t);
            }
        }
        None
    }
}

} // verus!
