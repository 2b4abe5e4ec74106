//! Arithmetic modulo the field order: congruence, and how the field
//! operations follow the integer ones.

use crate::field::{fadd, finv, fmul, fpow, fsub, in_range, is_inverse, modulus};
use vstd::arithmetic::div_mod::{
    lemma_add_mod_noop, lemma_mod_bound, lemma_mod_twice, lemma_mul_mod_noop, lemma_small_mod,
    lemma_sub_mod_noop,
};
use vstd::prelude::*;

verus! {

/// `a` and `b` denote the same element of the field.
pub open spec fn cong(a: int, b: int) -> bool {
    a % modulus() == b % modulus()
}

/// The field has more than one element, and its order fits in 254 bits.
pub proof fn lemma_modulus_bounds()
    ensures
        1 < modulus(),
        modulus() < 0x4000000000000000000000000000000000000000000000000000000000000000int,
{
}

/// Every result of a field operation is a canonical representative.
pub proof fn lemma_results_in_range(a: int, b: int)
    ensures
        in_range(fadd(a, b)),
        in_range(fsub(a, b)),
        in_range(fmul(a, b)),
{
    lemma_mod_bound(a + b, modulus());
    lemma_mod_bound(a - b, modulus());
    lemma_mod_bound(a * b, modulus());
}

/// A canonical representative is its own remainder.
pub proof fn lemma_in_range_mod(a: int)
    requires
        in_range(a),
    ensures
        a % modulus() == a,
{
    lemma_small_mod(a as nat, modulus() as nat);
}

/// Two canonical representatives of one element are the same integer.
pub proof fn lemma_cong_equal(a: int, b: int)
    requires
        cong(a, b),
        in_range(a),
        in_range(b),
    ensures
        a == b,
{
    lemma_in_range_mod(a);
    lemma_in_range_mod(b);
}

/// Congruence is kept by addition.
pub proof fn lemma_cong_add(a: int, a2: int, b: int, b2: int)
    requires
        cong(a, a2),
        cong(b, b2),
    ensures
        cong(a + b, a2 + b2),
{
    lemma_add_mod_noop(a, b, modulus());
    lemma_add_mod_noop(a2, b2, modulus());
}

/// Congruence is kept by subtraction.
pub proof fn lemma_cong_sub(a: int, a2: int, b: int, b2: int)
    requires
        cong(a, a2),
        cong(b, b2),
    ensures
        cong(a - b, a2 - b2),
{
    lemma_sub_mod_noop(a, b, modulus());
    lemma_sub_mod_noop(a2, b2, modulus());
}

/// Congruence is kept by multiplication.
pub proof fn lemma_cong_mul(a: int, a2: int, b: int, b2: int)
    requires
        cong(a, a2),
        cong(b, b2),
    ensures
        cong(a * b, a2 * b2),
{
    lemma_mul_mod_noop(a, b, modulus());
    lemma_mul_mod_noop(a2, b2, modulus());
}

/// The field sum of two numbers is congruent to the integer sum of any
/// numbers congruent to them.
pub proof fn lemma_fadd_cong(a: int, a2: int, b: int, b2: int)
    requires
        cong(a, a2),
        cong(b, b2),
    ensures
        cong(fadd(a, b), a2 + b2),
{
    lemma_cong_add(a, a2, b, b2);
    lemma_mod_twice(a + b, modulus());
}

/// The field difference of two numbers is congruent to the integer
/// difference of any numbers congruent to them.
pub proof fn lemma_fsub_cong(a: int, a2: int, b: int, b2: int)
    requires
        cong(a, a2),
        cong(b, b2),
    ensures
        cong(fsub(a, b), a2 - b2),
{
    lemma_cong_sub(a, a2, b, b2);
    lemma_mod_twice(a - b, modulus());
}

/// The field product of two numbers is congruent to the integer product of
/// any numbers congruent to them.
pub proof fn lemma_fmul_cong(a: int, a2: int, b: int, b2: int)
    requires
        cong(a, a2),
        cong(b, b2),
    ensures
        cong(fmul(a, b), a2 * b2),
{
    lemma_cong_mul(a, a2, b, b2);
    lemma_mod_twice(a * b, modulus());
}

/// Two canonical representatives differ exactly when their field
/// difference is not zero.
pub proof fn lemma_fsub_zero(a: int, b: int)
    requires
        in_range(a),
        in_range(b),
    ensures
        fsub(a, b) == 0 <==> a == b,
{
    let p = modulus();
    if a == b {
        lemma_small_mod(0, p as nat);
    } else if a > b {
        lemma_small_mod((a - b) as nat, p as nat);
    } else {
        lemma_small_mod(0, p as nat);
        vstd::arithmetic::div_mod::lemma_mod_self_0(p);
        lemma_cong_add(a - b, a - b, p, 0);
        lemma_small_mod((a - b + p) as nat, p as nat);
    }
}

/// An element of the field has at most one inverse.
pub proof fn lemma_inverse_unique(e1: int, e2: int, a: int)
    requires
        is_inverse(e1, a),
        is_inverse(e2, a),
    ensures
        e1 == e2,
{
    lemma_modulus_bounds();
    lemma_in_range_mod(1);
    // e1 = e1 * (a * e2) = (e1 * a) * e2 = e2, up to congruence
    lemma_mod_twice(e1 * a, modulus());
    lemma_mod_twice(e2 * a, modulus());
    assert(cong(e1 * a, 1));
    assert(cong(e2 * a, 1));
    lemma_cong_mul(e1 * a, 1, e2, e2);
    lemma_cong_mul(e2 * a, 1, e1, e1);
    assert((e1 * a) * e2 == (e2 * a) * e1) by (nonlinear_arith);
    assert(cong(1 * e2, 1 * e1));
    lemma_cong_equal(e1, e2);
}

/// Whatever inverse of `a` is at hand, it is the one that `finv` names.
pub proof fn lemma_finv(e: int, a: int)
    requires
        is_inverse(e, a),
    ensures
        finv(a) == e,
        is_inverse(finv(a), a),
{
    lemma_inverse_unique(finv(a), e, a);
}

/// An inverse is never zero, and neither is what it inverts.
pub proof fn lemma_inverse_nonzero(e: int, a: int)
    requires
        is_inverse(e, a),
    ensures
        e != 0,
        a % modulus() != 0,
{
    lemma_modulus_bounds();
    lemma_in_range_mod(0);
    lemma_in_range_mod(1);
    if e == 0 {
        assert(e * a == 0) by (nonlinear_arith)
            requires
                e == 0,
        ;
    }
    if a % modulus() == 0 {
        lemma_cong_mul(e, e, a, 0);
        assert(e * 0 == 0) by (nonlinear_arith);
    }
}

/// Field multiplication does not depend on how a product of three is
/// bracketed.
pub proof fn lemma_fmul_assoc(a: int, b: int, c: int)
    ensures
        fmul(fmul(a, b), c) == fmul(a, fmul(b, c)),
{
    lemma_fmul_cong(a, a, b, b);
    lemma_fmul_cong(fmul(a, b), a * b, c, c);
    lemma_fmul_cong(b, b, c, c);
    lemma_fmul_cong(a, a, fmul(b, c), b * c);
    assert((a * b) * c == a * (b * c)) by (nonlinear_arith);
    lemma_results_in_range(fmul(a, b), c);
    lemma_results_in_range(a, fmul(b, c));
    lemma_cong_equal(fmul(fmul(a, b), c), fmul(a, fmul(b, c)));
}

/// One is neutral for field multiplication.
pub proof fn lemma_fmul_one(a: int)
    requires
        in_range(a),
    ensures
        fmul(1, a) == a,
        fmul(a, 1) == a,
{
    assert(1 * a == a && a * 1 == a) by (nonlinear_arith);
    lemma_in_range_mod(a);
}

/// Zero absorbs in field multiplication.
pub proof fn lemma_fmul_zero(a: int)
    ensures
        fmul(0, a) == 0,
        fmul(a, 0) == 0,
{
    assert(0 * a == 0 && a * 0 == 0) by (nonlinear_arith);
    lemma_modulus_bounds();
    lemma_in_range_mod(0);
}

/// Every power is a canonical representative.
pub proof fn lemma_fpow_in_range(a: int, n: nat)
    ensures
        in_range(fpow(a, n)),
{
    lemma_modulus_bounds();
    if n > 0 {
        lemma_results_in_range(fpow(a, (n - 1) as nat), a);
    }
}

/// The first power of a canonical representative is itself.
pub proof fn lemma_fpow_one(a: int)
    requires
        in_range(a),
    ensures
        fpow(a, 1) == a,
{
    reveal_with_fuel(fpow, 2);
    lemma_fmul_one(a);
}

/// A power whose exponent is a sum is the product of the two powers.
pub proof fn lemma_fpow_add(a: int, m: nat, n: nat)
    ensures
        fpow(a, m + n) == fmul(fpow(a, m), fpow(a, n)),
    decreases n,
{
    if n == 0 {
        lemma_fpow_in_range(a, m);
        lemma_fmul_one(fpow(a, m));
    } else {
        lemma_fpow_add(a, m, (n - 1) as nat);
        lemma_fmul_assoc(fpow(a, m), fpow(a, (n - 1) as nat), a);
        assert(fpow(a, m + n) == fmul(fpow(a, (m + n - 1) as nat), a));
    }
}

/// A power of a power is the power whose exponent is the product.
pub proof fn lemma_fpow_mul(a: int, m: nat, n: nat)
    ensures
        fpow(fpow(a, m), n) == fpow(a, m * n),
    decreases n,
{
    if n == 0 {
        assert(m * 0 == 0) by (nonlinear_arith);
    } else {
        lemma_fpow_mul(a, m, (n - 1) as nat);
        lemma_fpow_add(a, m * ((n - 1) as nat), m);
        assert(m * ((n - 1) as nat) + m == m * n) by (nonlinear_arith)
            requires
                n > 0,
        ;
    }
}

/// Squaring a product of two numbers squares each of them.
pub proof fn lemma_fmul_square(x: int, y: int)
    ensures
        fmul(fmul(x, y), fmul(x, y)) == fmul(fmul(x, x), fmul(y, y)),
{
    lemma_fmul_cong(x, x, y, y);
    lemma_fmul_cong(fmul(x, y), x * y, fmul(x, y), x * y);
    lemma_fmul_cong(x, x, x, x);
    lemma_fmul_cong(y, y, y, y);
    lemma_fmul_cong(fmul(x, x), x * x, fmul(y, y), y * y);
    assert((x * y) * (x * y) == (x * x) * (y * y)) by (nonlinear_arith);
    lemma_results_in_range(fmul(x, y), fmul(x, y));
    lemma_results_in_range(fmul(x, x), fmul(y, y));
    lemma_cong_equal(fmul(fmul(x, y), fmul(x, y)), fmul(fmul(x, x), fmul(y, y)));
}

} // verus!
