//! Why the two S-boxes undo each other: the order of the field is prime,
//! and the exponents are inverse to each other modulo the order of its
//! multiplicative group.

use crate::algebra::{
    lemma_fmul_one, lemma_fmul_zero, lemma_fpow_add, lemma_fpow_mul, lemma_fpow_one,
    lemma_modulus_bounds,
};
use crate::certificate::lemma_modulus_is_prime;
use crate::cipher_generator::sboxes::{group_order, inverts_exponent, sbox, ALPHA};
use crate::field::{fpow, in_range, modulus};
use crate::number_theory::{ipow, lemma_fermat};
use vstd::arithmetic::div_mod::{
    lemma_fundamental_div_mod, lemma_mul_mod_noop_left, lemma_small_mod,
};
use vstd::prelude::*;

verus! {

/// A power in the field is the integer power, reduced.
pub proof fn lemma_fpow_is_ipow(a: int, n: nat)
    ensures
        fpow(a, n) == ipow(a, n) % modulus(),
    decreases n,
{
    lemma_modulus_bounds();
    if n == 0 {
        lemma_small_mod(1, modulus() as nat);
    } else {
        lemma_fpow_is_ipow(a, (n - 1) as nat);
        lemma_mul_mod_noop_left(ipow(a, (n - 1) as nat), a, modulus());
    }
}

/// Every power of one is one.
pub proof fn lemma_fpow_of_one(n: nat)
    ensures
        fpow(1, n) == 1,
    decreases n,
{
    lemma_modulus_bounds();
    if n > 0 {
        lemma_fpow_of_one((n - 1) as nat);
        lemma_fmul_one(1);
    }
}

/// Every power of zero but the one with exponent zero is zero.
pub proof fn lemma_fpow_of_zero(n: nat)
    requires
        n > 0,
    ensures
        fpow(0, n) == 0,
{
    lemma_fmul_zero(fpow(0, (n - 1) as nat));
}

/// Raising to a power whose exponent leaves the remainder one modulo the
/// group order changes nothing.
pub proof fn lemma_power_cycle(v: int, n: nat)
    requires
        in_range(v),
        (n as int) % group_order() == 1,
    ensures
        fpow(v, n) == v,
{
    lemma_modulus_bounds();
    let g = group_order() as nat;
    let k = ((n as int) / group_order()) as nat;
    lemma_fundamental_div_mod(n as int, group_order());
    assert(n == g * k + 1);
    if v == 0 {
        lemma_fpow_of_zero(n);
    } else {
        lemma_fpow_add(v, g * k, 1);
        lemma_fpow_mul(v, g, k);
        lemma_fpow_is_ipow(v, g);
        lemma_modulus_is_prime();
        lemma_fermat(modulus() as nat, v as nat);
        lemma_fpow_of_one(k);
        lemma_fpow_one(v);
        lemma_fmul_one(v);
    }
}

/// The two S-boxes undo each other, in either order: the power with the
/// inverse exponent of the fifth power of a value is the value, and so is
/// the fifth power of its power with the inverse exponent.
pub proof fn lemma_sbox_inverse_law(v: int, e: nat)
    requires
        in_range(v),
        inverts_exponent(e as int, ALPHA as int),
    ensures
        fpow(sbox(v), e) == v,
        sbox(fpow(v, e)) == v,
{
    lemma_fpow_mul(v, 5, e);
    lemma_fpow_mul(v, e, 5);
    assert(5 * e == e * 5) by (nonlinear_arith);
    assert(5 * e >= 0) by (nonlinear_arith)
        requires
            e >= 0,
    ;
    lemma_power_cycle(v, 5 * e);
}

/// An exponent is undone by one exponent at most.
pub proof fn lemma_inverse_exponent_unique(alpha: int, e1: int, e2: int)
    requires
        inverts_exponent(e1, alpha),
        inverts_exponent(e2, alpha),
    ensures
        e1 == e2,
{
    let g = group_order();
    // e1 = e1 * (alpha * e2) = (alpha * e1) * e2 = e2, modulo the group order
    lemma_mul_mod_noop_left(alpha * e1, e2, g);
    lemma_mul_mod_noop_left(alpha * e2, e1, g);
    assert((alpha * e1) * e2 == (alpha * e2) * e1) by (nonlinear_arith);
    assert(1 * e2 == e2 && 1 * e1 == e1) by (nonlinear_arith);
    lemma_small_mod(e1 as nat, g as nat);
    lemma_small_mod(e2 as nat, g as nat);
}

} // verus!
