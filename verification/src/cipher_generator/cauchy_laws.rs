//! Why a Cauchy matrix of three rows and columns always has an inverse: its
//! determinant is not zero.
//!
//! Were it zero, the cofactors of the first row would be the coefficients
//! of a polynomial of degree two with the three entries of `x` as roots,
//! which must then be the zero polynomial. Its value at the first entry of
//! `y` is a multiple of the first cofactor, which is not zero.

use crate::algebra::{
    cong, lemma_cong_add, lemma_cong_mul, lemma_cong_sub, lemma_in_range_mod,
    lemma_modulus_bounds,
};
use crate::certificate::lemma_modulus_is_prime;
use crate::cipher_generator::matrix_laws::lemma_row_expansion;
use crate::cipher_generator::mds::{
    cauchy_vectors, det3, int_cofactor3, int_det3, is_cauchy_matrix, no_zero_entry,
};
use crate::field::{fsub, in_range, is_inverse, modulus};
use crate::number_theory::lemma_no_zero_divisors;
use vstd::arithmetic::div_mod::{lemma_mod_twice, lemma_small_mod};
use vstd::prelude::*;

verus! {

/// `x` and `y` are vectors of three canonical values each.
pub open spec fn are_vectors3(x: Seq<int>, y: Seq<int>) -> bool {
    &&& x.len() == 3
    &&& y.len() == 3
    &&& forall|i: int| 0 <= i < 3 ==> in_range(#[trigger] x[i])
    &&& forall|i: int| 0 <= i < 3 ==> in_range(#[trigger] y[i])
}

/// The difference of two distinct canonical values is not a multiple of
/// the field order.
proof fn lemma_distinct(a: int, b: int)
    requires
        in_range(a),
        in_range(b),
        a != b,
    ensures
        (a - b) % modulus() != 0,
{
    let p = modulus();
    if a > b {
        lemma_small_mod((a - b) as nat, p as nat);
    } else {
        lemma_small_mod((a - b + p) as nat, p as nat);
        vstd::arithmetic::div_mod::lemma_mod_multiples_vanish(1, a - b, p);
    }
}

/// In the field a product is zero only where a factor is.
proof fn lemma_zero_product(a: int, b: int)
    requires
        cong(a * b, 0),
    ensures
        cong(a, 0) || cong(b, 0),
{
    lemma_modulus_bounds();
    lemma_modulus_is_prime();
    lemma_in_range_mod(0);
    lemma_no_zero_divisors(modulus(), a, b);
}

/// An entry of a Cauchy matrix times the difference that it inverts is
/// congruent to one.
proof fn lemma_entry(m: Seq<Seq<int>>, x: Seq<int>, y: Seq<int>, i: int, j: int)
    requires
        are_vectors3(x, y),
        is_cauchy_matrix(m, x, y),
        0 <= i < 3,
        0 <= j < 3,
    ensures
        cong(m[i][j] * (x[i] - y[j]), 1),
{
    lemma_modulus_bounds();
    lemma_in_range_mod(1);
    assert(is_inverse(m[i][j], fsub(x[i], y[j])));
    lemma_mod_twice(x[i] - y[j], modulus());
    lemma_cong_mul(m[i][j], m[i][j], fsub(x[i], y[j]), x[i] - y[j]);
}

/// Two products that are congruent to one, times a third number, are
/// congruent to that number.
proof fn lemma_cancel_two(u: int, v: int, w: int)
    requires
        cong(u, 1),
        cong(v, 1),
    ensures
        cong(u * v * w, w),
{
    lemma_cong_mul(u, 1, v, 1);
    lemma_cong_mul(u * v, 1int * 1int, w, w);
    assert(1int * 1int * w == w) by (nonlinear_arith);
}

/// A product that is congruent to one, times another number, is congruent
/// to that number.
proof fn lemma_cancel_one(u: int, w: int)
    requires
        cong(u, 1),
    ensures
        cong(u * w, w),
{
    lemma_cong_mul(u, 1, w, w);
    assert(1 * w == w) by (nonlinear_arith);
}

/// The determinant of rows `a` and `b` and columns `c` and `d` of a matrix
/// in the field.
pub open spec fn minor2(m: Seq<Seq<int>>, a: int, b: int, c: int, d: int) -> int {
    (m[a][c] * m[b][d] - m[a][d] * m[b][c]) % modulus()
}

/// No determinant of two rows and two columns of a Cauchy matrix is zero.
pub proof fn lemma_minor_nonzero(
    m: Seq<Seq<int>>,
    x: Seq<int>,
    y: Seq<int>,
    a: int,
    b: int,
    c: int,
    d: int,
)
    requires
        are_vectors3(x, y),
        cauchy_vectors(x, y),
        is_cauchy_matrix(m, x, y),
        0 <= a < 3,
        0 <= b < 3,
        0 <= c < 3,
        0 <= d < 3,
        a != b,
        c != d,
    ensures
        minor2(m, a, b, c, d) != 0,
{
    let minor = m[a][c] * m[b][d] - m[a][d] * m[b][c];
    let (mac, mad, mbc, mbd) = (m[a][c], m[a][d], m[b][c], m[b][d]);
    let (dac, dad, dbc, dbd) = (x[a] - y[c], x[a] - y[d], x[b] - y[c], x[b] - y[d]);
    lemma_modulus_bounds();
    lemma_in_range_mod(0);
    if cong(minor, 0) {
        lemma_entry(m, x, y, a, c);
        lemma_entry(m, x, y, a, d);
        lemma_entry(m, x, y, b, c);
        lemma_entry(m, x, y, b, d);
        let (uac, uad, ubc, ubd) = (mac * dac, mad * dad, mbc * dbc, mbd * dbd);
        let all = dac * dbd * (dad * dbc);
        // the determinant times all four differences
        assert(minor * all == uac * ubd * (dad * dbc) - uad * ubc * (dac * dbd)) by {
            assert((mac * mbd) * (dac * dbd * (dad * dbc)) == (mac * dac) * (mbd * dbd) * (dad
                * dbc)) by (nonlinear_arith);
            assert((mad * mbc) * (dac * dbd * (dad * dbc)) == (mad * dad) * (mbc * dbc) * (dac
                * dbd)) by (nonlinear_arith);
            assert((mac * mbd - mad * mbc) * all == (mac * mbd) * all - (mad * mbc) * all)
                by (nonlinear_arith);
        }
        lemma_cancel_two(uac, ubd, dad * dbc);
        lemma_cancel_two(uad, ubc, dac * dbd);
        lemma_cong_sub(uac * ubd * (dad * dbc), dad * dbc, uad * ubc * (dac * dbd), dac * dbd);
        assert(dad * dbc - dac * dbd == (x[a] - x[b]) * (y[d] - y[c])) by (nonlinear_arith)
            requires
                dac == x[a] - y[c],
                dad == x[a] - y[d],
                dbc == x[b] - y[c],
                dbd == x[b] - y[d],
        ;
        lemma_cong_mul(minor, 0, all, all);
        assert(0 * all == 0) by (nonlinear_arith);
        assert(cong((x[a] - x[b]) * (y[d] - y[c]), 0));
        lemma_zero_product(x[a] - x[b], y[d] - y[c]);
        lemma_distinct(x[a], x[b]);
        lemma_distinct(y[d], y[c]);
        assert(false);
    }
}

/// The cofactor of the first entry of a Cauchy matrix is not zero in the
/// field.
proof fn lemma_first_cofactor(m: Seq<Seq<int>>, x: Seq<int>, y: Seq<int>)
    requires
        are_vectors3(x, y),
        cauchy_vectors(x, y),
        is_cauchy_matrix(m, x, y),
    ensures
        !cong(int_cofactor3(m, 0, 0), 0),
{
    lemma_modulus_bounds();
    lemma_in_range_mod(0);
    lemma_minor_nonzero(m, x, y, 1, 2, 1, 2);
}

/// The polynomial of degree two whose value at `y[j]` is a multiple of
/// `c[j]` alone.
pub open spec fn kernel_polynomial(c0: int, c1: int, c2: int, y: Seq<int>, t: int) -> int {
    c0 * ((t - y[1]) * (t - y[2])) + c1 * ((t - y[0]) * (t - y[2])) + c2 * ((t - y[0]) * (t
        - y[1]))
}

/// The kernel polynomial, sorted by the powers of `t`.
proof fn lemma_polynomial_form(c0: int, c1: int, c2: int, y: Seq<int>, t: int)
    ensures
        kernel_polynomial(c0, c1, c2, y, t) == (c0 + c1 + c2) * (t * t) - (c0 * (y[1] + y[2]) + c1
            * (y[0] + y[2]) + c2 * (y[0] + y[1])) * t + (c0 * (y[1] * y[2]) + c1 * (y[0] * y[2])
            + c2 * (y[0] * y[1])),
{
    let (y0, y1, y2) = (y[0], y[1], y[2]);
    let s = t * t;
    assert((t - y1) * (t - y2) == s - (y1 + y2) * t + y1 * y2) by (nonlinear_arith)
        requires
            s == t * t,
    ;
    assert((t - y0) * (t - y2) == s - (y0 + y2) * t + y0 * y2) by (nonlinear_arith)
        requires
            s == t * t,
    ;
    assert((t - y0) * (t - y1) == s - (y0 + y1) * t + y0 * y1) by (nonlinear_arith)
        requires
            s == t * t,
    ;
    let (a0, a1, a2) = (y1 + y2, y0 + y2, y0 + y1);
    let (b0, b1, b2) = (y1 * y2, y0 * y2, y0 * y1);
    assert(c0 * (s - a0 * t + b0) == c0 * s - (c0 * a0) * t + c0 * b0) by (nonlinear_arith);
    assert(c1 * (s - a1 * t + b1) == c1 * s - (c1 * a1) * t + c1 * b1) by (nonlinear_arith);
    assert(c2 * (s - a2 * t + b2) == c2 * s - (c2 * a2) * t + c2 * b2) by (nonlinear_arith);
    assert((c0 + c1 + c2) * s == c0 * s + c1 * s + c2 * s) by (nonlinear_arith);
    let (e0, e1, e2) = (c0 * a0, c1 * a1, c2 * a2);
    assert((e0 + e1 + e2) * t == e0 * t + e1 * t + e2 * t) by (nonlinear_arith);
}

/// A polynomial of degree two with two roots that differ in the field
/// ties its leading coefficients to the sum of the roots.
proof fn lemma_two_roots(a: int, b: int, c: int, r: int, s: int)
    requires
        cong(a * (r * r) - b * r + c, 0),
        cong(a * (s * s) - b * s + c, 0),
        !cong(r - s, 0),
    ensures
        cong(a * (r + s) - b, 0),
{
    lemma_cong_sub(a * (r * r) - b * r + c, 0, a * (s * s) - b * s + c, 0);
    assert((a * (r * r) - b * r + c) - (a * (s * s) - b * s + c) == (r - s) * (a * (r + s) - b))
        by (nonlinear_arith);
    lemma_zero_product(r - s, a * (r + s) - b);
}

/// A polynomial of degree two with three roots that differ pairwise in
/// the field is zero everywhere.
proof fn lemma_three_roots(a: int, b: int, c: int, r0: int, r1: int, r2: int, t: int)
    requires
        cong(a * (r0 * r0) - b * r0 + c, 0),
        cong(a * (r1 * r1) - b * r1 + c, 0),
        cong(a * (r2 * r2) - b * r2 + c, 0),
        !cong(r0 - r1, 0),
        !cong(r0 - r2, 0),
        !cong(r1 - r2, 0),
    ensures
        cong(a * (t * t) - b * t + c, 0),
{
    lemma_two_roots(a, b, c, r0, r1);
    lemma_two_roots(a, b, c, r0, r2);
    // the leading coefficient is zero
    lemma_cong_sub(a * (r0 + r1) - b, 0, a * (r0 + r2) - b, 0);
    assert((a * (r0 + r1) - b) - (a * (r0 + r2) - b) == a * (r1 - r2)) by (nonlinear_arith);
    lemma_zero_product(a, r1 - r2);
    assert(cong(a, 0));
    // so is the second
    lemma_cong_mul(a, 0, r0 + r1, r0 + r1);
    assert(0 * (r0 + r1) == 0) by (nonlinear_arith);
    lemma_cong_sub(a * (r0 + r1), 0, a * (r0 + r1) - b, 0);
    assert(a * (r0 + r1) - (a * (r0 + r1) - b) == b);
    assert(cong(b, 0));
    // and the third
    lemma_cong_mul(a, 0, r0 * r0, r0 * r0);
    lemma_cong_mul(b, 0, r0, r0);
    assert(0 * (r0 * r0) == 0 && 0 * r0 == 0) by (nonlinear_arith);
    lemma_cong_sub(a * (r0 * r0), 0, b * r0, 0);
    lemma_cong_sub(a * (r0 * r0) - b * r0 + c, 0, a * (r0 * r0) - b * r0, 0);
    assert((a * (r0 * r0) - b * r0 + c) - (a * (r0 * r0) - b * r0) == c);
    assert(cong(c, 0));
    // so every value is zero
    lemma_cong_mul(a, 0, t * t, t * t);
    lemma_cong_mul(b, 0, t, t);
    assert(0 * (t * t) == 0 && 0 * t == 0) by (nonlinear_arith);
    lemma_cong_sub(a * (t * t), 0, b * t, 0);
    lemma_cong_add(a * (t * t) - b * t, 0, c, 0);
}

/// Where the determinant of a Cauchy matrix is zero in the field, the
/// kernel polynomial of the cofactors of its first row has `x[i]` as a
/// root.
proof fn lemma_root(m: Seq<Seq<int>>, x: Seq<int>, y: Seq<int>, i: int)
    requires
        are_vectors3(x, y),
        is_cauchy_matrix(m, x, y),
        cong(int_det3(m), 0),
        0 <= i < 3,
    ensures
        cong(
            kernel_polynomial(
                int_cofactor3(m, 0, 0),
                int_cofactor3(m, 0, 1),
                int_cofactor3(m, 0, 2),
                y,
                x[i],
            ),
            0,
        ),
{
    let (c0, c1, c2) = (int_cofactor3(m, 0, 0), int_cofactor3(m, 0, 1), int_cofactor3(m, 0, 2));
    let (m0, m1, m2) = (m[i][0], m[i][1], m[i][2]);
    let (d0, d1, d2) = (x[i] - y[0], x[i] - y[1], x[i] - y[2]);
    let sum = m0 * c0 + m1 * c1 + m2 * c2;
    lemma_row_expansion(m, i, 0);
    lemma_modulus_bounds();
    lemma_in_range_mod(0);
    assert(cong(sum, 0));
    lemma_entry(m, x, y, i, 0);
    lemma_entry(m, x, y, i, 1);
    lemma_entry(m, x, y, i, 2);
    let (u0, u1, u2) = (m0 * d0, m1 * d1, m2 * d2);
    let (w0, w1, w2) = (c0 * (d1 * d2), c1 * (d0 * d2), c2 * (d0 * d1));
    let all = d0 * d1 * d2;
    assert(sum * all == u0 * w0 + u1 * w1 + u2 * w2) by {
        assert((m0 * c0) * (d0 * d1 * d2) == (m0 * d0) * (c0 * (d1 * d2))) by (nonlinear_arith);
        assert((m1 * c1) * (d0 * d1 * d2) == (m1 * d1) * (c1 * (d0 * d2))) by (nonlinear_arith);
        assert((m2 * c2) * (d0 * d1 * d2) == (m2 * d2) * (c2 * (d0 * d1))) by (nonlinear_arith);
        let (t0, t1, t2) = (m0 * c0, m1 * c1, m2 * c2);
        assert((t0 + t1 + t2) * all == t0 * all + t1 * all + t2 * all) by (nonlinear_arith);
    }
    lemma_cancel_one(u0, w0);
    lemma_cancel_one(u1, w1);
    lemma_cancel_one(u2, w2);
    lemma_cong_add(u0 * w0, w0, u1 * w1, w1);
    lemma_cong_add(u0 * w0 + u1 * w1, w0 + w1, u2 * w2, w2);
    lemma_cong_mul(sum, 0, all, all);
    assert(0 * all == 0) by (nonlinear_arith);
    assert(kernel_polynomial(c0, c1, c2, y, x[i]) == w0 + w1 + w2);
}

/// The determinant of the Cauchy matrix of two vectors of three pairwise
/// distinct values each, none of which occurs in both, is not zero.
pub proof fn lemma_cauchy_nonsingular(m: Seq<Seq<int>>, x: Seq<int>, y: Seq<int>)
    requires
        are_vectors3(x, y),
        cauchy_vectors(x, y),
        is_cauchy_matrix(m, x, y),
    ensures
        det3(m) != 0,
{
    lemma_modulus_bounds();
    lemma_in_range_mod(0);
    if det3(m) == 0 {
        let (c0, c1, c2) = (
            int_cofactor3(m, 0, 0),
            int_cofactor3(m, 0, 1),
            int_cofactor3(m, 0, 2),
        );
        let a = c0 + c1 + c2;
        let b = c0 * (y[1] + y[2]) + c1 * (y[0] + y[2]) + c2 * (y[0] + y[1]);
        let c = c0 * (y[1] * y[2]) + c1 * (y[0] * y[2]) + c2 * (y[0] * y[1]);
        lemma_root(m, x, y, 0);
        lemma_root(m, x, y, 1);
        lemma_root(m, x, y, 2);
        lemma_polynomial_form(c0, c1, c2, y, x[0]);
        lemma_polynomial_form(c0, c1, c2, y, x[1]);
        lemma_polynomial_form(c0, c1, c2, y, x[2]);
        lemma_polynomial_form(c0, c1, c2, y, y[0]);
        lemma_distinct(x[0], x[1]);
        lemma_distinct(x[0], x[2]);
        lemma_distinct(x[1], x[2]);
        lemma_three_roots(a, b, c, x[0], x[1], x[2], y[0]);
        // the value at y[0] is a multiple of the first cofactor alone
        let v = (y[0] - y[1]) * (y[0] - y[2]);
        assert(kernel_polynomial(c0, c1, c2, y, y[0]) == c0 * v) by {
            assert(c1 * ((y[0] - y[0]) * (y[0] - y[2])) == 0) by (nonlinear_arith);
            assert(c2 * ((y[0] - y[0]) * (y[0] - y[1])) == 0) by (nonlinear_arith);
        }
        lemma_zero_product(c0, v);
        lemma_first_cofactor(m, x, y);
        lemma_zero_product(y[0] - y[1], y[0] - y[2]);
        lemma_distinct(y[0], y[1]);
        lemma_distinct(y[0], y[2]);
        assert(false);
    }
}

/// The matrix of three rows and columns is maximum distance separable:
/// each of its square submatrices has a determinant that is not zero.
pub open spec fn is_mds3(m: Seq<Seq<int>>) -> bool {
    &&& no_zero_entry(m)
    &&& forall|a: int, b: int, c: int, d: int|
        0 <= a < b < 3 && 0 <= c < d < 3 ==> #[trigger] minor2(m, a, b, c, d) != 0
    &&& det3(m) != 0
}

/// The Cauchy matrix of two vectors of three pairwise distinct values
/// each, none of which occurs in both, is maximum distance separable.
pub proof fn lemma_cauchy_is_mds(m: Seq<Seq<int>>, x: Seq<int>, y: Seq<int>)
    requires
        are_vectors3(x, y),
        cauchy_vectors(x, y),
        is_cauchy_matrix(m, x, y),
    ensures
        is_mds3(m),
{
    assert forall|i: int, j: int| 0 <= i < m.len() && 0 <= j < m[i].len() implies (
    #[trigger] m[i][j]) != 0 by {
        crate::algebra::lemma_inverse_nonzero(m[i][j], fsub(x[i], y[j]));
    }
    assert forall|a: int, b: int, c: int, d: int|
        0 <= a < b < 3 && 0 <= c < d < 3 implies #[trigger] minor2(m, a, b, c, d) != 0 by {
        lemma_minor_nonzero(m, x, y, a, b, c, d);
    }
    lemma_cauchy_nonsingular(m, x, y);
}

} // verus!
