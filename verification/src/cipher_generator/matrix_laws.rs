//! Why the adjugate over the determinant inverts a matrix of three rows
//! and columns, from either side.

use crate::algebra::{
    cong, lemma_cong_add, lemma_cong_mul, lemma_fmul_cong, lemma_in_range_mod,
    lemma_modulus_bounds,
};
use crate::cipher_generator::mds::{
    cofactor3, det3, dot, int_cofactor3, int_det3, int_dot, is_adjugate_inverse,
};
use crate::field::{finv, fmul, is_inverse, modulus};
use vstd::arithmetic::div_mod::lemma_mod_twice;
use vstd::prelude::*;

verus! {

/// Column `k` of a matrix.
pub open spec fn column(m: Seq<Seq<int>>, k: int) -> Seq<int> {
    Seq::new(m.len(), |j: int| m[j][k])
}

/// The product of two square matrices in the field.
pub open spec fn mat_mul(a: Seq<Seq<int>>, b: Seq<Seq<int>>) -> Seq<Seq<int>> {
    Seq::new(a.len(), |i: int| Seq::new(a.len(), |k: int| dot(a[i], column(b, k))))
}

/// The product of a matrix and a vector in the field: entry `j` is the dot
/// product of the vector and row `j`.
pub open spec fn mat_vec(m: Seq<Seq<int>>, v: Seq<int>) -> Seq<int> {
    Seq::new(m.len(), |j: int| dot(v, m[j]))
}

/// `m` is the identity matrix of `n` rows and columns.
pub open spec fn is_identity(m: Seq<Seq<int>>, n: nat) -> bool {
    &&& m.len() == n
    &&& forall|i: int| 0 <= i < n ==> (#[trigger] m[i]).len() == n
    &&& forall|i: int, k: int|
        0 <= i < n && 0 <= k < n ==> (#[trigger] m[i][k]) == if i == k {
            1int
        } else {
            0int
        }
}

/// `m` has three rows of three entries.
pub open spec fn has_shape3(m: Seq<Seq<int>>) -> bool {
    m.len() == 3 && m[0].len() == 3 && m[1].len() == 3 && m[2].len() == 3
}

/// A factor times a difference of two products, multiplied out.
proof fn lemma_term(x: int, p: int, q: int, r: int, s: int)
    ensures
        x * (p * q - r * s) == x * p * q - x * r * s,
        (p * q - r * s) * x == x * p * q - x * r * s,
{
    assert(x * (p * q) == x * p * q) by (nonlinear_arith);
    assert(x * (r * s) == x * r * s) by (nonlinear_arith);
    assert(x * (p * q - r * s) == x * (p * q) - x * (r * s)) by (nonlinear_arith);
    assert((p * q - r * s) * x == x * (p * q - r * s)) by (nonlinear_arith);
}

/// A product of three factors does not depend on their order.
proof fn lemma_perm3(x: int, y: int, z: int)
    ensures
        x * y * z == x * z * y,
        x * y * z == y * x * z,
        x * y * z == y * z * x,
        x * y * z == z * x * y,
        x * y * z == z * y * x,
{
    assert(x * y * z == x * z * y) by (nonlinear_arith);
    assert(x * y * z == y * x * z) by (nonlinear_arith);
    assert(x * y * z == y * z * x) by (nonlinear_arith);
    assert(x * y * z == z * x * y) by (nonlinear_arith);
    assert(x * y * z == z * y * x) by (nonlinear_arith);
}

/// Expanding along a row: the entries of row `i` times the cofactors of
/// row `k` add up to the determinant where `i` is `k`, and to zero where it
/// is not.
pub proof fn lemma_row_expansion(m: Seq<Seq<int>>, i: int, k: int)
    requires
        0 <= i < 3,
        0 <= k < 3,
    ensures
        m[i][0] * int_cofactor3(m, k, 0) + m[i][1] * int_cofactor3(m, k, 1) + m[i][2]
            * int_cofactor3(m, k, 2) == if i == k {
            int_det3(m)
        } else {
            0
        },
{
    let a00 = m[0][0];
    let a01 = m[0][1];
    let a02 = m[0][2];
    let a10 = m[1][0];
    let a11 = m[1][1];
    let a12 = m[1][2];
    let a20 = m[2][0];
    let a21 = m[2][1];
    let a22 = m[2][2];
    if i == 0 && k == 0 {
        lemma_term(a00, a11, a22, a12, a21);
        lemma_perm3(a00, a11, a22);
        lemma_perm3(a00, a12, a21);
        lemma_term(a01, a12, a20, a10, a22);
        lemma_perm3(a01, a12, a20);
        lemma_perm3(a01, a10, a22);
        lemma_term(a02, a10, a21, a11, a20);
        lemma_perm3(a02, a10, a21);
        lemma_perm3(a02, a11, a20);
        assert(a00 * (a11 * a22 - a12 * a21)
            + a01 * (a12 * a20 - a10 * a22)
            + a02 * (a10 * a21 - a11 * a20) == int_det3(m));
    }
    if i == 0 && k == 1 {
        lemma_term(a00, a21, a02, a22, a01);
        lemma_perm3(a00, a21, a02);
        lemma_perm3(a00, a22, a01);
        lemma_term(a01, a22, a00, a20, a02);
        lemma_perm3(a01, a22, a00);
        lemma_perm3(a01, a20, a02);
        lemma_term(a02, a20, a01, a21, a00);
        lemma_perm3(a02, a20, a01);
        lemma_perm3(a02, a21, a00);
        assert(a00 * (a21 * a02 - a22 * a01)
            + a01 * (a22 * a00 - a20 * a02)
            + a02 * (a20 * a01 - a21 * a00) == 0);
    }
    if i == 0 && k == 2 {
        lemma_term(a00, a01, a12, a02, a11);
        lemma_perm3(a00, a01, a12);
        lemma_perm3(a00, a02, a11);
        lemma_term(a01, a02, a10, a00, a12);
        lemma_perm3(a01, a02, a10);
        lemma_perm3(a01, a00, a12);
        lemma_term(a02, a00, a11, a01, a10);
        lemma_perm3(a02, a00, a11);
        lemma_perm3(a02, a01, a10);
        assert(a00 * (a01 * a12 - a02 * a11)
            + a01 * (a02 * a10 - a00 * a12)
            + a02 * (a00 * a11 - a01 * a10) == 0);
    }
    if i == 1 && k == 0 {
        lemma_term(a10, a11, a22, a12, a21);
        lemma_perm3(a10, a11, a22);
        lemma_perm3(a10, a12, a21);
        lemma_term(a11, a12, a20, a10, a22);
        lemma_perm3(a11, a12, a20);
        lemma_perm3(a11, a10, a22);
        lemma_term(a12, a10, a21, a11, a20);
        lemma_perm3(a12, a10, a21);
        lemma_perm3(a12, a11, a20);
        assert(a10 * (a11 * a22 - a12 * a21)
            + a11 * (a12 * a20 - a10 * a22)
            + a12 * (a10 * a21 - a11 * a20) == 0);
    }
    if i == 1 && k == 1 {
        lemma_term(a10, a21, a02, a22, a01);
        lemma_perm3(a10, a21, a02);
        lemma_perm3(a10, a22, a01);
        lemma_term(a11, a22, a00, a20, a02);
        lemma_perm3(a11, a22, a00);
        lemma_perm3(a11, a20, a02);
        lemma_term(a12, a20, a01, a21, a00);
        lemma_perm3(a12, a20, a01);
        lemma_perm3(a12, a21, a00);
        assert(a10 * (a21 * a02 - a22 * a01)
            + a11 * (a22 * a00 - a20 * a02)
            + a12 * (a20 * a01 - a21 * a00) == int_det3(m));
    }
    if i == 1 && k == 2 {
        lemma_term(a10, a01, a12, a02, a11);
        lemma_perm3(a10, a01, a12);
        lemma_perm3(a10, a02, a11);
        lemma_term(a11, a02, a10, a00, a12);
        lemma_perm3(a11, a02, a10);
        lemma_perm3(a11, a00, a12);
        lemma_term(a12, a00, a11, a01, a10);
        lemma_perm3(a12, a00, a11);
        lemma_perm3(a12, a01, a10);
        assert(a10 * (a01 * a12 - a02 * a11)
            + a11 * (a02 * a10 - a00 * a12)
            + a12 * (a00 * a11 - a01 * a10) == 0);
    }
    if i == 2 && k == 0 {
        lemma_term(a20, a11, a22, a12, a21);
        lemma_perm3(a20, a11, a22);
        lemma_perm3(a20, a12, a21);
        lemma_term(a21, a12, a20, a10, a22);
        lemma_perm3(a21, a12, a20);
        lemma_perm3(a21, a10, a22);
        lemma_term(a22, a10, a21, a11, a20);
        lemma_perm3(a22, a10, a21);
        lemma_perm3(a22, a11, a20);
        assert(a20 * (a11 * a22 - a12 * a21)
            + a21 * (a12 * a20 - a10 * a22)
            + a22 * (a10 * a21 - a11 * a20) == 0);
    }
    if i == 2 && k == 1 {
        lemma_term(a20, a21, a02, a22, a01);
        lemma_perm3(a20, a21, a02);
        lemma_perm3(a20, a22, a01);
        lemma_term(a21, a22, a00, a20, a02);
        lemma_perm3(a21, a22, a00);
        lemma_perm3(a21, a20, a02);
        lemma_term(a22, a20, a01, a21, a00);
        lemma_perm3(a22, a20, a01);
        lemma_perm3(a22, a21, a00);
        assert(a20 * (a21 * a02 - a22 * a01)
            + a21 * (a22 * a00 - a20 * a02)
            + a22 * (a20 * a01 - a21 * a00) == 0);
    }
    if i == 2 && k == 2 {
        lemma_term(a20, a01, a12, a02, a11);
        lemma_perm3(a20, a01, a12);
        lemma_perm3(a20, a02, a11);
        lemma_term(a21, a02, a10, a00, a12);
        lemma_perm3(a21, a02, a10);
        lemma_perm3(a21, a00, a12);
        lemma_term(a22, a00, a11, a01, a10);
        lemma_perm3(a22, a00, a11);
        lemma_perm3(a22, a01, a10);
        assert(a20 * (a01 * a12 - a02 * a11)
            + a21 * (a02 * a10 - a00 * a12)
            + a22 * (a00 * a11 - a01 * a10) == int_det3(m));
    }
}

/// Expanding along a column: the cofactors of column `i` times the entries
/// of column `k` add up to the determinant where `i` is `k`, and to zero
/// where it is not.
pub proof fn lemma_column_expansion(m: Seq<Seq<int>>, i: int, k: int)
    requires
        0 <= i < 3,
        0 <= k < 3,
    ensures
        int_cofactor3(m, 0, i) * m[0][k] + int_cofactor3(m, 1, i) * m[1][k] + int_cofactor3(m, 2, i)
            * m[2][k] == if i == k {
            int_det3(m)
        } else {
            0
        },
{
    let a00 = m[0][0];
    let a01 = m[0][1];
    let a02 = m[0][2];
    let a10 = m[1][0];
    let a11 = m[1][1];
    let a12 = m[1][2];
    let a20 = m[2][0];
    let a21 = m[2][1];
    let a22 = m[2][2];
    if i == 0 && k == 0 {
        lemma_term(a00, a11, a22, a12, a21);
        lemma_perm3(a00, a11, a22);
        lemma_perm3(a00, a12, a21);
        lemma_term(a10, a21, a02, a22, a01);
        lemma_perm3(a10, a21, a02);
        lemma_perm3(a10, a22, a01);
        lemma_term(a20, a01, a12, a02, a11);
        lemma_perm3(a20, a01, a12);
        lemma_perm3(a20, a02, a11);
        assert((a11 * a22 - a12 * a21) * a00
            + (a21 * a02 - a22 * a01) * a10
            + (a01 * a12 - a02 * a11) * a20 == int_det3(m));
    }
    if i == 0 && k == 1 {
        lemma_term(a01, a11, a22, a12, a21);
        lemma_perm3(a01, a11, a22);
        lemma_perm3(a01, a12, a21);
        lemma_term(a11, a21, a02, a22, a01);
        lemma_perm3(a11, a21, a02);
        lemma_perm3(a11, a22, a01);
        lemma_term(a21, a01, a12, a02, a11);
        lemma_perm3(a21, a01, a12);
        lemma_perm3(a21, a02, a11);
        assert((a11 * a22 - a12 * a21) * a01
            + (a21 * a02 - a22 * a01) * a11
            + (a01 * a12 - a02 * a11) * a21 == 0);
    }
    if i == 0 && k == 2 {
        lemma_term(a02, a11, a22, a12, a21);
        lemma_perm3(a02, a11, a22);
        lemma_perm3(a02, a12, a21);
        lemma_term(a12, a21, a02, a22, a01);
        lemma_perm3(a12, a21, a02);
        lemma_perm3(a12, a22, a01);
        lemma_term(a22, a01, a12, a02, a11);
        lemma_perm3(a22, a01, a12);
        lemma_perm3(a22, a02, a11);
        assert((a11 * a22 - a12 * a21) * a02
            + (a21 * a02 - a22 * a01) * a12
            + (a01 * a12 - a02 * a11) * a22 == 0);
    }
    if i == 1 && k == 0 {
        lemma_term(a00, a12, a20, a10, a22);
        lemma_perm3(a00, a12, a20);
        lemma_perm3(a00, a10, a22);
        lemma_term(a10, a22, a00, a20, a02);
        lemma_perm3(a10, a22, a00);
        lemma_perm3(a10, a20, a02);
        lemma_term(a20, a02, a10, a00, a12);
        lemma_perm3(a20, a02, a10);
        lemma_perm3(a20, a00, a12);
        assert((a12 * a20 - a10 * a22) * a00
            + (a22 * a00 - a20 * a02) * a10
            + (a02 * a10 - a00 * a12) * a20 == 0);
    }
    if i == 1 && k == 1 {
        lemma_term(a01, a12, a20, a10, a22);
        lemma_perm3(a01, a12, a20);
        lemma_perm3(a01, a10, a22);
        lemma_term(a11, a22, a00, a20, a02);
        lemma_perm3(a11, a22, a00);
        lemma_perm3(a11, a20, a02);
        lemma_term(a21, a02, a10, a00, a12);
        lemma_perm3(a21, a02, a10);
        lemma_perm3(a21, a00, a12);
        assert((a12 * a20 - a10 * a22) * a01
            + (a22 * a00 - a20 * a02) * a11
            + (a02 * a10 - a00 * a12) * a21 == int_det3(m));
    }
    if i == 1 && k == 2 {
        lemma_term(a02, a12, a20, a10, a22);
        lemma_perm3(a02, a12, a20);
        lemma_perm3(a02, a10, a22);
        lemma_term(a12, a22, a00, a20, a02);
        lemma_perm3(a12, a22, a00);
        lemma_perm3(a12, a20, a02);
        lemma_term(a22, a02, a10, a00, a12);
        lemma_perm3(a22, a02, a10);
        lemma_perm3(a22, a00, a12);
        assert((a12 * a20 - a10 * a22) * a02
            + (a22 * a00 - a20 * a02) * a12
            + (a02 * a10 - a00 * a12) * a22 == 0);
    }
    if i == 2 && k == 0 {
        lemma_term(a00, a10, a21, a11, a20);
        lemma_perm3(a00, a10, a21);
        lemma_perm3(a00, a11, a20);
        lemma_term(a10, a20, a01, a21, a00);
        lemma_perm3(a10, a20, a01);
        lemma_perm3(a10, a21, a00);
        lemma_term(a20, a00, a11, a01, a10);
        lemma_perm3(a20, a00, a11);
        lemma_perm3(a20, a01, a10);
        assert((a10 * a21 - a11 * a20) * a00
            + (a20 * a01 - a21 * a00) * a10
            + (a00 * a11 - a01 * a10) * a20 == 0);
    }
    if i == 2 && k == 1 {
        lemma_term(a01, a10, a21, a11, a20);
        lemma_perm3(a01, a10, a21);
        lemma_perm3(a01, a11, a20);
        lemma_term(a11, a20, a01, a21, a00);
        lemma_perm3(a11, a20, a01);
        lemma_perm3(a11, a21, a00);
        lemma_term(a21, a00, a11, a01, a10);
        lemma_perm3(a21, a00, a11);
        lemma_perm3(a21, a01, a10);
        assert((a10 * a21 - a11 * a20) * a01
            + (a20 * a01 - a21 * a00) * a11
            + (a00 * a11 - a01 * a10) * a21 == 0);
    }
    if i == 2 && k == 2 {
        lemma_term(a02, a10, a21, a11, a20);
        lemma_perm3(a02, a10, a21);
        lemma_perm3(a02, a11, a20);
        lemma_term(a12, a20, a01, a21, a00);
        lemma_perm3(a12, a20, a01);
        lemma_perm3(a12, a21, a00);
        lemma_term(a22, a00, a11, a01, a10);
        lemma_perm3(a22, a00, a11);
        lemma_perm3(a22, a01, a10);
        assert((a10 * a21 - a11 * a20) * a02
            + (a20 * a01 - a21 * a00) * a12
            + (a00 * a11 - a01 * a10) * a22 == int_det3(m));
    }
}

/// Three products with a common factor, gathered.
proof fn lemma_gather(x0: int, c0: int, x1: int, c1: int, x2: int, c2: int, e: int)
    ensures
        0 + x0 * (c0 * e) + x1 * (c1 * e) + x2 * (c2 * e) == (x0 * c0 + x1 * c1 + x2 * c2) * e,
        0 + (c0 * e) * x0 + (c1 * e) * x1 + (c2 * e) * x2 == (c0 * x0 + c1 * x1 + c2 * x2) * e,
{
    assert(x0 * (c0 * e) == (x0 * c0) * e) by (nonlinear_arith);
    assert(x1 * (c1 * e) == (x1 * c1) * e) by (nonlinear_arith);
    assert(x2 * (c2 * e) == (x2 * c2) * e) by (nonlinear_arith);
    assert((c0 * e) * x0 == (c0 * x0) * e) by (nonlinear_arith);
    assert((c1 * e) * x1 == (c1 * x1) * e) by (nonlinear_arith);
    assert((c2 * e) * x2 == (c2 * x2) * e) by (nonlinear_arith);
    let (t0, t1, t2) = (x0 * c0, x1 * c1, x2 * c2);
    assert((t0 + t1 + t2) * e == t0 * e + t1 * e + t2 * e) by (nonlinear_arith);
    let (q0, q1, q2) = (c0 * x0, c1 * x1, c2 * x2);
    assert((q0 + q1 + q2) * e == q0 * e + q1 * e + q2 * e) by (nonlinear_arith);
}

/// The integer determinant times the inverse of the determinant is
/// congruent to one.
proof fn lemma_det_cancels(m: Seq<Seq<int>>)
    requires
        is_inverse(finv(det3(m)), det3(m)),
    ensures
        cong(int_det3(m) * finv(det3(m)), 1),
        cong(0 * finv(det3(m)), 0),
{
    let e = finv(det3(m));
    lemma_modulus_bounds();
    lemma_in_range_mod(1);
    lemma_mod_twice(int_det3(m), modulus());
    lemma_mod_twice(e * det3(m), modulus());
    lemma_cong_mul(e, e, det3(m), int_det3(m));
    assert(e * int_det3(m) == int_det3(m) * e) by (nonlinear_arith);
    assert(0 * e == 0) by (nonlinear_arith);
}

/// Entry (`i`, `k`) of a matrix times its adjugate over its determinant.
proof fn lemma_right_entry(m: Seq<Seq<int>>, inv: Seq<Seq<int>>, i: int, k: int)
    requires
        has_shape3(m),
        is_adjugate_inverse(inv, m),
        0 <= i < 3,
        0 <= k < 3,
    ensures
        dot(m[i], column(inv, k)) == if i == k {
            1int
        } else {
            0int
        },
{
    let e = finv(det3(m));
    let c0 = int_cofactor3(m, k, 0);
    let c1 = int_cofactor3(m, k, 1);
    let c2 = int_cofactor3(m, k, 2);
    let col = column(inv, k);
    assert(col[0] == fmul(cofactor3(m, k, 0), e)) by {
        assert(inv[0][k] == fmul(cofactor3(m, k, 0), e));
    }
    assert(col[1] == fmul(cofactor3(m, k, 1), e)) by {
        assert(inv[1][k] == fmul(cofactor3(m, k, 1), e));
    }
    assert(col[2] == fmul(cofactor3(m, k, 2), e)) by {
        assert(inv[2][k] == fmul(cofactor3(m, k, 2), e));
    }
    lemma_mod_twice(c0, modulus());
    lemma_mod_twice(c1, modulus());
    lemma_mod_twice(c2, modulus());
    lemma_fmul_cong(cofactor3(m, k, 0), c0, e, e);
    lemma_fmul_cong(cofactor3(m, k, 1), c1, e, e);
    lemma_fmul_cong(cofactor3(m, k, 2), c2, e, e);
    lemma_cong_mul(m[i][0], m[i][0], col[0], c0 * e);
    lemma_cong_mul(m[i][1], m[i][1], col[1], c1 * e);
    lemma_cong_mul(m[i][2], m[i][2], col[2], c2 * e);
    lemma_cong_add(0, 0, m[i][0] * col[0], m[i][0] * (c0 * e));
    lemma_cong_add(
        0 + m[i][0] * col[0],
        0 + m[i][0] * (c0 * e),
        m[i][1] * col[1],
        m[i][1] * (c1 * e),
    );
    lemma_cong_add(
        0 + m[i][0] * col[0] + m[i][1] * col[1],
        0 + m[i][0] * (c0 * e) + m[i][1] * (c1 * e),
        m[i][2] * col[2],
        m[i][2] * (c2 * e),
    );
    reveal_with_fuel(int_dot, 4);
    assert(int_dot(m[i], col, 3) == 0 + m[i][0] * col[0] + m[i][1] * col[1] + m[i][2] * col[2]);
    lemma_gather(m[i][0], c0, m[i][1], c1, m[i][2], c2, e);
    lemma_row_expansion(m, i, k);
    lemma_det_cancels(m);
    lemma_modulus_bounds();
    lemma_in_range_mod(1);
    lemma_in_range_mod(0);
}

/// Entry (`i`, `k`) of the adjugate over the determinant times the matrix.
proof fn lemma_left_entry(m: Seq<Seq<int>>, inv: Seq<Seq<int>>, i: int, k: int)
    requires
        has_shape3(m),
        is_adjugate_inverse(inv, m),
        0 <= i < 3,
        0 <= k < 3,
    ensures
        dot(inv[i], column(m, k)) == if i == k {
            1int
        } else {
            0int
        },
{
    let e = finv(det3(m));
    let c0 = int_cofactor3(m, 0, i);
    let c1 = int_cofactor3(m, 1, i);
    let c2 = int_cofactor3(m, 2, i);
    let row = inv[i];
    let col = column(m, k);
    assert(row[0] == fmul(cofactor3(m, 0, i), e));
    assert(row[1] == fmul(cofactor3(m, 1, i), e));
    assert(row[2] == fmul(cofactor3(m, 2, i), e));
    lemma_mod_twice(c0, modulus());
    lemma_mod_twice(c1, modulus());
    lemma_mod_twice(c2, modulus());
    lemma_fmul_cong(cofactor3(m, 0, i), c0, e, e);
    lemma_fmul_cong(cofactor3(m, 1, i), c1, e, e);
    lemma_fmul_cong(cofactor3(m, 2, i), c2, e, e);
    lemma_cong_mul(row[0], c0 * e, col[0], col[0]);
    lemma_cong_mul(row[1], c1 * e, col[1], col[1]);
    lemma_cong_mul(row[2], c2 * e, col[2], col[2]);
    lemma_cong_add(0, 0, row[0] * col[0], (c0 * e) * col[0]);
    lemma_cong_add(
        0 + row[0] * col[0],
        0 + (c0 * e) * col[0],
        row[1] * col[1],
        (c1 * e) * col[1],
    );
    lemma_cong_add(
        0 + row[0] * col[0] + row[1] * col[1],
        0 + (c0 * e) * col[0] + (c1 * e) * col[1],
        row[2] * col[2],
        (c2 * e) * col[2],
    );
    reveal_with_fuel(int_dot, 4);
    assert(int_dot(row, col, 3) == 0 + row[0] * col[0] + row[1] * col[1] + row[2] * col[2]);
    lemma_gather(col[0], c0, col[1], c1, col[2], c2, e);
    lemma_column_expansion(m, i, k);
    lemma_det_cancels(m);
    lemma_modulus_bounds();
    lemma_in_range_mod(1);
    lemma_in_range_mod(0);
}

/// A matrix of three rows and columns times its adjugate over its
/// determinant is the identity matrix, and so is the product taken the
/// other way round.
pub proof fn lemma_adjugate_inverts(m: Seq<Seq<int>>, inv: Seq<Seq<int>>)
    requires
        has_shape3(m),
        is_adjugate_inverse(inv, m),
    ensures
        is_identity(mat_mul(m, inv), 3),
        is_identity(mat_mul(inv, m), 3),
{
    assert forall|i: int, k: int| 0 <= i < 3 && 0 <= k < 3 implies (#[trigger] mat_mul(
        m,
        inv,
    )[i][k]) == if i == k {
        1int
    } else {
        0int
    } by {
        lemma_right_entry(m, inv, i, k);
    }
    assert forall|i: int, k: int| 0 <= i < 3 && 0 <= k < 3 implies (#[trigger] mat_mul(
        inv,
        m,
    )[i][k]) == if i == k {
        1int
    } else {
        0int
    } by {
        lemma_left_entry(m, inv, i, k);
    }
}

} // verus!
