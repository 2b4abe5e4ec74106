//! Decryption undoes encryption, and encryption undoes decryption.

use crate::algebra::{
    cong, lemma_cong_add, lemma_cong_equal, lemma_cong_mul, lemma_fadd_cong, lemma_fpow_in_range,
    lemma_fsub_cong, lemma_modulus_bounds, lemma_results_in_range,
};
use crate::cipher_generator::matrix_laws::{column, has_shape3, is_identity, mat_mul, mat_vec};
use crate::cipher_generator::mds::{dot, int_dot, vec_add, vec_sub};
use crate::cipher_generator::sbox_laws::lemma_sbox_inverse_law;
use crate::cipher_generator::sboxes::{inverts_exponent, ALPHA};
use crate::circuit::Num;
use crate::enc_dec::{
    decrypt, decrypt_state, encrypt, encrypt_state, rows, subkey, substitute, uses_forward,
    ReadyCipherParams,
};
use crate::field::{fadd, fsub, in_range, modulus};
use vstd::arithmetic::div_mod::{lemma_mod_bound, lemma_mod_twice};
use vstd::prelude::*;

verus! {

/// `s` is a state of three canonical values.
pub open spec fn is_state3(s: Seq<int>) -> bool {
    s.len() == 3 && in_range(s[0]) && in_range(s[1]) && in_range(s[2])
}

/// Subtracting what was added gives the state back.
pub proof fn lemma_add_then_sub(a: Seq<int>, b: Seq<int>)
    requires
        is_state3(a),
    ensures
        vec_sub(vec_add(a, b), b) == a,
{
    assert forall|i: int| 0 <= i < 3 implies fsub(fadd(a[i], b[i]), b[i]) == a[i] by {
        lemma_fadd_cong(a[i], a[i], b[i], b[i]);
        lemma_fsub_cong(fadd(a[i], b[i]), a[i] + b[i], b[i], b[i]);
        lemma_results_in_range(fadd(a[i], b[i]), b[i]);
        lemma_cong_equal(fsub(fadd(a[i], b[i]), b[i]), a[i]);
    }
    assert(vec_sub(vec_add(a, b), b) =~= a);
}

/// The S-box of a round followed by the other S-box gives the state back.
pub proof fn lemma_substitute_back(s: Seq<int>, forward: bool, e: nat)
    requires
        inverts_exponent(e as int, ALPHA as int),
        is_state3(s),
    ensures
        substitute(substitute(s, forward, e), !forward, e) == s,
        is_state3(substitute(s, forward, e)),
{
    let other = !forward;
    let back = substitute(substitute(s, forward, e), other, e);
    assert forall|i: int| 0 <= i < 3 implies #[trigger] back[i] == s[i] by {
        lemma_sbox_inverse_law(s[i], e);
    }
    assert(back =~= s);
    lemma_fpow_in_range(s[0], 5);
    lemma_fpow_in_range(s[1], 5);
    lemma_fpow_in_range(s[2], 5);
    lemma_fpow_in_range(s[0], e);
    lemma_fpow_in_range(s[1], e);
    lemma_fpow_in_range(s[2], e);
}

/// A dot product of vectors of three entries, written out.
proof fn lemma_dot3(x: Seq<int>, y: Seq<int>)
    requires
        x.len() == 3,
    ensures
        dot(x, y) == (x[0] * y[0] + x[1] * y[1] + x[2] * y[2]) % modulus(),
        cong(dot(x, y), x[0] * y[0] + x[1] * y[1] + x[2] * y[2]),
        in_range(dot(x, y)),
{
    reveal_with_fuel(int_dot, 4);
    lemma_modulus_bounds();
    lemma_mod_twice(x[0] * y[0] + x[1] * y[1] + x[2] * y[2], modulus());
    lemma_mod_bound(x[0] * y[0] + x[1] * y[1] + x[2] * y[2], modulus());
}

/// Three products with a common factor, regrouped by the other factor.
proof fn lemma_regroup(
    s0: int,
    s1: int,
    s2: int,
    m0: int,
    m1: int,
    m2: int,
    a: int,
)
    ensures
        (s0 * m0 + s1 * m1 + s2 * m2) * a == s0 * (a * m0) + s1 * (a * m1) + s2 * (a * m2),
{
    assert((s0 * m0) * a == s0 * (a * m0)) by (nonlinear_arith);
    assert((s1 * m1) * a == s1 * (a * m1)) by (nonlinear_arith);
    assert((s2 * m2) * a == s2 * (a * m2)) by (nonlinear_arith);
    let (t0, t1, t2) = (s0 * m0, s1 * m1, s2 * m2);
    assert((t0 + t1 + t2) * a == t0 * a + t1 * a + t2 * a) by (nonlinear_arith);
}

/// A factor times a sum of three.
proof fn lemma_spread(s: int, x0: int, x1: int, x2: int)
    ensures
        s * (x0 + x1 + x2) == s * x0 + s * x1 + s * x2,
{
    assert(s * (x0 + x1 + x2) == s * x0 + s * x1 + s * x2) by (nonlinear_arith);
}

/// Entry `k` of a state multiplied by a matrix and then by a left inverse
/// of the matrix.
proof fn lemma_mix_back_entry(m: Seq<Seq<int>>, inv: Seq<Seq<int>>, s: Seq<int>, k: int)
    requires
        has_shape3(m),
        has_shape3(inv),
        is_identity(mat_mul(inv, m), 3),
        is_state3(s),
        0 <= k < 3,
    ensures
        mat_vec(inv, mat_vec(m, s))[k] == s[k],
{
    let w = mat_vec(m, s);
    let a = inv[k];
    lemma_dot3(s, m[0]);
    lemma_dot3(s, m[1]);
    lemma_dot3(s, m[2]);
    lemma_dot3(w, a);
    // each entry of the product of the two matrices, written out
    let c0 = column(m, 0);
    let c1 = column(m, 1);
    let c2 = column(m, 2);
    lemma_dot3(a, c0);
    lemma_dot3(a, c1);
    lemma_dot3(a, c2);
    let d0 = a[0] * m[0][0] + a[1] * m[1][0] + a[2] * m[2][0];
    let d1 = a[0] * m[0][1] + a[1] * m[1][1] + a[2] * m[2][1];
    let d2 = a[0] * m[0][2] + a[1] * m[1][2] + a[2] * m[2][2];
    let e0 = if k == 0 { 1int } else { 0int };
    let e1 = if k == 1 { 1int } else { 0int };
    let e2 = if k == 2 { 1int } else { 0int };
    assert(mat_mul(inv, m)[k][0] == dot(a, c0));
    assert(mat_mul(inv, m)[k][1] == dot(a, c1));
    assert(mat_mul(inv, m)[k][2] == dot(a, c2));
    assert(cong(d0, e0) && cong(d1, e1) && cong(d2, e2));
    // the mixed state, up to congruence
    let w0 = s[0] * m[0][0] + s[1] * m[0][1] + s[2] * m[0][2];
    let w1 = s[0] * m[1][0] + s[1] * m[1][1] + s[2] * m[1][2];
    let w2 = s[0] * m[2][0] + s[1] * m[2][1] + s[2] * m[2][2];
    lemma_cong_mul(w[0], w0, a[0], a[0]);
    lemma_cong_mul(w[1], w1, a[1], a[1]);
    lemma_cong_mul(w[2], w2, a[2], a[2]);
    lemma_cong_add(w[0] * a[0], w0 * a[0], w[1] * a[1], w1 * a[1]);
    lemma_cong_add(w[0] * a[0] + w[1] * a[1], w0 * a[0] + w1 * a[1], w[2] * a[2], w2 * a[2]);
    // regrouped by the entries of the state
    lemma_regroup(s[0], s[1], s[2], m[0][0], m[0][1], m[0][2], a[0]);
    lemma_regroup(s[0], s[1], s[2], m[1][0], m[1][1], m[1][2], a[1]);
    lemma_regroup(s[0], s[1], s[2], m[2][0], m[2][1], m[2][2], a[2]);
    lemma_spread(s[0], a[0] * m[0][0], a[1] * m[1][0], a[2] * m[2][0]);
    lemma_spread(s[1], a[0] * m[0][1], a[1] * m[1][1], a[2] * m[2][1]);
    lemma_spread(s[2], a[0] * m[0][2], a[1] * m[1][2], a[2] * m[2][2]);
    assert(w0 * a[0] + w1 * a[1] + w2 * a[2] == s[0] * d0 + s[1] * d1 + s[2] * d2);
    lemma_cong_mul(s[0], s[0], d0, e0);
    lemma_cong_mul(s[1], s[1], d1, e1);
    lemma_cong_mul(s[2], s[2], d2, e2);
    lemma_cong_add(s[0] * d0, s[0] * e0, s[1] * d1, s[1] * e1);
    lemma_cong_add(s[0] * d0 + s[1] * d1, s[0] * e0 + s[1] * e1, s[2] * d2, s[2] * e2);
    assert(s[0] * e0 + s[1] * e1 + s[2] * e2 == s[k]) by {
        assert(s[0] * 1 == s[0] && s[0] * 0 == 0) by (nonlinear_arith);
        assert(s[1] * 1 == s[1] && s[1] * 0 == 0) by (nonlinear_arith);
        assert(s[2] * 1 == s[2] && s[2] * 0 == 0) by (nonlinear_arith);
    }
    assert(mat_vec(inv, w)[k] == dot(w, a));
    lemma_cong_equal(dot(w, a), s[k]);
}

/// Multiplying a state by a matrix and then by a left inverse of the
/// matrix gives the state back.
pub proof fn lemma_mix_back(m: Seq<Seq<int>>, inv: Seq<Seq<int>>, s: Seq<int>)
    requires
        has_shape3(m),
        has_shape3(inv),
        is_identity(mat_mul(inv, m), 3),
        is_state3(s),
    ensures
        mat_vec(inv, mat_vec(m, s)) == s,
        is_state3(mat_vec(m, s)),
{
    lemma_mix_back_entry(m, inv, s, 0);
    lemma_mix_back_entry(m, inv, s, 1);
    lemma_mix_back_entry(m, inv, s, 2);
    assert(mat_vec(inv, mat_vec(m, s)) =~= s);
    lemma_dot3(s, m[0]);
    lemma_dot3(s, m[1]);
    lemma_dot3(s, m[2]);
}

/// The state of an encryption after round `j`, before the subkey of the
/// round is added.
pub open spec fn before_subkey(
    m: Seq<Seq<int>>,
    e: nat,
    constants: Seq<Seq<int>>,
    key: Seq<int>,
    plaintext: Seq<int>,
    j: nat,
) -> Seq<int> {
    if j == 0 {
        plaintext
    } else {
        substitute(
            mat_vec(m, encrypt_state(m, e, constants, key, plaintext, (j - 1) as nat)),
            uses_forward(j as int),
            e,
        )
    }
}

/// Every state of an encryption is a state of three canonical values.
proof fn lemma_states(
    m: Seq<Seq<int>>,
    e: nat,
    constants: Seq<Seq<int>>,
    key: Seq<int>,
    plaintext: Seq<int>,
    j: nat,
)
    requires
        has_shape3(m),
        is_state3(plaintext),
    ensures
        is_state3(before_subkey(m, e, constants, key, plaintext, j)),
        is_state3(encrypt_state(m, e, constants, key, plaintext, j)),
        encrypt_state(m, e, constants, key, plaintext, j) == vec_add(
            before_subkey(m, e, constants, key, plaintext, j),
            subkey(m, e, constants, key, j),
        ),
    decreases j,
{
    let b = before_subkey(m, e, constants, key, plaintext, j);
    let k = subkey(m, e, constants, key, j);
    if j > 0 {
        let s = encrypt_state(m, e, constants, key, plaintext, (j - 1) as nat);
        lemma_states(m, e, constants, key, plaintext, (j - 1) as nat);
        let w = mat_vec(m, s);
        lemma_fpow_in_range(w[0], 5);
        lemma_fpow_in_range(w[1], 5);
        lemma_fpow_in_range(w[2], 5);
        lemma_fpow_in_range(w[0], e);
        lemma_fpow_in_range(w[1], e);
        lemma_fpow_in_range(w[2], e);
    }
    lemma_results_in_range(b[0], k[0]);
    lemma_results_in_range(b[1], k[1]);
    lemma_results_in_range(b[2], k[2]);
}

/// After `i` rounds have been undone, a decryption of a ciphertext is
/// where the encryption was before the subkey of round `rounds - 1 - i`
/// was added.
proof fn lemma_decrypt_state(
    m: Seq<Seq<int>>,
    inv: Seq<Seq<int>>,
    e: nat,
    constants: Seq<Seq<int>>,
    key: Seq<int>,
    plaintext: Seq<int>,
    rounds: nat,
    i: nat,
)
    requires
        inverts_exponent(e as int, ALPHA as int),
        has_shape3(m),
        has_shape3(inv),
        is_identity(mat_mul(inv, m), 3),
        is_state3(plaintext),
        i < rounds,
    ensures
        decrypt_state(
            m,
            inv,
            e,
            constants,
            key,
            encrypt(m, e, constants, key, plaintext, rounds),
            rounds,
            i,
        ) == before_subkey(m, e, constants, key, plaintext, (rounds - 1 - i) as nat),
    decreases i,
{
    let ciphertext = encrypt(m, e, constants, key, plaintext, rounds);
    let j = (rounds - 1 - i) as nat;
    if i == 0 {
        lemma_states(m, e, constants, key, plaintext, j);
        lemma_add_then_sub(
            before_subkey(m, e, constants, key, plaintext, j),
            subkey(m, e, constants, key, j),
        );
    } else {
        // the round undone in this step
        let r = (j + 1) as nat;
        lemma_decrypt_state(m, inv, e, constants, key, plaintext, rounds, (i - 1) as nat);
        let s = encrypt_state(m, e, constants, key, plaintext, j);
        lemma_states(m, e, constants, key, plaintext, j);
        lemma_mix_back(m, inv, s);
        lemma_substitute_back(mat_vec(m, s), uses_forward(r as int), e);
        lemma_add_then_sub(
            before_subkey(m, e, constants, key, plaintext, j),
            subkey(m, e, constants, key, j),
        );
    }
}

/// Decryption undoes encryption: with an exponent that undoes the fifth
/// power and a matrix of three rows and columns that `inv` inverts from the
/// left, the decryption of the encryption of a plaintext under one key is
/// the plaintext, whatever the key, the round constants and the number of
/// rounds.
pub proof fn lemma_round_trip(
    m: Seq<Seq<int>>,
    inv: Seq<Seq<int>>,
    e: nat,
    constants: Seq<Seq<int>>,
    key: Seq<int>,
    plaintext: Seq<int>,
    rounds: nat,
)
    requires
        inverts_exponent(e as int, ALPHA as int),
        has_shape3(m),
        has_shape3(inv),
        is_identity(mat_mul(inv, m), 3),
        is_state3(plaintext),
        rounds >= 1,
    ensures
        decrypt(m, inv, e, constants, key, encrypt(m, e, constants, key, plaintext, rounds), rounds)
            == plaintext,
{
    lemma_decrypt_state(m, inv, e, constants, key, plaintext, rounds, (rounds - 1) as nat);
}

/// Decryption undoes encryption for parameters bound into a circuit:
/// whatever the key, the plaintext of the ciphertext of a state of three
/// canonical values is that state.
pub proof fn lemma_cipher_round_trip<const SIZE: usize, const RNUMBER: usize>(
    ready: ReadyCipherParams<SIZE, RNUMBER>,
    key: Seq<int>,
    plaintext: Seq<int>,
)
    requires
        ready.wf(),
        ready.sbox2.well_formed(),
        is_state3(plaintext),
        RNUMBER >= 1,
    ensures
        ready.decrypt(key, ready.encrypt(key, plaintext)) == plaintext,
{
    ready.sbox2.lemma_exponent();
    lemma_round_trip(
        ready.matrix@,
        ready.inv_matrix@,
        ready.sbox2.exponent(),
        ready.constants(),
        key,
        plaintext,
        RNUMBER as nat,
    );
}

/// Adding what was subtracted gives the state back.
pub proof fn lemma_sub_then_add(a: Seq<int>, b: Seq<int>)
    requires
        is_state3(a),
    ensures
        vec_add(vec_sub(a, b), b) == a,
{
    assert forall|i: int| 0 <= i < 3 implies fadd(fsub(a[i], b[i]), b[i]) == a[i] by {
        lemma_fsub_cong(a[i], a[i], b[i], b[i]);
        lemma_fadd_cong(fsub(a[i], b[i]), a[i] - b[i], b[i], b[i]);
        lemma_results_in_range(fsub(a[i], b[i]), b[i]);
        lemma_cong_equal(fadd(fsub(a[i], b[i]), b[i]), a[i]);
    }
    assert(vec_add(vec_sub(a, b), b) =~= a);
}

/// Every state of a decryption is a state of three canonical values.
proof fn lemma_decrypt_states(
    m: Seq<Seq<int>>,
    inv: Seq<Seq<int>>,
    e: nat,
    constants: Seq<Seq<int>>,
    key: Seq<int>,
    ciphertext: Seq<int>,
    rounds: nat,
    i: nat,
)
    requires
        has_shape3(inv),
        ciphertext.len() == 3,
    ensures
        is_state3(decrypt_state(m, inv, e, constants, key, ciphertext, rounds, i)),
{
    let d = decrypt_state(m, inv, e, constants, key, ciphertext, rounds, i);
    if i == 0 {
        let k = subkey(m, e, constants, key, (rounds - 1) as nat);
        lemma_results_in_range(ciphertext[0], k[0]);
        lemma_results_in_range(ciphertext[1], k[1]);
        lemma_results_in_range(ciphertext[2], k[2]);
    } else {
        let before = decrypt_state(m, inv, e, constants, key, ciphertext, rounds, (i - 1) as nat);
        let mixed = mat_vec(inv, substitute(before, !uses_forward(rounds - i), e));
        let k = subkey(m, e, constants, key, (rounds - 1 - i) as nat);
        lemma_results_in_range(mixed[0], k[0]);
        lemma_results_in_range(mixed[1], k[1]);
        lemma_results_in_range(mixed[2], k[2]);
    }
}

/// After round `j`, an encryption of the plaintext of a ciphertext is
/// where the decryption was after `rounds - 1 - j` rounds had been undone,
/// with the subkey of round `j` added.
proof fn lemma_encrypt_state(
    m: Seq<Seq<int>>,
    inv: Seq<Seq<int>>,
    e: nat,
    constants: Seq<Seq<int>>,
    key: Seq<int>,
    ciphertext: Seq<int>,
    rounds: nat,
    j: nat,
)
    requires
        inverts_exponent(e as int, ALPHA as int),
        has_shape3(m),
        has_shape3(inv),
        is_identity(mat_mul(m, inv), 3),
        ciphertext.len() == 3,
        j < rounds,
    ensures
        encrypt_state(
            m,
            e,
            constants,
            key,
            decrypt(m, inv, e, constants, key, ciphertext, rounds),
            j,
        ) == vec_add(
            decrypt_state(m, inv, e, constants, key, ciphertext, rounds, (rounds - 1 - j) as nat),
            subkey(m, e, constants, key, j),
        ),
    decreases j,
{
    if j > 0 {
        lemma_encrypt_state(m, inv, e, constants, key, ciphertext, rounds, (j - 1) as nat);
        // what the decryption held before it undid round j
        let d = decrypt_state(
            m,
            inv,
            e,
            constants,
            key,
            ciphertext,
            rounds,
            (rounds - 1 - j) as nat,
        );
        let undone = (rounds - 1 - j) as nat;
        lemma_decrypt_states(m, inv, e, constants, key, ciphertext, rounds, undone);
        let other = !uses_forward(j as int);
        let y = substitute(d, other, e);
        lemma_substitute_back(d, other, e);
        lemma_mix_back(inv, m, y);
        lemma_sub_then_add(mat_vec(inv, y), subkey(m, e, constants, key, (j - 1) as nat));
        assert(rounds - (rounds - j) == j);
    }
}

/// Encryption undoes decryption: with an exponent that undoes the fifth
/// power and a matrix of three rows and columns that `inv` inverts from the
/// right, the encryption of the decryption of a ciphertext under one key is
/// the ciphertext, whatever the key, the round constants and the number of
/// rounds.
pub proof fn lemma_reverse_round_trip(
    m: Seq<Seq<int>>,
    inv: Seq<Seq<int>>,
    e: nat,
    constants: Seq<Seq<int>>,
    key: Seq<int>,
    ciphertext: Seq<int>,
    rounds: nat,
)
    requires
        inverts_exponent(e as int, ALPHA as int),
        has_shape3(m),
        has_shape3(inv),
        is_identity(mat_mul(m, inv), 3),
        is_state3(ciphertext),
        rounds >= 1,
    ensures
        encrypt(
            m,
            e,
            constants,
            key,
            decrypt(m, inv, e, constants, key, ciphertext, rounds),
            rounds,
        ) == ciphertext,
{
    lemma_encrypt_state(m, inv, e, constants, key, ciphertext, rounds, (rounds - 1) as nat);
    lemma_sub_then_add(ciphertext, subkey(m, e, constants, key, (rounds - 1) as nat));
}

/// Encryption undoes decryption for parameters bound into a circuit:
/// whatever the key, the ciphertext of the plaintext of a state of three
/// canonical values is that state.
pub proof fn lemma_cipher_reverse_round_trip<const SIZE: usize, const RNUMBER: usize>(
    ready: ReadyCipherParams<SIZE, RNUMBER>,
    key: Seq<int>,
    ciphertext: Seq<int>,
)
    requires
        ready.wf(),
        ready.sbox2.well_formed(),
        is_state3(ciphertext),
        RNUMBER >= 1,
    ensures
        ready.encrypt(key, ready.decrypt(key, ciphertext)) == ciphertext,
{
    ready.sbox2.lemma_exponent();
    lemma_reverse_round_trip(
        ready.matrix@,
        ready.inv_matrix@,
        ready.sbox2.exponent(),
        ready.constants(),
        key,
        ciphertext,
        RNUMBER as nat,
    );
}

/// The key schedule is a function of the parameters and the key: two
/// tables of subkeys that it can give for one key under the same parameters
/// hold the same values.
pub proof fn lemma_subkeys_deterministic<const SIZE: usize, const RNUMBER: usize>(
    ready: ReadyCipherParams<SIZE, RNUMBER>,
    key: Seq<int>,
    first: [[Num; SIZE]; RNUMBER],
    second: [[Num; SIZE]; RNUMBER],
)
    requires
        forall|i: int|
            0 <= i < RNUMBER ==> (#[trigger] rows(first)[i]) == ready.subkey(key, i as nat),
        forall|i: int|
            0 <= i < RNUMBER ==> (#[trigger] rows(second)[i]) == ready.subkey(key, i as nat),
    ensures
        rows(first) == rows(second),
{
    assert(rows(first) =~= rows(second));
}

} // verus!
