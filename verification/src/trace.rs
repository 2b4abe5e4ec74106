//! What the cipher writes into a constraint system where none of its
//! parameters is a constant: the values of the new variables, in the order
//! in which they are allocated. Each of them comes with one gate.

use crate::cipher_generator::matrix_laws::mat_vec;
use crate::cipher_generator::mds::{
    dot_allocations, dot_started, int_dot, matrix_variables, pairwise_allocations, values,
    MdsMatrix,
};
use crate::cipher_generator::sboxes::{
    powers, root_allocations, sbox_allocations, variables_among,
};
use crate::circuit::{all_variables, Num};
use crate::enc_dec::{
    decrypt_state, encrypt_state, mix_allocations, round, subkey, substitute, unround,
    uses_forward,
};
use crate::field::{fmul, modulus};
use vstd::prelude::*;

verus! {

/// The values of the variables that the dot product of two vectors of
/// variables allocates for their first `k` entries: for each entry its
/// product and then the running sum.
pub open spec fn dot_values(x: Seq<int>, y: Seq<int>, k: nat) -> Seq<int>
    decreases k,
{
    if k == 0 {
        Seq::empty()
    } else {
        dot_values(x, y, (k - 1) as nat).push(fmul(x[k - 1], y[k - 1])).push(
            int_dot(x, y, k) % modulus(),
        )
    }
}

/// The values of the variables that the product of a matrix of variables
/// and a state allocates for the first `k` rows.
pub open spec fn mix_values(m: Seq<Seq<int>>, s: Seq<int>, k: nat) -> Seq<int>
    decreases k,
{
    if k == 0 {
        Seq::empty()
    } else {
        mix_values(m, s, (k - 1) as nat) + dot_values(s, m[k - 1], s.len())
    }
}

/// The values of the variables that the forward S-box allocates for the
/// first `k` variables of a state: four powers of each.
pub open spec fn sbox_values(s: Seq<int>, k: nat) -> Seq<int>
    decreases k,
{
    if k == 0 {
        Seq::empty()
    } else {
        sbox_values(s, (k - 1) as nat) + powers(s[k - 1])
    }
}

/// The values of the variables that the S-box of a round allocates for a
/// state of variables: the forward one, or the inverse one with exponent
/// `e`.
pub open spec fn substitution_values(s: Seq<int>, forward: bool, e: nat) -> Seq<int> {
    if forward {
        sbox_values(s, s.len())
    } else {
        root_allocations(s, e, s.len())
    }
}

/// The values of the variables that round `i` allocates on a state: those
/// of the product with the matrix, those of the S-box, and the new state.
pub open spec fn round_values(
    m: Seq<Seq<int>>,
    e: nat,
    i: int,
    state: Seq<int>,
    addend: Seq<int>,
) -> Seq<int> {
    mix_values(m, state, state.len()) + substitution_values(
        mat_vec(m, state),
        uses_forward(i),
        e,
    ) + round(m, e, i, state, addend)
}

/// The values of the variables that undoing round `i` allocates on a state:
/// those of the S-box, those of the product with the inverse matrix, and
/// the new state.
pub open spec fn unround_values(
    inv: Seq<Seq<int>>,
    e: nat,
    i: int,
    state: Seq<int>,
    subtrahend: Seq<int>,
) -> Seq<int> {
    substitution_values(state, !uses_forward(i), e) + mix_values(
        inv,
        substitute(state, !uses_forward(i), e),
        state.len(),
    ) + unround(inv, e, i, state, subtrahend)
}

/// The values of the variables that the key schedule allocates up to the
/// subkey of round `i`: the first subkey, and then the variables of each
/// round on the subkey before.
pub open spec fn schedule_values(
    m: Seq<Seq<int>>,
    e: nat,
    constants: Seq<Seq<int>>,
    key: Seq<int>,
    i: nat,
) -> Seq<int>
    decreases i,
{
    if i == 0 {
        subkey(m, e, constants, key, 0)
    } else {
        schedule_values(m, e, constants, key, (i - 1) as nat) + round_values(
            m,
            e,
            i as int,
            subkey(m, e, constants, key, (i - 1) as nat),
            constants[i as int],
        )
    }
}

/// The values of the variables that an encryption allocates after its key
/// schedule, up to round `i`: the first state, and then the variables of
/// each round on the state before.
pub open spec fn encryption_values(
    m: Seq<Seq<int>>,
    e: nat,
    constants: Seq<Seq<int>>,
    key: Seq<int>,
    plaintext: Seq<int>,
    i: nat,
) -> Seq<int>
    decreases i,
{
    if i == 0 {
        encrypt_state(m, e, constants, key, plaintext, 0)
    } else {
        encryption_values(m, e, constants, key, plaintext, (i - 1) as nat) + round_values(
            m,
            e,
            i as int,
            encrypt_state(m, e, constants, key, plaintext, (i - 1) as nat),
            subkey(m, e, constants, key, i),
        )
    }
}

/// The values of the variables that a decryption allocates after its key
/// schedule, once `i` rounds have been undone: the first state, and then
/// the variables of each round undone on the state before.
pub open spec fn decryption_values(
    m: Seq<Seq<int>>,
    inv: Seq<Seq<int>>,
    e: nat,
    constants: Seq<Seq<int>>,
    key: Seq<int>,
    ciphertext: Seq<int>,
    rounds: nat,
    i: nat,
) -> Seq<int>
    decreases i,
{
    if i == 0 {
        decrypt_state(m, inv, e, constants, key, ciphertext, rounds, 0)
    } else {
        decryption_values(m, inv, e, constants, key, ciphertext, rounds, (i - 1) as nat)
            + unround_values(
            inv,
            e,
            rounds - i,
            decrypt_state(m, inv, e, constants, key, ciphertext, rounds, (i - 1) as nat),
            subkey(m, e, constants, key, (rounds - 1 - i) as nat),
        )
    }
}

/// A dot product with a vector of variables folds nothing: every entry
/// takes a product and a sum.
pub proof fn lemma_dot_of_variables<const SIZE: usize>(x: [Num; SIZE], y: [Num; SIZE], k: nat)
    requires
        all_variables(y@),
        k <= SIZE,
    ensures
        k > 0 ==> dot_started(x@, y@, k),
        dot_allocations(x@, y@, k) == dot_values(values(x), values(y), k),
    decreases k,
{
    if k > 0 {
        lemma_dot_of_variables(x, y, (k - 1) as nat);
        assert(!(y@[k - 1].bound() is Constant));
        assert(values(x) =~= x@.map_values(|n: Num| n@));
        assert(values(y) =~= y@.map_values(|n: Num| n@));
        assert(dot_allocations(x@, y@, k) =~= dot_values(values(x), values(y), k));
    }
}

/// The product of a matrix of variables and a state folds nothing, and
/// every entry of the result is a variable.
pub proof fn lemma_mix_of_variables<const SIZE: usize>(
    matrix: MdsMatrix<SIZE>,
    state: [Num; SIZE],
    k: nat,
)
    requires
        matrix_variables(matrix),
        k <= SIZE,
    ensures
        mix_allocations(matrix.data@, state@, k) == mix_values(matrix@, values(state), k),
        forall|j: int| 0 <= j < k ==> dot_started(state@, #[trigger] matrix.data[j]@, SIZE as nat),
    decreases k,
{
    if k > 0 {
        lemma_mix_of_variables(matrix, state, (k - 1) as nat);
        let row = matrix.data[k - 1];
        assert forall|j: int| 0 <= j < SIZE implies !((#[trigger] row@[j]).bound()
            is Constant) by {
            assert(!(matrix.data[k - 1][j].bound() is Constant));
        }
        lemma_dot_of_variables(state, row, SIZE as nat);
        assert(matrix@[k - 1] == values(row));
        assert(matrix.data@[k - 1] == row);
    }
}

/// The forward S-box on a state of variables takes four multiplications
/// for every element.
pub proof fn lemma_sbox_of_variables<const SIZE: usize>(state: [Num; SIZE], k: nat)
    requires
        all_variables(state@),
        k <= SIZE,
    ensures
        sbox_allocations(state@, k) == sbox_values(values(state), k),
        variables_among(state@, k) == k,
        sbox_values(values(state), k).len() == 4 * k,
    decreases k,
{
    if k > 0 {
        lemma_sbox_of_variables(state, (k - 1) as nat);
        assert(!(state@[k - 1].bound() is Constant));
    }
}

/// The inverse S-box allocates five variables for every element.
pub proof fn lemma_root_count(state: Seq<int>, e: nat, k: nat)
    ensures
        root_allocations(state, e, k).len() == 5 * k,
    decreases k,
{
    if k > 0 {
        lemma_root_count(state, e, (k - 1) as nat);
    }
}

/// An operation entry by entry with a vector of variables allocates every
/// result.
pub proof fn lemma_pairwise_of_variables<const SIZE: usize>(
    x: [Num; SIZE],
    y: [Num; SIZE],
    results: Seq<int>,
    k: nat,
)
    requires
        all_variables(y@) || all_variables(x@),
        k <= SIZE,
        results.len() == SIZE,
    ensures
        pairwise_allocations(x@, y@, results, k) == results.take(k as int),
    decreases k,
{
    if k > 0 {
        lemma_pairwise_of_variables(x, y, results, (k - 1) as nat);
        assert(!(y@[k - 1].bound() is Constant) || !(x@[k - 1].bound() is Constant));
        assert(results.take(k as int) =~= results.take(k - 1).push(results[k - 1]));
    }
}

/// How many variables, and as many gates, round `i` takes on a state of
/// `n` variables: two for each entry of the matrix, four or five for each
/// element in the S-box, and one for each element of the sum.
pub open spec fn round_cost(n: nat, i: int) -> nat {
    2 * n * n + n + if uses_forward(i) {
        4 * n
    } else {
        5 * n
    }
}

/// How many variables, and as many gates, undoing round `i` takes on a
/// state of `n` variables.
pub open spec fn unround_cost(n: nat, i: int) -> nat {
    2 * n * n + n + if uses_forward(i) {
        5 * n
    } else {
        4 * n
    }
}

/// How many variables, and as many gates, the first sum and the rounds up
/// to round `i` take on a state of `n` variables.
pub open spec fn rounds_cost(n: nat, i: nat) -> nat
    decreases i,
{
    if i == 0 {
        n
    } else {
        rounds_cost(n, (i - 1) as nat) + round_cost(n, i as int)
    }
}

/// How many variables, and as many gates, the first difference and the
/// last `i` of `rounds` rounds undone take on a state of `n` variables.
pub open spec fn rounds_undone_cost(n: nat, rounds: nat, i: nat) -> nat
    decreases i,
{
    if i == 0 {
        n
    } else {
        rounds_undone_cost(n, rounds, (i - 1) as nat) + unround_cost(n, rounds - i)
    }
}

/// A dot product of variables allocates two variables for each entry.
pub proof fn lemma_dot_count(x: Seq<int>, y: Seq<int>, k: nat)
    ensures
        dot_values(x, y, k).len() == 2 * k,
    decreases k,
{
    if k > 0 {
        lemma_dot_count(x, y, (k - 1) as nat);
    }
}

/// The product of a matrix of variables and a state allocates two
/// variables for each entry of the rows that it has gone through.
pub proof fn lemma_mix_count(m: Seq<Seq<int>>, s: Seq<int>, k: nat)
    ensures
        mix_values(m, s, k).len() == 2 * s.len() * k,
    decreases k,
{
    if k > 0 {
        lemma_mix_count(m, s, (k - 1) as nat);
        lemma_dot_count(s, m[k - 1], s.len());
        assert(2 * s.len() * (k - 1) + 2 * s.len() == 2 * s.len() * k) by (nonlinear_arith);
    } else {
        assert(2 * s.len() * 0 == 0) by (nonlinear_arith);
    }
}

/// The forward S-box allocates four variables for each variable.
pub proof fn lemma_sbox_count(s: Seq<int>, k: nat)
    ensures
        sbox_values(s, k).len() == 4 * k,
    decreases k,
{
    if k > 0 {
        lemma_sbox_count(s, (k - 1) as nat);
    }
}

/// A round on a state of `n` variables takes `round_cost` variables.
pub proof fn lemma_round_count(
    m: Seq<Seq<int>>,
    e: nat,
    i: int,
    state: Seq<int>,
    addend: Seq<int>,
)
    requires
        m.len() == state.len(),
    ensures
        round_values(m, e, i, state, addend).len() == round_cost(state.len(), i),
        round(m, e, i, state, addend).len() == state.len(),
{
    let n = state.len();
    lemma_mix_count(m, state, n);
    lemma_sbox_count(mat_vec(m, state), n);
    lemma_root_count(mat_vec(m, state), e, n);
    assert(2 * n * n == 2 * (n * n)) by (nonlinear_arith);
}

/// Undoing a round on a state of `n` variables takes `unround_cost`
/// variables.
pub proof fn lemma_unround_count(
    inv: Seq<Seq<int>>,
    e: nat,
    i: int,
    state: Seq<int>,
    subtrahend: Seq<int>,
)
    requires
        inv.len() == state.len(),
    ensures
        unround_values(inv, e, i, state, subtrahend).len() == unround_cost(state.len(), i),
        unround(inv, e, i, state, subtrahend).len() == state.len(),
{
    let n = state.len();
    let substituted = substitute(state, !uses_forward(i), e);
    lemma_mix_count(inv, substituted, n);
    lemma_sbox_count(state, n);
    lemma_root_count(state, e, n);
    assert(2 * n * n == 2 * (n * n)) by (nonlinear_arith);
}

/// The key schedule up to round `i` takes `rounds_cost` variables on a key
/// of as many elements as the matrix has rows.
pub proof fn lemma_schedule_count(
    m: Seq<Seq<int>>,
    e: nat,
    constants: Seq<Seq<int>>,
    key: Seq<int>,
    i: nat,
)
    requires
        m.len() == key.len(),
    ensures
        schedule_values(m, e, constants, key, i).len() == rounds_cost(key.len(), i),
        subkey(m, e, constants, key, i).len() == key.len(),
    decreases i,
{
    if i > 0 {
        lemma_schedule_count(m, e, constants, key, (i - 1) as nat);
        lemma_round_count(
            m,
            e,
            i as int,
            subkey(m, e, constants, key, (i - 1) as nat),
            constants[i as int],
        );
    }
}

/// The rounds of an encryption up to round `i` take `rounds_cost`
/// variables, as its key schedule does.
pub proof fn lemma_encryption_count(
    m: Seq<Seq<int>>,
    e: nat,
    constants: Seq<Seq<int>>,
    key: Seq<int>,
    plaintext: Seq<int>,
    i: nat,
)
    requires
        m.len() == plaintext.len(),
    ensures
        encryption_values(m, e, constants, key, plaintext, i).len() == rounds_cost(
            plaintext.len(),
            i,
        ),
        encrypt_state(m, e, constants, key, plaintext, i).len() == plaintext.len(),
    decreases i,
{
    if i > 0 {
        lemma_encryption_count(m, e, constants, key, plaintext, (i - 1) as nat);
        lemma_round_count(
            m,
            e,
            i as int,
            encrypt_state(m, e, constants, key, plaintext, (i - 1) as nat),
            subkey(m, e, constants, key, i),
        );
    }
}

/// The last `i` rounds undone by a decryption take `rounds_undone_cost`
/// variables.
pub proof fn lemma_decryption_count(
    m: Seq<Seq<int>>,
    inv: Seq<Seq<int>>,
    e: nat,
    constants: Seq<Seq<int>>,
    key: Seq<int>,
    ciphertext: Seq<int>,
    rounds: nat,
    i: nat,
)
    requires
        inv.len() == ciphertext.len(),
    ensures
        decryption_values(m, inv, e, constants, key, ciphertext, rounds, i).len()
            == rounds_undone_cost(ciphertext.len(), rounds, i),
        decrypt_state(m, inv, e, constants, key, ciphertext, rounds, i).len() == ciphertext.len(),
    decreases i,
{
    if i > 0 {
        lemma_decryption_count(m, inv, e, constants, key, ciphertext, rounds, (i - 1) as nat);
        lemma_unround_count(
            inv,
            e,
            rounds - i,
            decrypt_state(m, inv, e, constants, key, ciphertext, rounds, (i - 1) as nat),
            subkey(m, e, constants, key, (rounds - 1 - i) as nat),
        );
    }
}

} // verus!
