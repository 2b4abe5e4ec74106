//! The cipher itself: parameters bound into a circuit, the key schedule,
//! encryption and decryption.

use crate::cipher_generator::cauchy_laws::is_mds3;
use crate::cipher_generator::matrix_laws::{is_identity, mat_mul, mat_vec};
use crate::cipher_generator::mds::{
    adjugate_allocations, allocate_vector, cauchy_allocations, cauchy_matrix, cauchy_vectors,
    collision_trace, dot_allocations, dot_product, dot_started, elements, generate_mds_matrix,
    inverse_matrix, is_adjugate_inverse, is_cauchy_matrix, matrix_known, matrix_variables,
    sub_vectors, sum_vectors, tested_det_allocations, values, vec_add, vec_sub,
    verification_allocations, MdsMatrix,
};
use crate::cipher_generator::sboxes::{
    inverse_sbox_all, root_allocations, sbox_all, sbox_allocations, variables_among,
    QuinticInverseSBox, QuinticSBox,
};
use crate::cipher_generator::{table, CipherParams};
use crate::circuit::{
    all_known, all_variables, gate_count, grows, known, unchanged, variables, Assembly, Num,
};
use crate::errors::CipherError;
use crate::trace::{
    decryption_values, encryption_values, lemma_decryption_count, lemma_encryption_count,
    lemma_mix_of_variables, lemma_pairwise_of_variables, lemma_root_count, lemma_round_count,
    lemma_sbox_of_variables, lemma_schedule_count, lemma_unround_count, round_cost, round_values,
    rounds_cost, rounds_undone_cost, schedule_values, substitution_values, unround_cost,
    unround_values,
};
use vstd::prelude::*;

verus! {

/// The parameters of a cipher as the circuit holds them: the mixing matrix
/// and its inverse, the two S-boxes, and the round constants.
pub struct ReadyCipherParams<const SIZE: usize, const RNUMBER: usize> {
    pub matrix: MdsMatrix<SIZE>,
    pub inv_matrix: MdsMatrix<SIZE>,
    pub sbox1: QuinticSBox<SIZE>,
    pub sbox2: QuinticInverseSBox<SIZE>,
    pub round_constants: [[Num; SIZE]; RNUMBER],
}

/// The values of a table of circuit numbers, row by row.
pub open spec fn rows<const SIZE: usize, const RNUMBER: usize>(t: [[Num; SIZE]; RNUMBER]) -> Seq<
    Seq<int>,
> {
    Seq::new(RNUMBER as nat, |i: int| values(t[i]))
}

/// Whether round `i` of encryption uses the forward S-box: the odd rounds
/// do, the even ones use the inverse S-box.
pub open spec fn uses_forward(i: int) -> bool {
    i % 2 == 1
}

/// A state after the S-box of a round: the forward one, or the inverse one
/// with exponent `e`.
pub open spec fn substitute(s: Seq<int>, forward: bool, e: nat) -> Seq<int> {
    if forward {
        sbox_all(s)
    } else {
        inverse_sbox_all(s, e)
    }
}

/// Round `i` on a state: the state is multiplied by the matrix, passed
/// through the S-box of the round, and `addend` is added.
pub open spec fn round(m: Seq<Seq<int>>, e: nat, i: int, state: Seq<int>, addend: Seq<int>) -> Seq<
    int,
> {
    vec_add(substitute(mat_vec(m, state), uses_forward(i), e), addend)
}

/// The subkey of round `i`: the key plus the constants of round zero, and
/// from then on round `i` on the subkey before, with the constants of round
/// `i`.
pub open spec fn subkey(m: Seq<Seq<int>>, e: nat, constants: Seq<Seq<int>>, key: Seq<int>, i: nat)
    -> Seq<int>
    decreases i,
{
    if i == 0 {
        vec_add(key, constants[0])
    } else {
        round(m, e, i as int, subkey(m, e, constants, key, (i - 1) as nat), constants[i as int])
    }
}

/// The state of an encryption after round `i`: the plaintext plus the
/// first subkey, and from then on round `i` on the state before, with the
/// subkey of round `i`.
pub open spec fn encrypt_state(
    m: Seq<Seq<int>>,
    e: nat,
    constants: Seq<Seq<int>>,
    key: Seq<int>,
    plaintext: Seq<int>,
    i: nat,
) -> Seq<int>
    decreases i,
{
    if i == 0 {
        vec_add(plaintext, subkey(m, e, constants, key, 0))
    } else {
        round(
            m,
            e,
            i as int,
            encrypt_state(m, e, constants, key, plaintext, (i - 1) as nat),
            subkey(m, e, constants, key, i),
        )
    }
}

/// The ciphertext of `plaintext` under `key`, for a cipher of `rounds`
/// subkeys.
pub open spec fn encrypt(
    m: Seq<Seq<int>>,
    e: nat,
    constants: Seq<Seq<int>>,
    key: Seq<int>,
    plaintext: Seq<int>,
    rounds: nat,
) -> Seq<int> {
    encrypt_state(m, e, constants, key, plaintext, (rounds - 1) as nat)
}

/// Round `i` of encryption undone on a state: the state is passed through
/// the S-box that undoes the one of round `i`, multiplied by the inverse
/// matrix, and `subtrahend` is subtracted.
pub open spec fn unround(inv: Seq<Seq<int>>, e: nat, i: int, state: Seq<int>, subtrahend: Seq<int>)
    -> Seq<int> {
    vec_sub(mat_vec(inv, substitute(state, !uses_forward(i), e)), subtrahend)
}

/// The state of a decryption after `i` rounds have been undone: the
/// ciphertext minus the last subkey, and from then on the last round not
/// yet undone, undone on the state before.
pub open spec fn decrypt_state(
    m: Seq<Seq<int>>,
    inv: Seq<Seq<int>>,
    e: nat,
    constants: Seq<Seq<int>>,
    key: Seq<int>,
    ciphertext: Seq<int>,
    rounds: nat,
    i: nat,
) -> Seq<int>
    decreases i,
{
    if i == 0 {
        vec_sub(ciphertext, subkey(m, e, constants, key, (rounds - 1) as nat))
    } else {
        unround(
            inv,
            e,
            rounds - i,
            decrypt_state(m, inv, e, constants, key, ciphertext, rounds, (i - 1) as nat),
            subkey(m, e, constants, key, (rounds - 1 - i) as nat),
        )
    }
}

/// The plaintext of `ciphertext` under `key`, for a cipher of `rounds`
/// subkeys.
pub open spec fn decrypt(
    m: Seq<Seq<int>>,
    inv: Seq<Seq<int>>,
    e: nat,
    constants: Seq<Seq<int>>,
    key: Seq<int>,
    ciphertext: Seq<int>,
    rounds: nat,
) -> Seq<int> {
    decrypt_state(m, inv, e, constants, key, ciphertext, rounds, (rounds - 1) as nat)
}

impl<const SIZE: usize, const RNUMBER: usize> ReadyCipherParams<SIZE, RNUMBER> {
    /// The values of the round constants, round by round.
    pub open spec fn constants(self) -> Seq<Seq<int>> {
        rows(self.round_constants)
    }

    /// The inverse matrix is the adjugate of the matrix over its
    /// determinant, and so inverts it from both sides.
    pub open spec fn wf(self) -> bool {
        &&& SIZE == 3
        &&& is_adjugate_inverse(self.inv_matrix@, self.matrix@)
        &&& is_identity(mat_mul(self.matrix@, self.inv_matrix@), 3)
        &&& is_identity(mat_mul(self.inv_matrix@, self.matrix@), 3)
    }

    /// No parameter is a constant: every entry of the two matrices and
    /// every round constant is bound to a variable.
    pub open spec fn all_bound(self) -> bool {
        &&& matrix_variables(self.matrix)
        &&& matrix_variables(self.inv_matrix)
        &&& forall|k: int| 0 <= k < RNUMBER ==> all_variables((#[trigger] self.round_constants[k])@)
    }

    /// No parameter is a constant, and the constraint system holds the
    /// variable of each with the parameter's value.
    pub open spec fn bound_in(self, cs: Assembly) -> bool {
        &&& self.all_bound()
        &&& matrix_known(self.matrix, cs)
        &&& matrix_known(self.inv_matrix, cs)
        &&& forall|k: int| 0 <= k < RNUMBER ==> all_known((#[trigger] self.round_constants[k])@, cs)
    }

    /// The subkey of round `i` under `key`.
    pub open spec fn subkey(self, key: Seq<int>, i: nat) -> Seq<int> {
        subkey(self.matrix@, self.sbox2.exponent(), self.constants(), key, i)
    }

    /// The ciphertext of `plaintext` under `key`.
    pub open spec fn encrypt(self, key: Seq<int>, plaintext: Seq<int>) -> Seq<int> {
        encrypt(
            self.matrix@,
            self.sbox2.exponent(),
            self.constants(),
            key,
            plaintext,
            RNUMBER as nat,
        )
    }

    /// The plaintext of `ciphertext` under `key`.
    pub open spec fn decrypt(self, key: Seq<int>, ciphertext: Seq<int>) -> Seq<int> {
        decrypt(
            self.matrix@,
            self.inv_matrix@,
            self.sbox2.exponent(),
            self.constants(),
            key,
            ciphertext,
            RNUMBER as nat,
        )
    }
}

/// The first `k` rows of `t`, one after the other.
pub open spec fn joined(t: Seq<Seq<int>>, k: nat) -> Seq<int>
    decreases k,
{
    if k == 0 {
        Seq::empty()
    } else {
        joined(t, (k - 1) as nat) + t[k - 1]
    }
}

/// The values of the variables that binding parameters with the vectors `x`
/// and `y` and the round constants `t` allocates, in order: the two
/// vectors, their check, the Cauchy matrix, its determinant and the test of
/// it, the inverse matrix, and the round constants.
pub open spec fn parameter_allocations(x: Seq<int>, y: Seq<int>, t: Seq<Seq<int>>) -> Seq<int> {
    x + y + verification_allocations(x, y) + cauchy_allocations(x, y, 3) + tested_det_allocations(
        cauchy_matrix(x, y),
    ) + adjugate_allocations(cauchy_matrix(x, y), 9) + joined(t, t.len())
}

/// Binds cleartext parameters into the circuit: builds the Cauchy matrix
/// of the two vectors and its inverse, and binds every round constant to a
/// new variable. The round constants take no gate.
///
/// Vectors that cannot define a Cauchy matrix give `VectorCollision`, and
/// a state of any size but three `UnsupportedSize`. The determinant of a
/// Cauchy matrix is never zero, so the inverse always exists.
pub fn generate_ready_params<const SIZE: usize, const RNUMBER: usize>(
    cs: &mut Assembly,
    params: &CipherParams<SIZE, RNUMBER>,
) -> (r: Result<ReadyCipherParams<SIZE, RNUMBER>, CipherError>)
    ensures
        SIZE == 3 && cauchy_vectors(
            elements(params.vect_for_matrix[0]),
            elements(params.vect_for_matrix[1]),
        ) <==> r is Ok,
        !cauchy_vectors(
            elements(params.vect_for_matrix[0]),
            elements(params.vect_for_matrix[1]),
        ) <==> r matches Err(CipherError::VectorCollision),
        SIZE != 3 && cauchy_vectors(
            elements(params.vect_for_matrix[0]),
            elements(params.vect_for_matrix[1]),
        ) <==> r matches Err(CipherError::UnsupportedSize),
        grows(*old(cs), *final(cs)),
        variables(*old(cs)) + elements(params.vect_for_matrix[0]) + elements(
            params.vect_for_matrix[1],
        ) == variables(*final(cs)).take(variables(*old(cs)).len() + 2 * SIZE),
        r matches Err(CipherError::VectorCollision) ==> collision_trace(
            elements(params.vect_for_matrix[0]),
            elements(params.vect_for_matrix[1]),
            variables(*final(cs)).skip(variables(*old(cs)).len() + 2 * SIZE),
        ) && gate_count(*final(cs)) == gate_count(*old(cs)) + variables(*final(cs)).len()
            - variables(*old(cs)).len() - 2 * SIZE,
        r matches Err(CipherError::UnsupportedSize) ==> variables(*final(cs)) == variables(
            *old(cs),
        ) + elements(params.vect_for_matrix[0]) + elements(params.vect_for_matrix[1])
            + verification_allocations(
            elements(params.vect_for_matrix[0]),
            elements(params.vect_for_matrix[1]),
        ) + cauchy_allocations(
            elements(params.vect_for_matrix[0]),
            elements(params.vect_for_matrix[1]),
            SIZE as nat,
        ) && gate_count(*final(cs)) == gate_count(*old(cs)) + verification_allocations(
            elements(params.vect_for_matrix[0]),
            elements(params.vect_for_matrix[1]),
        ).len() + cauchy_allocations(
            elements(params.vect_for_matrix[0]),
            elements(params.vect_for_matrix[1]),
            SIZE as nat,
        ).len(),
        r matches Ok(ready) ==> ready.bound_in(*final(cs)),
        r is Ok ==> variables(*final(cs)) == variables(*old(cs)) + parameter_allocations(
            elements(params.vect_for_matrix[0]),
            elements(params.vect_for_matrix[1]),
            table(params.round_constants),
        ),
        r is Ok ==> gate_count(*final(cs)) == gate_count(*old(cs)) + verification_allocations(
            elements(params.vect_for_matrix[0]),
            elements(params.vect_for_matrix[1]),
        ).len() + cauchy_allocations(
            elements(params.vect_for_matrix[0]),
            elements(params.vect_for_matrix[1]),
            3,
        ).len() + 55,
        match r {
            Ok(ready) => {
                &&& cauchy_vectors(
                    elements(params.vect_for_matrix[0]),
                    elements(params.vect_for_matrix[1]),
                )
                &&& ready.wf()
                &&& ready.matrix@ == cauchy_matrix(
                    elements(params.vect_for_matrix[0]),
                    elements(params.vect_for_matrix[1]),
                )
                &&& is_cauchy_matrix(
                    ready.matrix@,
                    elements(params.vect_for_matrix[0]),
                    elements(params.vect_for_matrix[1]),
                )
                &&& is_mds3(ready.matrix@)
                &&& ready.constants() == table(params.round_constants)
                &&& ready.sbox2 == params.sbox2
            },
            Err(CipherError::VectorCollision) => !cauchy_vectors(
                elements(params.vect_for_matrix[0]),
                elements(params.vect_for_matrix[1]),
            ),
            Err(CipherError::UnsupportedSize) => SIZE != 3 && cauchy_vectors(
                elements(params.vect_for_matrix[0]),
                elements(params.vect_for_matrix[1]),
            ),
            Err(_) => false,
        },
{
    let ghost xs = elements(params.vect_for_matrix[0]);
    let ghost ys = elements(params.vect_for_matrix[1]);
    let ghost t = table(params.round_constants);
    let matrix = generate_mds_matrix::<SIZE>(cs, &params.vect_for_matrix)?;
    let ghost front = variables(*old(cs)) + xs + ys;
    let ghost built = *cs;
    let inv_matrix = inverse_matrix::<SIZE>(cs, &matrix)?;
    let ghost base = variables(*cs);
    let ghost gates = gate_count(*cs);
    proof {
        assert(front =~= variables(built).take(front.len() as int));
        assert(front =~= variables(*cs).take(front.len() as int));
        assert(base =~= variables(*old(cs)) + (xs + ys + verification_allocations(xs, ys)
            + cauchy_allocations(xs, ys, 3) + tested_det_allocations(cauchy_matrix(xs, ys))
            + adjugate_allocations(cauchy_matrix(xs, ys), 9)));
    }
    let mut round_constants: [[Num; SIZE]; RNUMBER] = [[Num::zero(); SIZE]; RNUMBER];
    let mut i: usize = 0;
    while i < RNUMBER
        invariant
            grows(*old(cs), *cs),
            i <= RNUMBER,
            t == table(params.round_constants),
            front.len() <= base.len(),
            variables(*cs) == base + joined(t, i as nat),
            gate_count(*cs) == gates,
            matrix_known(matrix, *cs),
            matrix_known(inv_matrix, *cs),
            forall|k: int|
                0 <= k < i ==> all_variables((#[trigger] round_constants[k])@) && all_known(
                    round_constants[k]@,
                    *cs,
                ),
            forall|k: int|
                0 <= k < i ==> values(#[trigger] round_constants[k]) == elements(
                    params.round_constants[k],
                ),
        decreases RNUMBER - i,
    {
        let row = allocate_vector(cs, &params.round_constants[i])?;
        proof {
            assert(t[i as int] == elements(params.round_constants[i as int]));
            assert(variables(*cs) =~= base + (joined(t, i as nat) + t[i as int]));
        }
        round_constants[i] = row;
        i += 1;
    }
    assert(rows(round_constants) =~= table(params.round_constants));
    proof {
        assert(front =~= variables(*cs).take(front.len() as int));
        assert(variables(*cs) =~= variables(*old(cs)) + parameter_allocations(xs, ys, t));
    }
    Ok(
        ReadyCipherParams {
            matrix,
            inv_matrix,
            sbox1: params.sbox1,
            sbox2: params.sbox2,
            round_constants,
        },
    )
}

/// The values of the variables that the product of a matrix and a state
/// allocates for the first `k` rows: what the dot product of the state and
/// each row allocates, row after row.
pub open spec fn mix_allocations<const SIZE: usize>(
    rows: Seq<[Num; SIZE]>,
    state: Seq<Num>,
    k: nat,
) -> Seq<int>
    decreases k,
{
    if k == 0 {
        Seq::empty()
    } else {
        mix_allocations(rows, state, (k - 1) as nat) + dot_allocations(
            state,
            rows[k - 1]@,
            SIZE as nat,
        )
    }
}

/// The product of a matrix and a state: one dot product for each row, each
/// with the gates and variables of `dot_product`.
pub fn mix<const SIZE: usize>(cs: &mut Assembly, matrix: &MdsMatrix<SIZE>, state: &[Num; SIZE])
    -> (r: Result<[Num; SIZE], CipherError>)
    ensures
        r is Ok,
        r matches Ok(v) ==> values(v) == mat_vec(matrix@, values(*state)),
        r matches Ok(v) ==> forall|k: int|
            0 <= k < SIZE ==> ((#[trigger] v[k]).bound() is Constant <==> !dot_started(
                state@,
                matrix.data[k]@,
                SIZE as nat,
            )),
        r matches Ok(v) ==> all_known(v@, *final(cs)),
        variables(*final(cs)) == variables(*old(cs)) + mix_allocations(
            matrix.data@,
            state@,
            SIZE as nat,
        ),
        gate_count(*final(cs)) == gate_count(*old(cs)) + mix_allocations(
            matrix.data@,
            state@,
            SIZE as nat,
        ).len(),
        grows(*old(cs), *final(cs)),
{
    let mut out: [Num; SIZE] = [Num::zero(); SIZE];
    let mut j: usize = 0;
    while j < SIZE
        invariant
            grows(*old(cs), *cs),
            j <= SIZE,
            forall|k: int|
                0 <= k < j ==> (#[trigger] out[k])@ == crate::cipher_generator::mds::dot(
                    values(*state),
                    matrix@[k],
                ),
            forall|k: int|
                0 <= k < j ==> ((#[trigger] out[k]).bound() is Constant <==> !dot_started(
                    state@,
                    matrix.data[k]@,
                    SIZE as nat,
                )),
            forall|k: int| 0 <= k < j ==> known(#[trigger] out[k], *cs),
            variables(*cs) == variables(*old(cs)) + mix_allocations(matrix.data@, state@, j as nat),
            gate_count(*cs) == gate_count(*old(cs)) + mix_allocations(
                matrix.data@,
                state@,
                j as nat,
            ).len(),
        decreases SIZE - j,
    {
        let row = matrix.row(j)?;
        let entry = dot_product(cs, state, &row)?;
        proof {
            assert(variables(*cs) =~= variables(*old(cs)) + mix_allocations(
                matrix.data@,
                state@,
                (j + 1) as nat,
            ));
        }
        out[j] = entry;
        j += 1;
    }
    assert(values(out) =~= mat_vec(matrix@, values(*state)));
    Ok(out)
}

/// What the S-box of a round does to the constraint system: what the
/// forward one does, or the inverse one.
pub open spec fn substitution_effect(
    before: Assembly,
    after: Assembly,
    state: Seq<Num>,
    forward: bool,
    e: nat,
) -> bool {
    if forward {
        &&& variables(after) == variables(before) + sbox_allocations(state, state.len())
        &&& gate_count(after) == gate_count(before) + 4 * variables_among(state, state.len())
    } else {
        &&& variables(after) == variables(before) + root_allocations(
            state.map_values(|n: Num| n@),
            e,
            state.len(),
        )
        &&& gate_count(before) + 4 * state.len() <= gate_count(after) <= gate_count(before) + 5
            * state.len()
        &&& all_known(state, before) ==> gate_count(after) == gate_count(before) + 5 * state.len()
    }
}

/// The S-box of a round on a state: the forward one, or the inverse one,
/// each with its gates and variables.
pub fn substitution<const SIZE: usize, const RNUMBER: usize>(
    cs: &mut Assembly,
    params: &ReadyCipherParams<SIZE, RNUMBER>,
    forward: bool,
    state: &mut [Num; SIZE],
) -> (r: Result<(), CipherError>)
    ensures
        r is Ok,
        values(*final(state)) == substitute(values(*old(state)), forward, params.sbox2.exponent()),
        all_known(final(state)@, *final(cs)),
        !forward ==> all_variables(final(state)@),
        forward ==> forall|k: int|
            0 <= k < SIZE ==> ((#[trigger] final(state)[k]).bound() is Constant <==> old(
                state,
            )[k].bound() is Constant),
        substitution_effect(
            *old(cs),
            *final(cs),
            old(state)@,
            forward,
            params.sbox2.exponent(),
        ),
        grows(*old(cs), *final(cs)),
{
    proof {
        assert(values(*state) =~= state@.map_values(|n: Num| n@));
    }
    if forward {
        params.sbox1.apply(cs, state)
    } else {
        params.sbox2.apply(cs, state)
    }
}

/// One round of the cipher on a state: the product with the matrix, the
/// S-box of round `i`, and the sum with `addend`.
///
/// Where the matrix and the addend hold no constant, the round allocates
/// the variables of `round_values`, each with one gate, and the new state
/// holds no constant either.
pub fn apply_round<const SIZE: usize, const RNUMBER: usize>(
    cs: &mut Assembly,
    params: &ReadyCipherParams<SIZE, RNUMBER>,
    i: usize,
    state: &[Num; SIZE],
    addend: &[Num; SIZE],
) -> (r: Result<[Num; SIZE], CipherError>)
    ensures
        r is Ok,
        r matches Ok(v) ==> values(v) == round(
            params.matrix@,
            params.sbox2.exponent(),
            i as int,
            values(*state),
            values(*addend),
        ),
        r matches Ok(v) ==> all_known(v@, *final(cs)),
        r matches Ok(v) ==> (all_variables(addend@) ==> all_variables(v@)),
        matrix_variables(params.matrix) && all_variables(addend@) ==> variables(*final(cs))
            == variables(*old(cs)) + round_values(
            params.matrix@,
            params.sbox2.exponent(),
            i as int,
            values(*state),
            values(*addend),
        ) && gate_count(*final(cs)) == gate_count(*old(cs)) + round_cost(SIZE as nat, i as int),
        grows(*old(cs), *final(cs)),
{
    let ghost e = params.sbox2.exponent();
    let ghost bound = matrix_variables(params.matrix) && all_variables(addend@);
    proof {
        lemma_round_count(params.matrix@, e, i as int, values(*state), values(*addend));
    }
    let mut mixed = mix(cs, &params.matrix, state)?;
    let ghost entering = mixed;
    let ghost middle = *cs;
    proof {
        if bound {
            lemma_mix_of_variables(params.matrix, *state, SIZE as nat);
            assert forall|k: int| 0 <= k < SIZE implies !((#[trigger] mixed@[k]).bound()
                is Constant) by {
                assert(dot_started(state@, params.matrix.data[k]@, SIZE as nat));
            }
        }
    }
    substitution(cs, params, i % 2 == 1, &mut mixed)?;
    let ghost substituted = *cs;
    proof {
        if bound {
            assert(values(entering) =~= entering@.map_values(|n: Num| n@));
            lemma_sbox_of_variables(entering, SIZE as nat);
            lemma_root_count(values(entering), e, SIZE as nat);
            assert(variables(substituted) == variables(middle) + substitution_values(
                values(entering),
                i % 2 == 1,
                e,
            ));
            assert(gate_count(substituted) == gate_count(middle) + substitution_values(
                values(entering),
                i % 2 == 1,
                e,
            ).len());
        }
    }
    let next = sum_vectors(cs, &mixed, addend)?;
    proof {
        if bound {
            lemma_pairwise_of_variables(mixed, *addend, values(next), SIZE as nat);
            assert(values(next).take(SIZE as int) =~= values(next));
            assert(variables(*cs) =~= variables(*old(cs)) + round_values(
                params.matrix@,
                e,
                i as int,
                values(*state),
                values(*addend),
            ));
        }
    }
    Ok(next)
}

/// The subkeys of every round under `key`.
///
/// The key schedule is the cipher's own round function, run on the key
/// with the round constants in the place of subkeys. The subkeys depend on
/// the parameters and the key alone, not on what the constraint system
/// held before. A cipher without rounds has no subkeys and leaves the
/// constraint system as it was. Where no parameter is a constant, the
/// schedule allocates the variables of `schedule_values`, each with one
/// gate, and no subkey holds a constant.
pub fn generate_subkeys<const SIZE: usize, const RNUMBER: usize>(
    cs: &mut Assembly,
    params: &ReadyCipherParams<SIZE, RNUMBER>,
    key: [Num; SIZE],
) -> (r: Result<[[Num; SIZE]; RNUMBER], CipherError>)
    ensures
        r matches Ok(sk) ==> forall|i: int|
            0 <= i < RNUMBER ==> (#[trigger] rows(sk)[i]) == params.subkey(values(key), i as nat),
        r is Ok,
        r matches Ok(sk) ==> forall|i: int|
            0 <= i < RNUMBER ==> all_known(#[trigger] sk[i]@, *final(cs)),
        r matches Ok(sk) ==> (params.all_bound() ==> forall|i: int|
            0 <= i < RNUMBER ==> all_variables(#[trigger] sk[i]@)),
        RNUMBER == 0 ==> unchanged(*old(cs), *final(cs)),
        RNUMBER > 0 && params.all_bound() ==> variables(*final(cs)) == variables(*old(cs))
            + schedule_values(
            params.matrix@,
            params.sbox2.exponent(),
            params.constants(),
            values(key),
            (RNUMBER - 1) as nat,
        ) && gate_count(*final(cs)) == gate_count(*old(cs)) + rounds_cost(
            SIZE as nat,
            (RNUMBER - 1) as nat,
        ),
        grows(*old(cs), *final(cs)),
{
    let mut subkeys: [[Num; SIZE]; RNUMBER] = [[Num::zero(); SIZE]; RNUMBER];
    if RNUMBER == 0 {
        return Ok(subkeys);
    }
    let ghost m = params.matrix@;
    let ghost e = params.sbox2.exponent();
    let ghost constants = params.constants();
    let ghost bound = params.all_bound();
    proof {
        lemma_schedule_count(m, e, constants, values(key), (RNUMBER - 1) as nat);
    }
    let first = sum_vectors(cs, &key, &params.round_constants[0])?;
    proof {
        if bound {
            lemma_pairwise_of_variables(
                key,
                params.round_constants[0],
                values(first),
                SIZE as nat,
            );
            assert(values(first).take(SIZE as int) =~= values(first));
        }
    }
    subkeys[0] = first;
    let mut i: usize = 1;
    while i < RNUMBER
        invariant
            grows(*old(cs), *cs),
            1 <= i <= RNUMBER,
            m == params.matrix@,
            e == params.sbox2.exponent(),
            constants == params.constants(),
            bound == params.all_bound(),
            forall|k: int|
                0 <= k < i ==> values(#[trigger] subkeys[k]) == params.subkey(
                    values(key),
                    k as nat,
                ),
            forall|k: int| 0 <= k < i ==> all_known(#[trigger] subkeys[k]@, *cs),
            bound ==> forall|k: int| 0 <= k < i ==> all_variables(#[trigger] subkeys[k]@),
            bound ==> variables(*cs) == variables(*old(cs)) + schedule_values(
                m,
                e,
                constants,
                values(key),
                (i - 1) as nat,
            ),
            bound ==> gate_count(*cs) == gate_count(*old(cs)) + schedule_values(
                m,
                e,
                constants,
                values(key),
                (i - 1) as nat,
            ).len(),
        decreases RNUMBER - i,
    {
        let next = apply_round(cs, params, i, &subkeys[i - 1], &params.round_constants[i])?;
        proof {
            assert(values(params.round_constants[i as int]) == constants[i as int]);
            lemma_round_count(m, e, i as int, values(subkeys[i - 1]), constants[i as int]);
            if bound {
                assert(variables(*cs) =~= variables(*old(cs)) + schedule_values(
                    m,
                    e,
                    constants,
                    values(key),
                    i as nat,
                ));
            }
        }
        subkeys[i] = next;
        i += 1;
    }
    Ok(subkeys)
}

/// One round of the cipher undone on a state: the S-box that undoes the
/// one of round `i`, the product with the inverse matrix, and the
/// difference with `subtrahend`.
///
/// Where the state, the inverse matrix and the subtrahend hold no
/// constant and the constraint system holds the state, the step allocates
/// the variables of `unround_values`, each with one gate, and the new
/// state holds no constant either.
pub fn undo_round<const SIZE: usize, const RNUMBER: usize>(
    cs: &mut Assembly,
    params: &ReadyCipherParams<SIZE, RNUMBER>,
    i: usize,
    state: &[Num; SIZE],
    subtrahend: &[Num; SIZE],
) -> (r: Result<[Num; SIZE], CipherError>)
    ensures
        r is Ok,
        r matches Ok(v) ==> values(v) == unround(
            params.inv_matrix@,
            params.sbox2.exponent(),
            i as int,
            values(*state),
            values(*subtrahend),
        ),
        r matches Ok(v) ==> all_known(v@, *final(cs)),
        r matches Ok(v) ==> (all_variables(subtrahend@) ==> all_variables(v@)),
        matrix_variables(params.inv_matrix) && all_variables(subtrahend@) && all_variables(state@)
            && all_known(state@, *old(cs)) ==> variables(*final(cs)) == variables(*old(cs))
            + unround_values(
            params.inv_matrix@,
            params.sbox2.exponent(),
            i as int,
            values(*state),
            values(*subtrahend),
        ) && gate_count(*final(cs)) == gate_count(*old(cs)) + unround_cost(SIZE as nat, i as int),
        grows(*old(cs), *final(cs)),
{
    let ghost e = params.sbox2.exponent();
    proof {
        lemma_unround_count(params.inv_matrix@, e, i as int, values(*state), values(*subtrahend));
    }
    let ghost bound = matrix_variables(params.inv_matrix) && all_variables(subtrahend@)
        && all_variables(state@) && all_known(state@, *cs);
    let mut substituted = *state;
    substitution(cs, params, i % 2 != 1, &mut substituted)?;
    let ghost middle = *cs;
    proof {
        if bound {
            assert(values(*state) =~= state@.map_values(|n: Num| n@));
            lemma_sbox_of_variables(*state, SIZE as nat);
            lemma_root_count(values(*state), e, SIZE as nat);
            assert(variables(middle) == variables(*old(cs)) + substitution_values(
                values(*state),
                i % 2 != 1,
                e,
            ));
            assert(gate_count(middle) == gate_count(*old(cs)) + substitution_values(
                values(*state),
                i % 2 != 1,
                e,
            ).len());
        }
    }
    let mixed = mix(cs, &params.inv_matrix, &substituted)?;
    proof {
        if bound {
            lemma_mix_of_variables(params.inv_matrix, substituted, SIZE as nat);
        }
    }
    let next = sub_vectors(cs, &mixed, subtrahend)?;
    proof {
        if bound {
            lemma_pairwise_of_variables(mixed, *subtrahend, values(next), SIZE as nat);
            assert(values(next).take(SIZE as int) =~= values(next));
            assert(variables(*cs) =~= variables(*old(cs)) + unround_values(
                params.inv_matrix@,
                e,
                i as int,
                values(*state),
                values(*subtrahend),
            ));
        }
    }
    Ok(next)
}

/// Encrypts `plaintext` under `key`.
///
/// The first subkey is added to the plaintext. Every later round
/// multiplies the state by the matrix, passes it through the forward S-box
/// in odd rounds and through the inverse S-box in even ones, and adds the
/// subkey of the round. Where no parameter is a constant, the constraint
/// system gets the variables of the key schedule and then those of the
/// rounds, each with one gate.
pub fn rescue_encryption<const SIZE: usize, const RNUMBER: usize>(
    cs: &mut Assembly,
    params: &ReadyCipherParams<SIZE, RNUMBER>,
    key: &[Num; SIZE],
    plaintext: &[Num; SIZE],
) -> (r: Result<[Num; SIZE], CipherError>)
    requires
        RNUMBER >= 1,
    ensures
        r matches Ok(c) ==> values(c) == params.encrypt(values(*key), values(*plaintext)),
        r is Ok,
        r matches Ok(c) ==> all_known(c@, *final(cs)) && (params.all_bound() ==> all_variables(c@)),
        params.all_bound() ==> variables(*final(cs)) == variables(*old(cs)) + schedule_values(
            params.matrix@,
            params.sbox2.exponent(),
            params.constants(),
            values(*key),
            (RNUMBER - 1) as nat,
        ) + encryption_values(
            params.matrix@,
            params.sbox2.exponent(),
            params.constants(),
            values(*key),
            values(*plaintext),
            (RNUMBER - 1) as nat,
        ),
        params.all_bound() ==> gate_count(*final(cs)) == gate_count(*old(cs)) + 2 * rounds_cost(
            SIZE as nat,
            (RNUMBER - 1) as nat,
        ),
        grows(*old(cs), *final(cs)),
{
    let subkeys = generate_subkeys(cs, params, *key)?;
    let ghost m = params.matrix@;
    let ghost e = params.sbox2.exponent();
    let ghost constants = params.constants();
    let ghost bound = params.all_bound();
    proof {
        lemma_encryption_count(
            m,
            e,
            constants,
            values(*key),
            values(*plaintext),
            (RNUMBER - 1) as nat,
        );
    }
    let ghost base = variables(*cs);
    let ghost gates = gate_count(*cs);
    let mut ciphertext = sum_vectors(cs, plaintext, &subkeys[0])?;
    assert(values(subkeys[0]) == rows(subkeys)[0]);
    proof {
        if bound {
            assert(all_variables(subkeys[0]@));
            lemma_pairwise_of_variables(*plaintext, subkeys[0], values(ciphertext), SIZE as nat);
            assert(values(ciphertext).take(SIZE as int) =~= values(ciphertext));
        }
    }
    let mut i: usize = 1;
    while i < RNUMBER
        invariant
            grows(*old(cs), *cs),
            1 <= i <= RNUMBER,
            m == params.matrix@,
            e == params.sbox2.exponent(),
            constants == params.constants(),
            bound == params.all_bound(),
            all_known(ciphertext@, *cs),
            bound ==> all_variables(ciphertext@),
            bound ==> forall|k: int| 0 <= k < RNUMBER ==> all_variables(#[trigger] subkeys[k]@),
            bound ==> variables(*cs) == base + encryption_values(
                m,
                e,
                constants,
                values(*key),
                values(*plaintext),
                (i - 1) as nat,
            ),
            bound ==> gate_count(*cs) == gates + encryption_values(
                m,
                e,
                constants,
                values(*key),
                values(*plaintext),
                (i - 1) as nat,
            ).len(),
            forall|k: int|
                0 <= k < RNUMBER ==> (#[trigger] rows(subkeys)[k]) == params.subkey(
                    values(*key),
                    k as nat,
                ),
            values(ciphertext) == encrypt_state(
                m,
                e,
                constants,
                values(*key),
                values(*plaintext),
                (i - 1) as nat,
            ),
        decreases RNUMBER - i,
    {
        assert(values(subkeys[i as int]) == rows(subkeys)[i as int]);
        let next = apply_round(cs, params, i, &ciphertext, &subkeys[i])?;
        proof {
            lemma_round_count(m, e, i as int, values(ciphertext), values(subkeys[i as int]));
            if bound {
                assert(all_variables(subkeys[i as int]@));
                assert(variables(*cs) =~= base + encryption_values(
                    m,
                    e,
                    constants,
                    values(*key),
                    values(*plaintext),
                    i as nat,
                ));
            }
        }
        ciphertext = next;
        i += 1;
    }
    Ok(ciphertext)
}

/// Decrypts `ciphertext` under `key`.
///
/// The last subkey is subtracted from the ciphertext. Then the rounds of
/// encryption are undone from the last to the first: the state passes
/// through the S-box that undoes the one of the round, is multiplied by the
/// inverse matrix, and the subkey of the round before is subtracted. Where
/// no parameter is a constant, the constraint system gets the variables of
/// the key schedule and then those of the rounds undone, each with one
/// gate.
pub fn rescue_decryption<const SIZE: usize, const RNUMBER: usize>(
    cs: &mut Assembly,
    params: &ReadyCipherParams<SIZE, RNUMBER>,
    key: &[Num; SIZE],
    ciphertext: &[Num; SIZE],
) -> (r: Result<[Num; SIZE], CipherError>)
    requires
        RNUMBER >= 1,
    ensures
        r matches Ok(p) ==> values(p) == params.decrypt(values(*key), values(*ciphertext)),
        r is Ok,
        r matches Ok(p) ==> all_known(p@, *final(cs)) && (params.all_bound() ==> all_variables(p@)),
        params.all_bound() ==> variables(*final(cs)) == variables(*old(cs)) + schedule_values(
            params.matrix@,
            params.sbox2.exponent(),
            params.constants(),
            values(*key),
            (RNUMBER - 1) as nat,
        ) + decryption_values(
            params.matrix@,
            params.inv_matrix@,
            params.sbox2.exponent(),
            params.constants(),
            values(*key),
            values(*ciphertext),
            RNUMBER as nat,
            (RNUMBER - 1) as nat,
        ),
        params.all_bound() ==> gate_count(*final(cs)) == gate_count(*old(cs)) + rounds_cost(
            SIZE as nat,
            (RNUMBER - 1) as nat,
        ) + rounds_undone_cost(SIZE as nat, RNUMBER as nat, (RNUMBER - 1) as nat),
        grows(*old(cs), *final(cs)),
{
    let subkeys = generate_subkeys(cs, params, *key)?;
    let ghost m = params.matrix@;
    let ghost inv = params.inv_matrix@;
    let ghost e = params.sbox2.exponent();
    let ghost constants = params.constants();
    let ghost bound = params.all_bound();
    proof {
        lemma_decryption_count(
            m,
            inv,
            e,
            constants,
            values(*key),
            values(*ciphertext),
            RNUMBER as nat,
            (RNUMBER - 1) as nat,
        );
    }
    let ghost base = variables(*cs);
    let ghost gates = gate_count(*cs);
    let mut plaintext = sub_vectors(cs, ciphertext, &subkeys[RNUMBER - 1])?;
    assert(values(subkeys[RNUMBER - 1]) == rows(subkeys)[RNUMBER - 1]);
    proof {
        if bound {
            assert(all_variables(subkeys[RNUMBER - 1]@));
            lemma_pairwise_of_variables(
                *ciphertext,
                subkeys[RNUMBER - 1],
                values(plaintext),
                SIZE as nat,
            );
            assert(values(plaintext).take(SIZE as int) =~= values(plaintext));
        }
    }
    let mut i: usize = 1;
    while i < RNUMBER
        invariant
            grows(*old(cs), *cs),
            1 <= i <= RNUMBER,
            bound == params.all_bound(),
            all_known(plaintext@, *cs),
            bound ==> all_variables(plaintext@),
            bound ==> forall|k: int| 0 <= k < RNUMBER ==> all_variables(#[trigger] subkeys[k]@),
            bound ==> variables(*cs) == base + decryption_values(
                m,
                inv,
                e,
                constants,
                values(*key),
                values(*ciphertext),
                RNUMBER as nat,
                (i - 1) as nat,
            ),
            bound ==> gate_count(*cs) == gates + decryption_values(
                m,
                inv,
                e,
                constants,
                values(*key),
                values(*ciphertext),
                RNUMBER as nat,
                (i - 1) as nat,
            ).len(),
            m == params.matrix@,
            inv == params.inv_matrix@,
            e == params.sbox2.exponent(),
            constants == params.constants(),
            forall|k: int|
                0 <= k < RNUMBER ==> (#[trigger] rows(subkeys)[k]) == params.subkey(
                    values(*key),
                    k as nat,
                ),
            values(plaintext) == decrypt_state(
                m,
                inv,
                e,
                constants,
                values(*key),
                values(*ciphertext),
                RNUMBER as nat,
                (i - 1) as nat,
            ),
        decreases RNUMBER - i,
    {
        assert(values(subkeys[RNUMBER - 1 - i]) == rows(subkeys)[RNUMBER - 1 - i]);
        let next = undo_round(cs, params, RNUMBER - i, &plaintext, &subkeys[RNUMBER - 1 - i])?;
        proof {
            lemma_unround_count(
                inv,
                e,
                RNUMBER - i,
                values(plaintext),
                values(subkeys[RNUMBER - 1 - i]),
            );
            if bound {
                assert(all_variables(subkeys[RNUMBER - 1 - i]@));
                assert(variables(*cs) =~= base + decryption_values(
                    m,
                    inv,
                    e,
                    constants,
                    values(*key),
                    values(*ciphertext),
                    RNUMBER as nat,
                    i as nat,
                ));
            }
        }
        plaintext = next;
        i += 1;
    }
    Ok(plaintext)
}

} // verus!
