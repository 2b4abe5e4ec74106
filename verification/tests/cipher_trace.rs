use rescue_block_cipher::cipher_generator::mds::{
    allocate_vector, dot_product, generate_mds_matrix, inverse_matrix, matrix_det, sum_vectors,
    veryfy_vector_corectnes, MdsMatrix,
};
use rescue_block_cipher::cipher_generator::sboxes::{QuinticInverseSBox, QuinticSBox};
use rescue_block_cipher::cipher_generator::CipherParams;
use rescue_block_cipher::circuit::{Assembly, Binding, Num};
use rescue_block_cipher::enc_dec::{
    apply_round, generate_ready_params, generate_subkeys, mix, rescue_decryption,
    rescue_encryption, undo_round, ReadyCipherParams,
};
use rescue_block_cipher::errors::CipherError;
use rescue_block_cipher::field::FieldElement;

fn fe(v: u64) -> FieldElement {
    FieldElement::from_u64(v)
}

fn size(cs: &Assembly) -> (usize, usize) {
    (cs.assignments().len(), cs.gates())
}

fn limbs(cs: &Assembly, from: usize, to: usize) -> Vec<[u64; 4]> {
    cs.assignments()[from..to].iter().map(|v| v.limbs()).collect()
}

fn values_of(v: &[Num; 3]) -> Vec<[u64; 4]> {
    v.iter().map(|n| n.value().limbs()).collect()
}

fn matrix_of(cs: &mut Assembly, entries: [[u64; 3]; 3]) -> MdsMatrix<3> {
    let mut m = MdsMatrix::<3>::zero();
    for i in 0..3 {
        m.data[i] = allocate_vector(cs, &[fe(entries[i][0]), fe(entries[i][1]), fe(entries[i][2])])
            .unwrap();
    }
    m
}

fn fixed_params<const R: usize>() -> CipherParams<3, R> {
    let mut round_constants = [[fe(0); 3]; R];
    for i in 0..R {
        for j in 0..3 {
            round_constants[i][j] = fe((10 * i + j + 1) as u64);
        }
    }
    CipherParams {
        vect_for_matrix: [[fe(1), fe(2), fe(3)], [fe(4), fe(5), fe(6)]],
        sbox1: QuinticSBox::new(),
        sbox2: QuinticInverseSBox::new(),
        round_constants,
    }
}

fn ready<const R: usize>(cs: &mut Assembly) -> ReadyCipherParams<3, R> {
    generate_ready_params(cs, &fixed_params::<R>()).unwrap()
}

#[test]
fn dot_product_of_variables_takes_two_gates_for_each_entry() {
    let mut cs = Assembly::new();
    let x = allocate_vector(&mut cs, &[fe(1), fe(2), fe(3)]).unwrap();
    let y = allocate_vector(&mut cs, &[fe(4), fe(5), fe(6)]).unwrap();
    let d = dot_product(&mut cs, &x, &y).unwrap();
    assert_eq!(d.value().limbs(), [32, 0, 0, 0]);
    assert_eq!(d.binding(), Binding::Aux(12));
    assert_eq!(size(&cs), (12, 6));
    let expected: Vec<[u64; 4]> =
        [4u64, 4, 10, 14, 18, 32].iter().map(|v| [*v, 0, 0, 0]).collect();
    assert_eq!(limbs(&cs, 6, 12), expected);
}

#[test]
fn dot_product_with_constants_still_takes_every_gate() {
    let mut cs = Assembly::new();
    let x = [Num::constant(&fe(1)), Num::constant(&fe(2)), Num::constant(&fe(3))];
    let y = allocate_vector(&mut cs, &[fe(4), fe(5), fe(6)]).unwrap();
    let d = dot_product(&mut cs, &x, &y).unwrap();
    assert_eq!(d.value().limbs(), [32, 0, 0, 0]);
    assert_eq!(size(&cs), (9, 6));
}

#[test]
fn sum_of_vectors_allocates_its_results() {
    let mut cs = Assembly::new();
    let x = allocate_vector(&mut cs, &[fe(1), fe(2), fe(3)]).unwrap();
    let y = [Num::constant(&fe(10)), Num::constant(&fe(20)), Num::constant(&fe(30))];
    let s = sum_vectors(&mut cs, &y, &x).unwrap();
    assert_eq!(size(&cs), (6, 3));
    assert_eq!(limbs(&cs, 3, 6), values_of(&s));
    assert_eq!(values_of(&s), vec![[11, 0, 0, 0], [22, 0, 0, 0], [33, 0, 0, 0]]);
}

#[test]
fn mixing_takes_a_dot_product_for_each_row() {
    let mut cs = Assembly::new();
    let m = matrix_of(&mut cs, [[1, 2, 3], [4, 5, 6], [7, 8, 10]]);
    let state = allocate_vector(&mut cs, &[fe(1), fe(1), fe(2)]).unwrap();
    let before = size(&cs);
    let mixed = mix(&mut cs, &m, &state).unwrap();
    assert_eq!(size(&cs), (before.0 + 18, before.1 + 18));
    assert_eq!(values_of(&mixed), vec![[9, 0, 0, 0], [21, 0, 0, 0], [35, 0, 0, 0]]);
    let first_row: Vec<[u64; 4]> =
        [1u64, 1, 2, 3, 6, 9].iter().map(|v| [*v, 0, 0, 0]).collect();
    assert_eq!(limbs(&cs, before.0, before.0 + 6), first_row);
}

#[test]
fn determinant_of_variables_takes_seventeen_gates() {
    let mut cs = Assembly::new();
    let m = matrix_of(&mut cs, [[1, 2, 3], [4, 5, 6], [7, 8, 10]]);
    assert_eq!(size(&cs), (9, 0));
    let det = matrix_det(&mut cs, &m).unwrap();
    assert_eq!(size(&cs), (26, 17));
    assert_eq!(det.binding(), Binding::Aux(26));
    assert_eq!(cs.assignments()[25].limbs(), det.value().limbs());
    assert_eq!(limbs(&cs, 9, 11), vec![[5, 0, 0, 0], [50, 0, 0, 0]]);
}

#[test]
fn inverse_of_variables_takes_fifty_five_gates() {
    let mut cs = Assembly::new();
    let m = matrix_of(&mut cs, [[1, 2, 3], [4, 5, 6], [7, 8, 10]]);
    let inv = inverse_matrix(&mut cs, &m).unwrap();
    assert_eq!(size(&cs), (9 + 55, 55));
    assert_eq!(limbs(&cs, 26, 28), vec![[0, 0, 0, 0], cs.assignments()[27].limbs()]);
    let det = cs.assignments()[25];
    assert!(det.mul(&cs.assignments()[27]).equals(&fe(1)));
    for i in 0..3 {
        for j in 0..3 {
            assert_ne!(inv.data[i][j].binding(), Binding::Constant);
        }
    }
    assert_eq!(inv.data[0][0].binding(), Binding::Aux(32));
    assert_eq!(cs.assignments()[31].limbs(), inv.data[0][0].value().limbs());
    assert_eq!(limbs(&cs, 28, 31), vec![[50, 0, 0, 0], [48, 0, 0, 0], [2, 0, 0, 0]]);
}

#[test]
fn singular_matrix_of_variables_takes_nineteen_gates() {
    let mut cs = Assembly::new();
    let m = matrix_of(&mut cs, [[1, 2, 3], [4, 5, 6], [7, 8, 9]]);
    match inverse_matrix(&mut cs, &m) {
        Err(CipherError::SingularMatrix) => {}
        _ => panic!("a singular matrix has no inverse"),
    }
    assert_eq!(size(&cs), (9 + 19, 19));
    assert_eq!(limbs(&cs, 25, 28), vec![[0, 0, 0, 0], [1, 0, 0, 0], [0, 0, 0, 0]]);
}

#[test]
fn vector_check_tests_every_pair() {
    let mut cs = Assembly::new();
    let x = allocate_vector(&mut cs, &[fe(7), fe(8), fe(9)]).unwrap();
    let y = allocate_vector(&mut cs, &[fe(4), fe(5), fe(6)]).unwrap();
    assert!(veryfy_vector_corectnes(&mut cs, &x, &y).unwrap());
    assert_eq!(size(&cs), (6 + 45, 45));
    // the test of x[1] against x[2] is the third one: the difference is 8 - 9
    let difference = cs.assignments()[12];
    assert!(!difference.is_zero());
    assert_eq!(cs.assignments()[13].limbs(), [0, 0, 0, 0]);
    assert!(difference.mul(&cs.assignments()[14]).equals(&fe(1)));
    // the first test of x against y: 7 - 4
    assert_eq!(cs.assignments()[24].limbs(), [3, 0, 0, 0]);
}

#[test]
fn vector_check_stops_at_the_first_collision() {
    let mut cs = Assembly::new();
    let x = allocate_vector(&mut cs, &[fe(7), fe(7), fe(9)]).unwrap();
    let y = allocate_vector(&mut cs, &[fe(4), fe(5), fe(6)]).unwrap();
    assert!(!veryfy_vector_corectnes(&mut cs, &x, &y).unwrap());
    assert_eq!(size(&cs), (6 + 3, 3));
    assert_eq!(limbs(&cs, 6, 9), vec![[0, 0, 0, 0], [1, 0, 0, 0], [0, 0, 0, 0]]);
}

#[test]
fn matrix_builder_allocates_vectors_checks_and_entries() {
    let mut cs = Assembly::new();
    let m = generate_mds_matrix(&mut cs, &[[fe(7), fe(8), fe(9)], [fe(4), fe(5), fe(6)]]).unwrap();
    assert_eq!(size(&cs), (6 + 45 + 18, 45 + 18));
    let front: Vec<[u64; 4]> = [7u64, 8, 9, 4, 5, 6].iter().map(|v| [*v, 0, 0, 0]).collect();
    assert_eq!(limbs(&cs, 0, 6), front);
    let differences = [[3u64, 2, 1], [4, 3, 2], [5, 4, 3]];
    for i in 0..3 {
        for j in 0..3 {
            let at = 51 + 2 * (3 * i + j);
            assert_eq!(cs.assignments()[at].limbs(), [differences[i][j], 0, 0, 0]);
            assert_eq!(cs.assignments()[at + 1].limbs(), m.data[i][j].value().limbs());
            assert_eq!(m.data[i][j].binding(), Binding::Aux(at + 2));
            assert!(m.data[i][j].value().mul(&fe(differences[i][j])).equals(&fe(1)));
        }
    }
}

#[test]
fn matrix_builder_keeps_the_vectors_of_a_collision() {
    let mut cs = Assembly::new();
    match generate_mds_matrix(&mut cs, &[[fe(1), fe(2), fe(3)], [fe(4), fe(5), fe(3)]]) {
        Err(CipherError::VectorCollision) => {}
        _ => panic!("colliding vectors define no matrix"),
    }
    let front: Vec<[u64; 4]> = [1u64, 2, 3, 4, 5, 3].iter().map(|v| [*v, 0, 0, 0]).collect();
    assert_eq!(limbs(&cs, 0, 6), front);
    assert_eq!(size(&cs), (6 + 45, 45));
}

#[test]
fn ready_parameters_are_all_variables() {
    let mut cs = Assembly::new();
    let params = ready::<4>(&mut cs);
    assert_eq!(size(&cs), (6 + 45 + 18 + 19 + 36 + 12, 45 + 18 + 55));
    for i in 0..3 {
        for j in 0..3 {
            assert_ne!(params.matrix.data[i][j].binding(), Binding::Constant);
            assert_ne!(params.inv_matrix.data[i][j].binding(), Binding::Constant);
        }
    }
    for i in 0..4 {
        for j in 0..3 {
            assert_eq!(params.round_constants[i][j].binding(), Binding::Aux(124 + 3 * i + j + 1));
            let constant = (10 * i + j + 1) as u64;
            assert_eq!(cs.assignments()[124 + 3 * i + j].limbs(), [constant, 0, 0, 0]);
        }
    }
}

#[test]
fn a_round_takes_its_mix_its_sbox_and_its_sum() {
    let mut cs = Assembly::new();
    let params = ready::<3>(&mut cs);
    let state = allocate_vector(&mut cs, &[fe(1), fe(2), fe(3)]).unwrap();
    let before = size(&cs);
    let odd = apply_round(&mut cs, &params, 1, &state, &params.round_constants[1]).unwrap();
    let middle = size(&cs);
    assert_eq!(middle, (before.0 + 18 + 12 + 3, before.1 + 18 + 12 + 3));
    assert_eq!(limbs(&cs, middle.0 - 3, middle.0), values_of(&odd));
    let even = apply_round(&mut cs, &params, 2, &state, &params.round_constants[2]).unwrap();
    let after = size(&cs);
    assert_eq!(after, (middle.0 + 18 + 15 + 3, middle.1 + 18 + 15 + 3));
    assert_eq!(limbs(&cs, after.0 - 3, after.0), values_of(&even));
}

#[test]
fn an_undone_round_gives_the_state_back() {
    let mut cs = Assembly::new();
    let params = ready::<3>(&mut cs);
    let state = allocate_vector(&mut cs, &[fe(1), fe(2), fe(3)]).unwrap();
    let zero = [Num::zero(); 3];
    for i in 1..3 {
        let next = apply_round(&mut cs, &params, i, &state, &zero).unwrap();
        let before = size(&cs);
        let back = undo_round(&mut cs, &params, i, &next, &zero).unwrap();
        let sbox = if i % 2 == 1 { 15 } else { 12 };
        assert_eq!(size(&cs), (before.0 + sbox + 18 + 3, before.1 + sbox + 18 + 3));
        assert_eq!(values_of(&back), values_of(&state));
    }
}

#[test]
fn key_schedule_allocates_round_by_round() {
    let mut cs = Assembly::new();
    let params = ready::<4>(&mut cs);
    let key = allocate_vector(&mut cs, &[fe(5), fe(6), fe(7)]).unwrap();
    let before = size(&cs);
    let subkeys = generate_subkeys(&mut cs, &params, key).unwrap();
    assert_eq!(size(&cs), (before.0 + 3 + 33 + 36 + 33, before.1 + 3 + 33 + 36 + 33));
    let ends = [3, 36, 72, 105];
    for i in 0..4 {
        let end = before.0 + ends[i];
        assert_eq!(limbs(&cs, end - 3, end), values_of(&subkeys[i]));
        assert_eq!(subkeys[i][2].binding(), Binding::Aux(end));
    }
}

#[test]
fn key_schedule_of_a_constant_key_allocates_as_much() {
    let mut cs = Assembly::new();
    let params = ready::<4>(&mut cs);
    let key = [Num::constant(&fe(5)), Num::constant(&fe(6)), Num::constant(&fe(7))];
    let before = size(&cs);
    generate_subkeys(&mut cs, &params, key).unwrap();
    assert_eq!(size(&cs), (before.0 + 105, before.1 + 105));
}

#[test]
fn encryption_allocates_schedule_and_rounds() {
    let mut cs = Assembly::new();
    let params = ready::<4>(&mut cs);
    let key = allocate_vector(&mut cs, &[fe(5), fe(6), fe(7)]).unwrap();
    let plaintext = allocate_vector(&mut cs, &[fe(1), fe(2), fe(3)]).unwrap();
    let before = size(&cs);
    let ciphertext = rescue_encryption(&mut cs, &params, &key, &plaintext).unwrap();
    let after = size(&cs);
    assert_eq!(after, (before.0 + 210, before.1 + 210));
    assert_eq!(limbs(&cs, after.0 - 3, after.0), values_of(&ciphertext));
    let first: Vec<[u64; 4]> = limbs(&cs, before.0 + 105, before.0 + 108);
    let subkey: Vec<[u64; 4]> = limbs(&cs, before.0, before.0 + 3);
    assert_eq!(subkey, vec![[6, 0, 0, 0], [8, 0, 0, 0], [10, 0, 0, 0]]);
    assert_eq!(first, vec![[7, 0, 0, 0], [10, 0, 0, 0], [13, 0, 0, 0]]);
}

#[test]
fn decryption_allocates_schedule_and_rounds_undone() {
    let mut cs = Assembly::new();
    let params = ready::<4>(&mut cs);
    let key = allocate_vector(&mut cs, &[fe(5), fe(6), fe(7)]).unwrap();
    let plaintext = allocate_vector(&mut cs, &[fe(1), fe(2), fe(3)]).unwrap();
    let ciphertext = rescue_encryption(&mut cs, &params, &key, &plaintext).unwrap();
    let before = size(&cs);
    let back = rescue_decryption(&mut cs, &params, &key, &ciphertext).unwrap();
    let after = size(&cs);
    assert_eq!(after, (before.0 + 105 + 3 + 36 + 33 + 36, before.1 + 105 + 3 + 36 + 33 + 36));
    assert_eq!(values_of(&back), values_of(&plaintext));
    assert_eq!(limbs(&cs, after.0 - 3, after.0), values_of(&back));
}

#[test]
fn vector_check_goes_on_to_the_second_vector() {
    let mut cs = Assembly::new();
    let x = allocate_vector(&mut cs, &[fe(7), fe(8), fe(9)]).unwrap();
    let y = allocate_vector(&mut cs, &[fe(4), fe(5), fe(5)]).unwrap();
    assert!(!veryfy_vector_corectnes(&mut cs, &x, &y).unwrap());
    // three tests in x, and three in y up to the pair of fives
    assert_eq!(size(&cs), (6 + 9 + 9, 18));
    assert_eq!(limbs(&cs, 21, 24), vec![[0, 0, 0, 0], [1, 0, 0, 0], [0, 0, 0, 0]]);
}

#[test]
fn vector_check_stops_at_the_first_common_value() {
    let mut cs = Assembly::new();
    let x = allocate_vector(&mut cs, &[fe(7), fe(5), fe(9)]).unwrap();
    let y = allocate_vector(&mut cs, &[fe(4), fe(5), fe(6)]).unwrap();
    assert!(!veryfy_vector_corectnes(&mut cs, &x, &y).unwrap());
    // six tests within the vectors, three of 7 against y, two of 5 against y
    assert_eq!(size(&cs), (6 + 18 + 9 + 6, 33));
    assert_eq!(limbs(&cs, 36, 39), vec![[0, 0, 0, 0], [1, 0, 0, 0], [0, 0, 0, 0]]);
}

#[test]
fn matrices_of_constants_take_no_gate() {
    let mut cs = Assembly::new();
    let mut m = MdsMatrix::<3>::zero();
    let entries = [[1u64, 2, 3], [4, 5, 6], [7, 8, 10]];
    for i in 0..3 {
        for j in 0..3 {
            assert_eq!(m.data[i][j].binding(), Binding::Constant);
            m.data[i][j] = Num::constant(&fe(entries[i][j]));
        }
    }
    let det = matrix_det(&mut cs, &m).unwrap();
    assert_eq!(det.binding(), Binding::Constant);
    let inv = inverse_matrix(&mut cs, &m).unwrap();
    for i in 0..3 {
        for j in 0..3 {
            assert_eq!(inv.data[i][j].binding(), Binding::Constant);
        }
    }
    match inverse_matrix(&mut cs, &MdsMatrix::<3>::zero()) {
        Err(CipherError::SingularMatrix) => {}
        _ => panic!("the zero matrix has no inverse"),
    }
    assert_eq!(size(&cs), (0, 0));
}
