use rescue_block_cipher::cipher_generator::mds::{
    allocate_vector, dot_product, generate_mds_matrix, inverse_matrix, matrix_det, okey_vectors,
    sub_vectors, sum_vectors, veryfy_vector_corectnes, MdsMatrix,
};
use rescue_block_cipher::circuit::{Assembly, Num};
use rescue_block_cipher::errors::CipherError;
use rescue_block_cipher::field::FieldElement;

const MODULUS_MINUS_ONE: [u64; 4] = [
    0x43e1f593f0000000,
    0x2833e84879b97091,
    0xb85045b68181585d,
    0x30644e72e131a029,
];

fn fe(v: u64) -> FieldElement {
    FieldElement::from_u64(v)
}

fn vector(cs: &mut Assembly, v: [u64; 3]) -> [Num; 3] {
    allocate_vector(cs, &[fe(v[0]), fe(v[1]), fe(v[2])]).unwrap()
}

fn matrix(cs: &mut Assembly, m: [[u64; 3]; 3]) -> MdsMatrix<3> {
    MdsMatrix { data: [vector(cs, m[0]), vector(cs, m[1]), vector(cs, m[2])] }
}

fn limbs(n: &Num) -> [u64; 4] {
    n.value().limbs()
}

fn column(m: &MdsMatrix<3>, k: usize) -> [Num; 3] {
    [m.row(0).unwrap()[k], m.row(1).unwrap()[k], m.row(2).unwrap()[k]]
}

fn assert_is_identity(cs: &mut Assembly, a: &MdsMatrix<3>, b: &MdsMatrix<3>) {
    for i in 0..3 {
        for k in 0..3 {
            let entry = dot_product(cs, &a.row(i).unwrap(), &column(b, k)).unwrap();
            let expected = if i == k { 1 } else { 0 };
            assert_eq!(limbs(&entry), [expected, 0, 0, 0]);
        }
    }
}

#[test]
fn zero_matrix_holds_zeros() {
    let m = MdsMatrix::<4>::zero();
    for i in 0..4 {
        for j in 0..4 {
            assert_eq!(limbs(&m.row(i).unwrap()[j]), [0, 0, 0, 0]);
        }
    }
}

#[test]
fn row_gives_the_entries_of_one_row() {
    let mut cs = Assembly::new();
    let m = matrix(&mut cs, [[1, 2, 3], [4, 5, 6], [7, 8, 9]]);
    let row = m.row(1).unwrap();
    assert_eq!([limbs(&row[0])[0], limbs(&row[1])[0], limbs(&row[2])[0]], [4, 5, 6]);
}

#[test]
fn dot_product_of_small_vectors() {
    let mut cs = Assembly::new();
    let x = vector(&mut cs, [1, 2, 3]);
    let y = vector(&mut cs, [4, 5, 6]);
    assert_eq!(limbs(&dot_product(&mut cs, &x, &y).unwrap()), [32, 0, 0, 0]);
    let empty: [Num; 0] = [];
    assert_eq!(limbs(&dot_product(&mut cs, &empty, &empty).unwrap()), [0, 0, 0, 0]);
}

#[test]
fn sum_and_difference_of_vectors() {
    let mut cs = Assembly::new();
    let x = vector(&mut cs, [1, 2, 3]);
    let y = vector(&mut cs, [2, 2, 2]);
    let sum = sum_vectors(&mut cs, &x, &y).unwrap();
    assert_eq!([limbs(&sum[0]), limbs(&sum[1]), limbs(&sum[2])], [
        [3, 0, 0, 0],
        [4, 0, 0, 0],
        [5, 0, 0, 0]
    ]);
    let difference = sub_vectors(&mut cs, &x, &y).unwrap();
    assert_eq!([limbs(&difference[0]), limbs(&difference[1]), limbs(&difference[2])], [
        MODULUS_MINUS_ONE,
        [0, 0, 0, 0],
        [1, 0, 0, 0]
    ]);
}

#[test]
fn sum_wraps_around_the_modulus() {
    let mut cs = Assembly::new();
    let top = FieldElement::from_limbs(MODULUS_MINUS_ONE).unwrap();
    let x = allocate_vector(&mut cs, &[top]).unwrap();
    let y = allocate_vector(&mut cs, &[fe(5)]).unwrap();
    let sum = sum_vectors(&mut cs, &x, &y).unwrap();
    assert_eq!(limbs(&sum[0]), [4, 0, 0, 0]);
}

#[test]
fn cleartext_vectors_are_checked_for_collisions() {
    assert!(okey_vectors(&[fe(1), fe(2), fe(3)], &[fe(4), fe(5), fe(6)]));
    assert!(!okey_vectors(&[fe(1), fe(2), fe(1)], &[fe(4), fe(5), fe(6)]));
    assert!(!okey_vectors(&[fe(1), fe(2), fe(3)], &[fe(4), fe(4), fe(6)]));
    assert!(!okey_vectors(&[fe(1), fe(2), fe(3)], &[fe(4), fe(5), fe(3)]));
    assert!(!okey_vectors(&[fe(1), fe(2), fe(3)], &[fe(1), fe(5), fe(6)]));
    let empty: [FieldElement; 0] = [];
    assert!(okey_vectors(&empty, &empty));
    assert!(!okey_vectors(&[fe(9)], &[fe(9)]));
}

#[test]
fn circuit_vectors_are_checked_for_collisions() {
    let mut cs = Assembly::new();
    let good_x = vector(&mut cs, [1, 2, 3]);
    let good_y = vector(&mut cs, [4, 5, 6]);
    let twice = vector(&mut cs, [1, 2, 2]);
    let shared = vector(&mut cs, [7, 3, 9]);
    assert!(veryfy_vector_corectnes(&mut cs, &good_x, &good_y).unwrap());
    assert!(!veryfy_vector_corectnes(&mut cs, &twice, &good_y).unwrap());
    assert!(!veryfy_vector_corectnes(&mut cs, &good_x, &twice).unwrap());
    assert!(!veryfy_vector_corectnes(&mut cs, &good_x, &shared).unwrap());
}

#[test]
fn cauchy_matrix_entries_invert_the_differences() {
    let mut cs = Assembly::new();
    let xs = [fe(1), fe(2), fe(3)];
    let ys = [fe(4), fe(5), fe(6)];
    let m = generate_mds_matrix::<3>(&mut cs, &[xs, ys]).unwrap();
    let x = allocate_vector(&mut cs, &xs).unwrap();
    let y = allocate_vector(&mut cs, &ys).unwrap();
    for i in 0..3 {
        for j in 0..3 {
            let entry = m.row(i).unwrap()[j];
            assert!(!entry.value().is_zero());
            let difference = x[i].sub(&mut cs, &y[j]).unwrap();
            let product = entry.mul(&mut cs, &difference).unwrap();
            assert_eq!(limbs(&product), [1, 0, 0, 0]);
        }
    }
    // 1 / (1 - 4)
    assert_eq!(limbs(&m.row(0).unwrap()[0]), [
        0x16a0a73150000000,
        0xb8114d6d7de87adb,
        0xe81ac1e7808072c9,
        0x10216f7ba065e00d
    ]);
    // 1 / (2 - 6)
    assert_eq!(limbs(&m.row(1).unwrap()[2]), [
        0x50f87d64fc000000,
        0x4a0cfa121e6e5c24,
        0x6e14116da0605617,
        0x0c19139cb84c680a
    ]);
}

#[test]
fn colliding_vectors_build_no_matrix() {
    let mut cs = Assembly::new();
    let good = [fe(4), fe(5), fe(6)];
    let twice = [fe(1), fe(2), fe(1)];
    let shared = [fe(1), fe(5), fe(3)];
    assert!(matches!(
        generate_mds_matrix::<3>(&mut cs, &[twice, good]),
        Err(CipherError::VectorCollision)
    ));
    assert!(matches!(
        generate_mds_matrix::<3>(&mut cs, &[good, twice]),
        Err(CipherError::VectorCollision)
    ));
    assert!(matches!(
        generate_mds_matrix::<3>(&mut cs, &[shared, good]),
        Err(CipherError::VectorCollision)
    ));
}

#[test]
fn determinant_of_a_small_matrix() {
    let mut cs = Assembly::new();
    let m = matrix(&mut cs, [[2, 0, 1], [1, 3, 2], [1, 1, 4]]);
    assert_eq!(limbs(&matrix_det(&mut cs, &m).unwrap()), [18, 0, 0, 0]);
    let identity = matrix(&mut cs, [[1, 0, 0], [0, 1, 0], [0, 0, 1]]);
    assert_eq!(limbs(&matrix_det(&mut cs, &identity).unwrap()), [1, 0, 0, 0]);
    // rows swapped: the determinant changes its sign
    let swapped = matrix(&mut cs, [[0, 1, 0], [1, 0, 0], [0, 0, 1]]);
    assert_eq!(limbs(&matrix_det(&mut cs, &swapped).unwrap()), MODULUS_MINUS_ONE);
}

#[test]
fn determinant_of_the_cauchy_matrix() {
    let mut cs = Assembly::new();
    let m = generate_mds_matrix::<3>(&mut cs, &[[fe(1), fe(2), fe(3)], [fe(4), fe(5), fe(6)]])
        .unwrap();
    assert_eq!(limbs(&matrix_det(&mut cs, &m).unwrap()), [
        0x384ef8b074ddddde,
        0x351acedd111f2870,
        0x02905acdb393e97d,
        0x066e09f30e83a17d
    ]);
}

#[test]
fn inverse_of_a_small_matrix() {
    let mut cs = Assembly::new();
    let m = matrix(&mut cs, [[2, 0, 1], [1, 3, 2], [1, 1, 4]]);
    let inv = inverse_matrix(&mut cs, &m).unwrap();
    // 10 / 18
    assert_eq!(limbs(&inv.row(0).unwrap()[0]), [
        0xc8d63441c0000001,
        0xf56c673ca7e0a3ce,
        0x8ace57df5600990c,
        0x1581e9fa2b328012
    ]);
    // -2 / 18
    assert_eq!(limbs(&inv.row(2).unwrap()[1]), [
        0xb2358d1070000000,
        0x3d5b19cf29f828f3,
        0xa2b395f7d5802643,
        0x05607a7e8acca004
    ]);
    assert_is_identity(&mut cs, &m, &inv);
    assert_is_identity(&mut cs, &inv, &m);
}

#[test]
fn cauchy_matrix_times_its_inverse_is_the_identity() {
    let mut cs = Assembly::new();
    let m = generate_mds_matrix::<3>(&mut cs, &[[fe(1), fe(2), fe(3)], [fe(4), fe(5), fe(6)]])
        .unwrap();
    let inv = inverse_matrix(&mut cs, &m).unwrap();
    assert_is_identity(&mut cs, &m, &inv);
    assert_is_identity(&mut cs, &inv, &m);
    assert_eq!(limbs(&inv.row(0).unwrap()[1]), [36, 0, 0, 0]);
    assert_eq!(limbs(&inv.row(1).unwrap()[0]), [180, 0, 0, 0]);
    assert_eq!(limbs(&inv.row(2).unwrap()[2]), [
        0x43e1f593efffffe3,
        0x2833e84879b97091,
        0xb85045b68181585d,
        0x30644e72e131a029
    ]);
}

#[test]
fn singular_matrix_has_no_inverse() {
    let mut cs = Assembly::new();
    let m = matrix(&mut cs, [[1, 2, 3], [2, 4, 6], [1, 1, 1]]);
    assert_eq!(limbs(&matrix_det(&mut cs, &m).unwrap()), [0, 0, 0, 0]);
    assert!(matches!(inverse_matrix(&mut cs, &m), Err(CipherError::SingularMatrix)));
    let zero = MdsMatrix::<3>::zero();
    assert!(matches!(inverse_matrix(&mut cs, &zero), Err(CipherError::SingularMatrix)));
}

#[test]
fn inverse_is_unsupported_for_two_rows() {
    let mut cs = Assembly::new();
    let m = generate_mds_matrix::<2>(&mut cs, &[[fe(1), fe(2)], [fe(3), fe(4)]]).unwrap();
    assert!(matches!(inverse_matrix(&mut cs, &m), Err(CipherError::UnsupportedSize)));
    assert!(matches!(matrix_det(&mut cs, &m), Err(CipherError::UnsupportedSize)));
}

#[test]
fn inverse_is_unsupported_for_four_rows() {
    let mut cs = Assembly::new();
    let m = generate_mds_matrix::<4>(
        &mut cs,
        &[[fe(1), fe(2), fe(3), fe(4)], [fe(5), fe(6), fe(7), fe(8)]],
    )
    .unwrap();
    assert!(matches!(inverse_matrix(&mut cs, &m), Err(CipherError::UnsupportedSize)));
    assert!(matches!(matrix_det(&mut cs, &m), Err(CipherError::UnsupportedSize)));
}

#[test]
fn inverse_is_unsupported_for_five_rows() {
    let mut cs = Assembly::new();
    let m = MdsMatrix::<5>::zero();
    assert!(matches!(inverse_matrix(&mut cs, &m), Err(CipherError::UnsupportedSize)));
    assert!(matches!(matrix_det(&mut cs, &m), Err(CipherError::UnsupportedSize)));
}

#[test]
fn cauchy_matrix_has_no_vanishing_minor() {
    let mut cs = Assembly::new();
    let m = generate_mds_matrix::<3>(&mut cs, &[[fe(1), fe(2), fe(3)], [fe(4), fe(5), fe(6)]])
        .unwrap();
    for (a, b) in [(0, 1), (0, 2), (1, 2)] {
        for (c, d) in [(0, 1), (0, 2), (1, 2)] {
            let first = m.row(a).unwrap()[c].mul(&mut cs, &m.row(b).unwrap()[d]).unwrap();
            let second = m.row(a).unwrap()[d].mul(&mut cs, &m.row(b).unwrap()[c]).unwrap();
            let minor = first.sub(&mut cs, &second).unwrap();
            assert!(!minor.value().is_zero());
        }
    }
    assert!(!matrix_det(&mut cs, &m).unwrap().value().is_zero());
}

#[test]
fn row_beyond_the_last_is_out_of_range() {
    let mut cs = Assembly::new();
    let m = matrix(&mut cs, [[1, 2, 3], [4, 5, 6], [7, 8, 9]]);
    assert!(m.row(2).is_ok());
    assert!(matches!(m.row(3), Err(CipherError::RowOutOfRange)));
    assert!(matches!(m.row(usize::MAX), Err(CipherError::RowOutOfRange)));
    let empty = MdsMatrix::<0>::zero();
    assert!(matches!(empty.row(0), Err(CipherError::RowOutOfRange)));
}

#[test]
fn rows_of_the_cauchy_matrix_invert_the_differences_of_one_entry() {
    let mut cs = Assembly::new();
    let xs = [fe(1), fe(2), fe(3)];
    let ys = [fe(4), fe(5), fe(6)];
    let m = generate_mds_matrix::<3>(&mut cs, &[xs, ys]).unwrap();
    let x = allocate_vector(&mut cs, &xs).unwrap();
    let y = allocate_vector(&mut cs, &ys).unwrap();
    for n in 0..3 {
        let row = m.row(n).unwrap();
        for j in 0..3 {
            let difference = x[n].sub(&mut cs, &y[j]).unwrap();
            let product = row[j].mul(&mut cs, &difference).unwrap();
            assert_eq!(limbs(&product), [1, 0, 0, 0]);
        }
    }
}
