use rescue_block_cipher::cipher_generator::mds::allocate_vector;
use rescue_block_cipher::cipher_generator::sboxes::{QuinticInverseSBox, QuinticSBox};
use rescue_block_cipher::cipher_generator::CipherParams;
use rescue_block_cipher::circuit::{Assembly, Num};
use rescue_block_cipher::enc_dec::{
    generate_ready_params, generate_subkeys, rescue_decryption, rescue_encryption,
    ReadyCipherParams,
};
use rescue_block_cipher::errors::CipherError;
use rescue_block_cipher::field::FieldElement;

fn fe(v: u64) -> FieldElement {
    FieldElement::from_u64(v)
}

fn limbs_of(v: &[Num; 3]) -> [[u64; 4]; 3] {
    [v[0].value().limbs(), v[1].value().limbs(), v[2].value().limbs()]
}

/// Parameters with the vectors (1, 2, 3) and (4, 5, 6), and the constant
/// `10 * i + j + 1` in round `i` at place `j`.
fn fixed_params<const R: usize>() -> CipherParams<3, R> {
    let mut round_constants = [[fe(0); 3]; R];
    for i in 0..R {
        for j in 0..3 {
            round_constants[i][j] = fe((10 * i + j + 1) as u64);
        }
    }
    CipherParams {
        vect_for_matrix: [[fe(1), fe(2), fe(3)], [fe(4), fe(5), fe(6)]],
        sbox1: QuinticSBox::new(),
        sbox2: QuinticInverseSBox::new(),
        round_constants,
    }
}

fn ready<const R: usize>(cs: &mut Assembly) -> ReadyCipherParams<3, R> {
    generate_ready_params(cs, &fixed_params::<R>()).unwrap()
}

#[test]
fn ready_parameters_hold_the_constants() {
    let mut cs = Assembly::new();
    let params = ready::<7>(&mut cs);
    for i in 0..7 {
        for j in 0..3 {
            assert_eq!(params.round_constants[i][j].value().limbs(), [
                (10 * i + j + 1) as u64,
                0,
                0,
                0
            ]);
        }
    }
    assert_eq!(params.inv_matrix.row(0).unwrap()[1].value().limbs(), [36, 0, 0, 0]);
    assert_eq!(params.matrix.row(0).unwrap()[0].value().limbs(), [
        0x16a0a73150000000,
        0xb8114d6d7de87adb,
        0xe81ac1e7808072c9,
        0x10216f7ba065e00d
    ]);
}

#[test]
fn first_subkey_is_key_plus_constants() {
    let mut cs = Assembly::new();
    let params = ready::<7>(&mut cs);
    let key = allocate_vector(&mut cs, &[fe(7), fe(11), fe(13)]).unwrap();
    let subkeys = generate_subkeys(&mut cs, &params, key).unwrap();
    assert_eq!(limbs_of(&subkeys[0]), [[8, 0, 0, 0], [13, 0, 0, 0], [16, 0, 0, 0]]);
}

#[test]
fn later_subkeys_run_the_round_function() {
    let mut cs = Assembly::new();
    let key = allocate_vector(&mut cs, &[fe(7), fe(11), fe(13)]).unwrap();
    let two = ready::<2>(&mut cs);
    let subkeys = generate_subkeys(&mut cs, &two, key).unwrap();
    assert_eq!(limbs_of(&subkeys[1]), [
        [0x8911a8110e008397, 0xb50108f7b3675090, 0xf52dfcc054e5d5ff, 0x16cac20f606e32d5],
        [0x5bef05397f63f130, 0x7d881d667cd04d5e, 0x77cdc32f1aded202, 0x0032fb0e2b110f68],
        [0x0d7afac6ce0ecd76, 0x3402ddbc0d086fed, 0x4c57c0f1cd258908, 0x01ef77f1b28dcdbf]
    ]);
    let seven = ready::<7>(&mut cs);
    let subkeys = generate_subkeys(&mut cs, &seven, key).unwrap();
    assert_eq!(limbs_of(&subkeys[6]), [
        [0x617206a4f69fa3a5, 0xc394748d66c7a90d, 0xb485f1b5d302d88f, 0x0c868640382c7331],
        [0xd5ea78f0d07763ec, 0x2c2bbcdd6505bab3, 0xd79662f67217bcf3, 0x29705e3d25404bb0],
        [0x0ed238cd04f1d11b, 0x3667e928871b96d8, 0x28a49fb913422c88, 0x2c1d9c72f1de005d]
    ]);
}

#[test]
fn one_round_adds_the_first_subkey() {
    let mut cs = Assembly::new();
    let params = ready::<1>(&mut cs);
    let key = allocate_vector(&mut cs, &[fe(7), fe(11), fe(13)]).unwrap();
    let plaintext = allocate_vector(&mut cs, &[fe(1), fe(2), fe(3)]).unwrap();
    let ciphertext = rescue_encryption(&mut cs, &params, &key, &plaintext).unwrap();
    assert_eq!(limbs_of(&ciphertext), [[9, 0, 0, 0], [15, 0, 0, 0], [19, 0, 0, 0]]);
    let decrypted = rescue_decryption(&mut cs, &params, &key, &ciphertext).unwrap();
    assert_eq!(limbs_of(&decrypted), [[1, 0, 0, 0], [2, 0, 0, 0], [3, 0, 0, 0]]);
}

#[test]
fn two_rounds_give_the_known_ciphertext() {
    let mut cs = Assembly::new();
    let params = ready::<2>(&mut cs);
    let key = allocate_vector(&mut cs, &[fe(7), fe(11), fe(13)]).unwrap();
    let plaintext = allocate_vector(&mut cs, &[fe(1), fe(2), fe(3)]).unwrap();
    let ciphertext = rescue_encryption(&mut cs, &params, &key, &plaintext).unwrap();
    assert_eq!(limbs_of(&ciphertext), [
        [0x22493a3d5a2764dd, 0x669c4a667648e684, 0xecabd430309659e4, 0x0d8036febece324d],
        [0x033d0059cdf6f9eb, 0x46f0cd11ac4b56dd, 0xfdd3f5e280d967bc, 0x2bb9329cfe1bf1b5],
        [0x9754e5e60e430fda, 0xa88def771f69b966, 0x6284a0250c3eafdb, 0x26094f9221ba7ef1]
    ]);
    let decrypted = rescue_decryption(&mut cs, &params, &key, &ciphertext).unwrap();
    assert_eq!(limbs_of(&decrypted), [[1, 0, 0, 0], [2, 0, 0, 0], [3, 0, 0, 0]]);
}

#[test]
fn four_rounds_give_the_known_ciphertext() {
    let mut cs = Assembly::new();
    let params = ready::<4>(&mut cs);
    let key = allocate_vector(&mut cs, &[fe(7), fe(11), fe(13)]).unwrap();
    let plaintext = allocate_vector(&mut cs, &[fe(1), fe(2), fe(3)]).unwrap();
    let ciphertext = rescue_encryption(&mut cs, &params, &key, &plaintext).unwrap();
    assert_eq!(limbs_of(&ciphertext), [
        [0x6459160980d93357, 0x325f44711dccf66e, 0xeb69fb10ad3826fb, 0x1aa02cf954969bd9],
        [0xeeb4e3488c1fb6ee, 0xfa6080e848ae23f4, 0xbd628e98d856db51, 0x13e875b28a7440ec],
        [0x2e3b8ea250789d76, 0x1b324ddaa93f96ea, 0x1a18c76d87ed556f, 0x0cf2550c1a067104]
    ]);
    let decrypted = rescue_decryption(&mut cs, &params, &key, &ciphertext).unwrap();
    assert_eq!(limbs_of(&decrypted), [[1, 0, 0, 0], [2, 0, 0, 0], [3, 0, 0, 0]]);
}

#[test]
fn seven_rounds_give_the_known_ciphertext() {
    let mut cs = Assembly::new();
    let params = ready::<7>(&mut cs);
    let key = allocate_vector(&mut cs, &[fe(7), fe(11), fe(13)]).unwrap();
    let plaintext = allocate_vector(&mut cs, &[fe(1), fe(2), fe(3)]).unwrap();
    let ciphertext = rescue_encryption(&mut cs, &params, &key, &plaintext).unwrap();
    assert_eq!(limbs_of(&ciphertext), [
        [0xa46510548f11a8fd, 0xeebace082f64f9e4, 0x6077e3688be5b864, 0x22e216b2d83e2bf9],
        [0x8bd59c37cb24549b, 0x04fdb0f37acee3e1, 0x9ee1280ac0f51e58, 0x2cf1eb3245238826],
        [0x942a92955ae061f3, 0xa8fa1909fbb81bf8, 0xe7ff8dbb41eeca72, 0x3041ad1447207f7a]
    ]);
    let decrypted = rescue_decryption(&mut cs, &params, &key, &ciphertext).unwrap();
    assert_eq!(limbs_of(&decrypted), [[1, 0, 0, 0], [2, 0, 0, 0], [3, 0, 0, 0]]);
}

#[test]
fn seven_rounds_on_the_zero_state_under_the_zero_key() {
    let mut cs = Assembly::new();
    let params = ready::<7>(&mut cs);
    let key = [Num::zero(); 3];
    let plaintext = [Num::zero(); 3];
    let ciphertext = rescue_encryption(&mut cs, &params, &key, &plaintext).unwrap();
    assert_eq!(limbs_of(&ciphertext), [
        [0x6f1248227e046679, 0xf03a18bc558d0d8a, 0xa4baeaba6f122221, 0x0d5e4febf2257535],
        [0x2fb12382e7acfea5, 0x3902a7c8f0704889, 0x5f3d7d48a693dc51, 0x2992a043cfdc1590],
        [0xc35d415185e7c592, 0xb9b6db9301bd753a, 0x3609b9ea081ee884, 0x0c2f23bbc4e075de]
    ]);
    let decrypted = rescue_decryption(&mut cs, &params, &key, &ciphertext).unwrap();
    assert_eq!(limbs_of(&decrypted), [[0; 4]; 3]);
}

#[test]
fn decryption_under_another_key_gives_another_state() {
    let mut cs = Assembly::new();
    let params = ready::<7>(&mut cs);
    let key = allocate_vector(&mut cs, &[fe(7), fe(11), fe(13)]).unwrap();
    let other = allocate_vector(&mut cs, &[fe(7), fe(11), fe(14)]).unwrap();
    let plaintext = allocate_vector(&mut cs, &[fe(1), fe(2), fe(3)]).unwrap();
    let ciphertext = rescue_encryption(&mut cs, &params, &key, &plaintext).unwrap();
    let decrypted = rescue_decryption(&mut cs, &params, &other, &ciphertext).unwrap();
    assert_ne!(limbs_of(&decrypted), limbs_of(&plaintext));
}

#[test]
fn parameters_for_two_elements_are_unsupported() {
    let mut cs = Assembly::new();
    let params = CipherParams::<2, 3> {
        vect_for_matrix: [[fe(1), fe(2)], [fe(3), fe(4)]],
        sbox1: QuinticSBox::new(),
        sbox2: QuinticInverseSBox::new(),
        round_constants: [[fe(1); 2]; 3],
    };
    assert!(matches!(generate_ready_params(&mut cs, &params), Err(CipherError::UnsupportedSize)));
}

#[test]
fn parameters_with_colliding_vectors_are_refused() {
    let mut cs = Assembly::new();
    let mut params = fixed_params::<7>();
    params.vect_for_matrix[1][2] = fe(1);
    assert!(matches!(generate_ready_params(&mut cs, &params), Err(CipherError::VectorCollision)));
}

#[test]
fn a_cipher_without_rounds_has_no_subkeys() {
    let mut cs = Assembly::new();
    let params = ready::<0>(&mut cs);
    let key = allocate_vector(&mut cs, &[fe(7), fe(11), fe(13)]).unwrap();
    let subkeys = generate_subkeys(&mut cs, &params, key).unwrap();
    assert_eq!(subkeys.len(), 0);
}

#[test]
fn subkeys_do_not_depend_on_what_the_circuit_held() {
    let mut fresh = Assembly::new();
    let params = ready::<7>(&mut fresh);
    let key = allocate_vector(&mut fresh, &[fe(7), fe(11), fe(13)]).unwrap();
    let first = generate_subkeys(&mut fresh, &params, key).unwrap();
    // more gates in between
    let plaintext = allocate_vector(&mut fresh, &[fe(1), fe(2), fe(3)]).unwrap();
    rescue_encryption(&mut fresh, &params, &key, &plaintext).unwrap();
    let second = generate_subkeys(&mut fresh, &params, key).unwrap();
    for i in 0..7 {
        assert_eq!(limbs_of(&first[i]), limbs_of(&second[i]));
    }
}
