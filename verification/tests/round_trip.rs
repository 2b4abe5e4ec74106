use rand::thread_rng;
use rescue_block_cipher::cipher_generator::cipher_params_generate;
use rescue_block_cipher::cipher_generator::mds::allocate_vector;
use rescue_block_cipher::circuit::{Assembly, Num};
use rescue_block_cipher::enc_dec::{
    generate_ready_params, generate_subkeys, rescue_decryption, rescue_encryption,
};
use rescue_block_cipher::field::FieldElement;

fn limbs_of(v: &[Num; 3]) -> [[u64; 4]; 3] {
    [v[0].value().limbs(), v[1].value().limbs(), v[2].value().limbs()]
}

fn small(a: u64, b: u64, c: u64) -> [FieldElement; 3] {
    [FieldElement::from_u64(a), FieldElement::from_u64(b), FieldElement::from_u64(c)]
}

#[test]
fn zero_key_and_zero_plaintext_round_trip() {
    let rng = &mut thread_rng();
    let mut cs = Assembly::new();
    let params = cipher_params_generate::<3, 7>(rng, 64).unwrap();
    let ready = generate_ready_params(&mut cs, &params).unwrap();
    let key = [Num::zero(); 3];
    let plaintext = [Num::zero(); 3];
    let ciphertext = rescue_encryption(&mut cs, &ready, &key, &plaintext).unwrap();
    let decrypted = rescue_decryption(&mut cs, &ready, &key, &ciphertext).unwrap();
    assert_eq!(limbs_of(&decrypted), [[0u64; 4]; 3]);
    for i in 0..3 {
        plaintext[i].enforce_equal(&mut cs, &decrypted[i]).unwrap();
    }
}

#[test]
fn nonzero_key_and_plaintext_round_trip() {
    let rng = &mut thread_rng();
    let mut cs = Assembly::new();
    let params = cipher_params_generate::<3, 7>(rng, 64).unwrap();
    let ready = generate_ready_params(&mut cs, &params).unwrap();
    let key = allocate_vector(&mut cs, &small(7, 11, 13)).unwrap();
    let plaintext = allocate_vector(&mut cs, &small(1, 2, 3)).unwrap();
    let ciphertext = rescue_encryption(&mut cs, &ready, &key, &plaintext).unwrap();
    assert_ne!(limbs_of(&ciphertext), limbs_of(&plaintext));
    let decrypted = rescue_decryption(&mut cs, &ready, &key, &ciphertext).unwrap();
    assert_eq!(limbs_of(&decrypted), [[1, 0, 0, 0], [2, 0, 0, 0], [3, 0, 0, 0]]);
}

#[test]
fn round_trip_holds_for_an_even_number_of_rounds() {
    let rng = &mut thread_rng();
    let mut cs = Assembly::new();
    let params = cipher_params_generate::<3, 4>(rng, 64).unwrap();
    let ready = generate_ready_params(&mut cs, &params).unwrap();
    let key = allocate_vector(&mut cs, &small(7, 11, 13)).unwrap();
    let plaintext = allocate_vector(&mut cs, &small(1, 2, 3)).unwrap();
    let ciphertext = rescue_encryption(&mut cs, &ready, &key, &plaintext).unwrap();
    let decrypted = rescue_decryption(&mut cs, &ready, &key, &ciphertext).unwrap();
    assert_eq!(limbs_of(&decrypted), limbs_of(&plaintext));
}

#[test]
fn subkeys_do_not_depend_on_the_call() {
    let rng = &mut thread_rng();
    let mut cs = Assembly::new();
    let params = cipher_params_generate::<3, 7>(rng, 64).unwrap();
    let ready = generate_ready_params(&mut cs, &params).unwrap();
    let key = allocate_vector(&mut cs, &small(7, 11, 13)).unwrap();
    let first = generate_subkeys(&mut cs, &ready, key).unwrap();
    let second = generate_subkeys(&mut cs, &ready, key).unwrap();
    for i in 0..7 {
        assert_eq!(limbs_of(&first[i]), limbs_of(&second[i]));
    }
}
