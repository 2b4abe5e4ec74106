use rand::thread_rng;
use rescue_block_cipher::cipher_generator::mds::{generate_vectors_for_matrix, okey_vectors};
use rescue_block_cipher::cipher_generator::{
    cipher_params_generate, generate_round_constants, keep_nonzero,
};
use rescue_block_cipher::errors::CipherError;
use rescue_block_cipher::field::FieldElement;

fn assert_no_collision(x: &[FieldElement], y: &[FieldElement]) {
    for i in 0..x.len() {
        for j in (i + 1)..x.len() {
            assert_ne!(x[i].limbs(), x[j].limbs());
        }
    }
    for i in 0..y.len() {
        for j in (i + 1)..y.len() {
            assert_ne!(y[i].limbs(), y[j].limbs());
        }
    }
    for a in x {
        for b in y {
            assert_ne!(a.limbs(), b.limbs());
        }
    }
}

#[test]
fn sampled_vectors_never_collide() {
    let rng = &mut thread_rng();
    for _ in 0..200 {
        let vectors = generate_vectors_for_matrix::<3>(rng, 16).unwrap();
        assert!(okey_vectors(&vectors[0], &vectors[1]));
        assert_no_collision(&vectors[0], &vectors[1]);
    }
}

#[test]
fn sampled_vectors_of_other_widths_never_collide() {
    let rng = &mut thread_rng();
    for _ in 0..20 {
        let wide = generate_vectors_for_matrix::<8>(rng, 16).unwrap();
        assert_no_collision(&wide[0], &wide[1]);
        let narrow = generate_vectors_for_matrix::<1>(rng, 16).unwrap();
        assert_no_collision(&narrow[0], &narrow[1]);
    }
}

#[test]
fn sampling_without_attempts_is_exhausted() {
    let rng = &mut thread_rng();
    assert!(matches!(
        generate_vectors_for_matrix::<3>(rng, 0),
        Err(CipherError::SamplingExhausted)
    ));
    assert!(matches!(
        generate_round_constants::<3, 7>(rng, 0),
        Err(CipherError::SamplingExhausted)
    ));
    assert!(matches!(cipher_params_generate::<3, 7>(rng, 0), Err(CipherError::SamplingExhausted)));
}

#[test]
fn round_constants_are_never_zero() {
    let rng = &mut thread_rng();
    for _ in 0..20 {
        let constants = generate_round_constants::<3, 7>(rng, 16).unwrap();
        for row in constants.iter() {
            for constant in row.iter() {
                assert!(!constant.is_zero());
                assert!(FieldElement::from_limbs(constant.limbs()).is_some());
            }
        }
    }
}

#[test]
fn generated_parameters_are_well_formed() {
    let rng = &mut thread_rng();
    let params = cipher_params_generate::<3, 7>(rng, 16).unwrap();
    assert!(okey_vectors(&params.vect_for_matrix[0], &params.vect_for_matrix[1]));
    for row in params.round_constants.iter() {
        for constant in row.iter() {
            assert!(!constant.is_zero());
        }
    }
    assert_eq!(params.sbox2.alpha_inv(), [
        0xcfe7f7a98ccccccd,
        0x535cb9d394945a0d,
        0x93736af8679aad17,
        0x26b6a528b427b354
    ]);
}

#[test]
fn generated_parameters_always_have_an_inverse_matrix() {
    let rng = &mut thread_rng();
    for _ in 0..10 {
        let mut cs = rescue_block_cipher::circuit::Assembly::new();
        let params = cipher_params_generate::<3, 2>(rng, 16).unwrap();
        let ready = rescue_block_cipher::enc_dec::generate_ready_params(&mut cs, &params);
        assert!(ready.is_ok());
    }
}

#[test]
fn only_nonzero_draws_are_kept() {
    assert!(keep_nonzero(FieldElement::zero()).is_none());
    let five = keep_nonzero(FieldElement::from_u64(5)).unwrap();
    assert_eq!(five.limbs(), [5, 0, 0, 0]);
    let big = FieldElement::from_limbs([0, 0, 0, 1]).unwrap();
    assert_eq!(keep_nonzero(big).unwrap().limbs(), [0, 0, 0, 1]);
}

#[test]
fn sampled_vectors_are_canonical() {
    let rng = &mut thread_rng();
    for _ in 0..50 {
        let vectors = generate_vectors_for_matrix::<3>(rng, 16).unwrap();
        for vector in vectors.iter() {
            for element in vector.iter() {
                assert!(FieldElement::from_limbs(element.limbs()).is_some());
            }
        }
    }
}

#[test]
fn sampling_nothing_needs_no_attempt() {
    let rng = &mut thread_rng();
    assert!(generate_round_constants::<0, 7>(rng, 0).is_ok());
    assert!(generate_round_constants::<3, 0>(rng, 0).is_ok());
    assert!(matches!(
        generate_round_constants::<1, 1>(rng, 0),
        Err(CipherError::SamplingExhausted)
    ));
    assert!(matches!(cipher_params_generate::<0, 0>(rng, 0), Err(CipherError::SamplingExhausted)));
}
