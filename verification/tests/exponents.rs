use rescue_block_cipher::cipher_generator::exponent::{
    div_step, divide_limbs, inv_mod, mac_step, mul_add_limbs,
};
use rescue_block_cipher::cipher_generator::sboxes::{big_pow, compute_inverse_alpha};
use rescue_block_cipher::field::FieldElement;

const GROUP_ORDER: [u64; 4] = [
    0x43e1f593f0000000,
    0x2833e84879b97091,
    0xb85045b68181585d,
    0x30644e72e131a029,
];

#[test]
fn division_step_carries_the_remainder() {
    assert_eq!(div_step(0, 17, 5), (3, 2));
    // (2 * 2^64 + 1) / 5 = 7378697629483820646, remainder 3
    assert_eq!(div_step(2, 1, 5), (7378697629483820646, 3));
    assert_eq!(div_step(u64::MAX - 1, u64::MAX, u64::MAX), (u64::MAX, u64::MAX - 1));
}

#[test]
fn multiplication_step_splits_low_and_high() {
    assert_eq!(mac_step(3, 4, 5), (17, 0));
    assert_eq!(mac_step(u64::MAX, u64::MAX, u64::MAX), (0, u64::MAX));
    assert_eq!(mac_step(1 << 63, 2, 7), (7, 1));
}

#[test]
fn long_division_of_four_limbs() {
    assert_eq!(divide_limbs(&[u64::MAX; 4], 3), ([0x5555555555555555; 4], 0));
    assert_eq!(divide_limbs(&[7, 0, 0, 0], 2), ([3, 0, 0, 0], 1));
    assert_eq!(
        divide_limbs(&GROUP_ORDER, 97),
        (
            [0x05fa6975a61a6449, 0x7489c5b19268d6ef, 0xfc9f2d95ace1a9d1, 0x007fb6e96e871c0a],
            87
        )
    );
}

#[test]
fn multiply_and_add_of_four_limbs() {
    assert_eq!(mul_add_limbs(&[u64::MAX; 4], 5, 7), ([2, 0, 0, 0], 5));
    assert_eq!(mul_add_limbs(&[1, 2, 3, 4], 10, 9), ([19, 20, 30, 40], 0));
    assert_eq!(
        mul_add_limbs(
            &[0x05fa6975a61a6449, 0x7489c5b19268d6ef, 0xfc9f2d95ace1a9d1, 0x007fb6e96e871c0a],
            12345,
            678
        ),
        (
            [0x48878a56eeae06e7, 0xc7be4ffd41a4ac57, 0x17fd36bdce16157c, 0x0ebb7eb2f1574dd0],
            24
        )
    );
}

#[test]
fn inverse_modulo_a_word() {
    assert_eq!(inv_mod(3, 7), Some(5));
    assert_eq!(inv_mod(1, 2), Some(1));
    assert_eq!(inv_mod(10, 17), Some(12));
    assert_eq!(inv_mod(2, 4), None);
    assert_eq!(inv_mod(0, 5), None);
    assert_eq!(inv_mod(6, 9), None);
    let t = inv_mod(0x1234_5678_9abc_def1, u64::MAX).unwrap();
    assert_eq!((t as u128 * 0x1234_5678_9abc_def1u128) % (u64::MAX as u128), 1);
}

#[test]
fn inverse_of_five_modulo_the_group_order() {
    assert_eq!(
        compute_inverse_alpha(5),
        Some([0xcfe7f7a98ccccccd, 0x535cb9d394945a0d, 0x93736af8679aad17, 0x26b6a528b427b354])
    );
}

#[test]
fn inverse_of_other_exponents() {
    assert_eq!(compute_inverse_alpha(1), Some([1, 0, 0, 0]));
    assert_eq!(
        compute_inverse_alpha(7),
        Some([0x26ca432ff6db6db7, 0x3b8b60296a20d29c, 0xb2770343b7b7a035, 0x1ba70841a540edce])
    );
    assert_eq!(
        compute_inverse_alpha(11),
        Some([0x410f146e2a2e8ba3, 0xaddf9c70db611eb3, 0xa6a1876051dd7530, 0x0d32a1080edefd22])
    );
}

#[test]
fn exponents_that_share_a_divisor_with_the_group_order_have_no_inverse() {
    assert_eq!(compute_inverse_alpha(0), None);
    assert_eq!(compute_inverse_alpha(2), None);
    assert_eq!(compute_inverse_alpha(3), None);
    assert_eq!(compute_inverse_alpha(13), None);
    assert_eq!(compute_inverse_alpha(29 * 5), None);
}

#[test]
fn powers_with_small_exponents() {
    let two = FieldElement::from_u64(2);
    assert_eq!(big_pow(&two, &[10, 0, 0, 0]).limbs(), [1024, 0, 0, 0]);
    assert_eq!(big_pow(&two, &[0, 0, 0, 0]).limbs(), [1, 0, 0, 0]);
    assert_eq!(big_pow(&two, &[1, 0, 0, 0]).limbs(), [2, 0, 0, 0]);
    assert_eq!(big_pow(&two, &[64, 0, 0, 0]).limbs(), [0, 1, 0, 0]);
    assert_eq!(big_pow(&FieldElement::zero(), &[0, 0, 0, 0]).limbs(), [1, 0, 0, 0]);
    assert_eq!(big_pow(&FieldElement::zero(), &[3, 0, 0, 0]).limbs(), [0, 0, 0, 0]);
}

#[test]
fn powers_with_exponents_of_several_limbs() {
    let two = FieldElement::from_u64(2);
    assert_eq!(
        big_pow(&two, &[0, 1, 0, 0]).limbs(),
        [0xe71eae6c5e340de3, 0xbce1a07b5d5df922, 0x6f3968dac0aa96dd, 0x0676f0a53572cf93]
    );
    let three = FieldElement::from_u64(3);
    assert_eq!(
        big_pow(&three, &[5, 1, 0, 0]).limbs(),
        [0x5ced5995247bc0c0, 0x42aee0fabc683112, 0x15549f3d5a427884, 0x0b17c485558f8a1c]
    );
    let five = FieldElement::from_u64(5);
    assert_eq!(
        big_pow(
            &five,
            &[0x8796a5b4c3d2e1f0, 0x0f1e2d3c4b5a6978, 0xfedcba9876543210, 0x0123456789abcdef]
        )
        .limbs(),
        [0x072337bb5744b138, 0x558aaccf2e66d90b, 0x8a3116f05403e9a5, 0x06942e2c86136d58]
    );
}

#[test]
fn power_with_the_group_order_is_one() {
    let seven = FieldElement::from_u64(7);
    assert_eq!(big_pow(&seven, &GROUP_ORDER).limbs(), [1, 0, 0, 0]);
}
