use rand::thread_rng;
use rescue_block_cipher::field::{limbs_less, FieldElement};

const MODULUS: [u64; 4] = [
    0x43e1f593f0000001,
    0x2833e84879b97091,
    0xb85045b68181585d,
    0x30644e72e131a029,
];

const MODULUS_MINUS_ONE: [u64; 4] = [
    0x43e1f593f0000000,
    0x2833e84879b97091,
    0xb85045b68181585d,
    0x30644e72e131a029,
];

#[test]
fn small_elements_have_one_limb() {
    assert_eq!(FieldElement::from_u64(42).limbs(), [42, 0, 0, 0]);
    assert_eq!(FieldElement::zero().limbs(), [0, 0, 0, 0]);
    assert_eq!(FieldElement::one().limbs(), [1, 0, 0, 0]);
    assert_eq!(FieldElement::from_u64(u64::MAX).limbs(), [u64::MAX, 0, 0, 0]);
}

#[test]
fn limbs_below_the_modulus_are_accepted() {
    let top = FieldElement::from_limbs(MODULUS_MINUS_ONE).unwrap();
    assert_eq!(top.limbs(), MODULUS_MINUS_ONE);
    assert!(FieldElement::from_limbs([7, 0, 0, 0]).unwrap().equals(&FieldElement::from_u64(7)));
}

#[test]
fn limbs_from_the_modulus_up_are_refused() {
    assert!(FieldElement::from_limbs(MODULUS).is_none());
    assert!(FieldElement::from_limbs([u64::MAX; 4]).is_none());
    assert!(FieldElement::from_limbs([0, 0, 0, 0x30644e72e131a02a]).is_none());
}

#[test]
fn limbs_are_compared_from_the_most_significant() {
    assert!(limbs_less(&[9, 0, 0, 1], &[0, 0, 0, 2]));
    assert!(!limbs_less(&[0, 0, 0, 2], &[9, 0, 0, 1]));
    assert!(limbs_less(&[9, 9, 0, 1], &[0, 0, 1, 1]));
    assert!(limbs_less(&[9, 0, 5, 1], &[0, 1, 5, 1]));
    assert!(limbs_less(&[1, 2, 3, 4], &[2, 2, 3, 4]));
    assert!(!limbs_less(&[1, 2, 3, 4], &[1, 2, 3, 4]));
    assert!(limbs_less(&MODULUS_MINUS_ONE, &MODULUS));
}

#[test]
fn equality_and_zero_test_go_by_value() {
    let a = FieldElement::from_u64(5);
    assert!(a.equals(&FieldElement::from_limbs([5, 0, 0, 0]).unwrap()));
    assert!(!a.equals(&FieldElement::from_u64(6)));
    assert!(!a.equals(&FieldElement::from_limbs([5, 1, 0, 0]).unwrap()));
    assert!(FieldElement::zero().is_zero());
    assert!(!a.is_zero());
    assert!(!FieldElement::from_limbs([0, 0, 1, 0]).unwrap().is_zero());
}

#[test]
fn cleartext_product_is_reduced() {
    let six = FieldElement::from_u64(6);
    let seven = FieldElement::from_u64(7);
    assert_eq!(six.mul(&seven).limbs(), [42, 0, 0, 0]);
    // (p - 1) * (p - 1) = 1 modulo p
    let top = FieldElement::from_limbs(MODULUS_MINUS_ONE).unwrap();
    assert_eq!(top.mul(&top).limbs(), [1, 0, 0, 0]);
    // 2^64 * 2^64 = 2^128
    let big = FieldElement::from_limbs([0, 1, 0, 0]).unwrap();
    assert_eq!(big.mul(&big).limbs(), [0, 0, 1, 0]);
    assert_eq!(six.mul(&FieldElement::zero()).limbs(), [0, 0, 0, 0]);
}

#[test]
fn drawn_elements_are_canonical() {
    let rng = &mut thread_rng();
    let mut distinct = false;
    let first = FieldElement::random(rng);
    for _ in 0..64 {
        let drawn = FieldElement::random(rng);
        assert!(FieldElement::from_limbs(drawn.limbs()).is_some());
        if !drawn.equals(&first) {
            distinct = true;
        }
    }
    assert!(distinct);
}
