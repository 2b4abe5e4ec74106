use rescue_block_cipher::circuit::{Assembly, Num};
use rescue_block_cipher::errors::CipherError;
use rescue_block_cipher::field::FieldElement;

fn small(n: &Num) -> u64 {
    let limbs = n.value().limbs();
    assert_eq!([limbs[1], limbs[2], limbs[3]], [0, 0, 0]);
    limbs[0]
}

#[test]
fn gates_compute_in_the_field() {
    let mut cs = Assembly::new();
    let a = Num::allocate(&mut cs, &FieldElement::from_u64(6)).unwrap();
    let b = Num::allocate(&mut cs, &FieldElement::from_u64(7)).unwrap();
    assert_eq!(small(&a.add(&mut cs, &b).unwrap()), 13);
    assert_eq!(small(&a.mul(&mut cs, &b).unwrap()), 42);
    assert_eq!(small(&b.sub(&mut cs, &a).unwrap()), 1);
    let inv = a.inverse(&mut cs).unwrap();
    assert_eq!(small(&inv.mul(&mut cs, &a).unwrap()), 1);
    let q = a.mul(&mut cs, &b).unwrap().div(&mut cs, &b).unwrap();
    assert_eq!(small(&q), 6);
    assert!(!Num::equals(&mut cs, &a, &b).unwrap());
    assert!(Num::equals(&mut cs, &a, &a).unwrap());
    assert_eq!(small(&a.add(&mut cs, &a).unwrap()), 12);
    assert_eq!(small(&a.sub(&mut cs, &a).unwrap()), 0);
}

#[test]
fn allocated_numbers_and_constants_hold_their_value() {
    let mut cs = Assembly::new();
    let limbs = [3, 1, 4, 1];
    let value = FieldElement::from_limbs(limbs).unwrap();
    assert_eq!(Num::allocate(&mut cs, &value).unwrap().value().limbs(), limbs);
    assert_eq!(Num::constant(&value).value().limbs(), limbs);
    assert_eq!(Num::zero().value().limbs(), [0, 0, 0, 0]);
    assert_eq!(Num::one().value().limbs(), [1, 0, 0, 0]);
}

#[test]
fn zero_test_is_decided_by_value() {
    let mut cs = Assembly::new();
    let zero = Num::allocate(&mut cs, &FieldElement::zero()).unwrap();
    let five = Num::allocate(&mut cs, &FieldElement::from_u64(5)).unwrap();
    assert!(zero.is_zero(&mut cs).unwrap());
    assert!(!five.is_zero(&mut cs).unwrap());
    assert!(Num::zero().is_zero(&mut cs).unwrap());
    assert!(!Num::one().is_zero(&mut cs).unwrap());
    let difference = five.sub(&mut cs, &five).unwrap();
    assert!(difference.is_zero(&mut cs).unwrap());
}

#[test]
fn inverse_of_six() {
    let mut cs = Assembly::new();
    let six = Num::allocate(&mut cs, &FieldElement::from_u64(6)).unwrap();
    let expected = [
        0xb891a1fb48000001,
        0x4c2b4191bac53323,
        0xc442e4c2c1411ef8,
        0x285396b510feb022,
    ];
    assert_eq!(six.inverse(&mut cs).unwrap().value().limbs(), expected);
    assert_eq!(Num::one().div(&mut cs, &six).unwrap().value().limbs(), expected);
    let constant = Num::constant(&FieldElement::from_u64(6));
    assert_eq!(constant.inverse(&mut cs).unwrap().value().limbs(), expected);
}

#[test]
fn equal_values_can_be_enforced_equal() {
    let mut cs = Assembly::new();
    let a = Num::allocate(&mut cs, &FieldElement::from_u64(9)).unwrap();
    let b = Num::allocate(&mut cs, &FieldElement::from_u64(9)).unwrap();
    assert!(a.enforce_equal(&mut cs, &b).is_ok());
    assert!(a.enforce_equal(&mut cs, &a).is_ok());
    assert!(a.enforce_equal(&mut cs, &Num::constant(&FieldElement::from_u64(9))).is_ok());
}

#[test]
fn different_values_violate_an_enforced_equality() {
    let mut cs = Assembly::new();
    let a = Num::allocate(&mut cs, &FieldElement::from_u64(9)).unwrap();
    let b = Num::allocate(&mut cs, &FieldElement::from_u64(10)).unwrap();
    assert!(matches!(a.enforce_equal(&mut cs, &b), Err(CipherError::ConstraintViolation)));
    assert!(matches!(
        Num::one().enforce_equal(&mut cs, &Num::zero()),
        Err(CipherError::ConstraintViolation)
    ));
    assert!(matches!(a.enforce_equal(&mut cs, &Num::one()), Err(CipherError::ConstraintViolation)));
}
