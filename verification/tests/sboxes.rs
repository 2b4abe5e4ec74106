use rand::thread_rng;
use rescue_block_cipher::cipher_generator::mds::allocate_vector;
use rescue_block_cipher::cipher_generator::sboxes::{QuinticInverseSBox, QuinticSBox};
use rescue_block_cipher::circuit::{Assembly, Num};
use rescue_block_cipher::field::FieldElement;

const MODULUS_MINUS_ONE: [u64; 4] = [
    0x43e1f593f0000000,
    0x2833e84879b97091,
    0xb85045b68181585d,
    0x30644e72e131a029,
];

fn fe(v: u64) -> FieldElement {
    FieldElement::from_u64(v)
}

fn limbs_of(v: &[Num; 3]) -> [[u64; 4]; 3] {
    [v[0].value().limbs(), v[1].value().limbs(), v[2].value().limbs()]
}

#[test]
fn forward_sbox_raises_to_the_fifth_power() {
    let mut cs = Assembly::new();
    let mut state = allocate_vector(&mut cs, &[fe(0), fe(1), fe(2)]).unwrap();
    QuinticSBox::<3>::new().apply(&mut cs, &mut state).unwrap();
    assert_eq!(limbs_of(&state), [[0, 0, 0, 0], [1, 0, 0, 0], [32, 0, 0, 0]]);
    let mut other = allocate_vector(&mut cs, &[fe(3), fe(10), fe(1 << 13)]).unwrap();
    QuinticSBox::<3>::new().apply(&mut cs, &mut other).unwrap();
    assert_eq!(limbs_of(&other), [[243, 0, 0, 0], [100000, 0, 0, 0], [0, 2, 0, 0]]);
}

#[test]
fn forward_sbox_of_minus_one_is_minus_one() {
    let mut cs = Assembly::new();
    let top = FieldElement::from_limbs(MODULUS_MINUS_ONE).unwrap();
    let mut state = allocate_vector(&mut cs, &[top]).unwrap();
    QuinticSBox::<1>::new().apply(&mut cs, &mut state).unwrap();
    assert_eq!(state[0].value().limbs(), MODULUS_MINUS_ONE);
}

#[test]
fn inverse_sbox_holds_the_inverse_of_five() {
    assert_eq!(QuinticInverseSBox::<3>::new().alpha_inv(), [
        0xcfe7f7a98ccccccd,
        0x535cb9d394945a0d,
        0x93736af8679aad17,
        0x26b6a528b427b354
    ]);
}

#[test]
fn inverse_sbox_finds_fifth_roots() {
    let mut cs = Assembly::new();
    let mut state = allocate_vector(&mut cs, &[fe(0), fe(32), fe(7)]).unwrap();
    QuinticInverseSBox::<3>::new().apply(&mut cs, &mut state).unwrap();
    assert_eq!(limbs_of(&state), [
        [0, 0, 0, 0],
        [2, 0, 0, 0],
        [0x2e48cb114b2888fd, 0x26314e6953d9ac34, 0x81516b5c868fe2ae, 0x05c83c6664891538]
    ]);
}

#[test]
fn inverse_sbox_undoes_forward_sbox() {
    let mut cs = Assembly::new();
    let rng = &mut thread_rng();
    let start = [fe(0), fe(12345), FieldElement::random(rng)];
    let mut state = allocate_vector(&mut cs, &start).unwrap();
    let before = limbs_of(&state);
    QuinticSBox::<3>::new().apply(&mut cs, &mut state).unwrap();
    assert_ne!(limbs_of(&state)[1], before[1]);
    QuinticInverseSBox::<3>::new().apply(&mut cs, &mut state).unwrap();
    assert_eq!(limbs_of(&state), before);
}

#[test]
fn forward_sbox_undoes_inverse_sbox() {
    let mut cs = Assembly::new();
    let rng = &mut thread_rng();
    let start = [fe(0), fe(12345), FieldElement::random(rng)];
    let mut state = allocate_vector(&mut cs, &start).unwrap();
    let before = limbs_of(&state);
    QuinticInverseSBox::<3>::new().apply(&mut cs, &mut state).unwrap();
    assert_ne!(limbs_of(&state)[1], before[1]);
    QuinticSBox::<3>::new().apply(&mut cs, &mut state).unwrap();
    assert_eq!(limbs_of(&state), before);
}

#[test]
fn sboxes_work_on_constants() {
    let mut cs = Assembly::new();
    let mut state = [Num::constant(&fe(2)), Num::one(), Num::zero()];
    QuinticSBox::<3>::new().apply(&mut cs, &mut state).unwrap();
    assert_eq!(limbs_of(&state), [[32, 0, 0, 0], [1, 0, 0, 0], [0, 0, 0, 0]]);
    QuinticInverseSBox::<3>::new().apply(&mut cs, &mut state).unwrap();
    assert_eq!(limbs_of(&state), [[2, 0, 0, 0], [1, 0, 0, 0], [0, 0, 0, 0]]);
}
