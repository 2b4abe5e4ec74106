use rescue_block_cipher::cipher_generator::mds::allocate_vector;
use rescue_block_cipher::cipher_generator::sboxes::{QuinticInverseSBox, QuinticSBox};
use rescue_block_cipher::circuit::{Assembly, Binding, Num};
use rescue_block_cipher::field::FieldElement;

fn fe(v: u64) -> FieldElement {
    FieldElement::from_u64(v)
}

fn assigned(cs: &Assembly) -> Vec<[u64; 4]> {
    cs.assignments().iter().map(|v| v.limbs()).collect()
}

#[test]
fn new_constraint_system_is_empty() {
    let cs = Assembly::new();
    assert_eq!(cs.assignments().len(), 0);
    assert_eq!(cs.gates(), 0);
}

#[test]
fn allocation_adds_a_variable_and_no_gate() {
    let mut cs = Assembly::new();
    let a = Num::allocate(&mut cs, &fe(6)).unwrap();
    let b = Num::allocate(&mut cs, &fe(7)).unwrap();
    assert_eq!(a.binding(), Binding::Aux(1));
    assert_eq!(b.binding(), Binding::Aux(2));
    assert_eq!(assigned(&cs), vec![[6, 0, 0, 0], [7, 0, 0, 0]]);
    assert_eq!(cs.gates(), 0);
}

#[test]
fn constants_are_bound_to_no_variable() {
    let mut cs = Assembly::new();
    let two = Num::constant(&fe(2));
    let three = Num::constant(&fe(3));
    assert_eq!(two.binding(), Binding::Constant);
    assert_eq!(Num::zero().binding(), Binding::Constant);
    let sum = two.add(&mut cs, &three).unwrap();
    let product = two.mul(&mut cs, &three).unwrap();
    let difference = three.sub(&mut cs, &two).unwrap();
    let inverse = two.inverse(&mut cs).unwrap();
    let quotient = three.div(&mut cs, &two).unwrap();
    for n in [sum, product, difference, inverse, quotient] {
        assert_eq!(n.binding(), Binding::Constant);
    }
    assert!(!Num::equals(&mut cs, &two, &three).unwrap());
    assert!(!two.is_zero(&mut cs).unwrap());
    two.enforce_equal(&mut cs, &Num::constant(&fe(2))).unwrap();
    assert_eq!(cs.assignments().len(), 0);
    assert_eq!(cs.gates(), 0);
}

#[test]
fn arithmetic_on_a_variable_adds_one_variable_and_one_gate() {
    let mut cs = Assembly::new();
    let a = Num::allocate(&mut cs, &fe(6)).unwrap();
    let b = Num::allocate(&mut cs, &fe(7)).unwrap();
    let sum = a.add(&mut cs, &b).unwrap();
    assert_eq!(sum.binding(), Binding::Aux(3));
    assert_eq!((cs.assignments().len(), cs.gates()), (3, 1));
    let product = a.mul(&mut cs, &Num::constant(&fe(5))).unwrap();
    assert_eq!(product.binding(), Binding::Aux(4));
    assert_eq!((cs.assignments().len(), cs.gates()), (4, 2));
    let difference = Num::constant(&fe(10)).sub(&mut cs, &a).unwrap();
    assert_eq!(difference.binding(), Binding::Aux(5));
    let doubled = a.add(&mut cs, &a).unwrap();
    assert_eq!(doubled.binding(), Binding::Aux(6));
    let inverse = sum.inverse(&mut cs).unwrap();
    assert_eq!(inverse.binding(), Binding::Aux(7));
    assert_eq!((cs.assignments().len(), cs.gates()), (7, 5));
    assert_eq!(assigned(&cs)[2..6], [[13, 0, 0, 0], [30, 0, 0, 0], [4, 0, 0, 0], [12, 0, 0, 0]]);
}

#[test]
fn division_adds_what_its_operands_ask_for() {
    let mut cs = Assembly::new();
    let a = Num::allocate(&mut cs, &fe(42)).unwrap();
    let b = Num::allocate(&mut cs, &fe(6)).unwrap();
    let q = a.div(&mut cs, &b).unwrap();
    assert_eq!(q.binding(), Binding::Aux(3));
    assert_eq!((cs.assignments().len(), cs.gates()), (3, 1));
    let by_constant = a.div(&mut cs, &Num::constant(&fe(6))).unwrap();
    assert_eq!(by_constant.binding(), Binding::Aux(4));
    assert_eq!((cs.assignments().len(), cs.gates()), (4, 2));
    // a constant over a variable: the inverse first, then the product
    let of_constant = Num::constant(&fe(42)).div(&mut cs, &b).unwrap();
    assert_eq!(of_constant.binding(), Binding::Aux(6));
    assert_eq!((cs.assignments().len(), cs.gates()), (6, 4));
    let values = assigned(&cs);
    assert_eq!(values[2], [7, 0, 0, 0]);
    assert_eq!(values[3], [7, 0, 0, 0]);
    assert_eq!(values[4], b.inverse(&mut cs).unwrap().value().limbs());
    assert_eq!(values[5], [7, 0, 0, 0]);
}

#[test]
fn tests_add_their_flag_and_helper() {
    let mut cs = Assembly::new();
    let a = Num::allocate(&mut cs, &fe(6)).unwrap();
    let zero = Num::allocate(&mut cs, &fe(0)).unwrap();
    assert!(!a.is_zero(&mut cs).unwrap());
    assert_eq!((cs.assignments().len(), cs.gates()), (4, 2));
    assert_eq!(assigned(&cs)[2], [0, 0, 0, 0]);
    assert!(zero.is_zero(&mut cs).unwrap());
    assert_eq!((cs.assignments().len(), cs.gates()), (6, 4));
    assert_eq!(assigned(&cs)[4..6], [[1, 0, 0, 0], [0, 0, 0, 0]]);
    // the variable less the constant, whichever comes first
    assert!(!Num::equals(&mut cs, &Num::constant(&fe(2)), &a).unwrap());
    assert_eq!((cs.assignments().len(), cs.gates()), (9, 7));
    assert_eq!(assigned(&cs)[6..8], [[4, 0, 0, 0], [0, 0, 0, 0]]);
    assert!(Num::equals(&mut cs, &a, &a).unwrap());
    assert_eq!((cs.assignments().len(), cs.gates()), (12, 10));
    assert_eq!(assigned(&cs)[9..12], [[0, 0, 0, 0], [1, 0, 0, 0], [0, 0, 0, 0]]);
}

#[test]
fn enforced_equality_adds_one_gate() {
    let mut cs = Assembly::new();
    let a = Num::allocate(&mut cs, &fe(9)).unwrap();
    let b = Num::allocate(&mut cs, &fe(9)).unwrap();
    a.enforce_equal(&mut cs, &b).unwrap();
    assert_eq!((cs.assignments().len(), cs.gates()), (2, 1));
    a.enforce_equal(&mut cs, &Num::constant(&fe(9))).unwrap();
    assert_eq!((cs.assignments().len(), cs.gates()), (2, 2));
    // one variable on both sides: nothing to enforce
    a.enforce_equal(&mut cs, &a).unwrap();
    assert_eq!((cs.assignments().len(), cs.gates()), (2, 2));
    // a violation adds nothing
    assert!(a.enforce_equal(&mut cs, &Num::constant(&fe(8))).is_err());
    assert_eq!((cs.assignments().len(), cs.gates()), (2, 2));
}

#[test]
fn vector_allocation_binds_every_entry_in_order() {
    let mut cs = Assembly::new();
    Num::allocate(&mut cs, &fe(100)).unwrap();
    let v = allocate_vector(&mut cs, &[fe(1), fe(2), fe(3)]).unwrap();
    assert_eq!([v[0].binding(), v[1].binding(), v[2].binding()], [
        Binding::Aux(2),
        Binding::Aux(3),
        Binding::Aux(4)
    ]);
    assert_eq!(assigned(&cs)[1..], [[1, 0, 0, 0], [2, 0, 0, 0], [3, 0, 0, 0]]);
    assert_eq!(cs.gates(), 0);
}

#[test]
fn forward_sbox_takes_four_gates_for_each_variable() {
    let mut cs = Assembly::new();
    let x = Num::allocate(&mut cs, &fe(2)).unwrap();
    let y = Num::allocate(&mut cs, &fe(3)).unwrap();
    let mut state = [x, Num::constant(&fe(5)), y];
    QuinticSBox::<3>::new().apply(&mut cs, &mut state).unwrap();
    assert_eq!((cs.assignments().len(), cs.gates()), (10, 8));
    assert_eq!(assigned(&cs)[2..], [
        [4, 0, 0, 0],
        [8, 0, 0, 0],
        [16, 0, 0, 0],
        [32, 0, 0, 0],
        [9, 0, 0, 0],
        [27, 0, 0, 0],
        [81, 0, 0, 0],
        [243, 0, 0, 0]
    ]);
    assert_eq!([state[0].binding(), state[1].binding(), state[2].binding()], [
        Binding::Aux(6),
        Binding::Constant,
        Binding::Aux(10)
    ]);
}

#[test]
fn inverse_sbox_takes_five_variables_and_five_gates_for_each_element() {
    let mut cs = Assembly::new();
    let x = Num::allocate(&mut cs, &fe(32)).unwrap();
    let mut state = [x, Num::constant(&fe(243)), Num::one()];
    QuinticInverseSBox::<3>::new().apply(&mut cs, &mut state).unwrap();
    assert_eq!((cs.assignments().len(), cs.gates()), (16, 15));
    assert_eq!(assigned(&cs)[1..11], [
        [2, 0, 0, 0],
        [4, 0, 0, 0],
        [8, 0, 0, 0],
        [16, 0, 0, 0],
        [32, 0, 0, 0],
        [3, 0, 0, 0],
        [9, 0, 0, 0],
        [27, 0, 0, 0],
        [81, 0, 0, 0],
        [243, 0, 0, 0]
    ]);
    assert_eq!([state[0].binding(), state[1].binding(), state[2].binding()], [
        Binding::Aux(2),
        Binding::Aux(7),
        Binding::Aux(12)
    ]);
}
