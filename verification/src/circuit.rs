//! The arithmetic circuit the cipher is synthesized into: the constraint
//! system, the numbers bound to its variables, and the gates that compute
//! with them.

use crate::errors::CipherError;
use crate::field::{fadd, finv, fmul, fsub, in_range, is_inverse, FieldElement};
use franklin_crypto::bellman::pairing::bn256::{Bn256, Fr, FrRepr};
use franklin_crypto::bellman::pairing::ff::PrimeField;
use franklin_crypto::bellman::plonk::better_better_cs::cs::{
    PlonkCsWidth4WithNextStepParams, TrivialAssembly, Width4MainGateWithDNext,
};
use franklin_crypto::bellman::plonk::cs::gates::Index;
use franklin_crypto::bellman::SynthesisError;
use franklin_crypto::plonk::circuit::allocated_num::Num as FNum;
use vstd::prelude::*;

verus! {

/// The constraint system that gates are added to, with the assignment of
/// every variable allocated so far.
#[verifier::external_body]
pub struct Assembly {
    inner: TrivialAssembly<Bn256, PlonkCsWidth4WithNextStepParams, Width4MainGateWithDNext>,
}

/// The values of the auxiliary variables of a constraint system, in the
/// order in which they were allocated. Variable `i`, counted from one, holds
/// the value at index `i - 1`.
pub uninterp spec fn variables(cs: Assembly) -> Seq<int>;

/// The number of gates that a constraint system holds.
pub uninterp spec fn gate_count(cs: Assembly) -> nat;

/// What the constraint system knows a number by: one of its variables, or a
/// constant.
#[verifier::external_body]
pub struct Wire {
    inner: FNum<Bn256>,
}

impl Clone for Wire {
    fn clone(&self) -> (r: Self)
        ensures
            r == *self,
    {
        *self
    }
}

impl Copy for Wire {

}

/// Which variable of the constraint system a number is bound to, if any.
/// Variables are counted from one in each of their two kinds.
#[derive(Clone, Copy, Debug, PartialEq, Eq)]
pub enum Binding {
    /// A constant, bound to no variable.
    Constant,
    /// The public input variable of this index.
    Input(usize),
    /// The auxiliary variable of this index.
    Aux(usize),
}

/// A field element that lives in the circuit: its value, the variable it is
/// bound to, and the wire that carries both in the constraint system.
///
/// Numbers are made by the gates of this module alone, and each gate
/// takes value and binding from the wire that it hands out, so the three
/// always agree.
#[derive(Clone, Copy)]
pub struct Num {
    value: FieldElement,
    binding: Binding,
    wire: Wire,
}

impl View for Num {
    type V = int;

    /// The value of the number. `bound` tells the variable that it is
    /// bound to; the wire holds that variable and that value and no more.
    closed spec fn view(&self) -> int {
        self.value@
    }
}

/// The constraint system `after` holds all that `before` held: the same
/// variables with the same values, perhaps followed by new ones, and no
/// fewer gates.
pub open spec fn grows(before: Assembly, after: Assembly) -> bool {
    &&& variables(before).len() <= variables(after).len()
    &&& forall|i: int|
        0 <= i < variables(before).len() ==> #[trigger] variables(before)[i] == variables(after)[i]
    &&& gate_count(before) <= gate_count(after)
}

/// The two constraint systems hold the same variables and as many gates.
pub open spec fn unchanged(before: Assembly, after: Assembly) -> bool {
    variables(after) == variables(before) && gate_count(after) == gate_count(before)
}

/// `n` is bound to auxiliary variable `index`, counted from one.
pub open spec fn bound_to(n: Num, index: nat) -> bool {
    n.bound() matches Binding::Aux(i) && i == index
}

/// Where `n` is bound to an auxiliary variable, it is one that the
/// constraint system holds, and it holds the value of `n`.
pub open spec fn known(n: Num, cs: Assembly) -> bool {
    n.bound() matches Binding::Aux(i) ==> 1 <= i <= variables(cs).len() && variables(cs)[i - 1]
        == n@
}

/// Every number of `state` is known to the constraint system.
pub open spec fn all_known(state: Seq<Num>, cs: Assembly) -> bool {
    forall|k: int| 0 <= k < state.len() ==> known(#[trigger] state[k], cs)
}

/// No number of `state` is a constant.
pub open spec fn all_variables(state: Seq<Num>) -> bool {
    forall|k: int| 0 <= k < state.len() ==> !((#[trigger] state[k]).bound() is Constant)
}

/// `after` is `before` with one gate more, whose result is the new variable
/// that `n` is bound to and that holds the value of `n`.
pub open spec fn one_gate(before: Assembly, after: Assembly, n: Num) -> bool {
    &&& variables(after) == variables(before).push(n@)
    &&& gate_count(after) == gate_count(before) + 1
    &&& bound_to(n, variables(before).len() + 1)
}

/// What an addition, a subtraction or a multiplication of `a` and `b` with
/// the result `n` does to the constraint system: nothing where both are
/// constants, whose result is a constant; else one gate with a new variable
/// for the result.
pub open spec fn binary_effect(before: Assembly, after: Assembly, a: Num, b: Num, n: Num) -> bool {
    if a.bound() is Constant && b.bound() is Constant {
        unchanged(before, after) && n.bound() is Constant
    } else {
        one_gate(before, after, n)
    }
}

/// What the inversion of `a` with the result `n` does to the constraint
/// system: nothing for a constant, else one gate with a new variable.
pub open spec fn inverse_effect(before: Assembly, after: Assembly, a: Num, n: Num) -> bool {
    if a.bound() is Constant {
        unchanged(before, after) && n.bound() is Constant
    } else {
        one_gate(before, after, n)
    }
}

/// What the division of `a` by `b` with the result `n` does to the
/// constraint system. A constant over a variable takes two gates and two
/// new variables, the first of them for the inverse of `b`.
pub open spec fn div_effect(before: Assembly, after: Assembly, a: Num, b: Num, n: Num) -> bool {
    if a.bound() is Constant && b.bound() is Constant {
        unchanged(before, after) && n.bound() is Constant
    } else if a.bound() is Constant {
        &&& variables(after) == variables(before).push(finv(b@)).push(n@)
        &&& gate_count(after) == gate_count(before) + 2
        &&& bound_to(n, variables(before).len() + 2)
    } else {
        one_gate(before, after, n)
    }
}

/// The value of the flag that a zero test allocates: one for zero.
pub open spec fn zero_flag(x: int) -> int {
    if x == 0 {
        1
    } else {
        0
    }
}

/// The value of the helper that a zero test allocates: the inverse of what
/// is tested, or zero for zero.
pub open spec fn zero_helper(x: int) -> int {
    if x == 0 {
        0
    } else {
        finv(x)
    }
}

/// What a zero test of `a` does to the constraint system: nothing for a
/// constant, else two new variables, flag and helper, and two gates.
pub open spec fn is_zero_effect(before: Assembly, after: Assembly, a: Num) -> bool {
    if a.bound() is Constant {
        unchanged(before, after)
    } else {
        &&& variables(after) == variables(before).push(zero_flag(a@)).push(zero_helper(a@))
        &&& gate_count(after) == gate_count(before) + 2
    }
}

/// The difference that an equality test of `a` and `b` allocates: the
/// variable less the constant where one is a constant.
pub open spec fn tested_difference(a: Num, b: Num) -> int {
    if a.bound() is Constant {
        fsub(b@, a@)
    } else {
        fsub(a@, b@)
    }
}

/// What an equality test of `a` and `b` does to the constraint system:
/// nothing for two constants, else three new variables, for the difference
/// and its zero test, and three gates.
pub open spec fn equals_effect(before: Assembly, after: Assembly, a: Num, b: Num) -> bool {
    if a.bound() is Constant && b.bound() is Constant {
        unchanged(before, after)
    } else {
        &&& variables(after) == variables(before).push(tested_difference(a, b)).push(
            zero_flag(tested_difference(a, b)),
        ).push(zero_helper(tested_difference(a, b)))
        &&& gate_count(after) == gate_count(before) + 3
    }
}

/// What enforcing the equality of `a` and `b` does to the constraint
/// system: one gate and no variable, and nothing where both are constants
/// or both are bound to one variable.
pub open spec fn enforce_effect(before: Assembly, after: Assembly, a: Num, b: Num) -> bool {
    if (a.bound() is Constant && b.bound() is Constant) || a.bound() == b.bound() {
        unchanged(before, after)
    } else {
        variables(after) == variables(before) && gate_count(after) == gate_count(before) + 1
    }
}

impl Assembly {
    /// An empty constraint system: no variable and no gate.
    pub fn new() -> (r: Assembly)
        ensures
            variables(r) == Seq::<int>::empty(),
            gate_count(r) == 0,
    {
        empty_assembly()
    }

    /// The values of the auxiliary variables, in the order of allocation.
    pub fn assignments(&self) -> (r: Vec<FieldElement>)
        ensures
            r@.len() == variables(*self).len(),
            forall|i: int| 0 <= i < r@.len() ==> (#[trigger] r@[i])@ == variables(*self)[i],
    {
        assigned_values(self)
    }

    /// The number of gates.
    pub fn gates(&self) -> (r: usize)
        ensures
            r == gate_count(*self),
    {
        gate_total(self)
    }
}

impl Num {
    /// The value is that of a canonical field element.
    #[verifier::type_invariant]
    pub closed spec fn well_formed(self) -> bool {
        self.value.canonical()
    }

    /// The variable that the number is bound to.
    pub closed spec fn bound(self) -> Binding {
        self.binding
    }

    /// A well-formed number denotes a value of the field.
    pub proof fn lemma_well_formed(self)
        requires
            self.well_formed(),
        ensures
            in_range(self@),
    {
        self.value.lemma_canonical();
    }

    /// The cleartext value of the number.
    pub fn value(&self) -> (r: FieldElement)
        ensures
            r@ == self@,
            in_range(self@),
    {
        proof {
            use_type_invariant(self);
            self.value.lemma_canonical();
        }
        self.value
    }

    /// The variable that the number is bound to.
    pub fn binding(&self) -> (r: Binding)
        ensures
            r == self.bound(),
    {
        self.binding
    }

    /// Allocates a new variable of the circuit that holds `value`, and
    /// gives the number bound to it. No gate is added.
    pub fn allocate(cs: &mut Assembly, value: &FieldElement) -> (r: Result<Num, CipherError>)
        ensures
            r is Ok,
            r matches Ok(n) ==> n@ == value@ && bound_to(n, variables(*old(cs)).len() + 1),
            variables(*final(cs)) == variables(*old(cs)).push(value@),
            gate_count(*final(cs)) == gate_count(*old(cs)),
            grows(*old(cs), *final(cs)),
    {
        proof {
            use_type_invariant(value);
        }
        match gate_alloc(cs, value) {
            Ok(n) => Ok(n),
            Err(e) => Err(CipherError::Backend(e)),
        }
    }

    /// The constant `value`, which is bound to no variable.
    pub fn constant(value: &FieldElement) -> (r: Num)
        ensures
            r@ == value@,
            r.bound() is Constant,
    {
        proof {
            use_type_invariant(value);
        }
        gate_constant(value)
    }

    /// The constant zero.
    pub fn zero() -> (r: Num)
        ensures
            r@ == 0,
            r.bound() is Constant,
    {
        Num::constant(&FieldElement::zero())
    }

    /// The constant one.
    pub fn one() -> (r: Num)
        ensures
            r@ == 1,
            r.bound() is Constant,
    {
        Num::constant(&FieldElement::one())
    }

    /// The sum of two numbers, constrained by an addition gate.
    pub fn add(&self, cs: &mut Assembly, other: &Num) -> (r: Result<Num, CipherError>)
        ensures
            r is Ok,
            r matches Ok(n) ==> n@ == fadd(self@, other@) && binary_effect(
                *old(cs),
                *final(cs),
                *self,
                *other,
                n,
            ),
            grows(*old(cs), *final(cs)),
    {
        match gate_add(cs, self, other) {
            Ok(n) => Ok(n),
            Err(e) => Err(CipherError::Backend(e)),
        }
    }

    /// The difference of two numbers, constrained by an addition gate.
    pub fn sub(&self, cs: &mut Assembly, other: &Num) -> (r: Result<Num, CipherError>)
        ensures
            r is Ok,
            r matches Ok(n) ==> n@ == fsub(self@, other@) && binary_effect(
                *old(cs),
                *final(cs),
                *self,
                *other,
                n,
            ),
            grows(*old(cs), *final(cs)),
    {
        match gate_sub(cs, self, other) {
            Ok(n) => Ok(n),
            Err(e) => Err(CipherError::Backend(e)),
        }
    }

    /// The product of two numbers, constrained by a multiplication gate.
    pub fn mul(&self, cs: &mut Assembly, other: &Num) -> (r: Result<Num, CipherError>)
        ensures
            r is Ok,
            r matches Ok(n) ==> n@ == fmul(self@, other@) && binary_effect(
                *old(cs),
                *final(cs),
                *self,
                *other,
                n,
            ),
            grows(*old(cs), *final(cs)),
    {
        match gate_mul(cs, self, other) {
            Ok(n) => Ok(n),
            Err(e) => Err(CipherError::Backend(e)),
        }
    }

    /// The multiplicative inverse of a nonzero number.
    pub fn inverse(&self, cs: &mut Assembly) -> (r: Result<Num, CipherError>)
        requires
            self@ != 0,
        ensures
            r is Ok,
            r matches Ok(n) ==> is_inverse(n@, self@) && inverse_effect(
                *old(cs),
                *final(cs),
                *self,
                n,
            ),
            grows(*old(cs), *final(cs)),
    {
        match gate_inverse(cs, self) {
            Ok(n) => {
                proof {
                    use_type_invariant(&n);
                    n.value.lemma_canonical();
                }
                Ok(n)
            },
            Err(e) => Err(CipherError::Backend(e)),
        }
    }

    /// The quotient of this number by a nonzero one: this number times the
    /// inverse of the divisor.
    pub fn div(&self, cs: &mut Assembly, other: &Num) -> (r: Result<Num, CipherError>)
        requires
            other@ != 0,
        ensures
            r is Ok,
            r matches Ok(n) ==> is_inverse(finv(other@), other@) && n@ == fmul(self@, finv(other@))
                && div_effect(*old(cs), *final(cs), *self, *other, n),
            grows(*old(cs), *final(cs)),
    {
        match gate_div(cs, self, other) {
            Ok(n) => Ok(n),
            Err(e) => Err(CipherError::Backend(e)),
        }
    }

    /// Whether two numbers are equal, decided in the circuit.
    pub fn equals(cs: &mut Assembly, a: &Num, b: &Num) -> (r: Result<bool, CipherError>)
        ensures
            r is Ok,
            r matches Ok(e) ==> e == (a@ == b@),
            equals_effect(*old(cs), *final(cs), *a, *b),
            grows(*old(cs), *final(cs)),
    {
        match gate_equals(cs, a, b) {
            Ok(e) => Ok(e),
            Err(e) => Err(CipherError::Backend(e)),
        }
    }

    /// Whether the number is zero, decided in the circuit.
    pub fn is_zero(&self, cs: &mut Assembly) -> (r: Result<bool, CipherError>)
        ensures
            r is Ok,
            r matches Ok(z) ==> z == (self@ == 0),
            is_zero_effect(*old(cs), *final(cs), *self),
            grows(*old(cs), *final(cs)),
    {
        match gate_is_zero(cs, self) {
            Ok(z) => Ok(z),
            Err(e) => Err(CipherError::Backend(e)),
        }
    }

    /// Constrains two numbers to be equal. Where their values differ no
    /// assignment can satisfy the circuit: that gives `ConstraintViolation`,
    /// and nothing is added.
    pub fn enforce_equal(&self, cs: &mut Assembly, other: &Num) -> (r: Result<(), CipherError>)
        ensures
            self@ == other@ <==> r is Ok,
            r is Ok ==> enforce_effect(*old(cs), *final(cs), *self, *other),
            r matches Err(e) ==> e is ConstraintViolation && unchanged(*old(cs), *final(cs)),
            grows(*old(cs), *final(cs)),
    {
        if !self.value.equals(&other.value) {
            return Err(CipherError::ConstraintViolation);
        }
        match gate_enforce_equal(cs, self, other) {
            Ok(()) => Ok(()),
            Err(e) => Err(CipherError::Backend(e)),
        }
    }
}

/// `Assembly::new` in testing mode, which keeps the value of every
/// variable: it starts without variables and without gates.
#[verifier::external_body]
pub(crate) fn empty_assembly() -> (r: Assembly)
    ensures
        variables(r) == Seq::<int>::empty(),
        gate_count(r) == 0,
{
    Assembly { inner: TrivialAssembly::new() }
}

/// The field `aux_assingments` of the assembly, each value taken out by
/// `PrimeField::into_repr`.
#[verifier::external_body]
pub(crate) fn assigned_values(cs: &Assembly) -> (r: Vec<FieldElement>)
    ensures
        r@.len() == variables(*cs).len(),
        forall|i: int| 0 <= i < r@.len() ==> (#[trigger] r@[i])@ == variables(*cs)[i],
{
    cs.inner.aux_assingments.iter().map(|v| FieldElement { limbs: v.into_repr().0 }).collect()
}

/// The field `num_aux_gates` of the assembly.
#[verifier::external_body]
pub(crate) fn gate_total(cs: &Assembly) -> (r: usize)
    ensures
        r == gate_count(*cs),
{
    cs.inner.num_aux_gates
}

/// `Num::alloc` with a known witness, which a canonical element brings in
/// through `PrimeField::from_repr` without fail: one new variable that holds
/// `value`, and no gate. With every value known the call does not fail.
#[verifier::external_body]
pub(crate) fn gate_alloc(cs: &mut Assembly, value: &FieldElement) -> (r: Result<
    Num,
    SynthesisError,
>)
    requires
        value.canonical(),
    ensures
        r is Ok,
        r matches Ok(n) ==> n@ == value@ && bound_to(n, variables(*old(cs)).len() + 1),
        variables(*final(cs)) == variables(*old(cs)).push(value@),
        gate_count(*final(cs)) == gate_count(*old(cs)),
        grows(*old(cs), *final(cs)),
{
    let witness = Fr::from_repr(FrRepr(value.limbs)).unwrap();
    let inner = FNum::alloc(
        &mut cs.inner,
        Some(witness),
    )?;
    let known = inner.get_value().ok_or(SynthesisError::AssignmentMissing)?;
    let value = FieldElement { limbs: known.into_repr().0 };
    let binding = match inner {
        FNum::Constant(_) => Binding::Constant,
        FNum::Variable(v) => match v.get_variable().get_unchecked() {
            Index::Aux(i) => Binding::Aux(i),
            Index::Input(i) => Binding::Input(i),
        },
    };
    Ok(Num { value, binding, wire: Wire { inner } })
}

/// The variant `Num::Constant` around `value`, which a canonical element
/// brings in through `PrimeField::from_repr` without fail.
#[verifier::external_body]
pub(crate) fn gate_constant(value: &FieldElement) -> (r: Num)
    requires
        value.canonical(),
    ensures
        r@ == value@,
        r.bound() is Constant,
{
    let constant = Fr::from_repr(FrRepr(value.limbs)).unwrap();
    let inner = FNum::Constant(constant);
    Num { value: *value, binding: Binding::Constant, wire: Wire { inner } }
}

/// `Num::add`: the value of the result is the field sum of the operands'
/// values. Two constants give a constant and add nothing; else the sum is
/// a new variable, tied to the operands by one gate.
#[verifier::external_body]
pub(crate) fn gate_add(cs: &mut Assembly, a: &Num, b: &Num) -> (r: Result<Num, SynthesisError>)
    ensures
        r is Ok,
        r matches Ok(n) ==> n@ == fadd(a@, b@) && binary_effect(*old(cs), *final(cs), *a, *b, n),
        grows(*old(cs), *final(cs)),
{
    let inner = a.wire.inner.add(&mut cs.inner, &b.wire.inner)?;
    let known = inner.get_value().ok_or(SynthesisError::AssignmentMissing)?;
    let value = FieldElement { limbs: known.into_repr().0 };
    let binding = match inner {
        FNum::Constant(_) => Binding::Constant,
        FNum::Variable(v) => match v.get_variable().get_unchecked() {
            Index::Aux(i) => Binding::Aux(i),
            Index::Input(i) => Binding::Input(i),
        },
    };
    Ok(Num { value, binding, wire: Wire { inner } })
}

/// `Num::sub`: the value of the result is the field difference of the
/// operands' values. Two constants give a constant and add nothing; else
/// the difference is a new variable, tied to the operands by one gate.
#[verifier::external_body]
pub(crate) fn gate_sub(cs: &mut Assembly, a: &Num, b: &Num) -> (r: Result<Num, SynthesisError>)
    ensures
        r is Ok,
        r matches Ok(n) ==> n@ == fsub(a@, b@) && binary_effect(*old(cs), *final(cs), *a, *b, n),
        grows(*old(cs), *final(cs)),
{
    let inner = a.wire.inner.sub(&mut cs.inner, &b.wire.inner)?;
    let known = inner.get_value().ok_or(SynthesisError::AssignmentMissing)?;
    let value = FieldElement { limbs: known.into_repr().0 };
    let binding = match inner {
        FNum::Constant(_) => Binding::Constant,
        FNum::Variable(v) => match v.get_variable().get_unchecked() {
            Index::Aux(i) => Binding::Aux(i),
            Index::Input(i) => Binding::Input(i),
        },
    };
    Ok(Num { value, binding, wire: Wire { inner } })
}

/// `Num::mul`: the value of the result is the field product of the
/// operands' values. Two constants give a constant and add nothing; else
/// the product is a new variable, tied to the operands by one gate.
#[verifier::external_body]
pub(crate) fn gate_mul(cs: &mut Assembly, a: &Num, b: &Num) -> (r: Result<Num, SynthesisError>)
    ensures
        r is Ok,
        r matches Ok(n) ==> n@ == fmul(a@, b@) && binary_effect(*old(cs), *final(cs), *a, *b, n),
        grows(*old(cs), *final(cs)),
{
    let inner = a.wire.inner.mul(&mut cs.inner, &b.wire.inner)?;
    let known = inner.get_value().ok_or(SynthesisError::AssignmentMissing)?;
    let value = FieldElement { limbs: known.into_repr().0 };
    let binding = match inner {
        FNum::Constant(_) => Binding::Constant,
        FNum::Variable(v) => match v.get_variable().get_unchecked() {
            Index::Aux(i) => Binding::Aux(i),
            Index::Input(i) => Binding::Input(i),
        },
    };
    Ok(Num { value, binding, wire: Wire { inner } })
}

/// `Num::inverse`, which panics on the constant zero and fails on a variable
/// that holds zero: the value of the result times the operand's value is
/// one. A constant gives a constant and adds nothing; a variable gives a
/// new variable, tied to it by one gate.
#[verifier::external_body]
pub(crate) fn gate_inverse(cs: &mut Assembly, a: &Num) -> (r: Result<Num, SynthesisError>)
    requires
        a@ != 0,
    ensures
        r is Ok,
        r matches Ok(n) ==> fmul(n@, a@) == 1 && inverse_effect(*old(cs), *final(cs), *a, n),
        grows(*old(cs), *final(cs)),
{
    let inner = a.wire.inner.inverse(&mut cs.inner)?;
    let known = inner.get_value().ok_or(SynthesisError::AssignmentMissing)?;
    let value = FieldElement { limbs: known.into_repr().0 };
    let binding = match inner {
        FNum::Constant(_) => Binding::Constant,
        FNum::Variable(v) => match v.get_variable().get_unchecked() {
            Index::Aux(i) => Binding::Aux(i),
            Index::Input(i) => Binding::Input(i),
        },
    };
    Ok(Num { value, binding, wire: Wire { inner } })
}

/// `Num::div`, which panics on a constant zero divisor and fails on a
/// variable that holds zero: the value of the result is the dividend's value
/// times the inverse that `Field::inverse` finds for the divisor's value.
/// Two constants add nothing; a constant over a variable adds the inverse
/// and the product, each a new variable with its gate; else the quotient is
/// one new variable with one gate.
#[verifier::external_body]
pub(crate) fn gate_div(cs: &mut Assembly, a: &Num, b: &Num) -> (r: Result<Num, SynthesisError>)
    requires
        b@ != 0,
    ensures
        r is Ok,
        r matches Ok(n) ==> is_inverse(finv(b@), b@) && n@ == fmul(a@, finv(b@)) && div_effect(
            *old(cs),
            *final(cs),
            *a,
            *b,
            n,
        ),
        grows(*old(cs), *final(cs)),
{
    let inner = a.wire.inner.div(&mut cs.inner, &b.wire.inner)?;
    let known = inner.get_value().ok_or(SynthesisError::AssignmentMissing)?;
    let value = FieldElement { limbs: known.into_repr().0 };
    let binding = match inner {
        FNum::Constant(_) => Binding::Constant,
        FNum::Variable(v) => match v.get_variable().get_unchecked() {
            Index::Aux(i) => Binding::Aux(i),
            Index::Input(i) => Binding::Input(i),
        },
    };
    Ok(Num { value, binding, wire: Wire { inner } })
}

/// `Num::equals`, read through `Boolean::get_value`: whether the operands
/// hold the same value. Two constants add nothing; else the difference, a
/// flag and a helper become new variables, with three gates.
#[verifier::external_body]
pub(crate) fn gate_equals(cs: &mut Assembly, a: &Num, b: &Num) -> (r: Result<
    bool,
    SynthesisError,
>)
    ensures
        r is Ok,
        r matches Ok(e) ==> e == (a@ == b@),
        equals_effect(*old(cs), *final(cs), *a, *b),
        grows(*old(cs), *final(cs)),
{
    let flag = FNum::equals(
        &mut cs.inner,
        &a.wire.inner,
        &b.wire.inner,
    )?;
    flag.get_value().ok_or(SynthesisError::AssignmentMissing)
}

/// `Num::is_zero`, read through `Boolean::get_value`: whether the operand
/// holds zero. A constant adds nothing; for a variable a flag and a helper
/// become new variables, with two gates.
#[verifier::external_body]
pub(crate) fn gate_is_zero(cs: &mut Assembly, a: &Num) -> (r: Result<bool, SynthesisError>)
    ensures
        r is Ok,
        r matches Ok(z) ==> z == (a@ == 0),
        is_zero_effect(*old(cs), *final(cs), *a),
        grows(*old(cs), *final(cs)),
{
    let flag = a.wire.inner.is_zero(&mut cs.inner)?;
    flag.get_value().ok_or(SynthesisError::AssignmentMissing)
}

/// `Num::enforce_equal`, which panics where both values are known and
/// differ: one gate and no variable, and nothing at all where both operands
/// are constants or are bound to one variable.
#[verifier::external_body]
pub(crate) fn gate_enforce_equal(cs: &mut Assembly, a: &Num, b: &Num) -> (r: Result<
    (),
    SynthesisError,
>)
    requires
        a@ == b@,
    ensures
        r is Ok,
        enforce_effect(*old(cs), *final(cs), *a, *b),
        grows(*old(cs), *final(cs)),
{
    a.wire.inner.enforce_equal(&mut cs.inner, &b.wire.inner)
}

} // verus!
