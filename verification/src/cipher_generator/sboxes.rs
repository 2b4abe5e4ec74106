//! The nonlinear layer of the cipher: raising to the fifth power, and the
//! map that undoes it, raising to the inverse of five modulo the order of
//! the multiplicative group.

use crate::algebra::{
    lemma_fmul_assoc, lemma_fmul_one, lemma_fmul_square, lemma_fpow_add, lemma_fpow_mul,
    lemma_fpow_one, lemma_modulus_bounds,
};
use crate::cipher_generator::exponent::{divide_limbs, inv_mod, limbs_bound, mul_add_limbs};
use crate::cipher_generator::mds::values;
use crate::cipher_generator::sbox_laws::lemma_sbox_inverse_law;
use crate::circuit::{
    all_known, all_variables, bound_to, gate_count, grows, known, unchanged, variables, Assembly,
    Num,
};
use crate::errors::CipherError;
use crate::field::{fmul, fpow, limbs_value, modulus, modulus_limbs, FieldElement};
use vstd::arithmetic::div_mod::{
    lemma_fundamental_div_mod, lemma_fundamental_div_mod_converse, lemma_small_mod,
};
use vstd::prelude::*;

verus! {

/// The exponent of the forward S-box.
pub const ALPHA: u64 = 5;

/// The order of the multiplicative group of the field.
pub open spec fn group_order() -> int {
    modulus() - 1
}

/// `e` undoes the exponent `alpha`: it is below the group order, and
/// `alpha * e` leaves the remainder one when divided by the group order.
pub open spec fn inverts_exponent(e: int, alpha: int) -> bool {
    0 <= e < group_order() && (alpha * e) % group_order() == 1
}

/// The forward S-box on a value: its fifth power.
pub open spec fn sbox(v: int) -> int {
    fpow(v, 5)
}

/// The forward S-box on every value of a state.
pub open spec fn sbox_all(s: Seq<int>) -> Seq<int> {
    Seq::new(s.len(), |i: int| sbox(s[i]))
}

/// The inverse S-box with exponent `e` on every value of a state.
pub open spec fn inverse_sbox_all(s: Seq<int>, e: nat) -> Seq<int> {
    Seq::new(s.len(), |i: int| fpow(s[i], e))
}

/// The exponent that undoes `alpha`, as four little-endian limbs, where
/// there is one: where `alpha` and the group order have no common divisor.
pub fn compute_inverse_alpha(alpha: u64) -> (r: Option<[u64; 4]>)
    ensures
        r matches Some(e) ==> inverts_exponent(limbs_value(e@), alpha as int),
        r is None ==> forall|e: int| !inverts_exponent(e, alpha as int),
{
    let m = modulus_limbs();
    proof {
        lemma_modulus_bounds();
    }
    assert(m[0] >= 1);
    let g: [u64; 4] = [m[0] - 1, m[1], m[2], m[3]];
    let ghost order = group_order();
    assert(limbs_value(g@) == order);
    if alpha == 0 {
        proof {
            assert forall|e: int| !inverts_exponent(e, alpha as int) by {
                assert(0 * e == 0) by (nonlinear_arith);
                lemma_small_mod(0, order as nat);
            }
        }
        return None;
    }
    if alpha == 1 {
        proof {
            assert(1 * 1 == 1) by (nonlinear_arith);
            lemma_small_mod(1, order as nat);
        }
        return Some([1, 0, 0, 0]);
    }
    let (q, rem) = divide_limbs(&g, alpha);
    let ghost quotient = limbs_value(q@);
    match inv_mod(rem, alpha) {
        None => {
            proof {
                assert forall|e: int| !inverts_exponent(e, alpha as int) by {
                    if inverts_exponent(e, alpha as int) {
                        let n = (alpha * e) / order;
                        lemma_fundamental_div_mod(alpha * e, order);
                        assert((-n) * rem == alpha * (n * quotient - e) + 1) by (nonlinear_arith)
                            requires
                                alpha * e == order * n + 1,
                                order == quotient * alpha + rem,
                        ;
                        lemma_fundamental_div_mod_converse(
                            (-n) * rem,
                            alpha as int,
                            n * quotient - e,
                            1,
                        );
                        assert(((-n) * rem) % (alpha as int) == 1);
                    }
                }
            }
            None
        },
        Some(t) => {
            proof {
                if t == 0 {
                    assert(0 * rem == 0) by (nonlinear_arith);
                    lemma_small_mod(0, alpha as nat);
                }
            }
            let k: u64 = alpha - t;
            assert(k * rem <= 0xffff_ffff_ffff_ffffint * 0xffff_ffff_ffff_ffffint)
                by (nonlinear_arith)
                requires
                    0 <= k <= 0xffff_ffff_ffff_ffffint,
                    0 <= rem <= 0xffff_ffff_ffff_ffffint,
            ;
            let num: u128 = (k as u128) * (rem as u128) + 1;
            let c: u128 = num / (alpha as u128);
            let ghost s = (t * rem) / (alpha as int);
            proof {
                lemma_fundamental_div_mod(t * rem, alpha as int);
                assert(num == alpha * (rem - s)) by (nonlinear_arith)
                    requires
                        num == k * rem + 1,
                        k == alpha - t,
                        t * rem == alpha * s + 1,
                ;
                assert(num == (rem - s) * alpha + 0) by (nonlinear_arith)
                    requires
                        num == alpha * (rem - s),
                ;
                lemma_fundamental_div_mod_converse(num as int, alpha as int, rem - s, 0);
                assert(t * rem >= 0) by (nonlinear_arith)
                    requires
                        t >= 0,
                        rem >= 0,
                ;
                assert(s >= 0) by (nonlinear_arith)
                    requires
                        alpha * s + 1 >= 0,
                        alpha >= 2,
                ;
            }
            let (e, carry) = mul_add_limbs(&q, k, c as u64);
            proof {
                let total = quotient * k + c;
                assert(alpha * total == k * order + 1) by (nonlinear_arith)
                    requires
                        total == quotient * k + c,
                        order == quotient * alpha + rem,
                        alpha * c == k * rem + 1,
                ;
                assert(total < order) by (nonlinear_arith)
                    requires
                        alpha * total == k * order + 1,
                        1 <= k < alpha,
                        order > 1,
                ;
                assert(total >= 0) by (nonlinear_arith)
                    requires
                        total == quotient * k + c,
                        quotient >= 0,
                        k >= 0,
                        c >= 0,
                ;
                assert(carry == 0) by (nonlinear_arith)
                    requires
                        limbs_value(e@) + carry * limbs_bound() == total,
                        limbs_value(e@) >= 0,
                        total < limbs_bound(),
                        carry >= 0,
                        limbs_bound() > 0,
                ;
                assert(alpha * total == k * order + 1);
                lemma_fundamental_div_mod_converse(alpha * total, order, k as int, 1);
            }
            Some(e)
        },
    }
}

/// The value of the limbs from index `n` up, with limb `n` as the least
/// significant.
pub open spec fn high_value(l: Seq<u64>, n: int) -> int
    decreases 4 - n,
{
    if n >= 4 {
        0
    } else {
        (l[n] as int) + 0x1_0000_0000_0000_0000int * high_value(l, n + 1)
    }
}

/// One limb of a square-and-multiply exponentiation, from its most
/// significant bit down: `acc` raised to 2^64, times `base` raised to
/// `limb`.
fn pow_limb(acc: &FieldElement, base: &FieldElement, limb: u64) -> (r: FieldElement)
    ensures
        r@ == fmul(fpow(acc@, 0x1_0000_0000_0000_0000nat), fpow(base@, limb as nat)),
{
    let mut cur: FieldElement = *acc;
    let mut j: u32 = 64;
    let ghost mut weight: nat = 1;
    let ghost mut seen: nat = 0;
    proof {
        use_type_invariant(acc);
        acc.lemma_canonical();
        lemma_fpow_one(acc@);
        lemma_fmul_one(acc@);
        vstd::arithmetic::power2::lemma2_to64();
    }
    while j > 0
        invariant
            j <= 64,
            weight == vstd::arithmetic::power2::pow2((64 - j) as nat),
            j == 64 ==> seen == 0,
            j < 64 ==> seen == (limb >> j),
            cur@ == fmul(fpow(acc@, weight), fpow(base@, seen)),
        decreases j,
    {
        j -= 1;
        let bit: u64 = (limb >> j) & 1;
        let squared = cur.mul(&cur);
        proof {
            let next: nat = (limb >> j) as nat;
            if j == 63 {
                assert((limb >> 63u32) == (limb >> 63u32) & 1) by (bit_vector);
            } else {
                let up: u32 = (j + 1) as u32;
                assert((limb >> j) == 2 * (limb >> up) + ((limb >> j) & 1)) by (bit_vector)
                    requires
                        j < 63,
                        up == j + 1,
                ;
            }
            assert(bit == 0 || bit == 1) by (bit_vector)
                requires
                    bit == (limb >> j) & 1,
            ;
            assert(next == 2 * seen + bit);
            vstd::arithmetic::power2::lemma_pow2_unfold((64 - j) as nat);
            // squaring doubles both exponents
            lemma_fmul_square(fpow(acc@, weight), fpow(base@, seen));
            lemma_fpow_add(acc@, weight, weight);
            lemma_fpow_add(base@, seen, seen);
            assert(squared@ == fmul(fpow(acc@, 2 * weight), fpow(base@, 2 * seen)));
            if bit == 1 {
                lemma_fmul_assoc(fpow(acc@, 2 * weight), fpow(base@, 2 * seen), base@);
            }
            weight = 2 * weight;
            seen = next;
        }
        if bit == 1 {
            cur = squared.mul(base);
        } else {
            cur = squared;
        }
    }
    proof {
        vstd::arithmetic::power2::lemma2_to64();
        assert(limb >> 0u32 == limb) by (bit_vector);
    }
    cur
}

/// `base` raised to the power that the limbs of `power` stand for, by
/// square and multiply from the most significant bit down.
pub fn big_pow(base: &FieldElement, power: &[u64; 4]) -> (r: FieldElement)
    ensures
        r@ == fpow(base@, limbs_value(power@) as nat),
{
    let mut acc = FieldElement::one();
    let mut n: usize = 4;
    while n > 0
        invariant
            n <= 4,
            acc@ == fpow(base@, high_value(power@, n as int) as nat),
            high_value(power@, n as int) >= 0,
        decreases n,
    {
        n -= 1;
        let next = pow_limb(&acc, base, power[n]);
        proof {
            let h = high_value(power@, n + 1) as nat;
            let r = 0x1_0000_0000_0000_0000nat;
            lemma_fpow_mul(base@, h, r);
            lemma_fpow_add(base@, h * r, power[n as int] as nat);
            assert(h * r >= 0) by (nonlinear_arith)
                requires
                    h >= 0,
                    r >= 0,
            ;
            assert(h * r == 0x1_0000_0000_0000_0000int * high_value(power@, n + 1))
                by (nonlinear_arith)
                requires
                    h == high_value(power@, n + 1),
                    r == 0x1_0000_0000_0000_0000int,
            ;
        }
        acc = next;
    }
    proof {
        reveal_with_fuel(high_value, 5);
        assert(high_value(power@, 0) == limbs_value(power@)) by (nonlinear_arith)
            requires
                high_value(power@, 0) == (power@[0] as int) + 0x1_0000_0000_0000_0000int * ((
                power@[1] as int) + 0x1_0000_0000_0000_0000int * ((power@[2] as int)
                    + 0x1_0000_0000_0000_0000int * ((power@[3] as int)
                    + 0x1_0000_0000_0000_0000int * 0))),
                limbs_value(power@) == (power@[0] as int) + (power@[1] as int)
                    * 0x1_0000_0000_0000_0000int + (power@[2] as int)
                    * 0x1_0000_0000_0000_0000_0000_0000_0000_0000int + (power@[3] as int)
                    * 0x1_0000_0000_0000_0000_0000_0000_0000_0000_0000_0000_0000_0000int,
        ;
    }
    acc
}

/// The forward S-box: every element of the state raised to the fifth
/// power.
#[derive(Clone, Copy)]
pub struct QuinticSBox<const SIZE: usize> {}

impl<const SIZE: usize> QuinticSBox<SIZE> {
    /// The forward S-box for a state of `SIZE` elements.
    pub fn new() -> Self {
        QuinticSBox {  }
    }

    /// Replaces every element of the state by its fifth power.
    ///
    /// A constant becomes a constant and adds nothing to the constraint
    /// system. A variable takes four multiplication gates, whose results,
    /// the powers from the second to the fifth, are new variables; the
    /// element becomes the last of them.
    pub fn apply(&self, cs: &mut Assembly, elements: &mut [Num; SIZE]) -> (r: Result<
        (),
        CipherError,
    >)
        ensures
            r is Ok,
            values(*final(elements)) == sbox_all(values(*old(elements))),
            forall|k: int|
                0 <= k < SIZE ==> ((#[trigger] final(elements)[k]).bound() is Constant <==> old(
                    elements,
                )[k].bound() is Constant),
            all_known(final(elements)@, *final(cs)),
            variables(*final(cs)) == variables(*old(cs)) + sbox_allocations(
                old(elements)@,
                SIZE as nat,
            ),
            gate_count(*final(cs)) == gate_count(*old(cs)) + 4 * variables_among(
                old(elements)@,
                SIZE as nat,
            ),
            grows(*old(cs), *final(cs)),
    {
        let ghost before = *elements;
        let mut i: usize = 0;
        while i < SIZE
            invariant
                grows(*old(cs), *cs),
                i <= SIZE,
                before == *old(elements),
                forall|k: int| 0 <= k < i ==> (#[trigger] elements[k])@ == sbox(before[k]@),
                forall|k: int|
                    0 <= k < i ==> ((#[trigger] elements[k]).bound() is Constant
                        <==> before[k].bound() is Constant),
                forall|k: int| i <= k < SIZE ==> elements[k] == before[k],
                forall|k: int| 0 <= k < i ==> known(#[trigger] elements[k], *cs),
                variables(*cs) == variables(*old(cs)) + sbox_allocations(before@, i as nat),
                gate_count(*cs) == gate_count(*old(cs)) + 4 * variables_among(before@, i as nat),
            decreases SIZE - i,
        {
            let element: Num = elements[i];
            let result = fifth_power(cs, &element)?;
            proof {
                let so_far = sbox_allocations(before@, i as nat);
                assert(before@[i as int] == element);
                if !(element.bound() is Constant) {
                    assert(variables(*cs) =~= variables(*old(cs)) + (so_far + powers(element@)));
                }
            }
            elements[i] = result;
            i += 1;
        }
        assert(values(*elements) =~= sbox_all(values(before)));
        Ok(())
    }
}

/// The powers that raising `x` to the fifth power by four multiplications
/// goes through: the second, the third, the fourth and the fifth.
pub open spec fn powers(x: int) -> Seq<int> {
    seq![fpow(x, 2), fpow(x, 3), fpow(x, 4), fpow(x, 5)]
}

/// The values of the variables that the forward S-box allocates for the
/// first `k` elements of a state: the powers of each that is a variable.
pub open spec fn sbox_allocations(state: Seq<Num>, k: nat) -> Seq<int>
    decreases k,
{
    if k == 0 {
        Seq::empty()
    } else if state[k - 1].bound() is Constant {
        sbox_allocations(state, (k - 1) as nat)
    } else {
        sbox_allocations(state, (k - 1) as nat) + powers(state[k - 1]@)
    }
}

/// How many of the first `k` elements of a state are variables.
pub open spec fn variables_among(state: Seq<Num>, k: nat) -> nat
    decreases k,
{
    if k == 0 {
        0
    } else if state[k - 1].bound() is Constant {
        variables_among(state, (k - 1) as nat)
    } else {
        variables_among(state, (k - 1) as nat) + 1
    }
}

/// What raising `element` to the fifth power with the result `n` does to
/// the constraint system: nothing for a constant, whose power is a
/// constant; for a variable four gates, with a new variable for each of its
/// powers from the second to the fifth.
pub open spec fn fifth_power_effect(before: Assembly, after: Assembly, element: Num, n: Num)
    -> bool {
    if element.bound() is Constant {
        unchanged(before, after) && n.bound() is Constant
    } else {
        &&& variables(after) == variables(before) + powers(element@)
        &&& gate_count(after) == gate_count(before) + 4
        &&& bound_to(n, variables(before).len() + 4)
    }
}

/// The fifth power of a number, by four multiplications by the number.
fn fifth_power(cs: &mut Assembly, element: &Num) -> (r: Result<Num, CipherError>)
    ensures
        r is Ok,
        r matches Ok(n) ==> n@ == sbox(element@) && fifth_power_effect(
            *old(cs),
            *final(cs),
            *element,
            n,
        ),
        grows(*old(cs), *final(cs)),
{
    let square = element.mul(cs, element)?;
    let cube = square.mul(cs, element)?;
    let fourth = cube.mul(cs, element)?;
    let fifth = fourth.mul(cs, element)?;
    proof {
        use_type_invariant(element);
        element.lemma_well_formed();
        reveal_with_fuel(fpow, 6);
        lemma_fmul_one(element@);
        if !(element.bound() is Constant) {
            assert(variables(*cs) =~= variables(*old(cs)) + powers(element@));
        }
    }
    Ok(fifth)
}

/// Five has an inverse modulo the group order.
pub proof fn lemma_alpha_is_invertible()
    ensures
        exists|e: int| inverts_exponent(e, ALPHA as int),
{
    let e = 17510594297471420177797124596205820070838691520332827474958563349260646796493int;
    assert(5 * e == 4 * group_order() + 1);
    lemma_fundamental_div_mod_converse(5 * e, group_order(), 4, 1);
    assert(inverts_exponent(e, 5));
}

/// The inverse S-box: every element of the state raised to the power that
/// undoes the fifth power. The exponent is computed once, when the S-box is
/// made.
#[derive(Clone, Copy)]
pub struct QuinticInverseSBox<const SIZE: usize> {
    alpha_inv: [u64; 4],
}

impl<const SIZE: usize> QuinticInverseSBox<SIZE> {
    /// The limbs stand for an exponent that undoes the fifth power.
    #[verifier::type_invariant]
    pub closed spec fn well_formed(self) -> bool {
        inverts_exponent(limbs_value(self.alpha_inv@), ALPHA as int)
    }

    /// The exponent of the inverse S-box.
    pub closed spec fn exponent(self) -> nat {
        limbs_value(self.alpha_inv@) as nat
    }

    /// The exponent of a well-formed inverse S-box undoes the fifth power.
    pub proof fn lemma_exponent(self)
        requires
            self.well_formed(),
        ensures
            inverts_exponent(self.exponent() as int, ALPHA as int),
    {
    }

    /// The inverse S-box for a state of `SIZE` elements.
    pub fn new() -> (r: Self)
        ensures
            inverts_exponent(r.exponent() as int, ALPHA as int),
    {
        proof {
            lemma_alpha_is_invertible();
        }
        let alpha_inv = compute_inverse_alpha(ALPHA).unwrap();
        QuinticInverseSBox { alpha_inv }
    }

    /// The limbs of the exponent, least significant first.
    pub fn alpha_inv(&self) -> (r: [u64; 4])
        ensures
            limbs_value(r@) == self.exponent(),
            inverts_exponent(self.exponent() as int, ALPHA as int),
    {
        proof {
            use_type_invariant(self);
        }
        self.alpha_inv
    }

    /// Replaces every element of the state by its power with the inverse
    /// exponent.
    ///
    /// The power is computed outside the circuit and bound to a new
    /// variable. The circuit raises that variable to the fifth power by
    /// four multiplication gates and constrains the result to equal the
    /// element, which it always does. Each element so takes five new
    /// variables, and five gates unless it is itself the variable of the
    /// fifth power, which no variable of the constraint system can be.
    pub fn apply(&self, cs: &mut Assembly, elements: &mut [Num; SIZE]) -> (r: Result<
        (),
        CipherError,
    >)
        ensures
            r is Ok,
            values(*final(elements)) == inverse_sbox_all(values(*old(elements)), self.exponent()),
            sbox_all(values(*final(elements))) == values(*old(elements)),
            forall|k: int|
                0 <= k < SIZE ==> bound_to(
                    #[trigger] final(elements)[k],
                    (variables(*old(cs)).len() + 5 * k + 1) as nat,
                ),
            all_known(final(elements)@, *final(cs)),
            all_variables(final(elements)@),
            variables(*final(cs)) == variables(*old(cs)) + root_allocations(
                values(*old(elements)),
                self.exponent(),
                SIZE as nat,
            ),
            gate_count(*old(cs)) + 4 * SIZE <= gate_count(*final(cs)) <= gate_count(*old(cs)) + 5
                * SIZE,
            all_known(old(elements)@, *old(cs)) ==> gate_count(*final(cs)) == gate_count(*old(cs))
                + 5 * SIZE,
            grows(*old(cs), *final(cs)),
    {
        let ghost before = *elements;
        let ghost start = variables(*cs).len();
        let mut i: usize = 0;
        while i < SIZE
            invariant
                grows(*old(cs), *cs),
                i <= SIZE,
                before == *old(elements),
                start == variables(*old(cs)).len(),
                forall|k: int|
                    0 <= k < i ==> (#[trigger] elements[k])@ == fpow(before[k]@, self.exponent()),
                forall|k: int| 0 <= k < i ==> sbox((#[trigger] elements[k])@) == before[k]@,
                forall|k: int|
                    0 <= k < i ==> bound_to(#[trigger] elements[k], (start + 5 * k + 1) as nat),
                forall|k: int| 0 <= k < i ==> known(#[trigger] elements[k], *cs),
                forall|k: int| i <= k < SIZE ==> elements[k] == before[k],
                variables(*cs).len() == start + 5 * i,
                variables(*cs) == variables(*old(cs)) + root_allocations(
                    values(before),
                    self.exponent(),
                    i as nat,
                ),
                gate_count(*old(cs)) + 4 * i <= gate_count(*cs) <= gate_count(*old(cs)) + 5 * i,
                all_known(before@, *old(cs)) ==> gate_count(*cs) == gate_count(*old(cs)) + 5 * i,
            decreases SIZE - i,
        {
            let element: Num = elements[i];
            let root = self.root(cs, &element)?;
            proof {
                let so_far = root_allocations(values(before), self.exponent(), i as nat);
                let added = root_and_powers(element@, self.exponent());
                assert(before@[i as int] == element);
                assert(values(before)[i as int] == element@);
                assert(variables(*cs) =~= variables(*old(cs)) + (so_far + added));
            }
            elements[i] = root;
            i += 1;
        }
        assert(values(*elements) =~= inverse_sbox_all(values(before), self.exponent()));
        assert(sbox_all(values(*elements)) =~= values(before));
        Ok(())
    }

    /// The power of one number with the inverse exponent, bound to a new
    /// variable and held to the number by the circuit.
    fn root(&self, cs: &mut Assembly, element: &Num) -> (r: Result<Num, CipherError>)
        ensures
            r is Ok,
            r matches Ok(n) ==> {
                &&& n@ == fpow(element@, self.exponent())
                &&& sbox(n@) == element@
                &&& bound_to(n, variables(*old(cs)).len() + 1)
            },
            variables(*final(cs)) == variables(*old(cs)) + root_and_powers(
                element@,
                self.exponent(),
            ),
            gate_count(*final(cs)) == gate_count(*old(cs)) + if bound_to(
                *element,
                variables(*old(cs)).len() + 5,
            ) {
                4nat
            } else {
                5nat
            },
            grows(*old(cs), *final(cs)),
    {
        proof {
            use_type_invariant(element);
            use_type_invariant(self);
            element.lemma_well_formed();
            lemma_sbox_inverse_law(element@, self.exponent());
        }
        let exponent = self.alpha_inv();
        let witness = big_pow(&element.value(), &exponent);
        let root = Num::allocate(cs, &witness)?;
        let power = fifth_power(cs, &root)?;
        element.enforce_equal(cs, &power)?;
        proof {
            assert(variables(*cs) =~= variables(*old(cs)) + root_and_powers(
                element@,
                self.exponent(),
            ));
        }
        Ok(root)
    }
}

/// The values of the variables that the inverse S-box with exponent `e`
/// allocates for the value `x`: the power of `x` with exponent `e`, and the
/// powers of that from the second to the fifth.
pub open spec fn root_and_powers(x: int, e: nat) -> Seq<int> {
    seq![fpow(x, e)] + powers(fpow(x, e))
}

/// The values of the variables that the inverse S-box with exponent `e`
/// allocates for the first `k` values of a state.
pub open spec fn root_allocations(state: Seq<int>, e: nat, k: nat) -> Seq<int>
    decreases k,
{
    if k == 0 {
        Seq::empty()
    } else {
        root_allocations(state, e, (k - 1) as nat) + root_and_powers(state[k - 1], e)
    }
}

} // verus!
