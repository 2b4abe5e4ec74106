//! The scalar field of BN256 as the cipher sees it: a mathematical model of
//! its arithmetic, and cleartext field elements held as four 64-bit limbs.

use franklin_crypto::bellman::pairing::bn256::{Fr, FrRepr};
use franklin_crypto::bellman::pairing::ff::{Field, PrimeField};
use rand::{Rng, ThreadRng};
use vstd::prelude::*;

verus! {

/// The order of the field. Every value of the cipher is an integer in
/// `0 .. modulus()`.
pub open spec fn modulus() -> int {
    21888242871839275222246405745257275088548364400416034343698204186575808495617int
}

/// Field addition.
pub open spec fn fadd(a: int, b: int) -> int {
    (a + b) % modulus()
}

/// Field subtraction.
pub open spec fn fsub(a: int, b: int) -> int {
    (a - b) % modulus()
}

/// Field multiplication.
pub open spec fn fmul(a: int, b: int) -> int {
    (a * b) % modulus()
}

/// `a` raised to the power `n` in the field.
pub open spec fn fpow(a: int, n: nat) -> int
    decreases n,
{
    if n == 0 {
        1
    } else {
        fmul(fpow(a, (n - 1) as nat), a)
    }
}

/// Whether `v` is the canonical representative of a field element.
pub open spec fn in_range(v: int) -> bool {
    0 <= v < modulus()
}

/// `e` is the multiplicative inverse of `a` in the field.
pub open spec fn is_inverse(e: int, a: int) -> bool {
    in_range(e) && fmul(e, a) == 1
}

/// The multiplicative inverse of `a`, where it has one.
pub open spec fn finv(a: int) -> int {
    choose|e: int| is_inverse(e, a)
}

/// The integer that four little-endian 64-bit limbs stand for.
pub open spec fn limbs_value(l: Seq<u64>) -> int
    recommends
        l.len() == 4,
{
    (l[0] as int) + (l[1] as int) * 0x1_0000_0000_0000_0000int + (l[2] as int)
        * 0x1_0000_0000_0000_0000_0000_0000_0000_0000int + (l[3] as int)
        * 0x1_0000_0000_0000_0000_0000_0000_0000_0000_0000_0000_0000_0000int
}

/// Four limbs are determined by the integer they stand for.
pub proof fn lemma_limbs_value_injective(a: Seq<u64>, b: Seq<u64>)
    requires
        a.len() == 4,
        b.len() == 4,
        limbs_value(a) == limbs_value(b),
    ensures
        a =~= b,
{
    let r = 0x1_0000_0000_0000_0000int;
    let ha = (a[1] as int) + (a[2] as int) * r + (a[3] as int) * r * r;
    let hb = (b[1] as int) + (b[2] as int) * r + (b[3] as int) * r * r;
    assert(limbs_value(a) == (a[0] as int) + r * ha) by (nonlinear_arith)
        requires
            r == 0x1_0000_0000_0000_0000int,
            ha == (a[1] as int) + (a[2] as int) * r + (a[3] as int) * r * r,
            limbs_value(a) == (a[0] as int) + (a[1] as int) * 0x1_0000_0000_0000_0000int + (
            a[2] as int) * 0x1_0000_0000_0000_0000_0000_0000_0000_0000int + (a[3] as int)
                * 0x1_0000_0000_0000_0000_0000_0000_0000_0000_0000_0000_0000_0000int,
    ;
    assert(limbs_value(b) == (b[0] as int) + r * hb) by (nonlinear_arith)
        requires
            r == 0x1_0000_0000_0000_0000int,
            hb == (b[1] as int) + (b[2] as int) * r + (b[3] as int) * r * r,
            limbs_value(b) == (b[0] as int) + (b[1] as int) * 0x1_0000_0000_0000_0000int + (
            b[2] as int) * 0x1_0000_0000_0000_0000_0000_0000_0000_0000int + (b[3] as int)
                * 0x1_0000_0000_0000_0000_0000_0000_0000_0000_0000_0000_0000_0000int,
    ;
    lemma_digit_split(a[0] as int, ha, b[0] as int, hb);
    let ga = (a[2] as int) + (a[3] as int) * r;
    let gb = (b[2] as int) + (b[3] as int) * r;
    assert(ha == (a[1] as int) + r * ga) by (nonlinear_arith)
        requires
            ha == (a[1] as int) + (a[2] as int) * r + (a[3] as int) * r * r,
            ga == (a[2] as int) + (a[3] as int) * r,
    ;
    assert(hb == (b[1] as int) + r * gb) by (nonlinear_arith)
        requires
            hb == (b[1] as int) + (b[2] as int) * r + (b[3] as int) * r * r,
            gb == (b[2] as int) + (b[3] as int) * r,
    ;
    lemma_digit_split(a[1] as int, ga, b[1] as int, gb);
    assert(ga == (a[2] as int) + r * (a[3] as int)) by (nonlinear_arith)
        requires
            ga == (a[2] as int) + (a[3] as int) * r,
    ;
    assert(gb == (b[2] as int) + r * (b[3] as int)) by (nonlinear_arith)
        requires
            gb == (b[2] as int) + (b[3] as int) * r,
    ;
    lemma_digit_split(a[2] as int, a[3] as int, b[2] as int, b[3] as int);
}

/// A number written as a 64-bit digit plus a multiple of 2^64 has only one
/// such writing.
proof fn lemma_digit_split(d1: int, h1: int, d2: int, h2: int)
    requires
        0 <= d1 < 0x1_0000_0000_0000_0000int,
        0 <= d2 < 0x1_0000_0000_0000_0000int,
        d1 + 0x1_0000_0000_0000_0000int * h1 == d2 + 0x1_0000_0000_0000_0000int * h2,
    ensures
        d1 == d2,
        h1 == h2,
{
    assert(d1 == d2 && h1 == h2) by (nonlinear_arith)
        requires
            0 <= d1 < 0x1_0000_0000_0000_0000int,
            0 <= d2 < 0x1_0000_0000_0000_0000int,
            d1 + 0x1_0000_0000_0000_0000int * h1 == d2 + 0x1_0000_0000_0000_0000int * h2,
    ;
}

/// A cleartext field element, held as the four little-endian limbs of its
/// canonical representative.
#[derive(Clone, Copy, Debug)]
pub struct FieldElement {
    pub(crate) limbs: [u64; 4],
}

impl View for FieldElement {
    type V = int;

    closed spec fn view(&self) -> int {
        limbs_value(self.limbs@)
    }
}

impl FieldElement {
    /// The limbs stand for a number below the modulus.
    #[verifier::type_invariant]
    pub closed spec fn canonical(self) -> bool {
        limbs_value(self.limbs@) < modulus()
    }

    /// A canonical element denotes a value of the field.
    pub proof fn lemma_canonical(self)
        requires
            self.canonical(),
        ensures
            in_range(self@),
    {
    }

    /// The element whose value is `v`.
    pub fn from_u64(v: u64) -> (r: FieldElement)
        ensures
            r@ == v,
    {
        FieldElement { limbs: [v, 0, 0, 0] }
    }

    /// The additive identity.
    pub fn zero() -> (r: FieldElement)
        ensures
            r@ == 0,
    {
        FieldElement { limbs: [0, 0, 0, 0] }
    }

    /// The multiplicative identity.
    pub fn one() -> (r: FieldElement)
        ensures
            r@ == 1,
    {
        FieldElement { limbs: [1, 0, 0, 0] }
    }

    /// The element that `limbs` stand for, if they stand for a number below
    /// the modulus.
    pub fn from_limbs(limbs: [u64; 4]) -> (r: Option<FieldElement>)
        ensures
            r is Some <==> limbs_value(limbs@) < modulus(),
            r matches Some(f) ==> f@ == limbs_value(limbs@),
    {
        let m = modulus_limbs();
        if limbs_less(&limbs, &m) {
            Some(FieldElement { limbs })
        } else {
            None
        }
    }

    /// The limbs of the canonical representative, least significant first.
    pub fn limbs(&self) -> (r: [u64; 4])
        ensures
            limbs_value(r@) == self@,
            self@ < modulus(),
    {
        proof {
            use_type_invariant(self);
        }
        self.limbs
    }

    /// Whether two elements are the same element of the field.
    pub fn equals(&self, other: &FieldElement) -> (r: bool)
        ensures
            r == (self@ == other@),
    {
        proof {
            if self@ == other@ {
                lemma_limbs_value_injective(self.limbs@, other.limbs@);
            }
        }
        self.limbs[0] == other.limbs[0] && self.limbs[1] == other.limbs[1] && self.limbs[2]
            == other.limbs[2] && self.limbs[3] == other.limbs[3]
    }

    /// Whether this is the additive identity.
    pub fn is_zero(&self) -> (r: bool)
        ensures
            r == (self@ == 0),
    {
        self.limbs[0] == 0 && self.limbs[1] == 0 && self.limbs[2] == 0 && self.limbs[3] == 0
    }

    /// The product of two elements, computed outside any circuit.
    pub fn mul(&self, other: &FieldElement) -> (r: FieldElement)
        ensures
            r@ == fmul(self@, other@),
    {
        proof {
            use_type_invariant(self);
            use_type_invariant(other);
        }
        field_mul(self, other)
    }

    /// A freshly drawn element: which one is left to chance, but it is canonical.
    pub fn random(rng: &mut ThreadRng) -> (r: FieldElement)
        ensures
            in_range(r@),
    {
        let drawn = random_element(rng);
        proof {
            drawn.lemma_canonical();
        }
        drawn
    }
}

/// Whether the number `a` stands for is below the one `b` stands for.
pub fn limbs_less(a: &[u64; 4], b: &[u64; 4]) -> (r: bool)
    ensures
        r == (limbs_value(a@) < limbs_value(b@)),
{
    if a[3] != b[3] {
        a[3] < b[3]
    } else if a[2] != b[2] {
        a[2] < b[2]
    } else if a[1] != b[1] {
        a[1] < b[1]
    } else {
        a[0] < b[0]
    }
}

#[verifier::external_type_specification]
#[verifier::external_body]
pub struct ExThreadRng(ThreadRng);

/// The limbs of the modulus, least significant first.
pub fn modulus_limbs() -> (r: [u64; 4])
    ensures
        limbs_value(r@) == modulus(),
{
    [0x43e1_f593_f000_0001, 0x2833_e848_79b9_7091, 0xb850_45b6_8181_585d, 0x3064_4e72_e131_a029]
}

/// `Field::mul_assign` on two elements brought in by `PrimeField::from_repr`
/// and taken out by `PrimeField::into_repr`: the canonical representative of
/// the product.
#[verifier::external_body]
pub(crate) fn field_mul(a: &FieldElement, b: &FieldElement) -> (r: FieldElement)
    requires
        a.canonical(),
        b.canonical(),
    ensures
        r@ == fmul(a@, b@),
{
    let mut product = Fr::from_repr(FrRepr(a.limbs)).unwrap();
    product.mul_assign(&Fr::from_repr(FrRepr(b.limbs)).unwrap());
    FieldElement { limbs: product.into_repr().0 }
}

/// `Rng::gen` for a field element: rejection sampling below the modulus,
/// so that what `PrimeField::into_repr` takes out is canonical. Nothing is
/// said of which element comes out.
#[verifier::external_body]
pub(crate) fn random_element(rng: &mut ThreadRng) -> (r: FieldElement)
    ensures
        r.canonical(),
{
    let drawn: Fr = rng.gen();
    FieldElement { limbs: drawn.into_repr().0 }
}

} // verus!
