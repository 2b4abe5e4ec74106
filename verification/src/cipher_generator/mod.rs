//! Parameters of the cipher and the parts they are made of.

pub mod cauchy_laws;
pub mod exponent;
pub mod matrix_laws;
pub mod mds;
pub mod sbox_laws;
pub mod sboxes;

use crate::cipher_generator::mds::{cauchy_vectors, elements, generate_vectors_for_matrix};
use crate::cipher_generator::sboxes::{QuinticInverseSBox, QuinticSBox};
use crate::errors::CipherError;
use crate::field::{in_range, FieldElement};
use rand::ThreadRng;
use vstd::prelude::*;

verus! {

/// The cleartext parameters of one cipher: the two vectors that define its
/// mixing matrix, its two S-boxes, and one vector of constants for each
/// round.
pub struct CipherParams<const SIZE: usize, const RNUMBER: usize> {
    pub vect_for_matrix: [[FieldElement; SIZE]; 2],
    pub sbox1: QuinticSBox<SIZE>,
    pub sbox2: QuinticInverseSBox<SIZE>,
    pub round_constants: [[FieldElement; SIZE]; RNUMBER],
}

/// The values of a table of cleartext field elements, row by row.
pub open spec fn table<const SIZE: usize, const RNUMBER: usize>(
    t: [[FieldElement; SIZE]; RNUMBER],
) -> Seq<Seq<int>> {
    Seq::new(RNUMBER as nat, |i: int| elements(t[i]))
}

/// No value of the table is zero.
pub open spec fn all_nonzero(t: Seq<Seq<int>>) -> bool {
    forall|i: int, j: int| 0 <= i < t.len() && 0 <= j < t[i].len() ==> (#[trigger] t[i][j]) != 0
}

impl<const SIZE: usize, const RNUMBER: usize> CipherParams<SIZE, RNUMBER> {
    /// The vectors can define a Cauchy matrix, and no round constant is
    /// zero.
    pub open spec fn wf(self) -> bool {
        &&& cauchy_vectors(elements(self.vect_for_matrix[0]), elements(self.vect_for_matrix[1]))
        &&& all_nonzero(table(self.round_constants))
    }
}

/// Draws field elements until `keep_nonzero` keeps one, which comes back,
/// at most `max_attempts` times. Nothing comes back where it keeps none.
fn random_nonzero(rng: &mut ThreadRng, max_attempts: usize) -> (r: Option<FieldElement>)
    ensures
        r matches Some(n) ==> n@ != 0 && in_range(n@),
        max_attempts == 0 ==> r is None,
{
    let mut attempt: usize = 0;
    while attempt < max_attempts
        invariant
            attempt <= max_attempts,
        decreases max_attempts - attempt,
    {
        let drawn = FieldElement::random(rng);
        let kept = keep_nonzero(drawn);
        if kept.is_some() {
            return kept;
        }
        attempt += 1;
    }
    None
}

/// What one draw gives towards a round constant: the drawn element itself
/// where it is not zero, and nothing where it is.
pub fn keep_nonzero(drawn: FieldElement) -> (r: Option<FieldElement>)
    ensures
        r is Some <==> drawn@ != 0,
        r matches Some(n) ==> n == drawn,
{
    if drawn.is_zero() {
        None
    } else {
        Some(drawn)
    }
}

/// Draws the constants of every round, none of them zero. No constant is
/// drawn more than `max_attempts` times, so that with no attempt allowed
/// no constant can be had.
pub fn generate_round_constants<const SIZE: usize, const RNUMBER: usize>(
    rng: &mut ThreadRng,
    max_attempts: usize,
) -> (r: Result<[[FieldElement; SIZE]; RNUMBER], CipherError>)
    ensures
        r matches Ok(c) ==> all_nonzero(table(c)),
        r matches Err(e) ==> e is SamplingExhausted,
        max_attempts == 0 && SIZE > 0 && RNUMBER > 0 ==> r is Err,
{
    let mut roconst: [[FieldElement; SIZE]; RNUMBER] = [[FieldElement::one(); SIZE]; RNUMBER];
    let mut i: usize = 0;
    while i < RNUMBER
        invariant
            i <= RNUMBER,
            max_attempts == 0 && SIZE > 0 ==> i == 0,
            forall|a: int, b: int|
                0 <= a < RNUMBER && 0 <= b < SIZE ==> (#[trigger] roconst[a][b])@ != 0,
        decreases RNUMBER - i,
    {
        let mut row: [FieldElement; SIZE] = roconst[i];
        let mut j: usize = 0;
        while j < SIZE
            invariant
                j <= SIZE,
                max_attempts == 0 ==> j == 0,
                forall|b: int| 0 <= b < SIZE ==> (#[trigger] row[b])@ != 0,
            decreases SIZE - j,
        {
            match random_nonzero(rng, max_attempts) {
                Some(n) => {
                    row[j] = n;
                },
                None => {
                    return Err(CipherError::SamplingExhausted);
                },
            }
            j += 1;
        }
        roconst[i] = row;
        i += 1;
    }
    Ok(roconst)
}

/// Draws the parameters of a cipher: two vectors that can define a Cauchy
/// matrix, and nonzero round constants. Nothing is drawn more than
/// `max_attempts` times, so that with no attempt allowed there are no
/// parameters.
pub fn cipher_params_generate<const SIZE: usize, const RNUMBER: usize>(
    rng: &mut ThreadRng,
    max_attempts: usize,
) -> (r: Result<CipherParams<SIZE, RNUMBER>, CipherError>)
    ensures
        r matches Ok(p) ==> p.wf(),
        r matches Err(e) ==> e is SamplingExhausted,
        max_attempts == 0 ==> r is Err,
{
    let vect_for_matrix = generate_vectors_for_matrix::<SIZE>(rng, max_attempts)?;
    let sbox1 = QuinticSBox::<SIZE>::new();
    let sbox2 = QuinticInverseSBox::<SIZE>::new();
    let round_constants = generate_round_constants::<SIZE, RNUMBER>(rng, max_attempts)?;
    Ok(CipherParams { vect_for_matrix, sbox1, sbox2, round_constants })
}

} // verus!
