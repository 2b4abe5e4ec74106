//! The mixing layer of the cipher: a Cauchy matrix built from two vectors
//! with pairwise distinct entries, its inverse for a state of three
//! elements, and the vector operations of a round.

use crate::algebra::{
    cong, lemma_fadd_cong, lemma_finv, lemma_fmul_cong, lemma_fsub_cong, lemma_fsub_zero,
    lemma_in_range_mod, lemma_inverse_nonzero, lemma_modulus_bounds, lemma_results_in_range,
};
use crate::cipher_generator::cauchy_laws::{is_mds3, lemma_cauchy_is_mds};
use crate::cipher_generator::matrix_laws::{is_identity, lemma_adjugate_inverts, mat_mul};
use crate::circuit::{
    all_known, all_variables, bound_to, gate_count, grows, known, unchanged, variables, zero_flag,
    zero_helper, Assembly, Num,
};
use crate::errors::CipherError;
use crate::field::{fadd, finv, fmul, fsub, in_range, is_inverse, modulus, FieldElement};
use rand::ThreadRng;
use vstd::prelude::*;

verus! {

/// The values of a vector of circuit numbers.
pub open spec fn values<const SIZE: usize>(v: [Num; SIZE]) -> Seq<int> {
    Seq::new(SIZE as nat, |i: int| v[i]@)
}

/// The values of a vector of cleartext field elements.
pub open spec fn elements<const SIZE: usize>(v: [FieldElement; SIZE]) -> Seq<int> {
    Seq::new(SIZE as nat, |i: int| v[i]@)
}

/// No value occurs twice in `s`.
pub open spec fn pairwise_distinct(s: Seq<int>) -> bool {
    forall|a: int, b: int| 0 <= a < b < s.len() ==> s[a] != s[b]
}

/// No value of `s` occurs in `t`.
pub open spec fn disjoint(s: Seq<int>, t: Seq<int>) -> bool {
    forall|a: int, b: int| 0 <= a < s.len() && 0 <= b < t.len() ==> s[a] != t[b]
}

/// What a Cauchy matrix asks of the two vectors it is built from: the
/// entries of each are pairwise distinct, and no entry of one is an entry of
/// the other.
pub open spec fn cauchy_vectors(x: Seq<int>, y: Seq<int>) -> bool {
    pairwise_distinct(x) && pairwise_distinct(y) && disjoint(x, y)
}

/// The Cauchy matrix of `x` and `y`: its entry in row `i` and column `j` is
/// the inverse of `x[i] - y[j]`.
pub open spec fn cauchy_matrix(x: Seq<int>, y: Seq<int>) -> Seq<Seq<int>> {
    Seq::new(x.len(), |i: int| Seq::new(y.len(), |j: int| finv(fsub(x[i], y[j]))))
}

/// Every entry of `m` in row `i` and column `j` inverts `x[i] - y[j]`, which
/// makes `m` the Cauchy matrix of `x` and `y`.
pub open spec fn is_cauchy_matrix(m: Seq<Seq<int>>, x: Seq<int>, y: Seq<int>) -> bool {
    &&& m.len() == x.len()
    &&& forall|i: int| 0 <= i < m.len() ==> (#[trigger] m[i]).len() == y.len()
    &&& forall|i: int, j: int|
        0 <= i < x.len() && 0 <= j < y.len() ==> is_inverse(#[trigger] m[i][j], fsub(x[i], y[j]))
}

/// The sum of the products of the first `n` entries of `x` and `y`, as an
/// integer.
pub open spec fn int_dot(x: Seq<int>, y: Seq<int>, n: nat) -> int
    decreases n,
{
    if n == 0 {
        0
    } else {
        int_dot(x, y, (n - 1) as nat) + x[n - 1] * y[n - 1]
    }
}

/// The dot product of two vectors in the field.
pub open spec fn dot(x: Seq<int>, y: Seq<int>) -> int {
    int_dot(x, y, x.len()) % modulus()
}

/// The sum of two vectors in the field, entry by entry.
pub open spec fn vec_add(x: Seq<int>, y: Seq<int>) -> Seq<int> {
    Seq::new(x.len(), |i: int| fadd(x[i], y[i]))
}

/// The difference of two vectors in the field, entry by entry.
pub open spec fn vec_sub(x: Seq<int>, y: Seq<int>) -> Seq<int> {
    Seq::new(x.len(), |i: int| fsub(x[i], y[i]))
}

/// The determinant of a matrix of three rows and columns, as an integer.
pub open spec fn int_det3(m: Seq<Seq<int>>) -> int {
    m[0][0] * m[1][1] * m[2][2] + m[0][1] * m[1][2] * m[2][0] + m[0][2] * m[1][0] * m[2][1]
        - m[0][0] * m[1][2] * m[2][1] - m[0][2] * m[1][1] * m[2][0] - m[0][1] * m[1][0] * m[2][2]
}

/// The determinant of a matrix of three rows and columns in the field.
pub open spec fn det3(m: Seq<Seq<int>>) -> int {
    int_det3(m) % modulus()
}

/// The cofactor of entry (`i`, `j`) of a matrix of three rows and columns,
/// as an integer. The indices that wrap around carry the sign.
pub open spec fn int_cofactor3(m: Seq<Seq<int>>, i: int, j: int) -> int {
    m[(i + 1) % 3][(j + 1) % 3] * m[(i + 2) % 3][(j + 2) % 3] - m[(i + 1) % 3][(j + 2) % 3] * m[(i
        + 2) % 3][(j + 1) % 3]
}

/// The cofactor of entry (`i`, `j`) in the field.
pub open spec fn cofactor3(m: Seq<Seq<int>>, i: int, j: int) -> int {
    int_cofactor3(m, i, j) % modulus()
}

/// `m` has `n` rows of `n` entries, each a canonical value of the field.
pub open spec fn is_square(m: Seq<Seq<int>>, n: nat) -> bool {
    &&& m.len() == n
    &&& forall|i: int| 0 <= i < n ==> (#[trigger] m[i]).len() == n
    &&& forall|i: int, j: int| 0 <= i < n && 0 <= j < n ==> in_range(#[trigger] m[i][j])
}

/// `inv` is the adjugate of `m` over its determinant: entry (`j`, `i`) is
/// the cofactor of entry (`i`, `j`) of `m` times the inverse of the
/// determinant.
pub open spec fn is_adjugate_inverse(inv: Seq<Seq<int>>, m: Seq<Seq<int>>) -> bool {
    &&& is_square(inv, 3)
    &&& is_inverse(finv(det3(m)), det3(m))
    &&& forall|i: int, j: int|
        0 <= i < 3 && 0 <= j < 3 ==> (#[trigger] inv[j][i]) == fmul(
            cofactor3(m, i, j),
            finv(det3(m)),
        )
}

/// No entry of `m` is zero.
pub open spec fn no_zero_entry(m: Seq<Seq<int>>) -> bool {
    forall|i: int, j: int| 0 <= i < m.len() && 0 <= j < m[i].len() ==> (#[trigger] m[i][j]) != 0
}

/// A square matrix of circuit numbers.
#[derive(Clone, Copy)]
pub struct MdsMatrix<const SIZE: usize> {
    pub data: [[Num; SIZE]; SIZE],
}

impl<const SIZE: usize> View for MdsMatrix<SIZE> {
    type V = Seq<Seq<int>>;

    open spec fn view(&self) -> Seq<Seq<int>> {
        Seq::new(SIZE as nat, |i: int| values(self.data[i]))
    }
}

impl<const SIZE: usize> MdsMatrix<SIZE> {
    /// The matrix whose entries are all the constant zero.
    pub fn zero() -> (r: Self)
        ensures
            forall|i: int, j: int| 0 <= i < SIZE && 0 <= j < SIZE ==> (#[trigger] r@[i][j]) == 0,
            forall|i: int, j: int|
                0 <= i < SIZE && 0 <= j < SIZE ==> (#[trigger] r.data[i][j]).bound() is Constant,
    {
        let z = Num::zero();
        MdsMatrix { data: [[z; SIZE]; SIZE] }
    }

    /// Row `n` of the matrix, counted from zero. A matrix of `SIZE` rows
    /// has none from `SIZE` on: that gives `RowOutOfRange`.
    pub fn row(&self, n: usize) -> (r: Result<[Num; SIZE], CipherError>)
        ensures
            n < SIZE ==> r is Ok,
            r matches Ok(row) ==> n < SIZE && row == self.data[n as int] && values(row)
                == self@[n as int],
            r matches Err(e) ==> n >= SIZE && e is RowOutOfRange,
    {
        if n < SIZE {
            Ok(self.data[n])
        } else {
            Err(CipherError::RowOutOfRange)
        }
    }
}

/// Whether no element occurs twice in `x`.
fn distinct_elements<const SIZE: usize>(x: &[FieldElement; SIZE]) -> (r: bool)
    ensures
        r == pairwise_distinct(elements(*x)),
{
    let ghost xs = elements(*x);
    let mut i: usize = 0;
    while i < SIZE
        invariant
            i <= SIZE,
            xs == elements(*x),
            forall|a: int, b: int| 0 <= a < i && a < b < SIZE ==> xs[a] != xs[b],
        decreases SIZE - i,
    {
        let mut j: usize = i + 1;
        while j < SIZE
            invariant
                i < j <= SIZE,
                xs == elements(*x),
                forall|a: int, b: int| 0 <= a < i && a < b < SIZE ==> xs[a] != xs[b],
                forall|b: int| i < b < j ==> xs[i as int] != xs[b],
            decreases SIZE - j,
        {
            if x[i].equals(&x[j]) {
                assert(xs[i as int] == xs[j as int]);
                return false;
            }
            j += 1;
        }
        i += 1;
    }
    true
}

/// Whether no element of `x` occurs in `y`.
fn disjoint_elements<const SIZE: usize>(x: &[FieldElement; SIZE], y: &[FieldElement; SIZE]) -> (r:
    bool)
    ensures
        r == disjoint(elements(*x), elements(*y)),
{
    let ghost xs = elements(*x);
    let ghost ys = elements(*y);
    let mut i: usize = 0;
    while i < SIZE
        invariant
            i <= SIZE,
            xs == elements(*x),
            ys == elements(*y),
            forall|a: int, b: int| 0 <= a < i && 0 <= b < SIZE ==> xs[a] != ys[b],
        decreases SIZE - i,
    {
        let mut j: usize = 0;
        while j < SIZE
            invariant
                i < SIZE,
                j <= SIZE,
                xs == elements(*x),
                ys == elements(*y),
                forall|a: int, b: int| 0 <= a < i && 0 <= b < SIZE ==> xs[a] != ys[b],
                forall|b: int| 0 <= b < j ==> xs[i as int] != ys[b],
            decreases SIZE - j,
        {
            if x[i].equals(&y[j]) {
                assert(xs[i as int] == ys[j as int]);
                return false;
            }
            j += 1;
        }
        i += 1;
    }
    true
}

/// Whether two cleartext vectors can define a Cauchy matrix.
pub fn okey_vectors<const SIZE: usize>(x: &[FieldElement; SIZE], y: &[FieldElement; SIZE]) -> (r:
    bool)
    ensures
        r == cauchy_vectors(elements(*x), elements(*y)),
{
    distinct_elements(x) && distinct_elements(y) && disjoint_elements(x, y)
}

/// A vector of freshly drawn field elements, each of them canonical.
fn random_vector<const SIZE: usize>(rng: &mut ThreadRng) -> (r: [FieldElement; SIZE])
    ensures
        all_in_range(elements(r)),
{
    proof {
        lemma_modulus_bounds();
    }
    let mut v: [FieldElement; SIZE] = [FieldElement::zero(); SIZE];
    let mut i: usize = 0;
    while i < SIZE
        invariant
            i <= SIZE,
            forall|k: int| 0 <= k < SIZE ==> in_range((#[trigger] v[k])@),
        decreases SIZE - i,
    {
        let drawn = FieldElement::random(rng);
        v[i] = drawn;
        i += 1;
    }
    v
}

/// Every entry of `s` is a canonical value of the field.
pub open spec fn all_in_range(s: Seq<int>) -> bool {
    forall|i: int| 0 <= i < s.len() ==> in_range(#[trigger] s[i])
}

/// Draws two vectors until they can define a Cauchy matrix, at most
/// `max_attempts` times.
///
/// The first of the two vectors that come back is `x`, the second `y`.
pub fn generate_vectors_for_matrix<const SIZE: usize>(
    rng: &mut ThreadRng,
    max_attempts: usize,
) -> (r: Result<[[FieldElement; SIZE]; 2], CipherError>)
    ensures
        r matches Ok(v) ==> cauchy_vectors(elements(v[0]), elements(v[1])),
        r matches Ok(v) ==> all_in_range(elements(v[0])) && all_in_range(elements(v[1])),
        r matches Err(e) ==> e is SamplingExhausted,
        max_attempts == 0 ==> r is Err,
{
    let mut attempt: usize = 0;
    while attempt < max_attempts
        invariant
            attempt <= max_attempts,
        decreases max_attempts - attempt,
    {
        let x = random_vector::<SIZE>(rng);
        let y = random_vector::<SIZE>(rng);
        if okey_vectors(&x, &y) {
            return Ok([x, y]);
        }
        attempt += 1;
    }
    Err(CipherError::SamplingExhausted)
}

/// The values of the three variables that the equality test of two
/// variables allocates: their difference, the flag that tells whether it is
/// zero, and the helper of that test.
pub open spec fn equality_allocations(a: int, b: int) -> Seq<int> {
    seq![fsub(a, b), zero_flag(fsub(a, b)), zero_helper(fsub(a, b))]
}

/// What the tests of entry `i` of `x` against the entries after it and
/// before `j` allocate.
pub open spec fn row_tests(x: Seq<int>, i: int, j: nat) -> Seq<int>
    decreases j,
{
    if j == 0 || j <= i + 1 {
        Seq::empty()
    } else {
        row_tests(x, i, (j - 1) as nat) + equality_allocations(x[i], x[j - 1])
    }
}

/// What the tests of each of the first `i` entries of `x` against all
/// entries after it allocate.
pub open spec fn distinct_tests(x: Seq<int>, i: nat) -> Seq<int>
    decreases i,
{
    if i == 0 {
        Seq::empty()
    } else {
        distinct_tests(x, (i - 1) as nat) + row_tests(x, i - 1, x.len())
    }
}

/// What the tests of entry `i` of `x` against the first `j` entries of `y`
/// allocate.
pub open spec fn cross_tests(x: Seq<int>, y: Seq<int>, i: int, j: nat) -> Seq<int>
    decreases j,
{
    if j == 0 {
        Seq::empty()
    } else {
        cross_tests(x, y, i, (j - 1) as nat) + equality_allocations(x[i], y[j - 1])
    }
}

/// What the tests of each of the first `i` entries of `x` against all
/// entries of `y` allocate.
pub open spec fn disjoint_tests(x: Seq<int>, y: Seq<int>, i: nat) -> Seq<int>
    decreases i,
{
    if i == 0 {
        Seq::empty()
    } else {
        disjoint_tests(x, y, (i - 1) as nat) + cross_tests(x, y, i - 1, y.len())
    }
}

/// What the check of two vectors of variables allocates where it finds no
/// collision: every test of `x` against itself, of `y` against itself, and
/// of `x` against `y`.
pub open spec fn verification_allocations(x: Seq<int>, y: Seq<int>) -> Seq<int> {
    distinct_tests(x, x.len()) + distinct_tests(y, y.len()) + disjoint_tests(x, y, x.len())
}

/// Entries `i` and `j` of `x` are the first pair that holds one value, in
/// the order in which the pairs are tested.
pub open spec fn first_repeat(x: Seq<int>, i: int, j: int) -> bool {
    &&& 0 <= i < j < x.len()
    &&& x[i] == x[j]
    &&& forall|a: int, b: int| 0 <= a < i && a < b < x.len() ==> x[a] != x[b]
    &&& forall|b: int| i < b < j ==> x[i] != x[b]
}

/// Entry `i` of `x` and entry `j` of `y` are the first pair that holds one
/// value, in the order in which the pairs are tested.
pub open spec fn first_common(x: Seq<int>, y: Seq<int>, i: int, j: int) -> bool {
    &&& 0 <= i < x.len()
    &&& 0 <= j < y.len()
    &&& x[i] == y[j]
    &&& forall|a: int, b: int| 0 <= a < i && 0 <= b < y.len() ==> x[a] != y[b]
    &&& forall|b: int| 0 <= b < j ==> x[i] != y[b]
}

/// `t` is `front` and then what the search for a repeated value in `x`
/// allocates where there is one: every test up to the first pair that
/// holds one value, that one included.
pub open spec fn repeat_trace(front: Seq<int>, x: Seq<int>, t: Seq<int>) -> bool {
    exists|i: int, j: int|
        #[trigger] first_repeat(x, i, j) && t == front + distinct_tests(x, i as nat) + row_tests(
            x,
            i,
            (j + 1) as nat,
        )
}

/// `t` is `front` and then what the search for a value of `x` in `y`
/// allocates where there is one: every test up to the first pair that
/// holds one value, that one included.
pub open spec fn common_trace(front: Seq<int>, x: Seq<int>, y: Seq<int>, t: Seq<int>) -> bool {
    exists|i: int, j: int|
        #[trigger] first_common(x, y, i, j) && t == front + disjoint_tests(x, y, i as nat)
            + cross_tests(x, y, i, (j + 1) as nat)
}

/// `t` is what the check of two vectors of variables allocates where it
/// finds a collision: it stops at the first one, in `x`, else in `y`, else
/// between the two.
pub open spec fn collision_trace(x: Seq<int>, y: Seq<int>, t: Seq<int>) -> bool {
    ||| repeat_trace(Seq::empty(), x, t)
    ||| pairwise_distinct(x) && repeat_trace(distinct_tests(x, x.len()), y, t)
    ||| pairwise_distinct(x) && pairwise_distinct(y) && common_trace(
        distinct_tests(x, x.len()) + distinct_tests(y, y.len()),
        x,
        y,
        t,
    )
}

/// The variables that `after` holds and `before` did not.
pub open spec fn added(before: Assembly, after: Assembly) -> Seq<int> {
    variables(after).skip(variables(before).len() as int)
}

/// Whether no value occurs twice in `x`, decided in the circuit. Every
/// test of two variables takes three gates and variables. The search tests
/// every pair, or stops at the first that holds one value.
fn distinct_numbers<const SIZE: usize>(cs: &mut Assembly, x: &[Num; SIZE]) -> (r: Result<
    bool,
    CipherError,
>)
    ensures
        r is Ok,
        r matches Ok(b) ==> b == pairwise_distinct(values(*x)),
        r matches Ok(true) && all_variables(x@) ==> variables(*final(cs)) == variables(*old(cs))
            + distinct_tests(values(*x), SIZE as nat),
        r matches Ok(false) && all_variables(x@) ==> repeat_trace(
            Seq::empty(),
            values(*x),
            added(*old(cs), *final(cs)),
        ),
        all_variables(x@) ==> gate_count(*final(cs)) == gate_count(*old(cs)) + added(
            *old(cs),
            *final(cs),
        ).len(),
        grows(*old(cs), *final(cs)),
{
    let ghost xs = values(*x);
    let ghost bound = all_variables(x@);
    let mut i: usize = 0;
    while i < SIZE
        invariant
            grows(*old(cs), *cs),
            i <= SIZE,
            xs == values(*x),
            bound == all_variables(x@),
            forall|a: int, b: int| 0 <= a < i && a < b < SIZE ==> xs[a] != xs[b],
            bound ==> variables(*cs) == variables(*old(cs)) + distinct_tests(xs, i as nat),
            bound ==> gate_count(*cs) == gate_count(*old(cs)) + distinct_tests(xs, i as nat).len(),
        decreases SIZE - i,
    {
        let ghost base = variables(*cs);
        let ghost gates = gate_count(*cs);
        let mut j: usize = i + 1;
        while j < SIZE
            invariant
                grows(*old(cs), *cs),
                i < j <= SIZE,
                xs == values(*x),
                bound == all_variables(x@),
                forall|a: int, b: int| 0 <= a < i && a < b < SIZE ==> xs[a] != xs[b],
                forall|b: int| i < b < j ==> xs[i as int] != xs[b],
                bound ==> base == variables(*old(cs)) + distinct_tests(xs, i as nat),
                bound ==> gates == gate_count(*old(cs)) + distinct_tests(xs, i as nat).len(),
                bound ==> variables(*cs) == base + row_tests(xs, i as int, j as nat),
                bound ==> gate_count(*cs) == gates + row_tests(xs, i as int, j as nat).len(),
            decreases SIZE - j,
        {
            let same = Num::equals(cs, &x[i], &x[j])?;
            proof {
                if bound {
                    assert(!(x@[i as int].bound() is Constant));
                    assert(variables(*cs) =~= base + (row_tests(xs, i as int, j as nat)
                        + equality_allocations(xs[i as int], xs[j as int])));
                }
            }
            if same {
                assert(xs[i as int] == xs[j as int]);
                proof {
                    if bound {
                        assert(first_repeat(xs, i as int, j as int));
                        assert(added(*old(cs), *cs) =~= Seq::<int>::empty() + distinct_tests(
                            xs,
                            i as nat,
                        ) + row_tests(xs, i as int, (j + 1) as nat));
                    }
                }
                return Ok(false);
            }
            j += 1;
        }
        proof {
            if bound {
                assert(variables(*cs) =~= variables(*old(cs)) + (distinct_tests(xs, i as nat)
                    + row_tests(xs, i as int, SIZE as nat)));
            }
        }
        i += 1;
    }
    proof {
        if bound {
            assert(added(*old(cs), *cs) =~= distinct_tests(xs, SIZE as nat));
        }
    }
    Ok(true)
}

/// Whether no value of `x` occurs in `y`, decided in the circuit. Every
/// test of two variables takes three gates and variables. The search tests
/// every variable of `x` against every variable of `y`, or stops at the
/// first pair that holds one value.
fn disjoint_numbers<const SIZE: usize>(cs: &mut Assembly, x: &[Num; SIZE], y: &[Num; SIZE]) -> (r:
    Result<bool, CipherError>)
    ensures
        r is Ok,
        r matches Ok(b) ==> b == disjoint(values(*x), values(*y)),
        r matches Ok(true) && all_variables(x@) ==> variables(*final(cs)) == variables(*old(cs))
            + disjoint_tests(values(*x), values(*y), SIZE as nat),
        r matches Ok(false) && all_variables(x@) ==> common_trace(
            Seq::empty(),
            values(*x),
            values(*y),
            added(*old(cs), *final(cs)),
        ),
        all_variables(x@) ==> gate_count(*final(cs)) == gate_count(*old(cs)) + added(
            *old(cs),
            *final(cs),
        ).len(),
        grows(*old(cs), *final(cs)),
{
    let ghost xs = values(*x);
    let ghost ys = values(*y);
    let ghost bound = all_variables(x@);
    let mut i: usize = 0;
    while i < SIZE
        invariant
            grows(*old(cs), *cs),
            i <= SIZE,
            xs == values(*x),
            ys == values(*y),
            bound == all_variables(x@),
            forall|a: int, b: int| 0 <= a < i && 0 <= b < SIZE ==> xs[a] != ys[b],
            bound ==> variables(*cs) == variables(*old(cs)) + disjoint_tests(xs, ys, i as nat),
            bound ==> gate_count(*cs) == gate_count(*old(cs)) + disjoint_tests(
                xs,
                ys,
                i as nat,
            ).len(),
        decreases SIZE - i,
    {
        let ghost base = variables(*cs);
        let ghost gates = gate_count(*cs);
        let mut j: usize = 0;
        while j < SIZE
            invariant
                grows(*old(cs), *cs),
                i < SIZE,
                j <= SIZE,
                xs == values(*x),
                ys == values(*y),
                bound == all_variables(x@),
                forall|a: int, b: int| 0 <= a < i && 0 <= b < SIZE ==> xs[a] != ys[b],
                forall|b: int| 0 <= b < j ==> xs[i as int] != ys[b],
                bound ==> base == variables(*old(cs)) + disjoint_tests(xs, ys, i as nat),
                bound ==> gates == gate_count(*old(cs)) + disjoint_tests(xs, ys, i as nat).len(),
                bound ==> variables(*cs) == base + cross_tests(xs, ys, i as int, j as nat),
                bound ==> gate_count(*cs) == gates + cross_tests(xs, ys, i as int, j as nat).len(),
            decreases SIZE - j,
        {
            let same = Num::equals(cs, &x[i], &y[j])?;
            proof {
                if bound {
                    assert(!(x@[i as int].bound() is Constant));
                    assert(variables(*cs) =~= base + (cross_tests(xs, ys, i as int, j as nat)
                        + equality_allocations(xs[i as int], ys[j as int])));
                }
            }
            if same {
                assert(xs[i as int] == ys[j as int]);
                proof {
                    if bound {
                        assert(first_common(xs, ys, i as int, j as int));
                        assert(added(*old(cs), *cs) =~= Seq::<int>::empty() + disjoint_tests(
                            xs,
                            ys,
                            i as nat,
                        ) + cross_tests(xs, ys, i as int, (j + 1) as nat));
                    }
                }
                return Ok(false);
            }
            j += 1;
        }
        proof {
            if bound {
                assert(variables(*cs) =~= variables(*old(cs)) + (disjoint_tests(xs, ys, i as nat)
                    + cross_tests(xs, ys, i as int, SIZE as nat)));
            }
        }
        i += 1;
    }
    proof {
        if bound {
            assert(added(*old(cs), *cs) =~= disjoint_tests(xs, ys, SIZE as nat));
        }
    }
    Ok(true)
}

/// Whether two vectors of circuit numbers can define a Cauchy matrix,
/// decided by equality gates so that the circuit itself holds the answer.
/// Every test of two variables takes three gates and variables. The
/// check makes every test, or stops at the first collision: in `x`, else
/// in `y`, else between the two.
pub fn veryfy_vector_corectnes<const SIZE: usize>(
    cs: &mut Assembly,
    x: &[Num; SIZE],
    y: &[Num; SIZE],
) -> (r: Result<bool, CipherError>)
    ensures
        r is Ok,
        r matches Ok(b) ==> b == cauchy_vectors(values(*x), values(*y)),
        r matches Ok(true) && all_variables(x@) && all_variables(y@) ==> variables(*final(cs))
            == variables(*old(cs)) + verification_allocations(values(*x), values(*y)),
        r matches Ok(false) && all_variables(x@) && all_variables(y@) ==> collision_trace(
            values(*x),
            values(*y),
            added(*old(cs), *final(cs)),
        ),
        all_variables(x@) && all_variables(y@) ==> gate_count(*final(cs)) == gate_count(*old(cs))
            + added(*old(cs), *final(cs)).len(),
        grows(*old(cs), *final(cs)),
{
    let ghost xs = values(*x);
    let ghost ys = values(*y);
    let ghost bound = all_variables(x@) && all_variables(y@);
    if !distinct_numbers(cs, x)? {
        return Ok(false);
    }
    let ghost first = *cs;
    if !distinct_numbers(cs, y)? {
        proof {
            if bound {
                let u = added(first, *cs);
                let (i, j) = choose|i: int, j: int|
                    #[trigger] first_repeat(ys, i, j) && u == Seq::<int>::empty() + distinct_tests(
                        ys,
                        i as nat,
                    ) + row_tests(ys, i, (j + 1) as nat);
                assert(variables(*cs) =~= variables(first) + u);
                assert(added(*old(cs), *cs) =~= distinct_tests(xs, SIZE as nat) + distinct_tests(
                    ys,
                    i as nat,
                ) + row_tests(ys, i, (j + 1) as nat));
                assert(repeat_trace(distinct_tests(xs, xs.len()), ys, added(*old(cs), *cs)));
            }
        }
        return Ok(false);
    }
    let ghost second = *cs;
    let disjoint = disjoint_numbers(cs, x, y)?;
    proof {
        if bound {
            if disjoint {
                assert(variables(*cs) =~= variables(*old(cs)) + verification_allocations(xs, ys));
            } else {
                let u = added(second, *cs);
                let (i, j) = choose|i: int, j: int|
                    #[trigger] first_common(xs, ys, i, j) && u == Seq::<int>::empty()
                        + disjoint_tests(xs, ys, i as nat) + cross_tests(
                        xs,
                        ys,
                        i,
                        (j + 1) as nat,
                    );
                assert(variables(*cs) =~= variables(second) + u);
                assert(variables(second) =~= variables(*old(cs)) + distinct_tests(xs, SIZE as nat)
                    + distinct_tests(ys, SIZE as nat));
                assert(added(*old(cs), *cs) =~= distinct_tests(xs, SIZE as nat) + distinct_tests(
                    ys,
                    SIZE as nat,
                ) + disjoint_tests(xs, ys, i as nat) + cross_tests(xs, ys, i, (j + 1) as nat));
                assert(common_trace(
                    distinct_tests(xs, xs.len()) + distinct_tests(ys, ys.len()),
                    xs,
                    ys,
                    added(*old(cs), *cs),
                ));
            }
        }
    }
    Ok(disjoint)
}

/// Binds every element of a cleartext vector to a new variable, in the
/// order of the vector. No gate is added.
pub fn allocate_vector<const SIZE: usize>(cs: &mut Assembly, v: &[FieldElement; SIZE]) -> (r:
    Result<[Num; SIZE], CipherError>)
    ensures
        r is Ok,
        r matches Ok(n) ==> values(n) == elements(*v),
        r matches Ok(n) ==> forall|k: int| 0 <= k < SIZE ==> in_range(#[trigger] values(n)[k]),
        r matches Ok(n) ==> forall|k: int|
            0 <= k < SIZE ==> bound_to(#[trigger] n[k], (variables(*old(cs)).len() + k + 1) as nat),
        r matches Ok(n) ==> all_variables(n@) && all_known(n@, *final(cs)),
        variables(*final(cs)) == variables(*old(cs)) + elements(*v),
        gate_count(*final(cs)) == gate_count(*old(cs)),
        grows(*old(cs), *final(cs)),
{
    let mut out: [Num; SIZE] = [Num::zero(); SIZE];
    let ghost start = variables(*cs).len();
    let mut i: usize = 0;
    while i < SIZE
        invariant
            grows(*old(cs), *cs),
            i <= SIZE,
            start == variables(*old(cs)).len(),
            forall|k: int| 0 <= k < i ==> (#[trigger] out[k])@ == v[k]@,
            forall|k: int| 0 <= k < i ==> in_range((#[trigger] out[k])@),
            forall|k: int| 0 <= k < i ==> bound_to(#[trigger] out[k], (start + k + 1) as nat),
            forall|k: int| 0 <= k < i ==> known(#[trigger] out[k], *cs),
            variables(*cs) == variables(*old(cs)) + elements(*v).take(i as int),
            gate_count(*cs) == gate_count(*old(cs)),
        decreases SIZE - i,
    {
        let n = Num::allocate(cs, &v[i])?;
        proof {
            use_type_invariant(&n);
            n.lemma_well_formed();
            assert(elements(*v).take(i + 1) =~= elements(*v).take(i as int).push(v[i as int]@));
            assert(variables(*cs) =~= variables(*old(cs)) + elements(*v).take(i + 1));
        }
        out[i] = n;
        i += 1;
    }
    assert(values(out) =~= elements(*v));
    assert(elements(*v).take(SIZE as int) =~= elements(*v));
    Ok(out)
}

/// The values of the variables that the first `j` entries of row `i` of a
/// Cauchy matrix allocate: for each entry the difference and its inverse.
pub open spec fn cauchy_row_allocations(x: Seq<int>, y: Seq<int>, i: int, j: nat) -> Seq<int>
    decreases j,
{
    if j == 0 {
        Seq::empty()
    } else {
        cauchy_row_allocations(x, y, i, (j - 1) as nat).push(fsub(x[i], y[j - 1])).push(
            finv(fsub(x[i], y[j - 1])),
        )
    }
}

/// The values of the variables that the first `i` rows of a Cauchy matrix
/// allocate.
pub open spec fn cauchy_allocations(x: Seq<int>, y: Seq<int>, i: nat) -> Seq<int>
    decreases i,
{
    if i == 0 {
        Seq::empty()
    } else {
        cauchy_allocations(x, y, (i - 1) as nat) + cauchy_row_allocations(x, y, i - 1, y.len())
    }
}

/// Builds the Cauchy matrix of two cleartext vectors in the circuit.
///
/// `vectors[0]` is `x` and `vectors[1]` is `y`. Both are bound to new
/// variables, the circuit checks once more that they can define a Cauchy
/// matrix, and entry (`i`, `j`) becomes the inverse of `x[i] - y[j]`, by
/// one subtraction and one inversion. Where they cannot, `VectorCollision`
/// comes back. A matrix of three rows and columns that comes back is
/// maximum distance separable.
pub fn generate_mds_matrix<const SIZE: usize>(
    cs: &mut Assembly,
    vectors: &[[FieldElement; SIZE]; 2],
) -> (r: Result<MdsMatrix<SIZE>, CipherError>)
    ensures
        cauchy_vectors(elements(vectors[0]), elements(vectors[1])) <==> r is Ok,
        r matches Ok(m) ==> is_cauchy_matrix(m@, elements(vectors[0]), elements(vectors[1])) && m@
            == cauchy_matrix(elements(vectors[0]), elements(vectors[1])) && is_square(
            m@,
            SIZE as nat,
        ) && no_zero_entry(m@) && (SIZE == 3 ==> is_mds3(m@)),
        !cauchy_vectors(elements(vectors[0]), elements(vectors[1])) <==> r matches Err(
            CipherError::VectorCollision,
        ),
        r matches Ok(m) ==> matrix_variables(m) && matrix_known(m, *final(cs)),
        r is Ok ==> variables(*final(cs)) == variables(*old(cs)) + elements(vectors[0]) + elements(
            vectors[1],
        ) + verification_allocations(elements(vectors[0]), elements(vectors[1]))
            + cauchy_allocations(elements(vectors[0]), elements(vectors[1]), SIZE as nat),
        r is Ok ==> gate_count(*final(cs)) == gate_count(*old(cs)) + verification_allocations(
            elements(vectors[0]),
            elements(vectors[1]),
        ).len() + cauchy_allocations(elements(vectors[0]), elements(vectors[1]), SIZE as nat).len(),
        variables(*old(cs)) + elements(vectors[0]) + elements(vectors[1]) == variables(
            *final(cs),
        ).take(variables(*old(cs)).len() + 2 * SIZE),
        r is Err ==> collision_trace(
            elements(vectors[0]),
            elements(vectors[1]),
            variables(*final(cs)).skip(variables(*old(cs)).len() + 2 * SIZE),
        ) && gate_count(*final(cs)) == gate_count(*old(cs)) + variables(*final(cs)).len()
            - variables(*old(cs)).len() - 2 * SIZE,
        grows(*old(cs), *final(cs)),
{
    let x = allocate_vector(cs, &vectors[0])?;
    let y = allocate_vector(cs, &vectors[1])?;
    let ghost bound = variables(*cs);
    let ghost allocated = *cs;
    proof {
        assert(bound =~= variables(*old(cs)) + elements(vectors[0]) + elements(vectors[1]));
        assert(all_known(x@, *cs));
    }
    let fit = veryfy_vector_corectnes(cs, &x, &y)?;
    proof {
        assert(bound =~= variables(*cs).take(bound.len() as int));
    }
    if !fit {
        assert(added(allocated, *cs) == variables(*cs).skip(
            variables(*old(cs)).len() + 2 * SIZE,
        ));
        return Err(CipherError::VectorCollision);
    }
    let ghost xs = values(x);
    let ghost ys = values(y);
    let ghost base = variables(*cs);
    let ghost gates = gate_count(*cs);
    let mut mds_matrix = MdsMatrix::<SIZE>::zero();
    let mut i: usize = 0;
    while i < SIZE
        invariant
            grows(*old(cs), *cs),
            i <= SIZE,
            all_variables(x@),
            all_variables(y@),
            bound.len() <= base.len(),
            bound.len() == variables(*old(cs)).len() + 2 * SIZE,
            variables(*cs) == base + cauchy_allocations(xs, ys, i as nat),
            gate_count(*cs) == gates + cauchy_allocations(xs, ys, i as nat).len(),
            forall|a: int, b: int|
                #![trigger mds_matrix.data[a][b]]
                0 <= a < i && 0 <= b < SIZE ==> !(mds_matrix.data[a][b].bound() is Constant)
                    && known(mds_matrix.data[a][b], *cs),
            xs == values(x),
            ys == values(y),
            cauchy_vectors(xs, ys),
            forall|a: int, b: int|
                0 <= a < i && 0 <= b < SIZE ==> is_inverse(
                    #[trigger] mds_matrix.data[a][b]@,
                    fsub(xs[a], ys[b]),
                ),
        decreases SIZE - i,
    {
        let mut row: [Num; SIZE] = mds_matrix.data[i];
        let ghost row_base = variables(*cs);
        let ghost row_gates = gate_count(*cs);
        let mut j: usize = 0;
        while j < SIZE
            invariant
                grows(*old(cs), *cs),
                i < SIZE,
                j <= SIZE,
                all_variables(x@),
                all_variables(y@),
                variables(*cs) == row_base + cauchy_row_allocations(xs, ys, i as int, j as nat),
                gate_count(*cs) == row_gates + cauchy_row_allocations(
                    xs,
                    ys,
                    i as int,
                    j as nat,
                ).len(),
                forall|a: int, b: int|
                    #![trigger mds_matrix.data[a][b]]
                    0 <= a < i && 0 <= b < SIZE ==> !(mds_matrix.data[a][b].bound() is Constant)
                        && known(mds_matrix.data[a][b], *cs),
                forall|b: int|
                    #![trigger row[b]]
                    0 <= b < j ==> !(row[b].bound() is Constant) && known(row[b], *cs),
                xs == values(x),
                ys == values(y),
                cauchy_vectors(xs, ys),
                forall|b: int|
                    0 <= b < j ==> is_inverse(#[trigger] row[b]@, fsub(xs[i as int], ys[b])),
            decreases SIZE - j,
        {
            let xi: Num = x[i];
            let yj: Num = y[j];
            let difference = xi.sub(cs, &yj)?;
            proof {
                use_type_invariant(&xi);
                use_type_invariant(&yj);
                xi.lemma_well_formed();
                yj.lemma_well_formed();
                assert(xs[i as int] != ys[j as int]);
                lemma_fsub_zero(xi@, yj@);
            }
            let entry = difference.inverse(cs)?;
            proof {
                assert(!(x@[i as int].bound() is Constant));
                lemma_finv(entry@, difference@);
                assert(variables(*cs) =~= row_base + cauchy_row_allocations(
                    xs,
                    ys,
                    i as int,
                    j as nat,
                ).push(fsub(xs[i as int], ys[j as int])).push(
                    finv(fsub(xs[i as int], ys[j as int])),
                ));
            }
            row[j] = entry;
            j += 1;
        }
        proof {
            assert(variables(*cs) =~= base + (cauchy_allocations(xs, ys, i as nat)
                + cauchy_row_allocations(xs, ys, i as int, SIZE as nat)));
        }
        mds_matrix.data[i] = row;
        i += 1;
    }
    proof {
        assert forall|a: int, b: int| 0 <= a < SIZE && 0 <= b < SIZE implies in_range(
            #[trigger] mds_matrix@[a][b],
        ) by {
            assert(is_inverse(mds_matrix.data[a][b]@, fsub(xs[a], ys[b])));
        }
        assert(is_cauchy_matrix(mds_matrix@, xs, ys));
        assert forall|a: int, b: int|
            0 <= a < mds_matrix@.len() && 0 <= b < mds_matrix@[a].len() implies (
        #[trigger] mds_matrix@[a][b]) != 0 by {
            lemma_inverse_nonzero(mds_matrix@[a][b], fsub(xs[a], ys[b]));
        }
        assert forall|a: int| 0 <= a < SIZE implies (#[trigger] mds_matrix@[a]) =~= cauchy_matrix(
            xs,
            ys,
        )[a] by {
            assert forall|b: int| 0 <= b < SIZE implies mds_matrix@[a][b] == finv(
                fsub(xs[a], ys[b]),
            ) by {
                lemma_finv(mds_matrix@[a][b], fsub(xs[a], ys[b]));
            }
        }
        assert(mds_matrix@ =~= cauchy_matrix(xs, ys));
        if SIZE == 3 {
            lemma_cauchy_is_mds(mds_matrix@, xs, ys);
        }
        assert(variables(*cs) =~= variables(*old(cs)) + elements(vectors[0]) + elements(
            vectors[1],
        ) + verification_allocations(xs, ys) + cauchy_allocations(xs, ys, SIZE as nat));
        assert(bound =~= variables(*cs).take(bound.len() as int));
    }
    Ok(mds_matrix)
}

/// The product of three numbers is congruent to the product of their values.
proof fn lemma_triple_cong(a: int, b: int, c: int)
    ensures
        cong(fmul(fmul(a, b), c), a * b * c),
{
    lemma_fmul_cong(a, a, b, b);
    lemma_fmul_cong(fmul(a, b), a * b, c, c);
}

/// No entry of the matrix is a constant.
pub open spec fn matrix_variables<const SIZE: usize>(m: MdsMatrix<SIZE>) -> bool {
    forall|i: int, j: int|
        #![trigger m.data[i][j]]
        0 <= i < SIZE && 0 <= j < SIZE ==> !(m.data[i][j].bound() is Constant)
}

/// Every entry of the matrix is a constant.
pub open spec fn matrix_constants<const SIZE: usize>(m: MdsMatrix<SIZE>) -> bool {
    forall|i: int, j: int|
        #![trigger m.data[i][j]]
        0 <= i < SIZE && 0 <= j < SIZE ==> m.data[i][j].bound() is Constant
}

/// Every entry of the matrix is known to the constraint system.
pub open spec fn matrix_known<const SIZE: usize>(m: MdsMatrix<SIZE>, cs: Assembly) -> bool {
    forall|i: int, j: int|
        #![trigger m.data[i][j]]
        0 <= i < SIZE && 0 <= j < SIZE ==> known(m.data[i][j], cs)
}

/// The values of the two variables that the product of three variables
/// allocates: the product of the first two, and the product of all three.
pub open spec fn triple_allocations(a: int, b: int, c: int) -> Seq<int> {
    seq![fmul(a, b), fmul(fmul(a, b), c)]
}

/// The values of the seventeen variables that the determinant of a matrix
/// of variables allocates: two for each of the six products, and five for
/// the sums and differences.
pub open spec fn det_allocations(v: Seq<Seq<int>>) -> Seq<int> {
    let s123 = fmul(fmul(v[0][0], v[1][1]), v[2][2]);
    let s132 = fmul(fmul(v[0][0], v[1][2]), v[2][1]);
    let s213 = fmul(fmul(v[0][1], v[1][0]), v[2][2]);
    let s231 = fmul(fmul(v[0][1], v[1][2]), v[2][0]);
    let s312 = fmul(fmul(v[0][2], v[1][0]), v[2][1]);
    let s321 = fmul(fmul(v[0][2], v[1][1]), v[2][0]);
    let t1 = fadd(s123, s231);
    let t2 = fadd(t1, s312);
    let t3 = fsub(t2, s132);
    let t4 = fsub(t3, s321);
    triple_allocations(v[0][0], v[1][1], v[2][2]) + triple_allocations(v[0][0], v[1][2], v[2][1])
        + triple_allocations(v[0][1], v[1][0], v[2][2]) + triple_allocations(
        v[0][1],
        v[1][2],
        v[2][0],
    ) + triple_allocations(v[0][2], v[1][0], v[2][1]) + triple_allocations(
        v[0][2],
        v[1][1],
        v[2][0],
    ) + seq![t1, t2, t3, t4, fsub(t4, s213)]
}

/// The product of three numbers, by two multiplications. Where the first
/// two are not both constants, each multiplication takes a gate, whose
/// result is a new variable. The product of three constants is a constant
/// and takes none.
fn triple_product(cs: &mut Assembly, a: &Num, b: &Num, c: &Num) -> (r: Result<Num, CipherError>)
    ensures
        r is Ok,
        r matches Ok(n) ==> n@ == fmul(fmul(a@, b@), c@),
        r matches Ok(n) ==> (allocates(*a, *b) ==> bound_to(n, variables(*old(cs)).len() + 2)),
        allocates(*a, *b) ==> variables(*final(cs)) == variables(*old(cs)) + triple_allocations(
            a@,
            b@,
            c@,
        ) && gate_count(*final(cs)) == gate_count(*old(cs)) + 2,
        r matches Ok(n) ==> (!allocates(*a, *b) && c.bound() is Constant ==> unchanged(
            *old(cs),
            *final(cs),
        ) && n.bound() is Constant),
        grows(*old(cs), *final(cs)),
{
    let first = a.mul(cs, b)?;
    let second = first.mul(cs, c)?;
    proof {
        if allocates(*a, *b) {
            assert(variables(*cs) =~= variables(*old(cs)) + triple_allocations(a@, b@, c@));
        }
    }
    Ok(second)
}

/// The determinant of a matrix of three rows and columns: six products of
/// three entries each, three of them added and three subtracted. For any
/// other size there is no answer.
pub fn matrix_det<const SIZE: usize>(cs: &mut Assembly, mds_matrix: &MdsMatrix<SIZE>) -> (r: Result<
    Num,
    CipherError,
>)
    ensures
        SIZE == 3 <==> r is Ok,
        r matches Ok(d) ==> d@ == det3(mds_matrix@),
        r matches Ok(d) ==> (matrix_variables(*mds_matrix) ==> bound_to(
            d,
            variables(*old(cs)).len() + 17,
        )),
        r is Ok && matrix_variables(*mds_matrix) ==> variables(*final(cs)) == variables(*old(cs))
            + det_allocations(mds_matrix@) && gate_count(*final(cs)) == gate_count(*old(cs)) + 17,
        r matches Err(e) ==> e is UnsupportedSize && unchanged(*old(cs), *final(cs)),
        matrix_constants(*mds_matrix) ==> unchanged(*old(cs), *final(cs)),
        r matches Ok(d) ==> (matrix_constants(*mds_matrix) ==> d.bound() is Constant),
        grows(*old(cs), *final(cs)),
{
    if SIZE != 3 {
        return Err(CipherError::UnsupportedSize);
    }
    let m = &mds_matrix.data;
    let ghost v = mds_matrix@;
    proof {
        if matrix_constants(*mds_matrix) {
            assert(m[0][0].bound() is Constant && m[0][1].bound() is Constant
                && m[0][2].bound() is Constant);
            assert(m[1][0].bound() is Constant && m[1][1].bound() is Constant
                && m[1][2].bound() is Constant);
            assert(m[2][0].bound() is Constant && m[2][1].bound() is Constant
                && m[2][2].bound() is Constant);
        }
    }
    let s123 = triple_product(cs, &m[0][0], &m[1][1], &m[2][2])?;
    let s132 = triple_product(cs, &m[0][0], &m[1][2], &m[2][1])?;
    let s213 = triple_product(cs, &m[0][1], &m[1][0], &m[2][2])?;
    let s231 = triple_product(cs, &m[0][1], &m[1][2], &m[2][0])?;
    let s312 = triple_product(cs, &m[0][2], &m[1][0], &m[2][1])?;
    let s321 = triple_product(cs, &m[0][2], &m[1][1], &m[2][0])?;
    let t1 = s123.add(cs, &s231)?;
    let t2 = t1.add(cs, &s312)?;
    let t3 = t2.sub(cs, &s132)?;
    let t4 = t3.sub(cs, &s321)?;
    let result = t4.sub(cs, &s213)?;
    proof {
        let p123 = v[0][0] * v[1][1] * v[2][2];
        let p132 = v[0][0] * v[1][2] * v[2][1];
        let p213 = v[0][1] * v[1][0] * v[2][2];
        let p231 = v[0][1] * v[1][2] * v[2][0];
        let p312 = v[0][2] * v[1][0] * v[2][1];
        let p321 = v[0][2] * v[1][1] * v[2][0];
        lemma_triple_cong(v[0][0], v[1][1], v[2][2]);
        lemma_triple_cong(v[0][0], v[1][2], v[2][1]);
        lemma_triple_cong(v[0][1], v[1][0], v[2][2]);
        lemma_triple_cong(v[0][1], v[1][2], v[2][0]);
        lemma_triple_cong(v[0][2], v[1][0], v[2][1]);
        lemma_triple_cong(v[0][2], v[1][1], v[2][0]);
        lemma_fadd_cong(s123@, p123, s231@, p231);
        lemma_fadd_cong(t1@, p123 + p231, s312@, p312);
        lemma_fsub_cong(t2@, p123 + p231 + p312, s132@, p132);
        lemma_fsub_cong(t3@, p123 + p231 + p312 - p132, s321@, p321);
        lemma_fsub_cong(t4@, p123 + p231 + p312 - p132 - p321, s213@, p213);
        lemma_results_in_range(t4@, s213@);
        lemma_in_range_mod(result@);
        if matrix_variables(*mds_matrix) {
            assert(!(m[0][0].bound() is Constant) && !(m[0][1].bound() is Constant) && !(
            m[0][2].bound() is Constant));
            assert(v[0][0] == m[0][0]@ && v[1][1] == m[1][1]@ && v[2][2] == m[2][2]@);
            assert(v[0][1] == m[0][1]@ && v[1][2] == m[1][2]@ && v[2][0] == m[2][0]@);
            assert(v[0][2] == m[0][2]@ && v[1][0] == m[1][0]@ && v[2][1] == m[2][1]@);
            assert(variables(*cs) =~= variables(*old(cs)) + det_allocations(v));
        }
    }
    Ok(result)
}

/// The values of the four variables that one entry of the inverse of a
/// matrix of variables allocates: two products, their difference, which is
/// the cofactor of entry (`i`, `j`), and its quotient by the determinant.
pub open spec fn entry_allocations(v: Seq<Seq<int>>, i: int, j: int) -> Seq<int> {
    let a = fmul(v[(i + 1) % 3][(j + 1) % 3], v[(i + 2) % 3][(j + 2) % 3]);
    let b = fmul(v[(i + 1) % 3][(j + 2) % 3], v[(i + 2) % 3][(j + 1) % 3]);
    seq![a, b, fsub(a, b), fmul(fsub(a, b), finv(det3(v)))]
}

/// The values of the variables that the first `k` entries of the inverse
/// allocate, the cofactors taken row by row.
pub open spec fn adjugate_allocations(v: Seq<Seq<int>>, k: nat) -> Seq<int>
    decreases k,
{
    if k == 0 {
        Seq::empty()
    } else {
        adjugate_allocations(v, (k - 1) as nat) + entry_allocations(v, (k - 1) / 3, (k - 1) % 3)
    }
}

/// The values of the variables that the zero test of the determinant
/// allocates after the determinant itself.
pub open spec fn tested_det_allocations(v: Seq<Seq<int>>) -> Seq<int> {
    det_allocations(v) + seq![zero_flag(det3(v)), zero_helper(det3(v))]
}

/// The inverse of a matrix of three rows and columns: its adjugate over its
/// determinant.
///
/// A zero determinant gives `SingularMatrix`, and any other size
/// `UnsupportedSize`. For a matrix of variables, the determinant and its
/// zero test take nineteen gates and variables, and each of the nine
/// entries four more.
pub fn inverse_matrix<const SIZE: usize>(cs: &mut Assembly, mds_matrix: &MdsMatrix<SIZE>) -> (r:
    Result<MdsMatrix<SIZE>, CipherError>)
    ensures
        SIZE == 3 && det3(mds_matrix@) != 0 <==> r is Ok,
        r matches Ok(inv) ==> {
            &&& is_adjugate_inverse(inv@, mds_matrix@)
            &&& is_identity(mat_mul(mds_matrix@, inv@), 3)
            &&& is_identity(mat_mul(inv@, mds_matrix@), 3)
        },
        SIZE != 3 <==> r matches Err(CipherError::UnsupportedSize),
        SIZE == 3 && det3(mds_matrix@) == 0 <==> r matches Err(CipherError::SingularMatrix),
        SIZE != 3 ==> unchanged(*old(cs), *final(cs)),
        r matches Ok(inv) ==> (matrix_variables(*mds_matrix) ==> matrix_variables(inv)
            && matrix_known(inv, *final(cs))),
        r is Ok && matrix_variables(*mds_matrix) ==> variables(*final(cs)) == variables(*old(cs))
            + tested_det_allocations(mds_matrix@) + adjugate_allocations(mds_matrix@, 9)
            && gate_count(*final(cs)) == gate_count(*old(cs)) + 55,
        r matches Err(CipherError::SingularMatrix) && matrix_variables(*mds_matrix) ==> variables(
            *final(cs),
        ) == variables(*old(cs)) + tested_det_allocations(mds_matrix@) && gate_count(*final(cs))
            == gate_count(*old(cs)) + 19,
        matrix_constants(*mds_matrix) ==> unchanged(*old(cs), *final(cs)),
        r matches Ok(inv) ==> (matrix_constants(*mds_matrix) ==> matrix_constants(inv)),
        grows(*old(cs), *final(cs)),
{
    if SIZE != 3 {
        return Err(CipherError::UnsupportedSize);
    }
    let det = matrix_det(cs, mds_matrix)?;
    let singular = det.is_zero(cs)?;
    let ghost bound = matrix_variables(*mds_matrix);
    let ghost fixed = matrix_constants(*mds_matrix);
    let ghost base = variables(*cs);
    let ghost gates = gate_count(*cs);
    proof {
        if bound {
            assert(base =~= variables(*old(cs)) + tested_det_allocations(mds_matrix@));
        }
    }
    if singular {
        return Err(CipherError::SingularMatrix);
    }
    let m = &mds_matrix.data;
    let ghost v = mds_matrix@;
    let ghost d = det3(v);
    let mut mds_invert_matrix = MdsMatrix::<SIZE>::zero();
    let mut i: usize = 0;
    while i < 3
        invariant
            grows(*old(cs), *cs),
            SIZE == 3,
            i <= 3,
            bound == matrix_variables(*mds_matrix),
            fixed == matrix_constants(*mds_matrix),
            fixed ==> det.bound() is Constant && unchanged(*old(cs), *cs),
            fixed ==> forall|a: int, b: int|
                #![trigger mds_invert_matrix.data[b][a]]
                0 <= a < 3 && 0 <= b < 3 ==> mds_invert_matrix.data[b][a].bound() is Constant,
            bound ==> !(det.bound() is Constant),
            bound ==> base == variables(*old(cs)) + tested_det_allocations(v),
            bound ==> gates == gate_count(*old(cs)) + 19,
            bound ==> variables(*cs) == base + adjugate_allocations(v, (3 * i) as nat),
            bound ==> gate_count(*cs) == gates + 12 * i,
            bound ==> forall|a: int, b: int|
                #![trigger mds_invert_matrix.data[b][a]]
                0 <= a < i && 0 <= b < 3 ==> !(mds_invert_matrix.data[b][a].bound() is Constant)
                    && known(mds_invert_matrix.data[b][a], *cs),
            m == &mds_matrix.data,
            v == mds_matrix@,
            d == det3(v),
            det@ == d,
            d != 0,
            i > 0 ==> is_inverse(finv(d), d),
            forall|a: int, b: int|
                0 <= a < i && 0 <= b < 3 ==> (#[trigger] mds_invert_matrix.data[b][a])@ == fmul(
                    cofactor3(v, a, b),
                    finv(d),
                ),
        decreases 3 - i,
    {
        let mut j: usize = 0;
        while j < 3
            invariant
                grows(*old(cs), *cs),
                SIZE == 3,
                i < 3,
                j <= 3,
                bound == matrix_variables(*mds_matrix),
                fixed == matrix_constants(*mds_matrix),
                fixed ==> det.bound() is Constant && unchanged(*old(cs), *cs),
                fixed ==> forall|a: int, b: int|
                    #![trigger mds_invert_matrix.data[b][a]]
                    0 <= a < 3 && 0 <= b < 3 ==> mds_invert_matrix.data[b][a].bound() is Constant,
                bound ==> !(det.bound() is Constant),
                bound ==> variables(*cs) == base + adjugate_allocations(v, (3 * i + j) as nat),
                bound ==> gate_count(*cs) == gates + 12 * i + 4 * j,
                bound ==> forall|a: int, b: int|
                    #![trigger mds_invert_matrix.data[b][a]]
                    0 <= a < i && 0 <= b < 3 ==> !(mds_invert_matrix.data[b][a].bound()
                        is Constant) && known(mds_invert_matrix.data[b][a], *cs),
                bound ==> forall|b: int|
                    #![trigger mds_invert_matrix.data[b][i as int]]
                    0 <= b < j ==> !(mds_invert_matrix.data[b][i as int].bound() is Constant)
                        && known(mds_invert_matrix.data[b][i as int], *cs),
                m == &mds_matrix.data,
                v == mds_matrix@,
                d == det3(v),
                det@ == d,
                d != 0,
                i > 0 || j > 0 ==> is_inverse(finv(d), d),
                forall|a: int, b: int|
                    0 <= a < i && 0 <= b < 3 ==> (#[trigger] mds_invert_matrix.data[b][a])@ == fmul(
                        cofactor3(v, a, b),
                        finv(d),
                    ),
                forall|b: int|
                    0 <= b < j ==> (#[trigger] mds_invert_matrix.data[b][i as int])@ == fmul(
                        cofactor3(v, i as int, b),
                        finv(d),
                    ),
            decreases 3 - j,
        {
            let a = m[(i + 1) % 3][(j + 1) % 3].mul(cs, &m[(i + 2) % 3][(j + 2) % 3])?;
            let b = m[(i + 1) % 3][(j + 2) % 3].mul(cs, &m[(i + 2) % 3][(j + 1) % 3])?;
            let c = a.sub(cs, &b)?;
            let quotient = c.div(cs, &det)?;
            proof {
                let e = choose|e: int| is_inverse(e, det@) && quotient@ == fmul(c@, e);
                lemma_finv(e, d);
                let m11 = v[(i + 1) % 3][(j + 1) % 3];
                let m22 = v[(i + 2) % 3][(j + 2) % 3];
                let m12 = v[(i + 1) % 3][(j + 2) % 3];
                let m21 = v[(i + 2) % 3][(j + 1) % 3];
                lemma_fmul_cong(m11, m11, m22, m22);
                lemma_fmul_cong(m12, m12, m21, m21);
                lemma_fsub_cong(a@, m11 * m22, b@, m12 * m21);
                lemma_results_in_range(a@, b@);
                lemma_in_range_mod(c@);
                assert(c@ == cofactor3(v, i as int, j as int));
                if fixed {
                    assert(m[(i + 1) % 3][(j + 1) % 3].bound() is Constant);
                    assert(m[(i + 2) % 3][(j + 2) % 3].bound() is Constant);
                    assert(m[(i + 1) % 3][(j + 2) % 3].bound() is Constant);
                    assert(m[(i + 2) % 3][(j + 1) % 3].bound() is Constant);
                }
                if bound {
                    assert(!(m[(i + 1) % 3][(j + 1) % 3].bound() is Constant));
                    assert(!(m[(i + 1) % 3][(j + 2) % 3].bound() is Constant));
                    let k = (3 * i + j) as nat;
                    assert(variables(*cs) =~= base + (adjugate_allocations(v, k)
                        + entry_allocations(v, i as int, j as int)));
                    assert(adjugate_allocations(v, k + 1) == adjugate_allocations(v, k)
                        + entry_allocations(v, i as int, j as int));
                }
            }
            let mut column: [Num; SIZE] = mds_invert_matrix.data[j];
            column[i] = quotient;
            mds_invert_matrix.data[j] = column;
            j += 1;
        }
        i += 1;
    }
    proof {
        let inv = mds_invert_matrix@;
        assert forall|a: int, b: int| 0 <= a < 3 && 0 <= b < 3 implies in_range(
            #[trigger] inv[a][b],
        ) by {
            assert(mds_invert_matrix.data[a][b]@ == fmul(cofactor3(v, b, a), finv(d)));
            lemma_results_in_range(cofactor3(v, b, a), finv(d));
        }
        assert forall|a: int, b: int| 0 <= a < 3 && 0 <= b < 3 implies (#[trigger] inv[b][a])
            == fmul(cofactor3(v, a, b), finv(d)) by {
            assert(mds_invert_matrix.data[b][a]@ == fmul(cofactor3(v, a, b), finv(d)));
        }
        lemma_adjugate_inverts(v, inv);
        if bound {
            assert(variables(*cs) =~= variables(*old(cs)) + tested_det_allocations(v)
                + adjugate_allocations(v, 9));
        }
    }
    Ok(mds_invert_matrix)
}

/// An operation on `a` and `b` adds a gate and a variable for its result:
/// it does unless both are constants.
pub open spec fn allocates(a: Num, b: Num) -> bool {
    !(a.bound() is Constant && b.bound() is Constant)
}

/// A dot product has met a variable among the first `k` entries of `x` and
/// `y`, so that its running sum is a variable.
pub open spec fn dot_started(x: Seq<Num>, y: Seq<Num>, k: nat) -> bool
    decreases k,
{
    if k == 0 {
        false
    } else {
        dot_started(x, y, (k - 1) as nat) || allocates(x[k - 1], y[k - 1])
    }
}

/// The values of the variables that a dot product allocates for the first
/// `k` entries of `x` and `y`: for each entry its product, unless both
/// factors are constants, and then the running sum, once a variable has
/// been met.
pub open spec fn dot_allocations(x: Seq<Num>, y: Seq<Num>, k: nat) -> Seq<int>
    decreases k,
{
    if k == 0 {
        Seq::empty()
    } else {
        let before = dot_allocations(x, y, (k - 1) as nat);
        let product = if allocates(x[k - 1], y[k - 1]) {
            seq![fmul(x[k - 1]@, y[k - 1]@)]
        } else {
            Seq::empty()
        };
        let sum = if dot_started(x, y, k) {
            seq![int_dot(x.map_values(|n: Num| n@), y.map_values(|n: Num| n@), k) % modulus()]
        } else {
            Seq::empty()
        };
        before + product + sum
    }
}

/// The dot product of two vectors: one multiplication and one addition for
/// each entry.
///
/// Constants are folded: a product of two constants takes no gate, and
/// neither does a sum while no variable has been met. Every other step
/// takes one gate, whose result is a new variable.
pub fn dot_product<const SIZE: usize>(cs: &mut Assembly, x: &[Num; SIZE], y: &[Num; SIZE]) -> (r:
    Result<Num, CipherError>)
    ensures
        r is Ok,
        r matches Ok(n) ==> n@ == dot(values(*x), values(*y)),
        r matches Ok(n) ==> (n.bound() is Constant <==> !dot_started(x@, y@, SIZE as nat)),
        r matches Ok(n) ==> known(n, *final(cs)),
        variables(*final(cs)) == variables(*old(cs)) + dot_allocations(x@, y@, SIZE as nat),
        gate_count(*final(cs)) == gate_count(*old(cs)) + dot_allocations(
            x@,
            y@,
            SIZE as nat,
        ).len(),
        grows(*old(cs), *final(cs)),
{
    let ghost xs = values(*x);
    let ghost ys = values(*y);
    let mut res = Num::zero();
    let mut i: usize = 0;
    proof {
        lemma_modulus_bounds();
        assert(xs =~= x@.map_values(|n: Num| n@));
        assert(ys =~= y@.map_values(|n: Num| n@));
    }
    while i < SIZE
        invariant
            grows(*old(cs), *cs),
            i <= SIZE,
            xs == values(*x),
            ys == values(*y),
            xs == x@.map_values(|n: Num| n@),
            ys == y@.map_values(|n: Num| n@),
            in_range(res@),
            cong(res@, int_dot(xs, ys, i as nat)),
            res.bound() is Constant <==> !dot_started(x@, y@, i as nat),
            known(res, *cs),
            variables(*cs) == variables(*old(cs)) + dot_allocations(x@, y@, i as nat),
            gate_count(*cs) == gate_count(*old(cs)) + dot_allocations(x@, y@, i as nat).len(),
        decreases SIZE - i,
    {
        let z = x[i].mul(cs, &y[i])?;
        let next = res.add(cs, &z)?;
        proof {
            lemma_fmul_cong(xs[i as int], xs[i as int], ys[i as int], ys[i as int]);
            lemma_fadd_cong(res@, int_dot(xs, ys, i as nat), z@, xs[i as int] * ys[i as int]);
            lemma_results_in_range(res@, z@);
            lemma_in_range_mod(next@);
            assert(variables(*cs) =~= variables(*old(cs)) + dot_allocations(
                x@,
                y@,
                (i + 1) as nat,
            ));
        }
        res = next;
        i += 1;
    }
    proof {
        lemma_in_range_mod(res@);
    }
    Ok(res)
}

/// The values of the variables that an operation allocates entry by entry
/// for the first `k` entries of `x` and `y`, where `results` holds what it
/// gives: the result of each entry but those of two constants.
pub open spec fn pairwise_allocations(x: Seq<Num>, y: Seq<Num>, results: Seq<int>, k: nat) -> Seq<
    int,
>
    decreases k,
{
    if k == 0 {
        Seq::empty()
    } else if allocates(x[k - 1], y[k - 1]) {
        pairwise_allocations(x, y, results, (k - 1) as nat).push(results[k - 1])
    } else {
        pairwise_allocations(x, y, results, (k - 1) as nat)
    }
}

/// The sum of two vectors, entry by entry. The sum of two constants is a
/// constant and takes no gate; every other sum takes one gate, whose result
/// is a new variable.
pub fn sum_vectors<const SIZE: usize>(cs: &mut Assembly, x: &[Num; SIZE], y: &[Num; SIZE]) -> (r:
    Result<[Num; SIZE], CipherError>)
    ensures
        r is Ok,
        r matches Ok(v) ==> values(v) == vec_add(values(*x), values(*y)),
        r matches Ok(v) ==> forall|k: int|
            0 <= k < SIZE ==> ((#[trigger] v[k]).bound() is Constant <==> !allocates(x[k], y[k])),
        r matches Ok(v) ==> all_known(v@, *final(cs)),
        variables(*final(cs)) == variables(*old(cs)) + pairwise_allocations(
            x@,
            y@,
            vec_add(values(*x), values(*y)),
            SIZE as nat,
        ),
        gate_count(*final(cs)) == gate_count(*old(cs)) + pairwise_allocations(
            x@,
            y@,
            vec_add(values(*x), values(*y)),
            SIZE as nat,
        ).len(),
        grows(*old(cs), *final(cs)),
{
    let ghost sums = vec_add(values(*x), values(*y));
    let mut res: [Num; SIZE] = [Num::zero(); SIZE];
    let mut i: usize = 0;
    while i < SIZE
        invariant
            grows(*old(cs), *cs),
            i <= SIZE,
            sums == vec_add(values(*x), values(*y)),
            forall|k: int| 0 <= k < i ==> (#[trigger] res[k])@ == fadd(x[k]@, y[k]@),
            forall|k: int|
                0 <= k < i ==> ((#[trigger] res[k]).bound() is Constant <==> !allocates(
                    x[k],
                    y[k],
                )),
            forall|k: int| 0 <= k < i ==> known(#[trigger] res[k], *cs),
            variables(*cs) == variables(*old(cs)) + pairwise_allocations(x@, y@, sums, i as nat),
            gate_count(*cs) == gate_count(*old(cs)) + pairwise_allocations(
                x@,
                y@,
                sums,
                i as nat,
            ).len(),
        decreases SIZE - i,
    {
        let n = x[i].add(cs, &y[i])?;
        proof {
            assert(sums[i as int] == n@);
            assert(variables(*cs) =~= variables(*old(cs)) + pairwise_allocations(
                x@,
                y@,
                sums,
                (i + 1) as nat,
            ));
        }
        res[i] = n;
        i += 1;
    }
    assert(values(res) =~= vec_add(values(*x), values(*y)));
    Ok(res)
}

/// The difference of two vectors, entry by entry. The difference of two
/// constants is a constant and takes no gate; every other difference takes
/// one gate, whose result is a new variable.
pub fn sub_vectors<const SIZE: usize>(cs: &mut Assembly, x: &[Num; SIZE], y: &[Num; SIZE]) -> (r:
    Result<[Num; SIZE], CipherError>)
    ensures
        r is Ok,
        r matches Ok(v) ==> values(v) == vec_sub(values(*x), values(*y)),
        r matches Ok(v) ==> forall|k: int|
            0 <= k < SIZE ==> ((#[trigger] v[k]).bound() is Constant <==> !allocates(x[k], y[k])),
        r matches Ok(v) ==> all_known(v@, *final(cs)),
        variables(*final(cs)) == variables(*old(cs)) + pairwise_allocations(
            x@,
            y@,
            vec_sub(values(*x), values(*y)),
            SIZE as nat,
        ),
        gate_count(*final(cs)) == gate_count(*old(cs)) + pairwise_allocations(
            x@,
            y@,
            vec_sub(values(*x), values(*y)),
            SIZE as nat,
        ).len(),
        grows(*old(cs), *final(cs)),
{
    let ghost differences = vec_sub(values(*x), values(*y));
    let mut res: [Num; SIZE] = [Num::zero(); SIZE];
    let mut i: usize = 0;
    while i < SIZE
        invariant
            grows(*old(cs), *cs),
            i <= SIZE,
            differences == vec_sub(values(*x), values(*y)),
            forall|k: int| 0 <= k < i ==> (#[trigger] res[k])@ == fsub(x[k]@, y[k]@),
            forall|k: int|
                0 <= k < i ==> ((#[trigger] res[k]).bound() is Constant <==> !allocates(
                    x[k],
                    y[k],
                )),
            forall|k: int| 0 <= k < i ==> known(#[trigger] res[k], *cs),
            variables(*cs) == variables(*old(cs)) + pairwise_allocations(
                x@,
                y@,
                differences,
                i as nat,
            ),
            gate_count(*cs) == gate_count(*old(cs)) + pairwise_allocations(
                x@,
                y@,
                differences,
                i as nat,
            ).len(),
        decreases SIZE - i,
    {
        let n = x[i].sub(cs, &y[i])?;
        proof {
            assert(differences[i as int] == n@);
            assert(variables(*cs) =~= variables(*old(cs)) + pairwise_allocations(
                x@,
                y@,
                differences,
                (i + 1) as nat,
            ));
        }
        res[i] = n;
        i += 1;
    }
    assert(values(res) =~= vec_sub(values(*x), values(*y)));
    Ok(res)
}

} // verus!
