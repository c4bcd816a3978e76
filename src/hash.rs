use crate::field::{FieldElement, FieldSize, FiniteField};
use ndarray::{Array1, Array2};
use std::rc::Rc;
use vstd::arithmetic::div_mod::{lemma_add_mod_noop, lemma_mod_twice, lemma_small_mod};
use vstd::arithmetic::power::pow;
use vstd::prelude::*;

verus! {

/// A matrix of field elements, held in an `ndarray` array.
#[verifier::external_body]
pub struct FieldMatrix {
    entries: Array2<FieldElement>,
}

/// A vector of field elements, held in an `ndarray` array.
#[verifier::external_body]
pub struct FieldVector {
    entries: Array1<FieldElement>,
}

/// The values of a matrix's entries, row by row.
pub uninterp spec fn matrix_values(m: FieldMatrix) -> Seq<Seq<int>>;

/// The values of a vector's entries, in order.
pub uninterp spec fn vector_values(v: FieldVector) -> Seq<int>;

/// Relies on `Array2::from_shape_vec` with a `(rows, cols)` shape, given the rows joined in
/// order: entry `(i, j)` is `rows[i][j]`. The call fails when the count does not match the
/// shape or when a dimension or their product exceeds `isize::MAX`; `requires` rules out both.
#[verifier::external_body]
fn matrix_from_rows(rows: Vec<Vec<FieldElement>>, cols: usize) -> (r: FieldMatrix)
    requires
        forall|i: int| 0 <= i < rows@.len() ==> (#[trigger] rows@[i])@.len() == cols,
        rows@.len() <= isize::MAX,
        cols <= isize::MAX,
        rows@.len() * cols <= isize::MAX,
    ensures
        matrix_values(r).len() == rows@.len(),
        forall|i: int| 0 <= i < rows@.len() ==> (#[trigger] matrix_values(r)[i]).len() == cols,
        forall|i: int, j: int|
            0 <= i < rows@.len() && 0 <= j < cols ==> #[trigger] matrix_values(r)[i][j]
                == rows@[i]@[j].element,
{
    let n = rows.len();
    let entries: Vec<FieldElement> = rows.into_iter().flatten().collect();
    FieldMatrix { entries: Array2::from_shape_vec((n, cols), entries).unwrap() }
}

/// Relies on indexing an `Array2` with `[[i, j]]`: the value of the entry at row `i`, column `j`.
#[verifier::external_body]
fn matrix_get(m: &FieldMatrix, i: usize, j: usize) -> (r: FieldSize)
    requires
        i < matrix_values(*m).len(),
        j < matrix_values(*m)[i as int].len(),
    ensures
        r == matrix_values(*m)[i as int][j as int],
{
    m.entries[[i, j]].element
}

/// Relies on `Array1::from_vec`: the entries in the same order.
#[verifier::external_body]
fn vector_from_vec(entries: Vec<FieldElement>) -> (r: FieldVector)
    requires
        entries@.len() <= isize::MAX,
    ensures
        vector_values(r) == Seq::new(entries@.len(), |i: int| entries@[i].element as int),
{
    FieldVector { entries: Array1::from_vec(entries) }
}

/// Relies on indexing an `Array1` with `[i]`: the value of the entry at `i`.
#[verifier::external_body]
fn vector_get(v: &FieldVector, i: usize) -> (r: FieldSize)
    requires
        i < vector_values(*v).len(),
    ensures
        r == vector_values(*v)[i as int],
{
    v.entries[i].element
}

/// A compression function from one field element to one field element.
pub trait Hasher {
    /// The field the hasher works in.
    spec fn field(&self) -> Rc<FiniteField>;

    /// The hasher's parameters are usable.
    spec fn wf(&self) -> bool;

    /// The digest of `value`; it depends on nothing else.
    spec fn spec_hash(&self, value: FieldElement) -> FieldElement;

    fn hash(&self, value: FieldElement) -> (r: FieldElement)
        requires
            self.wf(),
            value.wf(),
            value.finite_field == self.field(),
        ensures
            r == self.spec_hash(value),
            r.wf(),
            r.finite_field == self.field(),
    ;

    /// Digests of elements of the field are elements of the field.
    proof fn lemma_hash_in_field(&self, value: FieldElement)
        requires
            self.wf(),
            value.wf(),
            value.finite_field == self.field(),
        ensures
            self.spec_hash(value).wf(),
            self.spec_hash(value).finite_field == self.field(),
    ;
}

/// Every entry raised to the power `e`, modulo `p`.
pub open spec fn sbox(state: Seq<int>, e: int, p: int) -> Seq<int> {
    Seq::new(state.len(), |i: int| pow(state[i], e as nat) % p)
}

/// `sum_{j < n} (row_j mod p) * state_j`.
pub open spec fn dot(row: Seq<int>, state: Seq<int>, n: nat, p: int) -> int
    decreases n,
{
    if n == 0 {
        0
    } else {
        dot(row, state, (n - 1) as nat, p) + (row[n - 1] % p) * state[n - 1]
    }
}

/// The matrix-vector product modulo `p`.
pub open spec fn mix(m: Seq<Seq<int>>, state: Seq<int>, p: int) -> Seq<int> {
    Seq::new(state.len(), |i: int| dot(m[i], state, state.len(), p) % p)
}

/// Adds the round constants starting at `offset` to the state, modulo `p`.
pub open spec fn add_round(state: Seq<int>, constants: Seq<int>, offset: int, p: int) -> Seq<int> {
    Seq::new(state.len(), |i: int| (state[i] + constants[offset + i] % p) % p)
}

/// The permutation's state after both rounds, starting from `[v, 0, ..., 0]`.
pub open spec fn rescue_state(h: RescueHash, v: int) -> Seq<int> {
    let n = h.rate + h.capacity;
    let p = h.finite_field.prime as int;
    let m = matrix_values(h.mds_matrix);
    let c = vector_values(h.constants);
    let offset = h.constant_offset();
    let s0 = Seq::new(n as nat, |i: int| if i == 0 { v } else { 0 });
    let s1 = sbox(s0, h.alpha.element as int, p);
    let s2 = add_round(mix(m, s1, p), c, offset, p);
    let s3 = sbox(s2, h.alpha_inv.element as int, p);
    add_round(mix(m, s3, p), c, offset, p)
}

/// An algebraic permutation hash in the style of Rescue: S-box, linear layer and round
/// constants, then the inverse S-box and a second linear layer with round constants.
pub struct RescueHash {
    pub alpha: FieldElement,
    pub alpha_inv: FieldElement,
    pub finite_field: Rc<FiniteField>,
    pub rate: usize,
    pub capacity: usize,
    pub mds_matrix: FieldMatrix,
    pub constants: FieldVector,
}

impl RescueHash {
    /// Index of the first round constant used.
    pub open spec fn constant_offset(&self) -> int {
        2 * self.rate * (self.rate + self.capacity)
    }

    /// A square matrix of the state's width and enough round constants.
    pub open spec fn shape_fits(
        rate: usize,
        capacity: usize,
        mds_matrix: FieldMatrix,
        constants: FieldVector,
    ) -> bool {
        let n = rate + capacity;
        &&& 0 < n
        &&& 2 * rate * n + n <= usize::MAX
        &&& matrix_values(mds_matrix).len() == n
        &&& forall|i: int| 0 <= i < n ==> (#[trigger] matrix_values(mds_matrix)[i]).len() == n
        &&& vector_values(constants).len() >= 2 * rate * n + n
    }

    /// Builds the hash from a square matrix of the state's width, given row by row, and the
    /// round constants. The S-box exponent must not divide `prime - 1`; its inverse is taken
    /// in the field.
    pub fn new(
        finite_field: Rc<FiniteField>,
        rate: usize,
        capacity: usize,
        alpha: FieldElement,
        mds_matrix: Vec<Vec<FieldElement>>,
        constants: Vec<FieldElement>,
    ) -> (r: Self)
        requires
            finite_field.wf(),
            alpha.wf(),
            alpha.finite_field == finite_field,
            alpha.element != 0,
            (finite_field.prime - 1) % (alpha.element as int) != 0,
            0 < rate + capacity,
            2 * rate * (rate + capacity) + rate + capacity <= isize::MAX,
            (rate + capacity) * (rate + capacity) <= isize::MAX,
            mds_matrix@.len() == rate + capacity,
            forall|i: int| 0 <= i < mds_matrix@.len() ==> (#[trigger] mds_matrix@[i])@.len() == rate + capacity,
            constants@.len() >= 2 * rate * (rate + capacity) + rate + capacity,
            constants@.len() <= isize::MAX,
        ensures
            r.wf(),
            r.finite_field == finite_field,
            r.alpha == alpha,
            r.alpha_inv == alpha.spec_inverse(),
            r.rate == rate,
            r.capacity == capacity,
            forall|i: int, j: int|
                0 <= i < rate + capacity && 0 <= j < rate + capacity ==> #[trigger] matrix_values(
                    r.mds_matrix,
                )[i][j] == mds_matrix@[i]@[j].element,
            vector_values(r.constants) == Seq::new(
                constants@.len(),
                |i: int| constants@[i].element as int,
            ),
    {
        let n = rate + capacity;
        let alpha_inv = alpha.inverse();
        let mds_matrix = matrix_from_rows(mds_matrix, n);
        let constants = vector_from_vec(constants);
        RescueHash { alpha, alpha_inv, finite_field, rate, capacity, mds_matrix, constants }
    }

    /// The linear layer: the matrix times the state, modulo the prime.
    fn mix_state(&self, state: &Vec<FieldElement>) -> (r: Vec<FieldElement>)
        requires
            self.wf(),
            state@.len() == self.rate + self.capacity,
            forall|i: int|
                0 <= i < state@.len() ==> (#[trigger] state@[i]).wf() && state@[i].finite_field
                    == self.finite_field,
        ensures
            r@.len() == state@.len(),
            forall|i: int|
                0 <= i < r@.len() ==> (#[trigger] r@[i]).wf() && r@[i].finite_field
                    == self.finite_field,
            Seq::new(r@.len(), |i: int| r@[i].element as int) == mix(
                matrix_values(self.mds_matrix),
                Seq::new(state@.len(), |i: int| state@[i].element as int),
                self.finite_field.prime as int,
            ),
    {
        let n = self.rate + self.capacity;
        let ghost s = Seq::new(state@.len(), |i: int| state@[i].element as int);
        let ghost m = matrix_values(self.mds_matrix);
        let ghost p = self.finite_field.prime as int;
        let mut out: Vec<FieldElement> = Vec::new();
        let mut i: usize = 0;
        while i < n
            invariant
                self.wf(),
                n == self.rate + self.capacity,
                state@.len() == n,
                s == Seq::new(state@.len(), |i: int| state@[i].element as int),
                m == matrix_values(self.mds_matrix),
                p == self.finite_field.prime,
                forall|k: int|
                    0 <= k < state@.len() ==> (#[trigger] state@[k]).wf() && state@[k].finite_field
                        == self.finite_field,
                i <= n,
                out@.len() == i,
                forall|k: int|
                    0 <= k < i ==> (#[trigger] out@[k]).wf() && out@[k].finite_field
                        == self.finite_field && out@[k].element == dot(m[k], s, n as nat, p) % p,
            decreases n - i,
        {
            let mut acc = self.finite_field.zero();
            let mut j: usize = 0;
            proof {
                lemma_small_mod(0, p as nat);
            }
            while j < n
                invariant
                    self.wf(),
                    n == self.rate + self.capacity,
                    state@.len() == n,
                    s == Seq::new(state@.len(), |i: int| state@[i].element as int),
                    m == matrix_values(self.mds_matrix),
                    p == self.finite_field.prime,
                    forall|k: int|
                        0 <= k < state@.len() ==> (#[trigger] state@[k]).wf()
                            && state@[k].finite_field == self.finite_field,
                    i < n,
                    j <= n,
                    acc.wf(),
                    acc.finite_field == self.finite_field,
                    acc.element == dot(m[i as int], s, j as nat, p) % p,
                decreases n - j,
            {
                let entry = self.finite_field.element(matrix_get(&self.mds_matrix, i, j));
                proof {
                    let a = dot(m[i as int], s, j as nat, p);
                    let b = (m[i as int][j as int] % p) * s[j as int];
                    lemma_add_mod_noop(a, b, p);
                    lemma_mod_twice(a, p);
                    lemma_add_mod_noop(a % p, b, p);
                    lemma_mod_twice(b, p);
                }
                acc = acc + entry * state[j].clone();
                j = j + 1;
            }
            out.push(acc);
            i = i + 1;
        }
        proof {
            assert(Seq::new(out@.len(), |i: int| out@[i].element as int) =~= mix(m, s, p));
        }
        out
    }

    /// Adds the round constants to the state.
    fn add_constants(&self, state: &Vec<FieldElement>) -> (r: Vec<FieldElement>)
        requires
            self.wf(),
            state@.len() == self.rate + self.capacity,
            forall|i: int|
                0 <= i < state@.len() ==> (#[trigger] state@[i]).wf() && state@[i].finite_field
                    == self.finite_field,
        ensures
            r@.len() == state@.len(),
            forall|i: int|
                0 <= i < r@.len() ==> (#[trigger] r@[i]).wf() && r@[i].finite_field
                    == self.finite_field,
            Seq::new(r@.len(), |i: int| r@[i].element as int) == add_round(
                Seq::new(state@.len(), |i: int| state@[i].element as int),
                vector_values(self.constants),
                self.constant_offset(),
                self.finite_field.prime as int,
            ),
    {
        let n = self.rate + self.capacity;
        proof {
            let r = self.rate as int;
            assert(2 * r <= 2 * r * n) by (nonlinear_arith)
                requires
                    n >= 1,
                    r >= 0,
            ;
        }
        let offset = 2 * self.rate * n;
        let ghost s = Seq::new(state@.len(), |i: int| state@[i].element as int);
        let ghost c = vector_values(self.constants);
        let ghost p = self.finite_field.prime as int;
        let mut out: Vec<FieldElement> = Vec::new();
        let mut i: usize = 0;
        while i < n
            invariant
                self.wf(),
                n == self.rate + self.capacity,
                offset == self.constant_offset(),
                state@.len() == n,
                s == Seq::new(state@.len(), |i: int| state@[i].element as int),
                c == vector_values(self.constants),
                p == self.finite_field.prime,
                forall|k: int|
                    0 <= k < state@.len() ==> (#[trigger] state@[k]).wf() && state@[k].finite_field
                        == self.finite_field,
                i <= n,
                out@.len() == i,
                forall|k: int|
                    0 <= k < i ==> (#[trigger] out@[k]).wf() && out@[k].finite_field
                        == self.finite_field && out@[k].element == (s[k] + c[offset + k] % p) % p,
            decreases n - i,
        {
            let constant = self.finite_field.element(vector_get(&self.constants, offset + i));
            out.push(state[i].clone() + constant);
            i = i + 1;
        }
        proof {
            assert(Seq::new(out@.len(), |i: int| out@[i].element as int) =~= add_round(
                s,
                c,
                offset as int,
                p,
            ));
        }
        out
    }

    /// Raises every entry of the state to the value of `e`.
    fn apply_sbox(&self, state: &Vec<FieldElement>, e: &FieldElement) -> (r: Vec<FieldElement>)
        requires
            self.wf(),
            e.wf(),
            forall|i: int|
                0 <= i < state@.len() ==> (#[trigger] state@[i]).wf() && state@[i].finite_field
                    == self.finite_field,
        ensures
            r@.len() == state@.len(),
            forall|i: int|
                0 <= i < r@.len() ==> (#[trigger] r@[i]).wf() && r@[i].finite_field
                    == self.finite_field,
            Seq::new(r@.len(), |i: int| r@[i].element as int) == sbox(
                Seq::new(state@.len(), |i: int| state@[i].element as int),
                e.element as int,
                self.finite_field.prime as int,
            ),
    {
        let ghost s = Seq::new(state@.len(), |i: int| state@[i].element as int);
        let mut out: Vec<FieldElement> = Vec::new();
        let mut i: usize = 0;
        while i < state.len()
            invariant
                self.wf(),
                e.wf(),
                s == Seq::new(state@.len(), |i: int| state@[i].element as int),
                forall|k: int|
                    0 <= k < state@.len() ==> (#[trigger] state@[k]).wf() && state@[k].finite_field
                        == self.finite_field,
                i <= state@.len(),
                out@.len() == i,
                forall|k: int|
                    0 <= k < i ==> (#[trigger] out@[k]).wf() && out@[k].finite_field
                        == self.finite_field && out@[k].element == pow(s[k], e.element as nat)
                        % (self.finite_field.prime as int),
            decreases state@.len() - i,
        {
            out.push(state[i].pow(e));
            i = i + 1;
        }
        proof {
            assert(Seq::new(out@.len(), |i: int| out@[i].element as int) =~= sbox(
                s,
                e.element as int,
                self.finite_field.prime as int,
            ));
        }
        out
    }
}

impl Hasher for RescueHash {
    open spec fn field(&self) -> Rc<FiniteField> {
        self.finite_field
    }

    open spec fn wf(&self) -> bool {
        &&& self.finite_field.wf()
        &&& self.alpha.wf()
        &&& self.alpha.finite_field == self.finite_field
        &&& self.alpha_inv.wf()
        &&& self.alpha_inv.finite_field == self.finite_field
        &&& Self::shape_fits(self.rate, self.capacity, self.mds_matrix, self.constants)
    }

    open spec fn spec_hash(&self, value: FieldElement) -> FieldElement {
        FieldElement {
            element: rescue_state(*self, value.element as int)[0] as FieldSize,
            finite_field: self.finite_field,
        }
    }

    proof fn lemma_hash_in_field(&self, value: FieldElement) {
        let n = self.rate + self.capacity;
        let p = self.finite_field.prime as int;
        let m = matrix_values(self.mds_matrix);
        let c = vector_values(self.constants);
        let offset = self.constant_offset();
        let s0 = Seq::new(n as nat, |i: int| if i == 0 { value.element as int } else { 0 });
        let s1 = sbox(s0, self.alpha.element as int, p);
        let s2 = add_round(mix(m, s1, p), c, offset, p);
        let s3 = sbox(s2, self.alpha_inv.element as int, p);
        let t = mix(m, s3, p);
        let s4 = add_round(t, c, offset, p);
        assert(s4 == rescue_state(*self, value.element as int));
        assert(s4.len() == n);
        vstd::arithmetic::div_mod::lemma_mod_bound(t[0] + c[offset] % p, p);
        assert(0 <= s4[0] < p);
    }

    /// Runs the permutation on `[value, 0, ..., 0]` and returns the first entry.
    fn hash(&self, value: FieldElement) -> (r: FieldElement) {
        let n = self.rate + self.capacity;
        let ghost v = value.element as int;
        let mut state: Vec<FieldElement> = Vec::new();
        state.push(value);
        let mut i: usize = 1;
        while i < n
            invariant
                self.wf(),
                n == self.rate + self.capacity,
                1 <= i <= n,
                state@.len() == i,
                forall|k: int|
                    0 <= k < i ==> (#[trigger] state@[k]).wf() && state@[k].finite_field
                        == self.finite_field && state@[k].element == if k == 0 {
                        v
                    } else {
                        0
                    },
            decreases n - i,
        {
            state.push(self.finite_field.zero());
            i = i + 1;
        }
        proof {
            assert(Seq::new(state@.len(), |i: int| state@[i].element as int) =~= Seq::new(
                n as nat,
                |i: int| if i == 0 { v } else { 0 },
            ));
        }
        let state = self.apply_sbox(&state, &self.alpha);
        let state = self.mix_state(&state);
        let state = self.add_constants(&state);
        let state = self.apply_sbox(&state, &self.alpha_inv);
        let state = self.mix_state(&state);
        let state = self.add_constants(&state);
        let r = state[0].clone();
        proof {
            let final_state = Seq::new(state@.len(), |i: int| state@[i].element as int);
            assert(final_state == rescue_state(*self, v));
            assert(r.element == final_state[0]);
        }
        r
    }
}

impl Default for RescueHash {
    /// The reference configuration: prime 97, rate and capacity 1, S-box exponent 5, a random
    /// 2 x 2 matrix and 108 copies of one random round constant.
    fn default() -> (r: Self)
        ensures
            r.wf(),
            r.finite_field.prime == 97,
            r.finite_field.generator == 1,
            r.rate == 1,
            r.capacity == 1,
            r.alpha.element == 5,
            r.alpha_inv == r.alpha.spec_inverse(),
            forall|i: int, j: int|
                0 <= i < 2 && 0 <= j < 2 ==> 0 <= #[trigger] matrix_values(r.mds_matrix)[i][j] < 97,
            vector_values(r.constants).len() == 108,
            forall|i: int|
                0 <= i < 108 ==> #[trigger] vector_values(r.constants)[i] == vector_values(
                    r.constants,
                )[0],
    {
        let finite_field = Rc::new(FiniteField::new(97, 1));
        let alpha = finite_field.element(5);
        let mut first_row: Vec<FieldElement> = Vec::new();
        first_row.push(finite_field.random_element());
        first_row.push(finite_field.random_element());
        let mut second_row: Vec<FieldElement> = Vec::new();
        second_row.push(finite_field.random_element());
        second_row.push(finite_field.random_element());
        let mut mds_matrix: Vec<Vec<FieldElement>> = Vec::new();
        mds_matrix.push(first_row);
        mds_matrix.push(second_row);
        let constant = finite_field.random_element();
        let mut constants: Vec<FieldElement> = Vec::new();
        let mut i: usize = 0;
        while i < 108
            invariant
                i <= 108,
                constants@.len() == i,
                forall|k: int| 0 <= k < i ==> #[trigger] constants@[k] == constant,
            decreases 108 - i,
        {
            constants.push(constant.clone());
            i = i + 1;
        }
        let r = RescueHash::new(finite_field, 1, 1, alpha, mds_matrix, constants);
        proof {
            assert(mds_matrix@[0]@[0].wf() && mds_matrix@[0]@[1].wf());
            assert(mds_matrix@[1]@[0].wf() && mds_matrix@[1]@[1].wf());
            assert(vector_values(r.constants)[0] == constant.element);
        }
        r
    }
}

} // verus!
