use crate::modular::{gcd, is_prime, lemma_pow_step, lemma_prime_coprime, lemma_xgcd, lemma_xgcd_inverse, xgcd};
use std::rc::Rc;
use vstd::arithmetic::div_mod::{
    lemma_add_mod_noop, lemma_fundamental_div_mod, lemma_fundamental_div_mod_converse,
    lemma_mul_mod_noop_left, lemma_mul_mod_noop_right, lemma_small_mod,
};
use vstd::arithmetic::power::pow;
use vstd::prelude::*;

verus! {

pub type FieldSize = i128;

/// Largest modulus a field may have: the product of two canonical values
/// then stays far inside the range of `FieldSize`.
pub const MAX_PRIME: i128 = 0x4000_0000_0000_0000;

#[derive(Debug, Clone, Copy, PartialEq, Eq, Structural)]
pub struct FiniteField {
    pub prime: FieldSize,
    pub generator: FieldSize,
}

#[derive(Debug)]
pub struct FieldElement {
    pub element: FieldSize,
    pub finite_field: Rc<FiniteField>,
}

/// Relies on `Rc::clone`: the new handle points to the same field.
#[verifier::external_body]
pub(crate) fn share_field(f: &Rc<FiniteField>) -> (r: Rc<FiniteField>)
    ensures
        r == *f,
{
    Rc::clone(f)
}

/// Relies on `rand::random`: a value from the thread-local generator. Nothing is known of it.
#[verifier::external_body]
fn random_field_size() -> FieldSize {
    rand::random()
}

/// The canonical representative of `v` modulo `p`.
pub fn reduce(v: FieldSize, p: FieldSize) -> (r: FieldSize)
    requires
        p > 0,
    ensures
        r == v as int % p as int,
{
    if v >= 0 {
        v % p
    } else {
        let m = -(v + 1);
        let r = p - 1 - m % p;
        proof {
            lemma_reduce_negative(v as int, p as int);
        }
        r
    }
}

proof fn lemma_reduce_negative(v: int, p: int)
    requires
        v < 0,
        p > 0,
    ensures
        p - 1 - (-(v + 1)) % p == v % p,
{
    let m = -(v + 1);
    lemma_fundamental_div_mod(m, p);
    let q = m / p;
    assert(v == (-q - 1) * p + (p - 1 - m % p)) by (nonlinear_arith)
        requires
            m == p * q + m % p,
            v == -(m + 1),
    ;
    lemma_fundamental_div_mod_converse(v, p, -q - 1, p - 1 - m % p);
}

/// The product of two values below `MAX_PRIME` fits in `FieldSize`.
proof fn lemma_mul_bound(x: FieldSize, y: FieldSize)
    requires
        0 <= x < MAX_PRIME,
        0 <= y < MAX_PRIME,
    ensures
        0 <= x * y < MAX_PRIME * MAX_PRIME,
{
    assert(0 <= x * y < MAX_PRIME * MAX_PRIME) by (nonlinear_arith)
        requires
            0 <= x < MAX_PRIME,
            0 <= y < MAX_PRIME,
    ;
}

impl FiniteField {
    pub open spec fn wf(&self) -> bool {
        1 < self.prime <= MAX_PRIME && self.generator != 0
    }

    pub fn new(prime: FieldSize, g: FieldSize) -> (r: Self)
        requires
            1 < prime <= MAX_PRIME,
            g != 0,
        ensures
            r.prime == prime,
            r.generator == g,
            r.wf(),
    {
        FiniteField { prime, generator: g }
    }

    pub open spec fn element_of(field: Rc<FiniteField>, v: int) -> FieldElement {
        FieldElement { element: v as FieldSize, finite_field: field }
    }

    pub fn element(self: &Rc<Self>, value: FieldSize) -> (r: FieldElement)
        requires
            self.wf(),
        ensures
            r.wf(),
            r.finite_field == *self,
            r.element == value as int % self.prime as int,
    {
        FieldElement { element: reduce(value, self.prime), finite_field: share_field(self) }
    }

    pub fn zero(self: &Rc<Self>) -> (r: FieldElement)
        requires
            self.wf(),
        ensures
            r.wf(),
            r == FiniteField::element_of(*self, 0),
    {
        self.element(0)
    }

    pub fn one(self: &Rc<Self>) -> (r: FieldElement)
        requires
            self.wf(),
        ensures
            r.wf(),
            r == FiniteField::element_of(*self, 1),
    {
        proof {
            lemma_small_mod(1, self.prime as nat);
        }
        self.element(1)
    }

    /// The extended Euclidean algorithm: `(g, x, y)` with `a * x + b * y == g == gcd(a, b)`.
    pub fn extended_euclidean(a: FieldSize, b: FieldSize) -> (r: (FieldSize, FieldSize, FieldSize))
        requires
            0 <= a,
            0 <= b,
        ensures
            r.0 == xgcd(a as nat, b as nat).0,
            r.1 == xgcd(a as nat, b as nat).1,
            r.2 == xgcd(a as nat, b as nat).2,
            a * r.1 + b * r.2 == r.0,
        decreases a,
    {
        proof {
            lemma_xgcd(a as nat, b as nat);
        }
        if a == 0 {
            return (b, 0, 1);
        }
        let (gcd, x1, y1) = Self::extended_euclidean(b % a, a);
        proof {
            lemma_xgcd((b % a) as nat, a as nat);
            let q = b / a;
            assert(-b <= q * x1 <= b) by (nonlinear_arith)
                requires
                    -a <= x1 <= a,
                    q == b / a,
                    a > 0,
                    b >= 0,
            ;
        }
        let x = y1 - (b / a) * x1;
        let y = x1;
        (gcd, x, y)
    }

    /// An element drawn from the process-wide random source, reduced into the field.
    pub fn random_element(self: &Rc<Self>) -> (r: FieldElement)
        requires
            self.wf(),
        ensures
            r.wf(),
            r.finite_field == *self,
    {
        self.element(random_field_size())
    }
}

impl FieldElement {
    pub open spec fn wf(&self) -> bool {
        self.finite_field.wf() && 0 <= self.element < self.finite_field.prime
    }

    pub open spec fn prime(&self) -> int {
        self.finite_field.prime as int
    }

    /// The element of the same field whose value is `v` reduced modulo the prime.
    pub open spec fn lift(&self, v: int) -> FieldElement {
        FieldElement { element: (v % self.prime()) as FieldSize, finite_field: self.finite_field }
    }

    pub open spec fn spec_add(&self, o: FieldElement) -> FieldElement {
        self.lift(self.element + o.element)
    }

    pub open spec fn spec_sub(&self, o: FieldElement) -> FieldElement {
        self.lift(self.element - o.element)
    }

    pub open spec fn spec_mul(&self, o: FieldElement) -> FieldElement {
        self.lift(self.element * o.element)
    }

    pub open spec fn spec_neg(&self) -> FieldElement {
        self.lift(self.prime() - self.element)
    }

    pub open spec fn spec_inverse(&self) -> FieldElement {
        self.lift(xgcd(self.element as nat, self.prime() as nat).1)
    }

    pub open spec fn spec_div(&self, o: FieldElement) -> FieldElement {
        self.spec_mul(o.spec_inverse())
    }

    pub open spec fn spec_pow(&self, e: int) -> FieldElement {
        self.lift(pow(self.element as int, e as nat))
    }

    /// Same prime, and values congruent modulo it: what `==` decides.
    pub open spec fn congruent(&self, other: &FieldElement) -> bool {
        &&& self.prime() == other.prime()
        &&& if self.prime() <= 0 {
            self.element == other.element
        } else {
            self.element as int % self.prime() == other.element as int % self.prime()
        }
    }

    /// Both operands are canonical elements of one field.
    pub open spec fn compatible(&self, o: FieldElement) -> bool {
        self.wf() && o.wf() && self.finite_field == o.finite_field
    }

    /// The multiplicative inverse, by the extended Euclidean algorithm on `(value, prime)`.
    /// It is a true inverse whenever the value is coprime to the prime.
    pub fn inverse(&self) -> (r: Self)
        requires
            self.wf(),
        ensures
            r.wf(),
            r == self.spec_inverse(),
            gcd(self.element as nat, self.prime() as nat) == 1 ==> (self.element * r.element)
                % self.prime() == 1,
    {
        let p = self.finite_field.prime;
        let xgcd = FiniteField::extended_euclidean(self.element, p);
        proof {
            if gcd(self.element as nat, p as nat) == 1 {
                lemma_xgcd_inverse(self.element as nat, p as nat);
            }
        }
        FieldElement { element: reduce(xgcd.1, p), finite_field: share_field(&self.finite_field) }
    }

    /// The canonical representative, in `[0, prime)`.
    pub fn value(&self) -> (r: FieldSize)
        requires
            self.finite_field.wf(),
        ensures
            r == self.element as int % self.prime(),
    {
        self.abs().element
    }

    /// `self` raised to the value of `y`, by square-and-multiply.
    pub fn pow(&self, y: &FieldElement) -> (r: FieldElement)
        requires
            self.wf(),
            y.wf(),
        ensures
            r.wf(),
            r == self.spec_pow(y.element as int),
    {
        let p = self.finite_field.prime;
        let mut result: FieldSize = 1;
        let mut b: FieldSize = self.element;
        let mut e: FieldSize = y.element;
        proof {
            lemma_small_mod(1, p as nat);
        }
        while e > 0
            invariant
                p == self.prime(),
                1 < p <= MAX_PRIME,
                0 <= result < p,
                0 <= b < p,
                0 <= e,
                (result * pow(b as int, e as nat)) % (p as int) == pow(
                    self.element as int,
                    y.element as nat,
                ) % (p as int),
            decreases e,
        {
            proof {
                lemma_pow_step(result as int, b as int, e as nat, p as int);
            }
            proof {
                lemma_mul_bound(result, b);
                lemma_mul_bound(b, b);
            }
            if e % 2 == 1 {
                result = (result * b) % p;
            }
            b = (b * b) % p;
            e = e / 2;
        }
        proof {
            vstd::arithmetic::power::lemma_pow0(b as int);
            lemma_small_mod(result as nat, p as nat);
        }
        FieldElement { element: result, finite_field: share_field(&self.finite_field) }
    }

    /// The same element with its value brought into `[0, prime)`.
    pub fn abs(&self) -> (r: FieldElement)
        requires
            self.finite_field.wf(),
        ensures
            r.wf(),
            r == self.lift(self.element as int),
    {
        FieldElement {
            element: reduce(self.element, self.finite_field.prime),
            finite_field: share_field(&self.finite_field),
        }
    }
}

impl Clone for FieldElement {
    fn clone(&self) -> (r: Self)
        ensures
            r == *self,
    {
        FieldElement { element: self.element, finite_field: share_field(&self.finite_field) }
    }
}

impl PartialEq for FieldElement {
    fn eq(&self, other: &Self) -> (r: bool) {
        let p = self.finite_field.prime;
        if p != other.finite_field.prime {
            false
        } else if p <= 0 {
            self.element == other.element
        } else {
            reduce(self.element, p) == reduce(other.element, p)
        }
    }
}

impl vstd::std_specs::cmp::PartialEqSpecImpl for FieldElement {
    open spec fn obeys_eq_spec() -> bool {
        true
    }

    open spec fn eq_spec(&self, other: &Self) -> bool {
        self.congruent(other)
    }
}

impl std::ops::Add for FieldElement {
    type Output = FieldElement;

    fn add(self, rhs: Self) -> FieldElement {
        let p = self.finite_field.prime;
        FieldElement { element: (self.element + rhs.element) % p, finite_field: self.finite_field }
    }
}

impl vstd::std_specs::ops::AddSpecImpl for FieldElement {
    open spec fn obeys_add_spec() -> bool {
        true
    }

    open spec fn add_req(self, rhs: Self) -> bool {
        self.compatible(rhs)
    }

    open spec fn add_spec(self, rhs: Self) -> FieldElement {
        self.spec_add(rhs)
    }
}

impl std::ops::Sub for FieldElement {
    type Output = FieldElement;

    fn sub(self, rhs: Self) -> FieldElement {
        let p = self.finite_field.prime;
        FieldElement { element: reduce(self.element - rhs.element, p), finite_field: self.finite_field }
    }
}

impl vstd::std_specs::ops::SubSpecImpl for FieldElement {
    open spec fn obeys_sub_spec() -> bool {
        true
    }

    open spec fn sub_req(self, rhs: Self) -> bool {
        self.compatible(rhs)
    }

    open spec fn sub_spec(self, rhs: Self) -> FieldElement {
        self.spec_sub(rhs)
    }
}

impl std::ops::Mul for FieldElement {
    type Output = FieldElement;

    fn mul(self, rhs: Self) -> FieldElement {
        let p = self.finite_field.prime;
        proof {
            lemma_mul_bound(self.element, rhs.element);
        }
        FieldElement { element: (self.element * rhs.element) % p, finite_field: self.finite_field }
    }
}

impl vstd::std_specs::ops::MulSpecImpl for FieldElement {
    open spec fn obeys_mul_spec() -> bool {
        true
    }

    open spec fn mul_req(self, rhs: Self) -> bool {
        self.compatible(rhs)
    }

    open spec fn mul_spec(self, rhs: Self) -> FieldElement {
        self.spec_mul(rhs)
    }
}

impl std::ops::Div for FieldElement {
    type Output = FieldElement;

    fn div(self, rhs: Self) -> FieldElement {
        let inv = rhs.inverse();
        self * inv
    }
}

impl vstd::std_specs::ops::DivSpecImpl for FieldElement {
    open spec fn obeys_div_spec() -> bool {
        true
    }

    /// Division by the field's zero is refused.
    open spec fn div_req(self, rhs: Self) -> bool {
        self.compatible(rhs) && rhs.element != 0
    }

    open spec fn div_spec(self, rhs: Self) -> FieldElement {
        self.spec_div(rhs)
    }
}

impl std::ops::Neg for FieldElement {
    type Output = FieldElement;

    fn neg(self) -> FieldElement {
        let p = self.finite_field.prime;
        FieldElement { element: (p - self.element) % p, finite_field: self.finite_field }
    }
}

impl vstd::std_specs::ops::NegSpecImpl for FieldElement {
    open spec fn obeys_neg_spec() -> bool {
        true
    }

    open spec fn neg_req(self) -> bool {
        self.wf()
    }

    open spec fn neg_spec(self) -> FieldElement {
        self.spec_neg()
    }
}

impl std::ops::Add for &FieldElement {
    type Output = FieldElement;

    fn add(self, rhs: Self) -> FieldElement {
        self.clone() + rhs.clone()
    }
}

impl vstd::std_specs::ops::AddSpecImpl for &FieldElement {
    open spec fn obeys_add_spec() -> bool {
        true
    }

    open spec fn add_req(self, rhs: Self) -> bool {
        self.compatible(*rhs)
    }

    open spec fn add_spec(self, rhs: Self) -> FieldElement {
        self.spec_add(*rhs)
    }
}

impl std::ops::Sub for &FieldElement {
    type Output = FieldElement;

    fn sub(self, rhs: Self) -> FieldElement {
        self.clone() - rhs.clone()
    }
}

impl vstd::std_specs::ops::SubSpecImpl for &FieldElement {
    open spec fn obeys_sub_spec() -> bool {
        true
    }

    open spec fn sub_req(self, rhs: Self) -> bool {
        self.compatible(*rhs)
    }

    open spec fn sub_spec(self, rhs: Self) -> FieldElement {
        self.spec_sub(*rhs)
    }
}

impl std::ops::Mul for &FieldElement {
    type Output = FieldElement;

    fn mul(self, rhs: Self) -> FieldElement {
        self.clone() * rhs.clone()
    }
}

impl vstd::std_specs::ops::MulSpecImpl for &FieldElement {
    open spec fn obeys_mul_spec() -> bool {
        true
    }

    open spec fn mul_req(self, rhs: Self) -> bool {
        self.compatible(*rhs)
    }

    open spec fn mul_spec(self, rhs: Self) -> FieldElement {
        self.spec_mul(*rhs)
    }
}

impl std::ops::Div for &FieldElement {
    type Output = FieldElement;

    fn div(self, rhs: Self) -> FieldElement {
        self.clone() / rhs.clone()
    }
}

impl vstd::std_specs::ops::DivSpecImpl for &FieldElement {
    open spec fn obeys_div_spec() -> bool {
        true
    }

    open spec fn div_req(self, rhs: Self) -> bool {
        self.compatible(*rhs) && rhs.element != 0
    }

    open spec fn div_spec(self, rhs: Self) -> FieldElement {
        self.spec_div(*rhs)
    }
}

/// The field axioms in a prime field: addition commutes and associates, zero is
/// neutral for addition, one is neutral for multiplication, and a non-zero element
/// times its inverse is one.
pub proof fn field_axioms(a: FieldElement, b: FieldElement, c: FieldElement)
    requires
        a.compatible(b),
        b.compatible(c),
        is_prime(a.prime()),
    ensures
        a.spec_add(b) == b.spec_add(a),
        a.spec_add(b).spec_add(c) == a.spec_add(b.spec_add(c)),
        a.spec_add(FiniteField::element_of(a.finite_field, 0)) == a,
        a.spec_mul(FiniteField::element_of(a.finite_field, 1)) == a,
        a.element != 0 ==> a.spec_mul(a.spec_inverse()) == FiniteField::element_of(
            a.finite_field,
            1,
        ),
{
    let p = a.prime();
    lemma_add_mod_noop(a.element as int + b.element as int, c.element as int, p);
    lemma_add_mod_noop(a.element as int, b.element as int + c.element as int, p);
    lemma_small_mod(a.element as nat, p as nat);
    lemma_small_mod(c.element as nat, p as nat);
    lemma_small_mod(a.element as nat, p as nat);
    assert((a.element + b.element) % p % p == (a.element + b.element) % p) by {
        vstd::arithmetic::div_mod::lemma_mod_twice(a.element + b.element, p);
    }
    assert((b.element + c.element) % p % p == (b.element + c.element) % p) by {
        vstd::arithmetic::div_mod::lemma_mod_twice(b.element + c.element, p);
    }
    lemma_add_mod_noop(a.element as int, (b.element + c.element) % p, p);
    lemma_add_mod_noop((a.element + b.element) % p, c.element as int, p);
    assert(a.element * 1 == a.element);
    if a.element != 0 {
        lemma_prime_coprime(a.element as int, p);
        lemma_xgcd_inverse(a.element as nat, p as nat);
        lemma_small_mod(1, p as nat);
    }
}

/// Dividing by a non-zero element and multiplying back gives the dividend back.
pub proof fn division_consistency(a: FieldElement, b: FieldElement)
    requires
        a.compatible(b),
        is_prime(a.prime()),
        b.element != 0,
    ensures
        a.spec_div(b).spec_mul(b) == a,
{
    let p = a.prime();
    let inv = b.spec_inverse();
    lemma_prime_coprime(b.element as int, p);
    lemma_xgcd_inverse(b.element as nat, p as nat);
    let x = inv.element as int;
    assert(inv.element == xgcd(b.element as nat, p as nat).1 % p);
    assert((b.element * x) % p == 1);
    let q = a.spec_div(b);
    assert(q.element == (a.element * x) % p);
    lemma_mul_mod_noop_left(a.element * x, b.element as int, p);
    assert(a.element * x * b.element == a.element * (b.element * x)) by (nonlinear_arith);
    lemma_mul_mod_noop_right(a.element as int, b.element * x, p);
    lemma_small_mod(a.element as nat, p as nat);
    assert(q.spec_mul(b).element == ((a.element * x) % p * b.element) % p);
    assert(q.spec_mul(b).element == a.element);
}

} // verus!
