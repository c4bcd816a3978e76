use crate::field::{FieldElement, FieldSize, FiniteField, share_field};
use crate::modular::{gcd, is_prime, lemma_prime_coprime};
use crate::poly_math::{
    add_coeffs, canonical, coef, conv, degree_of, eval, is_trimmed, lemma_canonical_coef,
    lemma_cancel_lead, lemma_conv_update, lemma_conv_zero_first, lemma_diff_nonzero,
    lemma_division_identity, lemma_eval_add, lemma_eval_constant, lemma_eval_mul, lemma_eval_sub,
    lemma_eval_x, lemma_mod_add_congruent, lemma_mul_lead, lemma_mul_len, neg_coeffs, zerofier_coeffs,
    lemma_trim, lemma_trim_len, max_len, mul_coeffs, poly_add, poly_mul,
    poly_sub, psum, scale_coeffs, sub_coeffs, trim,
};
use std::ops::Neg;
use std::rc::Rc;
use vstd::arithmetic::div_mod::{
    lemma_add_mod_noop, lemma_sub_mod_noop, lemma_mod_twice, lemma_mul_mod_noop_left, lemma_mul_mod_noop_right,
    lemma_small_mod,
};
use vstd::arithmetic::power::{lemma_pow0, lemma_pow1, lemma_pow_adds, pow};
use vstd::prelude::*;

verus! {

/// The values of a list of field elements.
pub open spec fn vals(v: Seq<FieldElement>) -> Seq<int> {
    v.map_values(|e: FieldElement| e.element as int)
}

/// Every element is a canonical element of `f`.
pub open spec fn all_in(v: Seq<FieldElement>, f: Rc<FiniteField>) -> bool {
    forall|i: int| 0 <= i < v.len() ==> (#[trigger] v[i]).wf() && v[i].finite_field == f
}

pub proof fn lemma_all_in_canonical(v: Seq<FieldElement>, f: Rc<FiniteField>)
    requires
        all_in(v, f),
    ensures
        canonical(vals(v), f.prime as int),
{
    assert forall|i: int| 0 <= i < vals(v).len() implies 0 <= #[trigger] vals(v)[i] < f.prime by {
        assert(v[i].wf());
    }
}

#[derive(Debug, Clone)]
pub struct Polynomial {
    /// c0 + c1*x^1 + c2*x^2 ...
    pub coefficients: Vec<FieldElement>,
    pub finite_field: Rc<FiniteField>,
}

/// Drops the trailing zero coefficients.
fn trimmed(v: Vec<FieldElement>) -> (r: Vec<FieldElement>)
    ensures
        vals(r@) == trim(vals(v@)),
        r@ == v@.subrange(0, r@.len() as int),
{
    let mut r = v;
    while r.len() > 0 && r[r.len() - 1].element == 0
        invariant
            trim(vals(r@)) == trim(vals(v@)),
            r@ == v@.subrange(0, r@.len() as int),
            r@.len() <= v@.len(),
        decreases r.len(),
    {
        proof {
            assert(vals(r@).last() == 0);
            assert(vals(r@).drop_last() =~= vals(r@.drop_last()));
        }
        r.pop();
        proof {
            assert(r@ =~= v@.subrange(0, r@.len() as int));
        }
    }
    proof {
        lemma_trim(vals(r@));
    }
    r
}

impl Polynomial {
    pub open spec fn coeffs(&self) -> Seq<int> {
        vals(self.coefficients@)
    }

    pub open spec fn prime(&self) -> int {
        self.finite_field.prime as int
    }

    /// Canonical coefficients of the polynomial's field, with no trailing zero.
    pub open spec fn wf(&self) -> bool {
        &&& self.finite_field.wf()
        &&& all_in(self.coefficients@, self.finite_field)
        &&& is_trimmed(self.coeffs())
    }

    /// Both are well formed over one field.
    pub open spec fn compatible(&self, o: &Polynomial) -> bool {
        self.wf() && o.wf() && self.finite_field == o.finite_field
    }

    /// The polynomial with the given coefficients, trailing zeros removed.
    pub fn new(coefficients: Vec<FieldElement>, finite_field: Rc<FiniteField>) -> (r: Self)
        requires
            finite_field.wf(),
            all_in(coefficients@, finite_field),
        ensures
            r.wf(),
            r.finite_field == finite_field,
            r.coeffs() == trim(vals(coefficients@)),
    {
        let c = trimmed(coefficients);
        let r = Polynomial { coefficients: c, finite_field };
        proof {
            lemma_trim(vals(coefficients@));
            assert forall|i: int| 0 <= i < c@.len() implies (#[trigger] c@[i]).wf()
                && c@[i].finite_field == finite_field by {
                assert(c@[i] == coefficients@[i]);
            }
        }
        r
    }

    /// The polynomial whose coefficients are the given integers reduced into the field.
    pub fn from_slice(coefficients: &[FieldSize], finite_field: Rc<FiniteField>) -> (r: Self)
        requires
            finite_field.wf(),
        ensures
            r.wf(),
            r.finite_field == finite_field,
            r.coeffs() == trim(
                Seq::new(
                    coefficients@.len(),
                    |i: int| coefficients@[i] as int % finite_field.prime as int,
                ),
            ),
    {
        let mut v: Vec<FieldElement> = Vec::new();
        let mut i: usize = 0;
        while i < coefficients.len()
            invariant
                finite_field.wf(),
                i <= coefficients@.len(),
                v@.len() == i,
                all_in(v@, finite_field),
                forall|k: int|
                    0 <= k < i ==> #[trigger] v@[k].element == coefficients@[k] as int
                        % finite_field.prime as int,
            decreases coefficients@.len() - i,
        {
            v.push(finite_field.element(coefficients[i]));
            i = i + 1;
        }
        proof {
            assert(vals(v@) =~= Seq::new(
                coefficients@.len(),
                |i: int| coefficients@[i] as int % finite_field.prime as int,
            ));
        }
        Polynomial::new(v, finite_field)
    }

    /// The coefficient at `i`, or the field's zero past the end.
    fn coefficient(&self, i: usize) -> (r: FieldElement)
        requires
            self.wf(),
        ensures
            r.wf(),
            r.finite_field == self.finite_field,
            r.element == coef(self.coeffs(), i as int),
    {
        if i < self.coefficients.len() {
            self.coefficients[i].clone()
        } else {
            self.finite_field.zero()
        }
    }

    /// Coefficient-wise sum, trailing zeros removed.
    pub fn plus(&self, rhs: &Polynomial) -> (r: Polynomial)
        requires
            self.compatible(rhs),
        ensures
            r.wf(),
            r.finite_field == self.finite_field,
            r.coeffs() == poly_add(self.coeffs(), rhs.coeffs(), self.prime()),
    {
        let n = if self.coefficients.len() >= rhs.coefficients.len() {
            self.coefficients.len()
        } else {
            rhs.coefficients.len()
        };
        let ghost want = add_coeffs(self.coeffs(), rhs.coeffs(), self.prime());
        let mut v: Vec<FieldElement> = Vec::new();
        let mut i: usize = 0;
        while i < n
            invariant
                self.compatible(rhs),
                n == max_len(self.coeffs(), rhs.coeffs()),
                want.len() == n,
                want == add_coeffs(self.coeffs(), rhs.coeffs(), self.prime()),
                i <= n,
                v@.len() == i,
                all_in(v@, self.finite_field),
                forall|k: int| 0 <= k < i ==> #[trigger] v@[k].element == want[k],
            decreases n - i,
        {
            v.push(self.coefficient(i) + rhs.coefficient(i));
            i = i + 1;
        }
        proof {
            assert(vals(v@) =~= want);
        }
        Polynomial::new(v, share_field(&self.finite_field))
    }

    /// Coefficient-wise difference, trailing zeros removed.
    pub fn minus(&self, rhs: &Polynomial) -> (r: Polynomial)
        requires
            self.compatible(rhs),
        ensures
            r.wf(),
            r.finite_field == self.finite_field,
            r.coeffs() == poly_sub(self.coeffs(), rhs.coeffs(), self.prime()),
    {
        let n = if self.coefficients.len() >= rhs.coefficients.len() {
            self.coefficients.len()
        } else {
            rhs.coefficients.len()
        };
        let ghost want = sub_coeffs(self.coeffs(), rhs.coeffs(), self.prime());
        let mut v: Vec<FieldElement> = Vec::new();
        let mut i: usize = 0;
        while i < n
            invariant
                self.compatible(rhs),
                n == max_len(self.coeffs(), rhs.coeffs()),
                want.len() == n,
                want == sub_coeffs(self.coeffs(), rhs.coeffs(), self.prime()),
                i <= n,
                v@.len() == i,
                all_in(v@, self.finite_field),
                forall|k: int| 0 <= k < i ==> #[trigger] v@[k].element == want[k],
            decreases n - i,
        {
            v.push(self.coefficient(i) - rhs.coefficient(i));
            i = i + 1;
        }
        proof {
            assert(vals(v@) =~= want);
        }
        Polynomial::new(v, share_field(&self.finite_field))
    }

    /// Coefficient-wise negation.
    pub fn negate(&self) -> (r: Polynomial)
        requires
            self.wf(),
        ensures
            r.wf(),
            r.finite_field == self.finite_field,
            r.coeffs() == trim(neg_coeffs(self.coeffs(), self.prime())),
    {
        let mut v: Vec<FieldElement> = Vec::new();
        let mut i: usize = 0;
        while i < self.coefficients.len()
            invariant
                self.wf(),
                i <= self.coefficients@.len(),
                v@.len() == i,
                all_in(v@, self.finite_field),
                forall|k: int|
                    0 <= k < i ==> #[trigger] v@[k].element == (self.prime() - self.coeffs()[k])
                        % self.prime(),
            decreases self.coefficients@.len() - i,
        {
            v.push(self.coefficients[i].clone().neg());
            i = i + 1;
        }
        proof {
            assert(vals(v@) =~= neg_coeffs(self.coeffs(), self.prime()));
        }
        Polynomial::new(v, share_field(&self.finite_field))
    }

    /// The product: full convolution of the coefficient lists.
    pub fn times(&self, rhs: &Polynomial) -> (r: Polynomial)
        requires
            self.compatible(rhs),
            self.coefficients@.len() + rhs.coefficients@.len() <= usize::MAX,
        ensures
            r.wf(),
            r.finite_field == self.finite_field,
            r.coeffs() == poly_mul(self.coeffs(), rhs.coeffs(), self.prime()),
    {
        let la = self.coefficients.len();
        let lb = rhs.coefficients.len();
        let ghost s = self.coeffs();
        let ghost t = rhs.coeffs();
        let ghost p = self.prime();
        if la == 0 || lb == 0 {
            let empty: Vec<FieldElement> = Vec::new();
            proof {
                assert(vals(empty@) =~= mul_coeffs(s, t, p));
            }
            return Polynomial::new(empty, share_field(&self.finite_field));
        }
        let n = la + lb - 1;
        let mut v: Vec<FieldElement> = Vec::new();
        let mut k: usize = 0;
        while k < n
            invariant
                self.wf(),
                k <= n,
                v@.len() == k,
                all_in(v@, self.finite_field),
                forall|j: int| 0 <= j < k ==> #[trigger] v@[j].element == 0,
            decreases n - k,
        {
            v.push(self.finite_field.zero());
            k = k + 1;
        }
        let mut i: usize = 0;
        proof {
            lemma_small_mod(0, p as nat);
        }
        while i < la
            invariant
                self.compatible(rhs),
                s == self.coeffs(),
                t == rhs.coeffs(),
                p == self.prime(),
                la == s.len(),
                lb == t.len(),
                n == la + lb - 1,
                i <= la,
                v@.len() == n,
                all_in(v@, self.finite_field),
                forall|j: int| 0 <= j < n ==> #[trigger] v@[j].element == conv(s, t, j, i as nat) % p,
            decreases la - i,
        {
            let mut j: usize = 0;
            while j < lb
                invariant
                    self.compatible(rhs),
                    s == self.coeffs(),
                    t == rhs.coeffs(),
                    p == self.prime(),
                    la == s.len(),
                    lb == t.len(),
                    n == la + lb - 1,
                    i < la,
                    j <= lb,
                    v@.len() == n,
                    all_in(v@, self.finite_field),
                    forall|q: int|
                        0 <= q < n ==> #[trigger] v@[q].element == (conv(s, t, q, i as nat) + (if q
                            - i < j {
                            coef(s, i as int) * coef(t, q - i)
                        } else {
                            0
                        })) % p,
                decreases lb - j,
            {
                let term = self.coefficients[i].clone() * rhs.coefficients[j].clone();
                let updated = v[i + j].clone() + term;
                proof {
                    let q = (i + j) as int;
                    lemma_add_mod_noop(conv(s, t, q, i as nat), s[i as int] * t[j as int], p);
                    lemma_mod_twice(s[i as int] * t[j as int], p);
                    lemma_mod_twice(conv(s, t, q, i as nat), p);
                    lemma_add_mod_noop(conv(s, t, q, i as nat) % p, s[i as int] * t[j as int], p);
                    lemma_add_mod_noop(conv(s, t, q, i as nat) % p, (s[i as int] * t[j as int]) % p, p);
                }
                v.set(i + j, updated);
                j = j + 1;
            }
            proof {
                assert forall|q: int| 0 <= q < n implies #[trigger] v@[q].element == conv(
                    s,
                    t,
                    q,
                    (i + 1) as nat,
                ) % p by {}
            }
            i = i + 1;
        }
        proof {
            assert(vals(v@) =~= mul_coeffs(s, t, p));
        }
        Polynomial::new(v, share_field(&self.finite_field))
    }
}

impl Polynomial {
    /// Multiplies every coefficient by `scalar`.
    pub fn scalar_mul(self, scalar: FieldElement) -> (r: Self)
        requires
            self.wf(),
            scalar.wf(),
            scalar.finite_field == self.finite_field,
        ensures
            r.wf(),
            r.finite_field == self.finite_field,
            r.coeffs() == trim(scale_coeffs(self.coeffs(), scalar.element as int, self.prime())),
    {
        let ghost want = scale_coeffs(self.coeffs(), scalar.element as int, self.prime());
        let mut v: Vec<FieldElement> = Vec::new();
        let mut i: usize = 0;
        while i < self.coefficients.len()
            invariant
                self.wf(),
                scalar.wf(),
                scalar.finite_field == self.finite_field,
                want == scale_coeffs(self.coeffs(), scalar.element as int, self.prime()),
                i <= self.coefficients@.len(),
                v@.len() == i,
                all_in(v@, self.finite_field),
                forall|k: int| 0 <= k < i ==> #[trigger] v@[k].element == want[k],
            decreases self.coefficients@.len() - i,
        {
            v.push(self.coefficients[i].clone() * scalar.clone());
            i = i + 1;
        }
        proof {
            assert(vals(v@) =~= want);
        }
        Polynomial::new(v, self.finite_field)
    }

    /// Divides every coefficient by the non-zero `scalar`.
    pub fn scalar_div(self, scalar: FieldElement) -> (r: Self)
        requires
            self.wf(),
            scalar.wf(),
            scalar.finite_field == self.finite_field,
            scalar.element != 0,
        ensures
            r.wf(),
            r.finite_field == self.finite_field,
            r.coeffs() == trim(
                scale_coeffs(self.coeffs(), scalar.spec_inverse().element as int, self.prime()),
            ),
    {
        let ghost want = scale_coeffs(
            self.coeffs(),
            scalar.spec_inverse().element as int,
            self.prime(),
        );
        let mut v: Vec<FieldElement> = Vec::new();
        let mut i: usize = 0;
        while i < self.coefficients.len()
            invariant
                self.wf(),
                scalar.wf(),
                scalar.finite_field == self.finite_field,
                scalar.element != 0,
                want == scale_coeffs(
                    self.coeffs(),
                    scalar.spec_inverse().element as int,
                    self.prime(),
                ),
                i <= self.coefficients@.len(),
                v@.len() == i,
                all_in(v@, self.finite_field),
                forall|k: int| 0 <= k < i ==> #[trigger] v@[k].element == want[k],
            decreases self.coefficients@.len() - i,
        {
            v.push(self.coefficients[i].clone() / scalar.clone());
            i = i + 1;
        }
        proof {
            assert(vals(v@) =~= want);
        }
        Polynomial::new(v, self.finite_field)
    }

    /// The degree: index of the highest non-zero coefficient, -1 for the zero polynomial.
    pub fn degree(&self) -> (r: FieldSize)
        requires
            self.wf(),
        ensures
            r == degree_of(self.coeffs()),
            r == self.coeffs().len() - 1,
    {
        let i = self.leading_coefficient_index();
        proof {
            lemma_trim(self.coeffs());
        }
        if self.coefficients.len() == 0 {
            -1
        } else {
            i as FieldSize
        }
    }

    /// Index of the highest non-zero coefficient, scanning from the top; 0 when there is none.
    pub fn leading_coefficient_index(&self) -> (r: usize)
        requires
            self.wf(),
        ensures
            r == if degree_of(self.coeffs()) < 0 {
                0
            } else {
                degree_of(self.coeffs())
            },
    {
        let ghost s = self.coeffs();
        let mut i = self.coefficients.len();
        while i > 0
            invariant
                self.wf(),
                s == self.coeffs(),
                i <= s.len(),
                forall|k: int| k >= i ==> #[trigger] coef(s, k) == 0,
            decreases i,
        {
            if self.coefficients[i - 1].element != 0 {
                proof {
                    lemma_trim_len(s, i as int);
                    lemma_trim(s);
                    assert(coef(trim(s), i - 1) == coef(s, i - 1));
                }
                return i - 1;
            }
            i = i - 1;
        }
        proof {
            lemma_trim_len(s, 0);
        }
        0
    }

    /// The value at `x`, accumulating `coefficient * x^i` from the lowest degree up.
    pub fn evaluate(&self, x: FieldElement) -> (r: FieldElement)
        requires
            self.wf(),
            x.wf(),
            x.finite_field == self.finite_field,
        ensures
            r.wf(),
            r.finite_field == self.finite_field,
            r.element == eval(self.coeffs(), x.element as int, self.prime()),
    {
        let ghost s = self.coeffs();
        let ghost p = self.prime();
        let ghost xv = x.element as int;
        let mut result = self.finite_field.zero();
        let mut pw = self.finite_field.one();
        let mut i: usize = 0;
        proof {
            lemma_small_mod(0, p as nat);
            lemma_small_mod(1, p as nat);
            lemma_pow0(xv);
        }
        while i < self.coefficients.len()
            invariant
                self.wf(),
                x.wf(),
                x.finite_field == self.finite_field,
                s == self.coeffs(),
                p == self.prime(),
                xv == x.element,
                i <= s.len(),
                result.wf(),
                result.finite_field == self.finite_field,
                pw.wf(),
                pw.finite_field == self.finite_field,
                result.element == psum(s, xv, i as nat) % p,
                pw.element == pow(xv, i as nat) % p,
            decreases s.len() - i,
        {
            proof {
                let c = s[i as int];
                let w = pow(xv, i as nat);
                lemma_mul_mod_noop_right(c, w, p);
                lemma_add_mod_noop(psum(s, xv, i as nat), c * w, p);
                lemma_mod_twice(c * w, p);
                lemma_pow_adds(xv, i as nat, 1);
                lemma_pow1(xv);
                lemma_mul_mod_noop_left(w, xv, p);
            }
            result = result + self.coefficients[i].clone() * pw.clone();
            pw = pw * x.clone();
            i = i + 1;
        }
        result
    }

    /// The values at the field elements `0, 1, ..., domain - 1`, in that order.
    pub fn evaluate_on_domain(&self, domain: FieldSize) -> (r: Vec<FieldElement>)
        requires
            self.wf(),
            0 <= domain,
        ensures
            r@.len() == domain,
            all_in(r@, self.finite_field),
            forall|i: int|
                0 <= i < domain ==> #[trigger] r@[i].element == eval(
                    self.coeffs(),
                    i % self.prime(),
                    self.prime(),
                ),
    {
        let mut result: Vec<FieldElement> = Vec::new();
        let mut i: FieldSize = 0;
        while i < domain
            invariant
                self.wf(),
                0 <= i <= domain,
                result@.len() == i,
                all_in(result@, self.finite_field),
                forall|k: int|
                    0 <= k < i ==> #[trigger] result@[k].element == eval(
                        self.coeffs(),
                        k % self.prime(),
                        self.prime(),
                    ),
            decreases domain - i,
        {
            result.push(self.evaluate(self.finite_field.element(i)));
            i = i + 1;
        }
        result
    }
}

/// A copy of the list, element by element.
pub(crate) fn copy_elements(v: &Vec<FieldElement>) -> (r: Vec<FieldElement>)
    ensures
        r@ == v@,
{
    let mut r: Vec<FieldElement> = Vec::new();
    let mut i: usize = 0;
    while i < v.len()
        invariant
            i <= v@.len(),
            r@ == v@.subrange(0, i as int),
        decreases v@.len() - i,
    {
        r.push(v[i].clone());
        i = i + 1;
        proof {
            assert(r@ =~= v@.subrange(0, i as int));
        }
    }
    proof {
        assert(r@ =~= v@);
    }
    r
}

/// `n` copies of the field's zero.
fn zeros(f: &Rc<FiniteField>, n: usize) -> (r: Vec<FieldElement>)
    requires
        f.wf(),
    ensures
        r@.len() == n,
        all_in(r@, *f),
        forall|j: int| 0 <= j < n ==> #[trigger] r@[j].element == 0,
{
    let mut v: Vec<FieldElement> = Vec::new();
    let mut k: usize = 0;
    while k < n
        invariant
            f.wf(),
            k <= n,
            v@.len() == k,
            all_in(v@, *f),
            forall|j: int| 0 <= j < k ==> #[trigger] v@[j].element == 0,
        decreases n - k,
    {
        v.push(f.zero());
        k = k + 1;
    }
    v
}

impl Polynomial {
    /// Euclidean division: `(quotient, remainder)` with `self == quotient * divisor + remainder`;
    /// in a prime field the remainder's degree is below the divisor's.
    pub fn divide(&self, divisor: &Polynomial) -> (r: (Polynomial, Polynomial))
        requires
            self.compatible(divisor),
            divisor.coefficients@.len() > 0,
        ensures
            r.0.wf(),
            r.1.wf(),
            r.0.finite_field == self.finite_field,
            r.1.finite_field == self.finite_field,
            poly_add(poly_mul(r.0.coeffs(), divisor.coeffs(), self.prime()), r.1.coeffs(), self.prime())
                == self.coeffs(),
            is_prime(self.prime()) ==> degree_of(r.1.coeffs()) < degree_of(divisor.coeffs()),
            r.0.coeffs().len() <= self.coeffs().len(),
            r.1.coeffs().len() <= self.coeffs().len(),
    {
        let ghost pp = self.coeffs();
        let ghost d = divisor.coeffs();
        let ghost p = self.prime();
        let ld = divisor.coefficients.len();
        let lp = self.coefficients.len();
        let mut rem = copy_elements(&self.coefficients);
        let qlen = if lp >= ld { lp - ld + 1 } else { 0 };
        let mut quo = zeros(&self.finite_field, qlen);
        let lead_inv = divisor.coefficients[ld - 1].inverse();
        proof {
            lemma_small_mod(0, p as nat);
            lemma_all_in_canonical(self.coefficients@, self.finite_field);
            lemma_all_in_canonical(divisor.coefficients@, self.finite_field);
            assert(vals(rem@) == pp);
            assert forall|k: int| #[trigger] coef(pp, k) % p == (conv(vals(quo@), d, k, qlen as nat)
                + coef(vals(rem@), k)) % p by {
                lemma_canonical_coef(pp, p, k);
                lemma_conv_zero_first(vals(quo@), d, k, qlen as nat);
            }
            if is_prime(p) {
                let l = d[ld - 1];
                assert(l == divisor.coefficients@[ld - 1].element);
                lemma_prime_coprime(l, p);
            }
        }
        let mut m = qlen;
        while m > 0
            invariant
                self.compatible(divisor),
                pp == self.coeffs(),
                d == divisor.coeffs(),
                p == self.prime(),
                ld == d.len(),
                lp == pp.len(),
                ld > 0,
                qlen == if lp >= ld { lp - ld + 1 } else { 0 },
                m <= qlen,
                rem@.len() == lp,
                quo@.len() == qlen,
                all_in(rem@, self.finite_field),
                all_in(quo@, self.finite_field),
                lead_inv.wf(),
                lead_inv.finite_field == self.finite_field,
                is_prime(p) ==> (d[ld - 1] * lead_inv.element) % p == 1,
                forall|j: int| 0 <= j < m ==> #[trigger] quo@[j].element == 0,
                forall|k: int| #[trigger] coef(pp, k) % p == (conv(vals(quo@), d, k, qlen as nat)
                    + coef(vals(rem@), k)) % p,
                is_prime(p) ==> forall|k: int| k >= m + ld - 1 ==> #[trigger] coef(vals(rem@), k) == 0,
            decreases m,
        {
            m = m - 1;
            let c = rem[m + ld - 1].clone() * lead_inv.clone();
            let ghost r0 = vals(rem@);
            let ghost q0 = vals(quo@);
            let ghost rem0 = rem@;
            quo.set(m, c.clone());
            let mut j: usize = 0;
            while j < ld
                invariant
                    self.compatible(divisor),
                    d == divisor.coeffs(),
                    p == self.prime(),
                    ld == d.len(),
                    lp == rem0.len(),
                    m + ld <= lp,
                    j <= ld,
                    rem@.len() == lp,
                    all_in(rem@, self.finite_field),
                    all_in(rem0, self.finite_field),
                    c.wf(),
                    c.finite_field == self.finite_field,
                    forall|k: int|
                        0 <= k < lp ==> #[trigger] rem@[k].element == if m <= k < m + j {
                            (rem0[k].element - c.element * d[k - m]) % p
                        } else {
                            rem0[k].element as int
                        },
                decreases ld - j,
            {
                let updated = rem[m + j].clone() - c.clone() * divisor.coefficients[j].clone();
                proof {
                    let k = (m + j) as int;
                    let x = rem0[k].element as int;
                    let y = c.element * d[j as int];
                    assert(rem@[k].element == x);
                    lemma_small_mod(x as nat, p as nat);
                    lemma_sub_mod_noop(x, y, p);
                }
                rem.set(m + j, updated);
                j = j + 1;
            }
            proof {
                let r1 = vals(rem@);
                let q1 = vals(quo@);
                let cv = c.element as int;
                assert(q1 == q0.update(m as int, cv));
                assert(q0[m as int] == 0);
                assert forall|k: int| #[trigger] coef(r1, k) % p == (coef(r0, k) - cv * coef(d, k - m)) % p by {
                    if 0 <= k < lp {
                        assert(rem@[k].element == r1[k]);
                        assert(rem0[k].element == r0[k]);
                        if m <= k < m + ld {
                            assert(rem@[k].element == (rem0[k].element - c.element * d[k - m]) % p);
                            assert(coef(d, k - m) == d[k - m]);
                            lemma_mod_twice(r0[k] - cv * d[k - m], p);
                        } else {
                            assert(rem@[k].element == rem0[k].element);
                            let z = coef(d, k - m);
                            assert(z == 0);
                            assert(cv * z == 0) by (nonlinear_arith)
                                requires
                                    z == 0,
                            ;
                        }
                    } else {
                        let z = coef(d, k - m);
                        assert(z == 0);
                        assert(cv * z == 0) by (nonlinear_arith)
                            requires
                                z == 0,
                        ;
                    }
                }
                assert forall|k: int| #[trigger] coef(pp, k) % p == (conv(q1, d, k, qlen as nat) + coef(r1, k)) % p by {
                    lemma_conv_update(q0, d, m as int, cv, k, qlen as nat);
                    let a = conv(q0, d, k, qlen as nat) + cv * coef(d, k - m);
                    lemma_mod_add_congruent(a, coef(r1, k), coef(r0, k) - cv * coef(d, k - m), p);
                    assert(a + (coef(r0, k) - cv * coef(d, k - m)) == conv(q0, d, k, qlen as nat) + coef(r0, k));
                }
                if is_prime(p) {
                    assert forall|k: int| k >= m + ld - 1 implies #[trigger] coef(r1, k) == 0 by {
                        if k == m + ld - 1 {
                            let top = r0[k];
                            assert(cv == (top * lead_inv.element) % p);
                            lemma_cancel_lead(top, lead_inv.element as int, d[ld - 1], p);
                            assert(rem@[k].element == r1[k]);
                            assert(rem0[k].element == r0[k]);
                        } else if k < lp {
                            assert(rem@[k].element == r1[k]);
                            assert(rem0[k].element == r0[k]);
                            assert(coef(r0, k) == 0);
                        }
                    }
                }
            }
        }
        proof {
            let r1 = vals(rem@);
            let q1 = vals(quo@);
            lemma_all_in_canonical(self.coefficients@, self.finite_field);
            lemma_division_identity(pp, q1, d, r1, p);
            lemma_trim(q1);
            lemma_trim(r1);
            if is_prime(p) {
                lemma_trim_len(r1, ld - 1);
                lemma_trim(r1);
                lemma_trim(trim(r1));
                lemma_trim(d);
            }
        }
        (Polynomial::new(quo, share_field(&self.finite_field)), Polynomial::new(rem, share_field(&self.finite_field)))
    }
}

/// The constant polynomial `c`.
fn constant(c: FieldElement) -> (r: Polynomial)
    requires
        c.wf(),
    ensures
        r.wf(),
        r.finite_field == c.finite_field,
        r.coeffs() == trim(seq![c.element as int]),
{
    let f = share_field(&c.finite_field);
    let mut v: Vec<FieldElement> = Vec::new();
    v.push(c);
    proof {
        assert(vals(v@) =~= seq![c.element as int]);
    }
    Polynomial::new(v, f)
}

/// The polynomial `x`.
fn identity(f: &Rc<FiniteField>) -> (r: Polynomial)
    requires
        f.wf(),
    ensures
        r.wf(),
        r.finite_field == *f,
        r.coeffs() == seq![0int, 1int],
{
    let mut v: Vec<FieldElement> = Vec::new();
    v.push(f.zero());
    v.push(f.one());
    proof {
        assert(vals(v@) =~= seq![0int, 1int]);
        lemma_trim(seq![0int, 1int]);
    }
    Polynomial::new(v, share_field(f))
}

impl Polynomial {
    /// `prod_{i < domain} (x - i)`: the monic polynomial of degree `domain` vanishing on
    /// `0, 1, ..., domain - 1`.
    pub fn zerofier_domain(domain: FieldSize, finite_field: Rc<FiniteField>) -> (r: Self)
        requires
            finite_field.wf(),
            0 <= domain,
            domain + 2 <= usize::MAX,
        ensures
            r.wf(),
            r.finite_field == finite_field,
            r.coeffs() == zerofier_coeffs(domain as nat, finite_field.prime as int),
            r.coeffs().len() == domain + 1,
            r.coeffs().last() == 1,
            forall|i: int|
                0 <= i < domain ==> #[trigger] eval(
                    r.coeffs(),
                    i % finite_field.prime as int,
                    finite_field.prime as int,
                ) == 0,
    {
        let ghost p = finite_field.prime as int;
        let x = identity(&finite_field);
        let mut acc = constant(finite_field.one());
        proof {
            lemma_small_mod(1, p as nat);
            lemma_trim(seq![1int]);
        }
        let mut i: FieldSize = 0;
        while i < domain
            invariant
                finite_field.wf(),
                p == finite_field.prime,
                0 <= i <= domain,
                domain + 2 <= usize::MAX,
                x.wf(),
                x.finite_field == finite_field,
                x.coeffs() == seq![0int, 1int],
                acc.wf(),
                acc.finite_field == finite_field,
                acc.coeffs() == zerofier_coeffs(i as nat, p),
                acc.coeffs().len() == i + 1,
                acc.coeffs().last() == 1,
                forall|v: int| 0 <= v < i ==> #[trigger] eval(acc.coeffs(), v % p, p) == 0,
            decreases domain - i,
        {
            let point = constant(finite_field.element(i));
            let factor = x.minus(&point);
            let ghost iv = i as int % p;
            proof {
                let c = trim(seq![iv]);
                lemma_trim(seq![iv]);
                lemma_trim(sub_coeffs(seq![0int, 1int], c, p));
                assert(coef(c, 1) == 0);
                lemma_small_mod(1, p as nat);
                assert(sub_coeffs(seq![0int, 1int], c, p)[1] == 1);
                assert(factor.coeffs().len() == 2);
                assert(factor.coeffs().last() == 1);
                lemma_mul_lead(acc.coeffs(), factor.coeffs(), p);
            }
            let next = acc.times(&factor);
            proof {
                assert forall|v: int| 0 <= v < i + 1 implies #[trigger] eval(next.coeffs(), v % p, p)
                    == 0 by {
                    let z = v % p;
                    lemma_eval_mul(acc.coeffs(), factor.coeffs(), z, p);
                    lemma_eval_sub(seq![0int, 1int], trim(seq![iv]), z, p);
                    lemma_eval_x(z, p);
                    lemma_eval_constant(iv, z, p);
                    lemma_mod_twice(v, p);
                    lemma_mod_twice(i as int, p);
                    lemma_small_mod(0, p as nat);
                    if v == i {
                        assert(z == iv);
                        assert(eval(factor.coeffs(), z, p) == 0);
                        assert(eval(acc.coeffs(), z, p) * 0 == 0);
                    } else {
                        assert(eval(acc.coeffs(), z, p) == 0);
                        assert(0 * eval(factor.coeffs(), z, p) == 0);
                    }
                }
            }
            acc = next;
            i = i + 1;
        }
        acc
    }
}

/// The interpolation points are canonical elements of `f` with pairwise distinct abscissas.
pub open spec fn valid_points(points: Seq<(FieldElement, FieldElement)>, f: Rc<FiniteField>) -> bool {
    &&& forall|i: int|
        0 <= i < points.len() ==> (#[trigger] points[i]).0.wf() && points[i].0.finite_field == f
            && points[i].1.wf() && points[i].1.finite_field == f
    &&& forall|i: int, j: int|
        0 <= i < points.len() && 0 <= j < points.len() && i != j ==> #[trigger] points[i].0.element
            != #[trigger] points[j].0.element
}

impl Polynomial {
    /// The Lagrange interpolant `sum_i y_i * prod_{j != i} (x - x_j) / (x_i - x_j)`: degree below
    /// the number of points, and in a prime field equal to `y_i` at every `x_i`.
    pub fn lagrange_interpolation(
        points: &[(FieldElement, FieldElement)],
        finite_field: Rc<FiniteField>,
    ) -> (r: Self)
        requires
            finite_field.wf(),
            valid_points(points@, finite_field),
            points@.len() + 2 <= usize::MAX,
        ensures
            r.wf(),
            r.finite_field == finite_field,
            r.coeffs().len() <= points@.len(),
            is_prime(finite_field.prime as int) ==> forall|m: int|
                0 <= m < points@.len() ==> #[trigger] eval(
                    r.coeffs(),
                    points@[m].0.element as int,
                    finite_field.prime as int,
                ) == points@[m].1.element,
    {
        let ghost p = finite_field.prime as int;
        let ghost pts = points@;
        let k = points.len();
        let x = identity(&finite_field);
        let mut acc = Polynomial::new(Vec::new(), share_field(&finite_field));
        proof {
            lemma_small_mod(0, p as nat);
            assert(vals(Seq::<FieldElement>::empty()) =~= Seq::<int>::empty());
        }
        let mut i: usize = 0;
        while i < k
            invariant
                finite_field.wf(),
                p == finite_field.prime,
                pts == points@,
                k == pts.len(),
                valid_points(pts, finite_field),
                k + 2 <= usize::MAX,
                i <= k,
                x.wf(),
                x.finite_field == finite_field,
                x.coeffs() == seq![0int, 1int],
                acc.wf(),
                acc.finite_field == finite_field,
                acc.coeffs().len() <= k,
                is_prime(p) ==> forall|m: int|
                    0 <= m < k ==> #[trigger] eval(acc.coeffs(), pts[m].0.element as int, p) == if m
                        < i {
                        pts[m].1.element as int
                    } else {
                        0
                    },
            decreases k - i,
        {
            let mut value = constant(points[i].1.clone());
            proof {
                assert(pts[i as int].1.wf());
                lemma_trim(seq![pts[i as int].1.element as int]);
                assert forall|z: int| #[trigger] eval(value.coeffs(), z, p) == pts[i as int].1.element by {
                    lemma_eval_constant(pts[i as int].1.element as int, z, p);
                    lemma_small_mod(pts[i as int].1.element as nat, p as nat);
                }
            }
            let mut j: usize = 0;
            while j < k
                invariant
                    finite_field.wf(),
                    p == finite_field.prime,
                    pts == points@,
                    k == pts.len(),
                    valid_points(pts, finite_field),
                    k + 2 <= usize::MAX,
                    i < k,
                    j <= k,
                    x.wf(),
                    x.finite_field == finite_field,
                    x.coeffs() == seq![0int, 1int],
                    value.wf(),
                    value.finite_field == finite_field,
                    value.coeffs().len() <= 1 + j - (if i < j { 1int } else { 0 }),
                    is_prime(p) ==> eval(value.coeffs(), pts[i as int].0.element as int, p)
                        == pts[i as int].1.element,
                    is_prime(p) ==> forall|m: int|
                        0 <= m < j && m != i ==> #[trigger] eval(
                            value.coeffs(),
                            pts[m].0.element as int,
                            p,
                        ) == 0,
                decreases k - j,
            {
                if i != j {
                    let xi = points[i].0.clone();
                    let xj = points[j].0.clone();
                    let denominator = xi - xj.clone();
                    let denominator_inv = denominator.inverse();
                    let shift = constant(xj);
                    let linear = x.minus(&shift);
                    let scale = constant(denominator_inv);
                    proof {
                        lemma_trim(seq![pts[j as int].0.element as int]);
                        lemma_trim(seq![denominator_inv.element as int]);
                        lemma_trim(sub_coeffs(seq![0int, 1int], shift.coeffs(), p));
                        lemma_mul_len(linear.coeffs(), scale.coeffs(), p);
                    }
                    let basis = linear.times(&scale);
                    proof {
                        lemma_mul_len(value.coeffs(), basis.coeffs(), p);
                    }
                    let next = value.times(&basis);
                    proof {
                        let xiv = pts[i as int].0.element as int;
                        let xjv = pts[j as int].0.element as int;
                        let dv = denominator.element as int;
                        let iv = denominator_inv.element as int;
                        assert(dv == (xiv - xjv) % p);
                        assert forall|z: int| 0 <= z < p implies #[trigger] eval(basis.coeffs(), z, p)
                            == (((z - xjv) % p) * iv) % p by {
                            lemma_eval_mul(linear.coeffs(), scale.coeffs(), z, p);
                            lemma_eval_sub(seq![0int, 1int], shift.coeffs(), z, p);
                            lemma_eval_x(z, p);
                            lemma_eval_constant(xjv, z, p);
                            lemma_eval_constant(iv, z, p);
                            lemma_small_mod(z as nat, p as nat);
                            lemma_small_mod(xjv as nat, p as nat);
                            lemma_small_mod(iv as nat, p as nat);
                        }
                        if is_prime(p) {
                            lemma_diff_nonzero(xiv, xjv, p);
                            lemma_prime_coprime(dv, p);
                            let yi = pts[i as int].1.element as int;
                            lemma_eval_mul(value.coeffs(), basis.coeffs(), xiv, p);
                            assert(pts[i as int].0.wf());
                            assert(pts[j as int].0.wf());
                            assert(xiv != xjv);
                            assert(0 < dv < p);
                            assert(gcd(dv as nat, p as nat) == 1);
                            assert((dv * iv) % p == 1);
                            assert(eval(basis.coeffs(), xiv, p) == (dv * iv) % p);
                            assert(eval(value.coeffs(), xiv, p) == yi);
                            lemma_small_mod(yi as nat, p as nat);
                            assert(yi * 1 == yi);
                            assert(eval(next.coeffs(), xiv, p) == yi);
                            assert forall|m: int| 0 <= m < j + 1 && m != i implies #[trigger] eval(
                                next.coeffs(),
                                pts[m].0.element as int,
                                p,
                            ) == 0 by {
                                let xm = pts[m].0.element as int;
                                lemma_eval_mul(value.coeffs(), basis.coeffs(), xm, p);
                                lemma_small_mod(0, p as nat);
                                if m == j {
                                    assert(pts[m].0.wf());
                                    assert(xm - xjv == 0);
                                    assert(0 * iv == 0);
                                    assert(eval(basis.coeffs(), xm, p) == ((0int % p) * iv) % p);
                                    assert(eval(basis.coeffs(), xm, p) == 0);
                                    assert(eval(value.coeffs(), xm, p) * 0 == 0);
                                } else {
                                    assert(eval(value.coeffs(), xm, p) == 0);
                                    assert(0 * eval(basis.coeffs(), xm, p) == 0);
                                }
                            }
                        }
                    }
                    value = next;
                }
                j = j + 1;
            }
            proof {
                lemma_trim(add_coeffs(acc.coeffs(), value.coeffs(), p));
            }
            let next = acc.plus(&value);
            proof {
                if is_prime(p) {
                    assert forall|m: int| 0 <= m < k implies #[trigger] eval(
                        next.coeffs(),
                        pts[m].0.element as int,
                        p,
                    ) == if m < i + 1 {
                        pts[m].1.element as int
                    } else {
                        0
                    } by {
                        let xm = pts[m].0.element as int;
                        lemma_eval_add(acc.coeffs(), value.coeffs(), xm, p);
                        assert(pts[m].1.wf());
                        lemma_small_mod(pts[m].1.element as nat, p as nat);
                        lemma_small_mod(0, p as nat);
                    }
                }
            }
            acc = next;
            i = i + 1;
        }
        acc
    }
}

impl PartialEq for Polynomial {
    fn eq(&self, other: &Self) -> (r: bool) {
        if self.finite_field.prime != other.finite_field.prime
            || self.finite_field.generator != other.finite_field.generator {
            return false;
        }
        if self.coefficients.len() != other.coefficients.len() {
            return false;
        }
        let mut i: usize = 0;
        while i < self.coefficients.len()
            invariant
                self.coefficients@.len() == other.coefficients@.len(),
                i <= self.coefficients@.len(),
                forall|k: int| 0 <= k < i ==> (#[trigger] self.coefficients@[k]).congruent(&other.coefficients@[k]),
            decreases self.coefficients@.len() - i,
        {
            if self.coefficients[i] != other.coefficients[i] {
                return false;
            }
            i = i + 1;
        }
        true
    }
}

impl vstd::std_specs::cmp::PartialEqSpecImpl for Polynomial {
    open spec fn obeys_eq_spec() -> bool {
        true
    }

    /// Same field, same number of coefficients, and equal coefficients.
    open spec fn eq_spec(&self, other: &Self) -> bool {
        &&& self.finite_field.prime == other.finite_field.prime
        &&& self.finite_field.generator == other.finite_field.generator
        &&& self.coefficients@.len() == other.coefficients@.len()
        &&& forall|k: int|
            0 <= k < self.coefficients@.len() ==> (#[trigger] self.coefficients@[k]).congruent(
                &other.coefficients@[k],
            )
    }
}

// The operators carry the contracts of `plus`, `minus`, `times`, `negate` and `divide`, stated
// in the `ensures` of each operator method. The `*_spec` functions describe the same result,
// but with `obeys_*` false they are not what callers reason from.
impl std::ops::Add for Polynomial {
    type Output = Polynomial;

    fn add(self, rhs: Self) -> (r: Polynomial)
        ensures
            r.wf(),
            r.finite_field == self.finite_field,
            r.coeffs() == poly_add(self.coeffs(), rhs.coeffs(), self.prime()),
    {
        self.plus(&rhs)
    }
}

impl vstd::std_specs::ops::AddSpecImpl for Polynomial {
    open spec fn obeys_add_spec() -> bool {
        false
    }

    open spec fn add_req(self, rhs: Self) -> bool {
        self.compatible(&rhs)
    }

    open spec fn add_spec(self, rhs: Self) -> Polynomial {
        choose|q: Polynomial| q.wf() && q.finite_field == self.finite_field && q.coeffs() == poly_add(self.coeffs(), rhs.coeffs(), self.prime())
    }
}

impl std::ops::Add for &Polynomial {
    type Output = Polynomial;

    fn add(self, rhs: Self) -> (r: Polynomial)
        ensures
            r.wf(),
            r.finite_field == self.finite_field,
            r.coeffs() == poly_add(self.coeffs(), rhs.coeffs(), self.prime()),
    {
        self.plus(rhs)
    }
}

impl vstd::std_specs::ops::AddSpecImpl for &Polynomial {
    open spec fn obeys_add_spec() -> bool {
        false
    }

    open spec fn add_req(self, rhs: Self) -> bool {
        self.compatible(rhs)
    }

    open spec fn add_spec(self, rhs: Self) -> Polynomial {
        choose|q: Polynomial| q.wf() && q.finite_field == self.finite_field && q.coeffs() == poly_add(self.coeffs(), rhs.coeffs(), self.prime())
    }
}

impl std::ops::Sub for Polynomial {
    type Output = Polynomial;

    fn sub(self, rhs: Self) -> (r: Polynomial)
        ensures
            r.wf(),
            r.finite_field == self.finite_field,
            r.coeffs() == poly_sub(self.coeffs(), rhs.coeffs(), self.prime()),
    {
        self.minus(&rhs)
    }
}

impl vstd::std_specs::ops::SubSpecImpl for Polynomial {
    open spec fn obeys_sub_spec() -> bool {
        false
    }

    open spec fn sub_req(self, rhs: Self) -> bool {
        self.compatible(&rhs)
    }

    open spec fn sub_spec(self, rhs: Self) -> Polynomial {
        choose|q: Polynomial| q.wf() && q.finite_field == self.finite_field && q.coeffs() == poly_sub(self.coeffs(), rhs.coeffs(), self.prime())
    }
}

impl std::ops::Sub for &Polynomial {
    type Output = Polynomial;

    fn sub(self, rhs: Self) -> (r: Polynomial)
        ensures
            r.wf(),
            r.finite_field == self.finite_field,
            r.coeffs() == poly_sub(self.coeffs(), rhs.coeffs(), self.prime()),
    {
        self.minus(rhs)
    }
}

impl vstd::std_specs::ops::SubSpecImpl for &Polynomial {
    open spec fn obeys_sub_spec() -> bool {
        false
    }

    open spec fn sub_req(self, rhs: Self) -> bool {
        self.compatible(rhs)
    }

    open spec fn sub_spec(self, rhs: Self) -> Polynomial {
        choose|q: Polynomial| q.wf() && q.finite_field == self.finite_field && q.coeffs() == poly_sub(self.coeffs(), rhs.coeffs(), self.prime())
    }
}

impl std::ops::Mul for Polynomial {
    type Output = Polynomial;

    fn mul(self, rhs: Self) -> (r: Polynomial)
        ensures
            r.wf(),
            r.finite_field == self.finite_field,
            r.coeffs() == poly_mul(self.coeffs(), rhs.coeffs(), self.prime()),
    {
        self.times(&rhs)
    }
}

impl vstd::std_specs::ops::MulSpecImpl for Polynomial {
    open spec fn obeys_mul_spec() -> bool {
        false
    }

    open spec fn mul_req(self, rhs: Self) -> bool {
        self.compatible(&rhs) && self.coefficients@.len() + rhs.coefficients@.len() <= usize::MAX
    }

    open spec fn mul_spec(self, rhs: Self) -> Polynomial {
        choose|q: Polynomial| q.wf() && q.finite_field == self.finite_field && q.coeffs() == poly_mul(self.coeffs(), rhs.coeffs(), self.prime())
    }
}

impl std::ops::Mul for &Polynomial {
    type Output = Polynomial;

    fn mul(self, rhs: Self) -> (r: Polynomial)
        ensures
            r.wf(),
            r.finite_field == self.finite_field,
            r.coeffs() == poly_mul(self.coeffs(), rhs.coeffs(), self.prime()),
    {
        self.times(rhs)
    }
}

impl vstd::std_specs::ops::MulSpecImpl for &Polynomial {
    open spec fn obeys_mul_spec() -> bool {
        false
    }

    open spec fn mul_req(self, rhs: Self) -> bool {
        self.compatible(rhs) && self.coefficients@.len() + rhs.coefficients@.len() <= usize::MAX
    }

    open spec fn mul_spec(self, rhs: Self) -> Polynomial {
        choose|q: Polynomial| q.wf() && q.finite_field == self.finite_field && q.coeffs() == poly_mul(self.coeffs(), rhs.coeffs(), self.prime())
    }
}

impl std::ops::Neg for Polynomial {
    type Output = Polynomial;

    fn neg(self) -> (r: Polynomial)
        ensures
            r.wf(),
            r.finite_field == self.finite_field,
            r.coeffs() == trim(neg_coeffs(self.coeffs(), self.prime())),
    {
        self.negate()
    }
}

impl vstd::std_specs::ops::NegSpecImpl for Polynomial {
    open spec fn obeys_neg_spec() -> bool {
        false
    }

    open spec fn neg_req(self) -> bool {
        self.wf()
    }

    open spec fn neg_spec(self) -> Polynomial {
        choose|q: Polynomial| q.wf() && q.finite_field == self.finite_field && q.coeffs() == trim(neg_coeffs(self.coeffs(), self.prime()))
    }
}

impl std::ops::Neg for &Polynomial {
    type Output = Polynomial;

    fn neg(self) -> (r: Polynomial)
        ensures
            r.wf(),
            r.finite_field == self.finite_field,
            r.coeffs() == trim(neg_coeffs(self.coeffs(), self.prime())),
    {
        self.negate()
    }
}

impl vstd::std_specs::ops::NegSpecImpl for &Polynomial {
    open spec fn obeys_neg_spec() -> bool {
        false
    }

    open spec fn neg_req(self) -> bool {
        self.wf()
    }

    open spec fn neg_spec(self) -> Polynomial {
        choose|q: Polynomial| q.wf() && q.finite_field == self.finite_field && q.coeffs() == trim(neg_coeffs(self.coeffs(), self.prime()))
    }
}

impl std::ops::Div for Polynomial {
    type Output = (Polynomial, Polynomial);

    /// Euclidean division, as `divide`: `(quotient, remainder)`.
    fn div(self, rhs: Polynomial) -> (r: (Polynomial, Polynomial))
        ensures
            division_result(self, rhs, r),
    {
        self.divide(&rhs)
    }
}

impl vstd::std_specs::ops::DivSpecImpl for Polynomial {
    open spec fn obeys_div_spec() -> bool {
        false
    }

    /// The divisor must be non-zero.
    open spec fn div_req(self, rhs: Self) -> bool {
        self.compatible(&rhs) && rhs.coefficients@.len() > 0
    }

    open spec fn div_spec(self, rhs: Self) -> (Polynomial, Polynomial) {
        choose|q: (Polynomial, Polynomial)| division_result(self, rhs, q)
    }
}

/// `r` is the quotient and remainder of dividing `p` by `d`: both well formed over `p`'s field,
/// `p == quotient * d + remainder`, neither longer than `p`, and in a prime field the
/// remainder's degree is below the divisor's.
pub open spec fn division_result(p: Polynomial, d: Polynomial, r: (Polynomial, Polynomial)) -> bool {
    &&& r.0.wf()
    &&& r.1.wf()
    &&& r.0.finite_field == p.finite_field
    &&& r.1.finite_field == p.finite_field
    &&& poly_add(poly_mul(r.0.coeffs(), d.coeffs(), p.prime()), r.1.coeffs(), p.prime()) == p.coeffs()
    &&& is_prime(p.prime()) ==> degree_of(r.1.coeffs()) < degree_of(d.coeffs())
    &&& r.0.coeffs().len() <= p.coeffs().len()
    &&& r.1.coeffs().len() <= p.coeffs().len()
}

} // verus!
