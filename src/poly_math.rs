use vstd::arithmetic::div_mod::{
    lemma_add_mod_noop, lemma_add_mod_noop_right, lemma_mod_twice, lemma_mul_mod_noop_left,
    lemma_mul_mod_noop_right, lemma_small_mod, lemma_sub_mod_noop,
};
use vstd::arithmetic::power::{lemma_pow_adds, lemma_pow1, pow};
use vstd::prelude::*;

verus! {

/// Coefficient of `x^k` in the dense coefficient list `s` (zero outside it).
pub open spec fn coef(s: Seq<int>, k: int) -> int {
    if 0 <= k < s.len() {
        s[k]
    } else {
        0
    }
}

/// No trailing zero coefficient.
pub open spec fn is_trimmed(s: Seq<int>) -> bool {
    s.len() == 0 || s.last() != 0
}

/// `s` without its trailing zero coefficients.
pub open spec fn trim(s: Seq<int>) -> Seq<int>
    decreases s.len(),
{
    if s.len() == 0 {
        s
    } else if s.last() == 0 {
        trim(s.drop_last())
    } else {
        s
    }
}

/// Degree of the polynomial with coefficients `s`; the zero polynomial has degree -1.
pub open spec fn degree_of(s: Seq<int>) -> int {
    trim(s).len() - 1
}

pub open spec fn max_len(s: Seq<int>, t: Seq<int>) -> nat {
    if s.len() >= t.len() {
        s.len()
    } else {
        t.len()
    }
}

/// Coefficient-wise sum modulo `p`, before trimming.
pub open spec fn add_coeffs(s: Seq<int>, t: Seq<int>, p: int) -> Seq<int> {
    Seq::new(max_len(s, t), |i: int| (coef(s, i) + coef(t, i)) % p)
}

/// Coefficient-wise difference modulo `p`, before trimming.
pub open spec fn sub_coeffs(s: Seq<int>, t: Seq<int>, p: int) -> Seq<int> {
    Seq::new(max_len(s, t), |i: int| (coef(s, i) - coef(t, i)) % p)
}

pub open spec fn neg_coeffs(s: Seq<int>, p: int) -> Seq<int> {
    Seq::new(s.len(), |i: int| (p - s[i]) % p)
}

pub open spec fn scale_coeffs(s: Seq<int>, c: int, p: int) -> Seq<int> {
    Seq::new(s.len(), |i: int| (s[i] * c) % p)
}

/// `sum_{i < n} s_i * t_{k - i}` over the integers.
pub open spec fn conv(s: Seq<int>, t: Seq<int>, k: int, n: nat) -> int
    decreases n,
{
    if n == 0 {
        0
    } else {
        conv(s, t, k, (n - 1) as nat) + coef(s, n - 1) * coef(t, k - (n - 1))
    }
}

/// The full convolution modulo `p`, of length `len(s) + len(t) - 1` (empty if either is).
pub open spec fn mul_coeffs(s: Seq<int>, t: Seq<int>, p: int) -> Seq<int> {
    if s.len() == 0 || t.len() == 0 {
        Seq::empty()
    } else {
        Seq::new((s.len() + t.len() - 1) as nat, |k: int| conv(s, t, k, s.len()) % p)
    }
}

pub open spec fn poly_add(s: Seq<int>, t: Seq<int>, p: int) -> Seq<int> {
    trim(add_coeffs(s, t, p))
}

pub open spec fn poly_sub(s: Seq<int>, t: Seq<int>, p: int) -> Seq<int> {
    trim(sub_coeffs(s, t, p))
}

pub open spec fn poly_mul(s: Seq<int>, t: Seq<int>, p: int) -> Seq<int> {
    trim(mul_coeffs(s, t, p))
}

/// `sum_{i < n} s_i * x^i` over the integers.
pub open spec fn psum(s: Seq<int>, x: int, n: nat) -> int
    decreases n,
{
    if n == 0 {
        0
    } else {
        psum(s, x, (n - 1) as nat) + coef(s, n - 1) * pow(x, (n - 1) as nat)
    }
}

/// The value of the polynomial at `x`, modulo `p`.
pub open spec fn eval(s: Seq<int>, x: int, p: int) -> int {
    psum(s, x, s.len()) % p
}

/// Every coefficient is a canonical residue modulo `p`.
pub open spec fn canonical(s: Seq<int>, p: int) -> bool {
    forall|i: int| 0 <= i < s.len() ==> 0 <= #[trigger] s[i] < p
}

pub proof fn lemma_trim(s: Seq<int>)
    ensures
        is_trimmed(trim(s)),
        trim(s).len() <= s.len(),
        forall|k: int| #[trigger] coef(trim(s), k) == coef(s, k),
        is_trimmed(s) ==> trim(s) == s,
        trim(s) == s.subrange(0, trim(s).len() as int),
    decreases s.len(),
{
    if s.len() > 0 && s.last() == 0 {
        lemma_trim(s.drop_last());
        assert forall|k: int| #[trigger] coef(trim(s), k) == coef(s, k) by {
            assert(coef(trim(s.drop_last()), k) == coef(s.drop_last(), k));
        }
        assert(trim(s) =~= s.subrange(0, trim(s).len() as int));
    } else {
        assert(trim(s) =~= s.subrange(0, trim(s).len() as int));
    }
}

/// Two trimmed coefficient lists with the same coefficients are equal.
pub proof fn lemma_trimmed_ext(s: Seq<int>, t: Seq<int>)
    requires
        is_trimmed(s),
        is_trimmed(t),
        forall|k: int| #[trigger] coef(s, k) == coef(t, k),
    ensures
        s == t,
{
    if s.len() < t.len() {
        assert(coef(t, t.len() - 1) == coef(s, t.len() - 1));
    } else if t.len() < s.len() {
        assert(coef(t, s.len() - 1) == coef(s, s.len() - 1));
    }
    assert forall|k: int| 0 <= k < s.len() implies s[k] == t[k] by {
        assert(coef(s, k) == coef(t, k));
    }
    assert(s =~= t);
}

/// Trimming leaves at most `m` coefficients when all from index `m` on are zero.
pub proof fn lemma_trim_len(s: Seq<int>, m: int)
    requires
        0 <= m,
        forall|k: int| k >= m ==> #[trigger] coef(s, k) == 0,
    ensures
        trim(s).len() <= m,
{
    lemma_trim(s);
    if trim(s).len() > m {
        let t = trim(s);
        assert(coef(t, t.len() - 1) == coef(s, t.len() - 1));
    }
}

pub proof fn lemma_canonical_coef(s: Seq<int>, p: int, k: int)
    requires
        canonical(s, p),
        p > 0,
    ensures
        0 <= coef(s, k) < p,
        coef(s, k) % p == coef(s, k),
{
    if 0 <= k < s.len() {
        assert(0 <= s[k] < p);
    }
    lemma_small_mod(coef(s, k) as nat, p as nat);
}

// ---------------------------------------------------------------------------
// Sums of powers.

pub proof fn lemma_psum_ext(a: Seq<int>, b: Seq<int>, x: int, n: nat)
    requires
        forall|i: int| 0 <= i < n ==> #[trigger] coef(a, i) == coef(b, i),
    ensures
        psum(a, x, n) == psum(b, x, n),
    decreases n,
{
    if n > 0 {
        lemma_psum_ext(a, b, x, (n - 1) as nat);
    }
}

/// Coefficients that are zero from index `m` on add nothing.
pub proof fn lemma_psum_zero_tail(a: Seq<int>, x: int, m: nat, n: nat)
    requires
        m <= n,
        forall|i: int| m <= i < n ==> #[trigger] coef(a, i) == 0,
    ensures
        psum(a, x, n) == psum(a, x, m),
    decreases n,
{
    if n > m {
        lemma_psum_zero_tail(a, x, m, (n - 1) as nat);
    }
}

/// The sum is linear in the coefficients.
pub proof fn lemma_psum_lincomb(u: Seq<int>, a: Seq<int>, b: Seq<int>, c1: int, c2: int, x: int, n: nat)
    requires
        forall|i: int| 0 <= i < n ==> #[trigger] coef(u, i) == c1 * coef(a, i) + c2 * coef(b, i),
    ensures
        psum(u, x, n) == c1 * psum(a, x, n) + c2 * psum(b, x, n),
    decreases n,
{
    if n > 0 {
        let m = (n - 1) as nat;
        lemma_psum_lincomb(u, a, b, c1, c2, x, m);
        let w = pow(x, m);
        assert(coef(u, m as int) == c1 * coef(a, m as int) + c2 * coef(b, m as int));
        assert((c1 * coef(a, m as int) + c2 * coef(b, m as int)) * w == c1 * (coef(a, m as int) * w)
            + c2 * (coef(b, m as int) * w)) by (nonlinear_arith);
        assert(c1 * psum(a, x, m) + c2 * psum(b, x, m) + c1 * (coef(a, m as int) * w) + c2 * (
        coef(b, m as int) * w) == c1 * (psum(a, x, m) + coef(a, m as int) * w) + c2 * (psum(
            b,
            x,
            m,
        ) + coef(b, m as int) * w)) by (nonlinear_arith);
    }
}

/// Shifting the coefficients up by `m` multiplies the sum by `x^m`.
pub proof fn lemma_psum_shift(u: Seq<int>, a: Seq<int>, m: nat, x: int, n: nat)
    requires
        m <= n,
        forall|i: int| 0 <= i < n ==> #[trigger] coef(u, i) == coef(a, i - m),
    ensures
        psum(u, x, n) == pow(x, m) * psum(a, x, (n - m) as nat),
    decreases n,
{
    if n == m {
        lemma_psum_zero_tail(u, x, 0, n);
    } else {
        let n1 = (n - 1) as nat;
        lemma_psum_shift(u, a, m, x, n1);
        let j = (n1 - m) as nat;
        lemma_pow_adds(x, m, j);
        assert(m + j == n1);
        assert(coef(u, n1 as int) == coef(a, j as int));
        assert(pow(x, m) * psum(a, x, j) + coef(a, j as int) * (pow(x, m) * pow(x, j)) == pow(x, m)
            * (psum(a, x, j) + coef(a, j as int) * pow(x, j))) by (nonlinear_arith);
    }
}

/// Coefficients congruent modulo `p` give sums congruent modulo `p`.
pub proof fn lemma_psum_mod(u: Seq<int>, a: Seq<int>, x: int, n: nat, p: int)
    requires
        p > 0,
        forall|i: int| 0 <= i < n ==> #[trigger] coef(u, i) % p == coef(a, i) % p,
    ensures
        psum(u, x, n) % p == psum(a, x, n) % p,
    decreases n,
{
    if n > 0 {
        let m = (n - 1) as nat;
        lemma_psum_mod(u, a, x, m, p);
        let w = pow(x, m);
        assert(coef(u, m as int) % p == coef(a, m as int) % p);
        lemma_mul_mod_noop_left(coef(u, m as int), w, p);
        lemma_mul_mod_noop_left(coef(a, m as int), w, p);
        lemma_add_mod_noop(psum(u, x, m), coef(u, m as int) * w, p);
        lemma_add_mod_noop(psum(a, x, m), coef(a, m as int) * w, p);
    }
}

/// The value of a polynomial only depends on its coefficients, not on trailing zeros.
pub proof fn lemma_eval_trim(s: Seq<int>, x: int, p: int)
    ensures
        eval(trim(s), x, p) == eval(s, x, p),
{
    lemma_trim(s);
    let t = trim(s);
    lemma_psum_ext(t, s, x, t.len());
    assert forall|i: int| t.len() <= i < s.len() implies #[trigger] coef(s, i) == 0 by {
        assert(coef(t, i) == coef(s, i));
    }
    lemma_psum_zero_tail(s, x, t.len(), s.len());
}

/// The sum over any length at least the number of coefficients is the full sum.
pub proof fn lemma_psum_full(s: Seq<int>, x: int, n: nat)
    requires
        n >= s.len(),
    ensures
        psum(s, x, n) == psum(s, x, s.len()),
{
    lemma_psum_zero_tail(s, x, s.len(), n);
}

pub proof fn lemma_eval_add(s: Seq<int>, t: Seq<int>, x: int, p: int)
    requires
        p > 0,
    ensures
        eval(poly_add(s, t, p), x, p) == (eval(s, x, p) + eval(t, x, p)) % p,
{
    let u = add_coeffs(s, t, p);
    let n = max_len(s, t);
    let w = Seq::new(n, |i: int| coef(s, i) + coef(t, i));
    lemma_eval_trim(u, x, p);
    assert forall|i: int| 0 <= i < n implies #[trigger] coef(u, i) % p == coef(w, i) % p by {
        lemma_mod_twice(coef(s, i) + coef(t, i), p);
    }
    lemma_psum_mod(u, w, x, n, p);
    lemma_psum_lincomb(w, s, t, 1, 1, x, n);
    lemma_psum_full(s, x, n);
    lemma_psum_full(t, x, n);
    lemma_add_mod_noop(psum(s, x, s.len()), psum(t, x, t.len()), p);
}

pub proof fn lemma_eval_sub(s: Seq<int>, t: Seq<int>, x: int, p: int)
    requires
        p > 0,
    ensures
        eval(poly_sub(s, t, p), x, p) == (eval(s, x, p) - eval(t, x, p)) % p,
{
    let u = sub_coeffs(s, t, p);
    let n = max_len(s, t);
    let w = Seq::new(n, |i: int| coef(s, i) - coef(t, i));
    lemma_eval_trim(u, x, p);
    assert forall|i: int| 0 <= i < n implies #[trigger] coef(u, i) % p == coef(w, i) % p by {
        lemma_mod_twice(coef(s, i) - coef(t, i), p);
    }
    lemma_psum_mod(u, w, x, n, p);
    lemma_psum_lincomb(w, s, t, 1, -1, x, n);
    lemma_psum_full(s, x, n);
    lemma_psum_full(t, x, n);
    lemma_sub_mod_noop(psum(s, x, s.len()), psum(t, x, t.len()), p);
}

/// A convolution row count beyond the first list's length adds nothing.
pub proof fn lemma_conv_full(s: Seq<int>, t: Seq<int>, k: int, n: nat)
    requires
        n >= s.len(),
    ensures
        conv(s, t, k, n) == conv(s, t, k, s.len()),
    decreases n,
{
    if n > s.len() {
        lemma_conv_full(s, t, k, (n - 1) as nat);
    }
}

/// Convolution coefficients past the last product term vanish.
pub proof fn lemma_conv_high(s: Seq<int>, t: Seq<int>, k: int, n: nat)
    requires
        k >= n + t.len() - 1,
    ensures
        conv(s, t, k, n) == 0,
    decreases n,
{
    if n > 0 {
        lemma_conv_high(s, t, k, (n - 1) as nat);
    }
}

/// Convolution depends on the two lists only through their coefficients.
pub proof fn lemma_conv_ext(s1: Seq<int>, t1: Seq<int>, s2: Seq<int>, t2: Seq<int>, k: int, n: nat)
    requires
        forall|i: int| #[trigger] coef(s1, i) == coef(s2, i),
        forall|i: int| #[trigger] coef(t1, i) == coef(t2, i),
    ensures
        conv(s1, t1, k, n) == conv(s2, t2, k, n),
    decreases n,
{
    if n > 0 {
        lemma_conv_ext(s1, t1, s2, t2, k, (n - 1) as nat);
        assert(coef(s1, n - 1) == coef(s2, n - 1));
        assert(coef(t1, k - (n - 1)) == coef(t2, k - (n - 1)));
    }
}

/// Changing one coefficient of the first list changes each convolution term linearly.
pub proof fn lemma_conv_update(s: Seq<int>, t: Seq<int>, m: int, v: int, k: int, n: nat)
    requires
        0 <= m < s.len(),
        m < n,
    ensures
        conv(s.update(m, v), t, k, n) == conv(s, t, k, n) + (v - s[m]) * coef(t, k - m),
    decreases n,
{
    let s2 = s.update(m, v);
    if n - 1 == m {
        assert forall|i: int| 0 <= i < m implies #[trigger] coef(s2, i) == coef(s, i) by {}
        lemma_conv_prefix_eq(s2, s, t, k, m as nat);
        assert(coef(s2, m) == v);
        assert(v * coef(t, k - m) == s[m] * coef(t, k - m) + (v - s[m]) * coef(t, k - m))
            by (nonlinear_arith);
    } else {
        lemma_conv_update(s, t, m, v, k, (n - 1) as nat);
        assert(coef(s2, n - 1) == coef(s, n - 1));
    }
}

proof fn lemma_conv_prefix_eq(s1: Seq<int>, s2: Seq<int>, t: Seq<int>, k: int, n: nat)
    requires
        forall|i: int| 0 <= i < n ==> #[trigger] coef(s1, i) == coef(s2, i),
    ensures
        conv(s1, t, k, n) == conv(s2, t, k, n),
    decreases n,
{
    if n > 0 {
        lemma_conv_prefix_eq(s1, s2, t, k, (n - 1) as nat);
        assert(coef(s1, n - 1) == coef(s2, n - 1));
    }
}

/// Multiplying polynomials multiplies their values.
pub proof fn lemma_eval_mul(s: Seq<int>, t: Seq<int>, x: int, p: int)
    requires
        p > 0,
    ensures
        eval(poly_mul(s, t, p), x, p) == (eval(s, x, p) * eval(t, x, p)) % p,
{
    let u = mul_coeffs(s, t, p);
    lemma_eval_trim(u, x, p);
    if s.len() == 0 || t.len() == 0 {
        lemma_small_mod(0, p as nat);
        if s.len() == 0 {
            assert(psum(s, x, 0) == 0);
            assert(eval(s, x, p) == 0);
            assert(0 * eval(t, x, p) == 0);
        } else {
            assert(psum(t, x, 0) == 0);
            assert(eval(t, x, p) == 0);
            assert(eval(s, x, p) * 0 == 0);
        }
        assert(psum(u, x, 0) == 0);
    } else {
        let n = (s.len() + t.len() - 1) as nat;
        let w = Seq::new(n, |k: int| conv(s, t, k, s.len()));
        assert forall|i: int| 0 <= i < n implies #[trigger] coef(u, i) % p == coef(w, i) % p by {
            lemma_mod_twice(conv(s, t, i, s.len()), p);
        }
        lemma_psum_mod(u, w, x, n, p);
        lemma_conv_rows(s, t, x, s.len(), n);
        lemma_mul_mod_noop_left(psum(s, x, s.len()), psum(t, x, t.len()), p);
        lemma_mul_mod_noop_right(psum(s, x, s.len()) % p, psum(t, x, t.len()), p);
    }
}

/// The first `r` rows of the convolution sum to `psum(s, r) * psum(t)`.
proof fn lemma_conv_rows(s: Seq<int>, t: Seq<int>, x: int, r: nat, n: nat)
    requires
        r <= s.len(),
        n + 1 >= s.len() + t.len(),
        t.len() > 0,
    ensures
        psum(Seq::new(n, |k: int| conv(s, t, k, r)), x, n) == psum(s, x, r) * psum(t, x, t.len()),
    decreases r,
{
    let w = Seq::new(n, |k: int| conv(s, t, k, r));
    if r == 0 {
        let z = Seq::<int>::empty();
        lemma_psum_lincomb(w, z, z, 0, 0, x, n);
    } else {
        let r1 = (r - 1) as nat;
        lemma_conv_rows(s, t, x, r1, n);
        let w1 = Seq::new(n, |k: int| conv(s, t, k, r1));
        let c = coef(s, r1 as int);
        let row = Seq::new(n, |k: int| coef(t, k - r1));
        assert forall|i: int| 0 <= i < n implies #[trigger] coef(w, i) == 1 * coef(w1, i) + c * coef(
            row,
            i,
        ) by {}
        lemma_psum_lincomb(w, w1, row, 1, c, x, n);
        lemma_psum_shift(row, t, r1, x, n);
        lemma_psum_full(t, x, (n - r1) as nat);
        lemma_pow_adds(x, r1, 1);
        lemma_pow1(x);
        let pt = psum(t, x, t.len());
        assert(psum(s, x, r1) * pt + c * (pow(x, r1) * pt) == (psum(s, x, r1) + c * pow(x, r1)) * pt)
            by (nonlinear_arith);
    }
}

/// Each coefficient of the product is a convolution term reduced modulo `p`.
pub proof fn lemma_coef_mul(s: Seq<int>, t: Seq<int>, p: int, k: int)
    requires
        p > 0,
    ensures
        coef(mul_coeffs(s, t, p), k) == conv(s, t, k, s.len()) % p,
{
    lemma_small_mod(0, p as nat);
    if t.len() == 0 {
        lemma_conv_empty(s, t, k, s.len());
    } else if s.len() == 0 {
    } else if k >= s.len() + t.len() - 1 {
        lemma_conv_high(s, t, k, s.len());
    } else if k < 0 {
        lemma_conv_negative(s, t, k, s.len());
    }
}

/// A first list of zeros gives a zero convolution.
pub proof fn lemma_conv_zero_first(s: Seq<int>, t: Seq<int>, k: int, n: nat)
    requires
        forall|i: int| 0 <= i < s.len() ==> #[trigger] s[i] == 0,
    ensures
        conv(s, t, k, n) == 0,
    decreases n,
{
    if n > 0 {
        lemma_conv_zero_first(s, t, k, (n - 1) as nat);
        assert(coef(s, n - 1) == 0);
    }
}

proof fn lemma_conv_empty(s: Seq<int>, t: Seq<int>, k: int, n: nat)
    requires
        t.len() == 0,
    ensures
        conv(s, t, k, n) == 0,
    decreases n,
{
    if n > 0 {
        lemma_conv_empty(s, t, k, (n - 1) as nat);
    }
}

proof fn lemma_conv_negative(s: Seq<int>, t: Seq<int>, k: int, n: nat)
    requires
        k < 0,
    ensures
        conv(s, t, k, n) == 0,
    decreases n,
{
    if n > 0 {
        lemma_conv_negative(s, t, k, (n - 1) as nat);
    }
}

/// Each coefficient of the sum is the sum of coefficients reduced modulo `p`.
pub proof fn lemma_coef_add(s: Seq<int>, t: Seq<int>, p: int, k: int)
    requires
        p > 0,
    ensures
        coef(add_coeffs(s, t, p), k) == (coef(s, k) + coef(t, k)) % p,
{
    lemma_small_mod(0, p as nat);
}

/// Congruent second summands give congruent sums.
pub proof fn lemma_mod_add_congruent(a: int, b1: int, b2: int, p: int)
    requires
        p > 0,
        b1 % p == b2 % p,
    ensures
        (a + b1) % p == (a + b2) % p,
{
    lemma_add_mod_noop_right(a, b1, p);
    lemma_add_mod_noop_right(a, b2, p);
}

/// Subtracting `(r / l) * l` cancels `r` when `inv` inverts `l`.
pub proof fn lemma_cancel_lead(r: int, inv: int, l: int, p: int)
    requires
        p > 0,
        (l * inv) % p == 1,
    ensures
        (r - ((r * inv) % p) * l) % p == 0,
{
    lemma_mul_mod_noop_left(r * inv, l, p);
    assert(r * inv * l == r * (l * inv)) by (nonlinear_arith);
    lemma_mul_mod_noop_right(r, l * inv, p);
    lemma_small_mod(1, p as nat);
    lemma_sub_mod_noop(r, ((r * inv) % p) * l, p);
    lemma_sub_mod_noop(r, r, p);
    lemma_small_mod(0, p as nat);
}

/// Coefficient-wise congruence `P == Q * D + R` becomes equality of the trimmed results.
pub proof fn lemma_division_identity(pp: Seq<int>, q: Seq<int>, d: Seq<int>, r: Seq<int>, p: int)
    requires
        p > 0,
        is_trimmed(pp),
        canonical(pp, p),
        forall|k: int| #[trigger] coef(pp, k) % p == (conv(q, d, k, q.len()) + coef(r, k)) % p,
    ensures
        poly_add(poly_mul(trim(q), d, p), trim(r), p) == pp,
{
    let tq = trim(q);
    let m = poly_mul(tq, d, p);
    let u = add_coeffs(m, trim(r), p);
    lemma_trim(q);
    lemma_trim(r);
    lemma_trim(mul_coeffs(tq, d, p));
    lemma_trim(u);
    assert forall|k: int| #[trigger] coef(trim(u), k) == coef(pp, k) by {
        lemma_coef_add(m, trim(r), p, k);
        lemma_coef_mul(tq, d, p, k);
        lemma_conv_ext(tq, d, q, d, k, q.len());
        lemma_conv_full(tq, d, k, q.len());
        lemma_add_mod_noop(conv(q, d, k, q.len()), coef(r, k), p);
        lemma_mod_twice(conv(q, d, k, q.len()), p);
        lemma_add_mod_noop(conv(q, d, k, q.len()) % p, coef(r, k), p);
        lemma_canonical_coef(pp, p, k);
    }
    lemma_trimmed_ext(trim(u), pp);
}

/// Coefficients of `prod_{i < n} (x - i)` modulo `p`.
pub open spec fn zerofier_coeffs(n: nat, p: int) -> Seq<int>
    decreases n,
{
    if n == 0 {
        seq![1int]
    } else {
        poly_mul(
            zerofier_coeffs((n - 1) as nat, p),
            poly_sub(seq![0int, 1int], trim(seq![(n - 1) % p]), p),
            p,
        )
    }
}

/// A constant polynomial takes its value everywhere.
pub proof fn lemma_eval_constant(c: int, z: int, p: int)
    requires
        p > 0,
    ensures
        eval(trim(seq![c]), z, p) == c % p,
{
    lemma_eval_trim(seq![c], z, p);
    vstd::arithmetic::power::lemma_pow0(z);
    let s = seq![c];
    assert(coef(s, 0) == c);
    assert(psum(s, z, 0) == 0);
    assert(psum(s, z, 1) == psum(s, z, 0) + coef(s, 0) * pow(z, 0));
}

/// The polynomial `x` takes the value of its argument.
pub proof fn lemma_eval_x(z: int, p: int)
    requires
        p > 0,
    ensures
        eval(seq![0int, 1int], z, p) == z % p,
{
    vstd::arithmetic::power::lemma_pow0(z);
    lemma_pow1(z);
    let s = seq![0int, 1int];
    assert(coef(s, 0) == 0);
    assert(coef(s, 1) == 1);
    assert(psum(s, z, 0) == 0);
    assert(psum(s, z, 1) == psum(s, z, 0) + coef(s, 0) * pow(z, 0));
    assert(psum(s, z, 2) == psum(s, z, 1) + coef(s, 1) * pow(z, 1));
}

/// When the leading coefficients multiply to a non-zero residue, the product keeps every
/// coefficient and its leading coefficient is that residue.
pub proof fn lemma_mul_lead(s: Seq<int>, t: Seq<int>, p: int)
    requires
        p > 0,
        s.len() > 0,
        t.len() > 0,
        (s.last() * t.last()) % p != 0,
    ensures
        poly_mul(s, t, p) == mul_coeffs(s, t, p),
        poly_mul(s, t, p).len() == s.len() + t.len() - 1,
        poly_mul(s, t, p).last() == (s.last() * t.last()) % p,
{
    let top = s.len() + t.len() - 2;
    lemma_conv_high(s, t, top, (s.len() - 1) as nat);
    assert(conv(s, t, top, s.len()) == s.last() * t.last());
    lemma_trim(mul_coeffs(s, t, p));
}

/// Length of a product: at most the sum of the lengths less one, and zero if either is zero.
pub proof fn lemma_mul_len(s: Seq<int>, t: Seq<int>, p: int)
    ensures
        poly_mul(s, t, p).len() <= if s.len() == 0 || t.len() == 0 {
            0
        } else {
            s.len() + t.len() - 1
        },
{
    lemma_trim(mul_coeffs(s, t, p));
}

/// Distinct canonical residues have a non-zero difference.
pub proof fn lemma_diff_nonzero(a: int, b: int, p: int)
    requires
        0 <= a < p,
        0 <= b < p,
    ensures
        ((a - b) % p == 0) == (a == b),
{
    if a >= b {
        lemma_small_mod((a - b) as nat, p as nat);
    } else {
        vstd::arithmetic::div_mod::lemma_mod_add_multiples_vanish(a - b, p);
        lemma_small_mod((a - b + p) as nat, p as nat);
    }
}

} // verus!
