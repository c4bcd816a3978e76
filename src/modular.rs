use vstd::arithmetic::div_mod::*;
use vstd::arithmetic::power::*;
use vstd::prelude::*;

verus! {

/// The triple `(g, x, y)` that the extended Euclidean algorithm produces on `(a, b)`:
/// `g` is the greatest common divisor and `a * x + b * y == g`.
pub open spec fn xgcd(a: nat, b: nat) -> (int, int, int)
    decreases a,
{
    if a == 0 {
        (b as int, 0, 1)
    } else {
        let r = xgcd((b % a) as nat, a);
        (r.0, r.2 - (b / a) * r.1, r.1)
    }
}

pub open spec fn gcd(a: nat, b: nat) -> int {
    xgcd(a, b).0
}

pub open spec fn divides(d: int, n: int) -> bool {
    d != 0 && n % d == 0
}

pub open spec fn is_prime(p: int) -> bool {
    p > 1 && forall|d: int| 1 < d < p ==> !divides(d, p)
}

pub open spec fn abs_int(x: int) -> int {
    if x < 0 {
        -x
    } else {
        x
    }
}

pub open spec fn max_one(x: int) -> int {
    if x < 1 {
        1
    } else {
        x
    }
}

/// The coefficients satisfy Bezout's identity and stay within the size of the inputs.
pub proof fn lemma_xgcd(a: nat, b: nat)
    ensures
        a * xgcd(a, b).1 + b * xgcd(a, b).2 == xgcd(a, b).0,
        a == 0 ==> xgcd(a, b).1 == 0 && xgcd(a, b).2 == 1,
        abs_int(xgcd(a, b).1) <= max_one(b as int),
        abs_int(xgcd(a, b).2) <= max_one(a as int),
        a > 0 || b > 0 ==> xgcd(a, b).0 > 0,
        a > 0 || b > 0 ==> divides(xgcd(a, b).0, a as int) && divides(xgcd(a, b).0, b as int),
    decreases a,
{
    if a > 0 {
        let m = (b % a) as nat;
        let q = b / a;
        lemma_xgcd(m, a);
        let (g, x1, y1) = xgcd(m, a);
        lemma_fundamental_div_mod(b as int, a as int);
        assert(b == a * q + m);
        assert(q >= 0) by {
            lemma_div_pos_is_pos(b as int, a as int);
        }
        assert(a * (y1 - q * x1) + b * x1 == g) by (nonlinear_arith)
            requires
                m * x1 + a * y1 == g,
                b == a * q + m,
        ;
        if m == 0 {
            assert(abs_int(y1 - q * x1) <= max_one(b as int));
        } else {
            assert(abs_int(q * x1) <= q * a) by (nonlinear_arith)
                requires
                    q >= 0,
                    abs_int(x1) <= a,
            ;
            assert(abs_int(y1 - q * x1) <= b);
        }
        assert(divides(g, b as int)) by {
            let ka = (a as int) / g;
            let km = (m as int) / g;
            lemma_fundamental_div_mod(a as int, g);
            lemma_fundamental_div_mod(m as int, g);
            assert(b == (q * ka + km) * g) by (nonlinear_arith)
                requires
                    b == a * q + m,
                    a == g * ka,
                    m == g * km,
            ;
            lemma_mod_multiples_basic(q * ka + km, g);
        }
    } else {
        if b > 0 {
            lemma_mod_self_0(b as int);
            lemma_small_mod(0, b);
        }
    }
}

/// In a prime field every non-zero value is coprime to the modulus.
pub proof fn lemma_prime_coprime(a: int, p: int)
    requires
        is_prime(p),
        0 < a < p,
    ensures
        gcd(a as nat, p as nat) == 1,
{
    lemma_xgcd(a as nat, p as nat);
    let g = gcd(a as nat, p as nat);
    assert(g <= a) by {
        lemma_fundamental_div_mod(a, g);
        let k = a / g;
        assert(g <= a) by (nonlinear_arith)
            requires
                a == g * k,
                a > 0,
                g > 0,
        ;
    }
    if g > 1 {
        assert(divides(g, p));
    }
}

/// When `a` is coprime to `p`, Bezout's `x` inverts `a` modulo `p`.
pub proof fn lemma_xgcd_inverse(a: nat, p: nat)
    requires
        p > 1,
        gcd(a, p) == 1,
    ensures
        (a * (xgcd(a, p).1 % (p as int))) % (p as int) == 1,
{
    lemma_xgcd(a, p);
    let (g, x, y) = xgcd(a, p);
    let pi = p as int;
    lemma_mul_mod_noop_right(a as int, x, pi);
    assert(a * x == 1 + pi * (-y)) by (nonlinear_arith)
        requires
            a * x + p * y == 1,
            pi == p,
    ;
    lemma_mod_multiples_vanish(-y, 1, pi);
    lemma_small_mod(1, p);
}

/// One step of square-and-multiply keeps the accumulated power.
pub proof fn lemma_pow_step(r: int, b: int, e: nat, p: int)
    requires
        p > 0,
    ensures
        ((if e % 2 == 1 { (r * b) % p } else { r }) * pow((b * b) % p, e / 2)) % p
            == (r * pow(b, e)) % p,
{
    let k = e / 2;
    let t = e % 2;
    assert(e == 2 * k + t);
    lemma_square_is_pow2(b);
    lemma_pow_multiplies(b, 2, k);
    assert(pow(b * b, k) == pow(b, 2 * k));
    lemma_pow_adds(b, 2 * k, t);
    lemma_pow_mod_noop(b * b, k, p);
    let s = pow((b * b) % p, k);
    let s0 = pow(b * b, k);
    assert(s % p == s0 % p);
    if t == 1 {
        lemma_pow1(b);
        assert(pow(b, e) == s0 * b);
        lemma_mul_mod_noop_left(r * b, s, p);
        lemma_mul_mod_noop_right(r * b, s, p);
        lemma_mul_mod_noop_right(r * b, s0, p);
        assert(r * b * s0 == r * (s0 * b)) by (nonlinear_arith);
    } else {
        lemma_pow0(b);
        assert(pow(b, e) == s0);
        lemma_mul_mod_noop_right(r, s, p);
        lemma_mul_mod_noop_right(r, s0, p);
    }
}

} // verus!
