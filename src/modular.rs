//! Greatest common divisors, Bezout coefficients and modular inverses.
use vstd::prelude::*;
use vstd::arithmetic::div_mod::*;
use vstd::arithmetic::mul::*;
use vstd::math::abs;

verus! {

/// Greatest common divisor by Euclid's recurrence.
pub open spec fn gcd(a: nat, b: nat) -> nat
    decreases b,
{
    if b == 0 {
        a
    } else {
        gcd(b, a % b)
    }
}

/// `gcd(a, b)` divides both arguments.
pub proof fn lemma_gcd_divides(a: nat, b: nat)
    ensures
        gcd(a, b) == 0 || (a % gcd(a, b) == 0 && b % gcd(a, b) == 0),
    decreases b,
{
    if b != 0 {
        lemma_gcd_divides(b, a % b);
        let g = gcd(a, b);
        if g != 0 {
            lemma_fundamental_div_mod(b as int, g as int);
            lemma_fundamental_div_mod((a % b) as int, g as int);
            lemma_fundamental_div_mod(a as int, b as int);
            let k1 = b / g;
            let k2 = (a % b) / g;
            assert(a == g * (k1 * (a / b) + k2)) by (nonlinear_arith)
                requires
                    b == g * k1,
                    a % b == g * k2,
                    a == b * (a / b) + a % b,
            ;
            lemma_mod_multiples_basic((k1 * (a / b) + k2) as int, g as int);
            lemma_mul_is_commutative(g as int, (k1 * (a / b) + k2) as int);
        }
    }
}

/// Integer coefficients `(u, v)` with `u * a + v * b == gcd(a, b)`.
pub proof fn lemma_bezout(a: nat, b: nat) -> (r: (int, int))
    ensures
        r.0 * a + r.1 * b == gcd(a, b),
    decreases b,
{
    if b == 0 {
        (1, 0)
    } else {
        let (u, v) = lemma_bezout(b, a % b);
        lemma_fundamental_div_mod(a as int, b as int);
        let q = a / b;
        let r = a % b;
        let (ai, bi) = (a as int, b as int);
        assert(v * ai + (u - v * q) * bi == u * bi + v * r) by (nonlinear_arith)
            requires
                ai == bi * q + r,
        ;
        (v, u - v * q)
    }
}

/// A combination of `a` and `b` equal to 1 makes them coprime.
pub proof fn lemma_coprime_from_combination(a: nat, b: nat, u: int, v: int)
    requires
        u * a + v * b == 1,
    ensures
        gcd(a, b) == 1,
{
    lemma_gcd_divides(a, b);
    let g = gcd(a, b);
    if g == 0 {
        assert(a == 0 && b == 0) by {
            assert(gcd(a, b) == 0 ==> a == 0 && b == 0) by {
                lemma_gcd_zero(a, b);
            }
        }
        assert(u * a + v * b == 0) by (nonlinear_arith)
            requires
                a == 0,
                b == 0,
        ;
    } else {
        lemma_fundamental_div_mod(a as int, g as int);
        lemma_fundamental_div_mod(b as int, g as int);
        let s = a / g;
        let t = b / g;
        assert(g * (u * s + v * t) == 1) by (nonlinear_arith)
            requires
                a == g * s,
                b == g * t,
                u * a + v * b == 1,
        ;
        assert(g == 1) by (nonlinear_arith)
            requires
                g > 0,
                g * (u * s + v * t) == 1,
        ;
    }
}

proof fn lemma_gcd_zero(a: nat, b: nat)
    ensures
        gcd(a, b) == 0 ==> a == 0 && b == 0,
    decreases b,
{
    if b != 0 {
        lemma_gcd_zero(b, a % b);
    }
}

/// Reducing `a` modulo `b` keeps it coprime to `b`.
pub proof fn lemma_coprime_mod(a: nat, b: nat)
    requires
        gcd(a, b) == 1,
        b > 0,
    ensures
        gcd(a % b, b) == 1,
{
    let (u, v) = lemma_bezout(a, b);
    lemma_fundamental_div_mod(a as int, b as int);
    let q = a / b;
    let r = a % b;
    let (ai, bi) = (a as int, b as int);
    assert(u * r + (v + u * q) * bi == 1) by (nonlinear_arith)
        requires
            ai == bi * q + r,
            u * ai + v * bi == 1,
    ;
    lemma_coprime_from_combination(a % b, b, u, v + u * q);
}

/// A product of two numbers coprime to `c` is coprime to `c`.
pub proof fn lemma_coprime_mul(a: nat, b: nat, c: nat)
    requires
        gcd(a, c) == 1,
        gcd(b, c) == 1,
    ensures
        gcd(a * b, c) == 1,
{
    let (u, v) = lemma_bezout(a, c);
    let (s, t) = lemma_bezout(b, c);
    assert((u * s) * (a * b) + (v + t - v * t * c) * c == 1) by (nonlinear_arith)
        requires
            u * a + v * c == 1,
            s * b + t * c == 1,
    ;
    lemma_coprime_from_combination(a * b, c, u * s, v + t - v * t * c);
}

/// Two coprime divisors of `n` divide it together.
pub proof fn lemma_coprime_divisors(a: nat, b: nat, n: int)
    requires
        gcd(a, b) == 1,
        a > 0,
        b > 0,
        n % (a as int) == 0,
        n % (b as int) == 0,
    ensures
        n % ((a * b) as int) == 0,
{
    let (u, v) = lemma_bezout(a, b);
    lemma_fundamental_div_mod(n, a as int);
    lemma_fundamental_div_mod(n, b as int);
    let s = n / (a as int);
    let t = n / (b as int);
    let k = t * u + s * v;
    assert(n == (a * b) * k) by (nonlinear_arith)
        requires
            n == a * s,
            n == b * t,
            u * a + v * b == 1,
            k == t * u + s * v,
    ;
    assert(a * b > 0) by (nonlinear_arith)
        requires
            a > 0,
            b > 0,
    ;
    lemma_mod_multiples_basic(k, (a * b) as int);
    lemma_mul_is_commutative(k, (a * b) as int);
}

/// Multiplicative inverse of `a` modulo `m` by the extended Euclidean
/// algorithm; 0 when `m` is 1.
pub fn mod_inverse(a: u128, m: u128) -> (r: u128)
    requires
        m >= 1,
        gcd(a as nat, m as nat) == 1,
        a <= i128::MAX,
        m <= i128::MAX,
    ensures
        m == 1 ==> r == 0,
        m > 1 ==> r < m && (a as int * r as int) % (m as int) == 1,
{
    if m == 1 {
        return 0;
    }
    let ghost big_a = a as int;
    let ghost big_m = m as int;
    let ghost bound = if a > m { a as int } else { m as int };
    let mut a: i128 = a as i128;
    let mut m: i128 = m as i128;
    let m0: i128 = m;
    let mut x0: i128 = 0;
    let mut x1: i128 = 1;
    let ghost mut k0: int = -1;
    let ghost mut k1: int = 0;
    proof {
        if a == 0 {
            assert(gcd(0, big_m as nat) == big_m) by {
                lemma_small_mod(0, big_m as nat);
                assert(gcd(big_m as nat, 0) == big_m);
            }
        }
    }
    assert(abs(x1 as int) * m + abs(x0 as int) * a == big_m) by {
        assert(abs(x1 as int) == 1);
        assert(abs(x0 as int) == 0);
    }
    while a > 1
        invariant
            big_m == m0 as int,
            big_m > 1,
            bound <= i128::MAX,
            1 <= a <= bound,
            0 <= m <= bound,
            gcd(a as nat, m as nat) == 1,
            x1 * big_a == a + k1 * big_m,
            x0 * big_a == m + k0 * big_m,
            x0 * x1 <= 0,
            abs(x1 as int) * m + abs(x0 as int) * a == big_m,
            abs(x1 as int) <= big_m,
        decreases m,
    {
        if m == 0 {
            assert(gcd(a as nat, 0) == a as nat);
        }
        let q: i128 = a / m;
        proof {
            lemma_fundamental_div_mod(a as int, m as int);
            assert(q >= 0) by {
                lemma_div_pos_is_pos(a as int, m as int);
            }
            let r = a % m;
            assert(abs(x1 as int) + q * abs(x0 as int) == abs(x1 - q * x0)) by (nonlinear_arith)
                requires
                    x0 * x1 <= 0,
                    q >= 0,
            ;
            assert(abs(x1 - q * x0) * m + abs(x0 as int) * r == big_m) by (nonlinear_arith)
                requires
                    abs(x1 as int) + q * abs(x0 as int) == abs(x1 - q * x0),
                    abs(x1 as int) * m + abs(x0 as int) * a == big_m,
                    a == m * q + r,
            ;
            assert(abs(x1 - q * x0) <= big_m) by (nonlinear_arith)
                requires
                    abs(x1 - q * x0) * m + abs(x0 as int) * r == big_m,
                    m >= 1,
                    r >= 0,
            ;
            assert(q * abs(x0 as int) <= big_m) by (nonlinear_arith)
                requires
                    abs(x1 as int) + q * abs(x0 as int) == abs(x1 - q * x0),
                    abs(x1 - q * x0) <= big_m,
            ;
            assert(abs(q * x0) == q * abs(x0 as int)) by (nonlinear_arith)
                requires
                    q >= 0,
            ;
            assert(abs(x0 as int) <= big_m) by (nonlinear_arith)
                requires
                    abs(x1 as int) * m + abs(x0 as int) * a == big_m,
                    m >= 0,
                    a >= 1,
            ;
            assert((x1 - q * x0) * big_a == r + (k1 - q * k0) * big_m) by (nonlinear_arith)
                requires
                    x1 * big_a == a + k1 * big_m,
                    x0 * big_a == m + k0 * big_m,
                    a == m * q + r,
            ;
            assert((x1 - q * x0) * x0 <= 0) by (nonlinear_arith)
                requires
                    x0 * x1 <= 0,
                    q >= 0,
            ;
        }
        let t: i128 = m;
        m = a % m;
        a = t;
        let t: i128 = x0;
        x0 = x1 - q * x0;
        x1 = t;
        proof {
            let nk0 = k1 - q * k0;
            k1 = k0;
            k0 = nk0;
        }
    }
    proof {
        assert(x1 != 0 && x1 != big_m && x1 != -big_m) by {
            if x1 == 0 || x1 == big_m || x1 == -big_m {
                assert(1 == x1 * big_a - k1 * big_m);
                if x1 == 0 {
                    assert(1 == (-k1) * big_m) by (nonlinear_arith)
                        requires
                            1 == x1 * big_a - k1 * big_m,
                            x1 == 0,
                    ;
                    assert(false) by (nonlinear_arith)
                        requires
                            1 == (-k1) * big_m,
                            big_m > 1,
                    ;
                } else if x1 == big_m {
                    assert(1 == (big_a - k1) * big_m) by (nonlinear_arith)
                        requires
                            1 == x1 * big_a - k1 * big_m,
                            x1 == big_m,
                    ;
                    assert(false) by (nonlinear_arith)
                        requires
                            1 == (big_a - k1) * big_m,
                            big_m > 1,
                    ;
                } else {
                    assert(1 == (-big_a - k1) * big_m) by (nonlinear_arith)
                        requires
                            1 == x1 * big_a - k1 * big_m,
                            x1 == -big_m,
                    ;
                    assert(false) by (nonlinear_arith)
                        requires
                            1 == (-big_a - k1) * big_m,
                            big_m > 1,
                    ;
                }
            }
        }
    }
    let ghost old_x1 = x1 as int;
    if x1 < 0 {
        x1 += m0;
    }
    proof {
        let k = if old_x1 < 0 { k1 + big_a } else { k1 };
        let nx = x1 as int;
        if old_x1 < 0 {
            assert(nx * big_a == 1 + k * big_m) by (nonlinear_arith)
                requires
                    old_x1 * big_a == 1 + k1 * big_m,
                    nx == old_x1 + big_m,
                    k == k1 + big_a,
            ;
        }
        lemma_mod_multiples_vanish(k, 1, big_m);
        lemma_small_mod(1, big_m as nat);
        lemma_mul_is_commutative(k, big_m);
        assert(big_a * nx == big_m * k + 1) by (nonlinear_arith)
            requires
                nx * big_a == 1 + k * big_m,
        ;
    }
    x1 as u128
}

} // verus!
