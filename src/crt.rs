//! Residues modulo a list of moduli, and the Chinese-remainder
//! reconstruction that undoes them.
use vstd::prelude::*;
use vstd::arithmetic::div_mod::*;
use vstd::arithmetic::mul::*;
use crate::modular::{
    gcd,
    lemma_coprime_divisors,
    lemma_coprime_from_combination,
    lemma_coprime_mod,
    lemma_coprime_mul,
    mod_inverse,
};

verus! {

/// Product of all moduli.
pub open spec fn product(s: Seq<u128>) -> nat
    decreases s.len(),
{
    if s.len() == 0 {
        1
    } else {
        product(s.drop_last()) * (s.last() as nat)
    }
}

/// Every modulus is at least 1.
pub open spec fn all_positive(s: Seq<u128>) -> bool {
    forall|i: int| 0 <= i < s.len() ==> s[i] >= 1
}

/// Any two moduli at different positions are coprime.
pub open spec fn pairwise_coprime(s: Seq<u128>) -> bool {
    forall|i: int, j: int|
        0 <= i < s.len() && 0 <= j < s.len() && i != j ==> gcd(
            #[trigger] s[i] as nat,
            #[trigger] s[j] as nat,
        ) == 1
}

/// `r` holds `n` reduced by each modulus of `m`, in order.
pub open spec fn is_reduction(r: Seq<u128>, n: nat, m: Seq<u128>) -> bool {
    r.len() == m.len() && forall|i: int|
        0 <= i < m.len() ==> #[trigger] r[i] as nat == n % (m[i] as nat)
}

/// `x` lies below the product of `m` and leaves residue `r[i]` modulo `m[i]`.
pub open spec fn is_reconstruction(x: nat, r: Seq<u128>, m: Seq<u128>) -> bool {
    x < product(m) && r.len() == m.len() && forall|i: int|
        0 <= i < m.len() ==> x % (#[trigger] m[i] as nat) == r[i] as nat
}

proof fn lemma_product_positive(s: Seq<u128>)
    requires
        all_positive(s),
    ensures
        product(s) >= 1,
    decreases s.len(),
{
    if s.len() > 0 {
        lemma_product_positive(s.drop_last());
        lemma_mul_increases(s.last() as int, product(s.drop_last()) as int);
        lemma_mul_is_commutative(s.last() as int, product(s.drop_last()) as int);
    }
}

proof fn lemma_product_prefix(s: Seq<u128>, i: int)
    requires
        all_positive(s),
        0 <= i <= s.len(),
    ensures
        product(s.take(i)) <= product(s),
    decreases s.len(),
{
    if i < s.len() {
        assert(s.drop_last().take(i) =~= s.take(i));
        lemma_product_prefix(s.drop_last(), i);
        lemma_product_positive(s.drop_last());
        lemma_mul_increases(s.last() as int, product(s.drop_last()) as int);
        lemma_mul_is_commutative(s.last() as int, product(s.drop_last()) as int);
    } else {
        assert(s.take(i) =~= s);
    }
}

proof fn lemma_product_remove(s: Seq<u128>, i: int)
    requires
        0 <= i < s.len(),
    ensures
        product(s) == (s[i] as nat) * product(s.remove(i)),
    decreases s.len(),
{
    if i == s.len() - 1 {
        assert(s.remove(i) =~= s.drop_last());
        lemma_mul_is_commutative(s[i] as int, product(s.drop_last()) as int);
    } else {
        assert(s.remove(i).drop_last() =~= s.drop_last().remove(i));
        lemma_product_remove(s.drop_last(), i);
        let a = s[i] as int;
        let p = product(s.drop_last().remove(i)) as int;
        let l = s.last() as int;
        lemma_mul_is_associative(a, p, l);
    }
}

pub proof fn lemma_product_divides_element(s: Seq<u128>, i: int)
    requires
        0 <= i < s.len(),
        s[i] >= 1,
    ensures
        (product(s) as int) % (s[i] as int) == 0,
        (s[i] as nat) <= product(s) || product(s.remove(i)) == 0,
{
    lemma_product_remove(s, i);
    lemma_mod_multiples_basic(product(s.remove(i)) as int, s[i] as int);
    lemma_mul_is_commutative(product(s.remove(i)) as int, s[i] as int);
    if product(s.remove(i)) != 0 {
        lemma_mul_increases(product(s.remove(i)) as int, s[i] as int);
    }
}

proof fn lemma_product_coprime(s: Seq<u128>, c: nat)
    requires
        forall|k: int| 0 <= k < s.len() ==> gcd(#[trigger] s[k] as nat, c) == 1,
    ensures
        gcd(product(s), c) == 1,
    decreases s.len(),
{
    if s.len() == 0 {
        lemma_coprime_from_combination(1, c, 1, 0);
    } else {
        lemma_product_coprime(s.drop_last(), c);
        assert(gcd(s.last() as nat, c) == 1);
        lemma_coprime_mul(product(s.drop_last()), s.last() as nat, c);
    }
}

proof fn lemma_product_divides(s: Seq<u128>, d: int)
    requires
        all_positive(s),
        pairwise_coprime(s),
        forall|k: int| 0 <= k < s.len() ==> d % (#[trigger] s[k] as int) == 0,
    ensures
        d % (product(s) as int) == 0,
    decreases s.len(),
{
    if s.len() == 0 {
        lemma_mod_multiples_basic(d, 1);
    } else {
        let init = s.drop_last();
        lemma_product_divides(init, d);
        assert forall|k: int| 0 <= k < init.len() implies gcd(#[trigger] init[k] as nat, s.last() as nat) == 1 by {
            assert(s[k] == init[k]);
        }
        lemma_product_coprime(init, s.last() as nat);
        lemma_product_positive(init);
        lemma_coprime_divisors(product(init), s.last() as nat, d);
    }
}

/// Two numbers below the product of pairwise-coprime moduli that agree
/// modulo every one of them are equal.
pub proof fn lemma_crt_unique(m: Seq<u128>, x: nat, y: nat)
    requires
        all_positive(m),
        pairwise_coprime(m),
        x < product(m),
        y < product(m),
        forall|i: int| 0 <= i < m.len() ==> x % (#[trigger] m[i] as nat) == y % (m[i] as nat),
    ensures
        x == y,
{
    let d = x as int - y as int;
    assert forall|k: int| 0 <= k < m.len() implies d % (#[trigger] m[k] as int) == 0 by {
        lemma_fundamental_div_mod(x as int, m[k] as int);
        lemma_fundamental_div_mod(y as int, m[k] as int);
        let q = (x as int) / (m[k] as int) - (y as int) / (m[k] as int);
        assert(d == (m[k] as int) * q) by (nonlinear_arith)
            requires
                x as int == (m[k] as int) * ((x as int) / (m[k] as int)) + (x as int) % (m[k] as int),
                y as int == (m[k] as int) * ((y as int) / (m[k] as int)) + (y as int) % (m[k] as int),
                (x as int) % (m[k] as int) == (y as int) % (m[k] as int),
                d == x as int - y as int,
                q == (x as int) / (m[k] as int) - (y as int) / (m[k] as int),
        ;
        lemma_mod_multiples_basic(q, m[k] as int);
        lemma_mul_is_commutative(q, m[k] as int);
    }
    lemma_product_divides(m, d);
    let p = product(m) as int;
    lemma_fundamental_div_mod(d, p);
    assert(d == 0) by (nonlinear_arith)
        requires
            d == p * (d / p),
            -p < d < p,
    ;
}

/// Reconstructing from the residues of `n` gives back `n`, for every `n`
/// below the product of pairwise-coprime moduli.
pub proof fn lemma_reconstruct_reduce(m: Seq<u128>, n: nat, r: Seq<u128>, x: nat)
    requires
        all_positive(m),
        pairwise_coprime(m),
        n < product(m),
        is_reduction(r, n, m),
        is_reconstruction(x, r, m),
    ensures
        x == n,
{
    assert forall|i: int| 0 <= i < m.len() implies x % (#[trigger] m[i] as nat) == n % (m[i] as nat) by {
        assert(r[i] as nat == n % (m[i] as nat));
    }
    lemma_crt_unique(m, x, n);
}

pub proof fn lemma_mod_of_mod(x: int, p: int, d: int)
    requires
        p > 0,
        d > 0,
        p % d == 0,
    ensures
        (x % p) % d == x % d,
{
    lemma_fundamental_div_mod(p, d);
    let k = p / d;
    assert(k > 0) by (nonlinear_arith)
        requires
            p == d * k + 0,
            p > 0,
            d > 0,
    ;
    lemma_mod_mod(x, d, k);
}

/// Residue modulo a divisor `d` of `p` of the term `((r * mi) % p) * inv % p`.
proof fn lemma_term_mod(r: int, mi: int, inv: int, p: int, d: int)
    requires
        p > 0,
        d > 0,
        p % d == 0,
        r >= 0,
        mi >= 0,
        inv >= 0,
    ensures
        ((((r * mi) % p) * inv) % p) % d == (r * (mi * inv)) % d,
{
    let t1 = (r * mi) % p;
    lemma_mod_of_mod(t1 * inv, p, d);
    lemma_mul_mod_noop_left(t1, inv, d);
    lemma_mod_of_mod(r * mi, p, d);
    lemma_mul_mod_noop_left(r * mi, inv, d);
    lemma_mul_is_associative(r, mi, inv);
}

/// The unique number below the product of `m` that leaves residue `r[i]`
/// modulo each `m[i]`.
pub fn chinese_remainder_theorem(r: &[u128], m: &[u128]) -> (res: u128)
    requires
        r.len() == m.len(),
        all_positive(m@),
        pairwise_coprime(m@),
        forall|i: int| 0 <= i < r.len() ==> #[trigger] r[i] < m[i],
        product(m@) * 2 <= u128::MAX,
        forall|i: int| 0 <= i < m.len() ==> product(m@) * (#[trigger] m[i] as nat) <= u128::MAX,
    ensures
        is_reconstruction(res as nat, r@, m@),
{
    let ghost big = product(m@);
    let mut m_product: u128 = 1;
    let mut i: usize = 0;
    while i < m.len()
        invariant
            all_positive(m@),
            big == product(m@),
            big * 2 <= u128::MAX,
            i <= m.len(),
            m_product as nat == product(m@.take(i as int)),
        decreases m.len() - i,
    {
        proof {
            assert(m@.take(i + 1).drop_last() =~= m@.take(i as int));
            lemma_product_prefix(m@, i + 1);
        }
        m_product = m_product * m[i];
        i += 1;
    }
    proof {
        assert(m@.take(m.len() as int) =~= m@);
        lemma_product_positive(m@);
    }
    let mut result: u128 = 0;
    let mut i: usize = 0;
    while i < r.len()
        invariant
            r.len() == m.len(),
            all_positive(m@),
            pairwise_coprime(m@),
            forall|k: int| 0 <= k < r.len() ==> #[trigger] r[k] < m[k],
            forall|k: int| 0 <= k < m.len() ==> big * (#[trigger] m[k] as nat) <= u128::MAX,
            big == product(m@),
            big * 2 <= u128::MAX,
            m_product as nat == big,
            big >= 1,
            i <= r.len(),
            result < m_product,
            forall|k: int| 0 <= k < i ==> (result as nat) % (#[trigger] m[k] as nat) == r[k] as nat,
            forall|k: int|
                i <= k < m.len() ==> (result as nat) % (#[trigger] m[k] as nat) == 0,
        decreases r.len() - i,
    {
        let r_i = r[i];
        let m_i = m[i];
        let ghost rest = m@.remove(i as int);
        proof {
            lemma_product_remove(m@, i as int);
            lemma_fundamental_div_mod(big as int, m_i as int);
            lemma_div_multiples_vanish(product(rest) as int, m_i as int);
            lemma_mul_is_commutative(product(rest) as int, m_i as int);
            lemma_product_divides_element(m@, i as int);
        }
        let mi = m_product / m_i;
        proof {
            assert(mi as nat == product(rest));
            assert forall|k: int| 0 <= k < rest.len() implies gcd(#[trigger] rest[k] as nat, m_i as nat) == 1 by {
                if k < i {
                    assert(rest[k] == m@[k]);
                } else {
                    assert(rest[k] == m@[k + 1]);
                }
            }
            lemma_product_coprime(rest, m_i as nat);
            lemma_coprime_mod(mi as nat, m_i as nat);
            assert(m_i as nat <= big) by {
                if product(rest) == 0 {
                    assert(big == 0) by {
                        lemma_mul_by_zero_is_zero(m_i as int);
                    }
                }
            }
        }
        let inv = mod_inverse(mi % m_i, m_i);
        proof {
            let (ri, mii, mki) = (r_i as int, mi as int, m_i as int);
            lemma_mul_is_commutative(mii, mki);
            assert(mki * mii == big);
            assert(ri * mii < big) by (nonlinear_arith)
                requires
                    ri < mki,
                    mki * mii == big,
                    mii >= 0,
                    ri >= 0,
                    big >= 1,
            ;
            assert(big * m_i <= u128::MAX);
            let t1 = ((r_i * mi) as int) % (big as int);
            lemma_mod_bound((r_i * mi) as int, big as int);
            assert(t1 * inv <= big * m_i) by (nonlinear_arith)
                requires
                    0 <= t1 < big,
                    0 <= inv < m_i,
            ;
        }
        let term = r_i * mi % m_product * inv % m_product;
        proof {
            lemma_mod_bound((result + term) as int, big as int);
        }
        let next = (result + term) % m_product;
        proof {
            assert forall|k: int| 0 <= k < m.len() implies (next as nat) % (#[trigger] m[k] as nat) == if k < i {
                r[k] as nat
            } else if k == i {
                r_i as nat
            } else {
                0
            } by {
                let mk = m[k] as int;
                lemma_product_divides_element(m@, k);
                lemma_mod_of_mod((result + term) as int, big as int, mk);
                lemma_add_mod_noop(result as int, term as int, mk);
                lemma_term_mod(r_i as int, mi as int, inv as int, big as int, mk);
                if k == i {
                    lemma_mul_mod_noop_right(r_i as int, (mi * inv) as int, mk);
                    lemma_mul_mod_noop_left(mi as int, inv as int, mk);
                    if mk == 1 {
                        lemma_mod_multiples_basic(term as int, 1);
                        lemma_small_mod(r_i as nat, 1);
                    } else {
                        lemma_mul_basics(r_i as int);
                        lemma_small_mod(r_i as nat, mk as nat);
                    }
                    lemma_small_mod(0, mk as nat);
                    lemma_small_mod(r_i as nat, mk as nat);
                } else {
                    let j = if k < i { k } else { k - 1 };
                    assert(rest[j] == m@[k]);
                    lemma_product_divides_element(rest, j);
                    lemma_fundamental_div_mod(mi as int, mk);
                    let c = r_i * ((mi as int) / mk) * inv;
                    assert(r_i * (mi * inv) == c * mk) by (nonlinear_arith)
                        requires
                            mi == mk * ((mi as int) / mk) + 0,
                            c == r_i * ((mi as int) / mk) * inv,
                    ;
                    lemma_mod_multiples_basic(c, mk);
                    lemma_mod_bound(result as int, mk);
                    if k < i {
                        lemma_small_mod(r[k] as nat, mk as nat);
                    } else {
                        lemma_small_mod(0, mk as nat);
                    }
                }
            }
        }
        result = next;
        i += 1;
    }
    result
}

/// The residues of `n` modulo each of `mods`, in order.
pub fn mod_operation(n: u128, mods: &[u128]) -> (r: Vec<u128>)
    requires
        all_positive(mods@),
    ensures
        is_reduction(r@, n as nat, mods@),
{
    let mut r: Vec<u128> = Vec::new();
    let mut i: usize = 0;
    while i < mods.len()
        invariant
            all_positive(mods@),
            i <= mods.len(),
            r@.len() == i,
            forall|k: int| 0 <= k < i ==> #[trigger] r@[k] as nat == (n as nat) % (mods@[k] as nat),
        decreases mods.len() - i,
    {
        r.push(n % mods[i]);
        i += 1;
    }
    r
}

} // verus!
