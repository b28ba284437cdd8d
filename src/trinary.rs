//! Integers as fixed-width base-3 digit vectors, most significant first.
use vstd::prelude::*;
use vstd::arithmetic::div_mod::*;
use vstd::arithmetic::mul::*;

verus! {

/// Number of base-3 digits in a digit vector.
pub const TRINARY_WIDTH: usize = 60;

/// `3` to the power `k`.
pub open spec fn pow3(k: nat) -> nat
    decreases k,
{
    if k == 0 {
        1
    } else {
        3 * pow3((k - 1) as nat)
    }
}

/// The `k` lowest base-3 digits of `n`, most significant first.
pub open spec fn trinary_digits(n: nat, k: nat) -> Seq<u8>
    decreases k,
{
    if k == 0 {
        Seq::empty()
    } else {
        trinary_digits(n / 3, (k - 1) as nat).push((n % 3) as u8)
    }
}

/// The number that base-3 digits `d` spell, most significant first.
pub open spec fn trinary_value(d: Seq<u8>) -> nat
    decreases d.len(),
{
    if d.len() == 0 {
        0
    } else {
        trinary_value(d.drop_last()) * 3 + (d.last() as nat)
    }
}

/// Every entry of `d` is a base-3 digit.
pub open spec fn is_trinary(d: Seq<u8>) -> bool {
    forall|i: int| 0 <= i < d.len() ==> #[trigger] d[i] < 3
}

proof fn lemma_pow3_positive(k: nat)
    ensures
        pow3(k) >= 1,
    decreases k,
{
    if k > 0 {
        lemma_pow3_positive((k - 1) as nat);
    }
}

proof fn lemma_pow3_width()
    ensures
        pow3(60) == 42391158275216203514294433201nat,
{
    reveal_with_fuel(pow3, 61);
}

proof fn lemma_digit_at(n: nat, k: nat, i: int)
    requires
        0 <= i < k,
    ensures
        trinary_digits(n, k)[i] == ((n / pow3((k - 1 - i) as nat)) % 3) as u8,
    decreases k,
{
    lemma_digits_are_trinary(n / 3, (k - 1) as nat);
    if i < k - 1 {
        lemma_digit_at(n / 3, (k - 1) as nat, i);
        lemma_pow3_positive((k - 2 - i) as nat);
        lemma_div_denominator(n as int, 3, pow3((k - 2 - i) as nat) as int);
        assert(pow3((k - 1 - i) as nat) == 3 * pow3((k - 2 - i) as nat));
    } else {
        lemma_div_basics(n as int);
    }
}

proof fn lemma_digits_are_trinary(n: nat, k: nat)
    ensures
        is_trinary(trinary_digits(n, k)),
        trinary_digits(n, k).len() == k,
    decreases k,
{
    if k > 0 {
        lemma_digits_are_trinary(n / 3, (k - 1) as nat);
    }
}

proof fn lemma_value_bound(d: Seq<u8>)
    requires
        is_trinary(d),
    ensures
        trinary_value(d) < pow3(d.len()),
    decreases d.len(),
{
    if d.len() > 0 {
        lemma_value_bound(d.drop_last());
    }
}

/// The 60 low digits of `n` form a valid digit vector.
pub proof fn lemma_digits_are_trinary_width(n: nat)
    ensures
        is_trinary(trinary_digits(n, 60)),
        trinary_digits(n, 60).len() == 60,
{
    lemma_digits_are_trinary(n, 60);
}

/// Reading back the `k` low digits of `n` gives `n` modulo `3^k`.
pub proof fn lemma_value_of_digits(n: nat, k: nat)
    ensures
        trinary_value(trinary_digits(n, k)) == n % pow3(k),
    decreases k,
{
    if k == 0 {
        lemma_small_mod(0, 1);
        lemma_mod_multiples_basic(n as int, 1);
    } else {
        let d = trinary_digits(n, k);
        assert(d.drop_last() =~= trinary_digits(n / 3, (k - 1) as nat));
        lemma_value_of_digits(n / 3, (k - 1) as nat);
        lemma_pow3_positive((k - 1) as nat);
        lemma_breakdown(n as int, 3, pow3((k - 1) as nat) as int);
    }
}

/// Packing a number below `3^60` into digits and reading them back gives
/// the number again.
pub proof fn lemma_trinary_round_trip(n: nat)
    requires
        n < pow3(60),
    ensures
        trinary_value(trinary_digits(n, 60)) == n,
{
    lemma_value_of_digits(n, 60);
    lemma_small_mod(n, pow3(60));
}

/// The 60 lowest base-3 digits of `n`, most significant first; higher
/// digits are dropped.
pub fn int_to_trinary(n: u128) -> (r: Vec<u8>)
    ensures
        r@ == trinary_digits(n as nat, 60),
{
    let mut trinary: Vec<u8> = vec![0u8; 60];
    let mut cur: u128 = n;
    let mut i: usize = 60;
    proof {
        lemma_div_basics(n as int);
    }
    while i > 0
        invariant
            trinary@.len() == 60,
            i <= 60,
            cur as nat == (n as nat) / pow3((60 - i) as nat),
            forall|j: int|
                i <= j < 60 ==> #[trigger] trinary@[j] == (((n as nat) / pow3((59 - j) as nat)) % 3) as u8,
        decreases i,
    {
        trinary.set(i - 1, (cur % 3) as u8);
        proof {
            lemma_pow3_positive((60 - i) as nat);
            lemma_div_denominator(n as int, pow3((60 - i) as nat) as int, 3);
            lemma_mul_is_commutative(pow3((60 - i) as nat) as int, 3);
        }
        cur = cur / 3;
        i -= 1;
    }
    proof {
        lemma_digits_are_trinary(n as nat, 60);
        assert forall|j: int| 0 <= j < 60 implies trinary@[j] == trinary_digits(n as nat, 60)[j] by {
            lemma_digit_at(n as nat, 60, j);
        }
        assert(trinary@ =~= trinary_digits(n as nat, 60));
    }
    trinary
}

/// The number spelled by a vector of 60 base-3 digits, most significant first.
pub fn trinary_to_int(digits: &Vec<u8>) -> (r: u128)
    requires
        digits@.len() == 60,
        is_trinary(digits@),
    ensures
        r as nat == trinary_value(digits@),
{
    let mut acc: u128 = 0;
    let mut i: usize = 0;
    proof {
        lemma_pow3_width();
    }
    while i < digits.len()
        invariant
            digits@.len() == 60,
            is_trinary(digits@),
            i <= 60,
            acc as nat == trinary_value(digits@.take(i as int)),
            pow3(60) == 42391158275216203514294433201nat,
        decreases 60 - i,
    {
        proof {
            assert(digits@.take(i + 1).drop_last() =~= digits@.take(i as int));
            let t = digits@.take(i + 1);
            assert(is_trinary(t));
            lemma_value_bound(t);
            lemma_pow3_mono((i + 1) as nat, 60);
        }
        acc = acc * 3 + digits[i] as u128;
        i += 1;
    }
    proof {
        assert(digits@.take(60) =~= digits@);
    }
    acc
}

proof fn lemma_pow3_mono(a: nat, b: nat)
    requires
        a <= b,
    ensures
        pow3(a) <= pow3(b),
    decreases b,
{
    if a < b {
        lemma_pow3_mono(a, (b - 1) as nat);
        lemma_pow3_positive((b - 1) as nat);
    }
}

} // verus!
