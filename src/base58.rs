//! Base58 text: digits 0 to 57 written with a fixed 58-character alphabet,
//! most significant first.
use vstd::prelude::*;
use vstd::arithmetic::div_mod::*;

verus! {

/// The symbols for digits 0 to 57, in order.
pub const ALPHABET: &'static str = "123456789ABCDEFGHJKLMNPQRSTUVWXYZabcdefghijkmnopqrstuvwxyz";

/// Why a text is not a Base58 number.
#[derive(Debug, Clone, Copy, PartialEq, Eq, Structural)]
pub enum DecodeError {
    /// The first character that is not in the alphabet.
    InvalidCharacter(char),
    /// Every character is valid, but the number does not fit in 128 bits.
    Overflow,
}

/// The alphabet as a sequence of characters.
pub open spec fn alphabet() -> Seq<char> {
    ALPHABET@
}

/// Index of the first occurrence of `c` in `s`, or -1 when it does not occur.
pub open spec fn position_of(s: Seq<char>, c: char) -> int
    decreases s.len(),
{
    if s.len() == 0 {
        -1
    } else if s[0] == c {
        0
    } else {
        let p = position_of(s.drop_first(), c);
        if p < 0 {
            -1
        } else {
            p + 1
        }
    }
}

/// The digit that `c` stands for, or -1 when `c` is not in the alphabet.
pub open spec fn digit_value(c: char) -> int {
    position_of(alphabet(), c)
}

/// Every character of `s` is in the alphabet.
pub open spec fn is_base58(s: Seq<char>) -> bool {
    forall|i: int| 0 <= i < s.len() ==> digit_value(#[trigger] s[i]) >= 0
}

/// The number that the characters of `s` spell in base 58.
pub open spec fn base58_value(s: Seq<char>) -> int
    decreases s.len(),
{
    if s.len() == 0 {
        0
    } else {
        base58_value(s.drop_last()) * 58 + digit_value(s.last())
    }
}

/// The base-58 digits of `n`, most significant first; empty for 0.
pub open spec fn base58_digits(n: nat) -> Seq<char>
    decreases n,
{
    if n == 0 {
        Seq::empty()
    } else {
        base58_digits(n / 58).push(alphabet()[(n % 58) as int])
    }
}

/// The text for `n`: its digits, or the symbol for 0 alone when `n` is 0.
pub open spec fn base58_encoding(n: nat) -> Seq<char> {
    if n == 0 {
        seq![alphabet()[0]]
    } else {
        base58_digits(n)
    }
}

/// The symbols of digits `ds`, taken from last to first.
pub open spec fn reversed_symbols(ds: Seq<u8>) -> Seq<char> {
    Seq::new(ds.len(), |j: int| alphabet()[ds[ds.len() - 1 - j] as int])
}

proof fn lemma_alphabet_len()
    ensures
        alphabet().len() == 58,
        alphabet()[0] == '1',
{
    reveal_strlit("123456789ABCDEFGHJKLMNPQRSTUVWXYZabcdefghijkmnopqrstuvwxyz");
}

proof fn lemma_position_found(s: Seq<char>, c: char, j: int)
    requires
        0 <= j < s.len(),
        s[j] == c,
        forall|k: int| 0 <= k < j ==> s[k] != c,
    ensures
        position_of(s, c) == j,
    decreases s.len(),
{
    if j > 0 {
        assert forall|k: int| 0 <= k < j - 1 implies s.drop_first()[k] != c by {
            assert(s.drop_first()[k] == s[k + 1]);
        }
        lemma_position_found(s.drop_first(), c, j - 1);
    }
}

proof fn lemma_position_absent(s: Seq<char>, c: char)
    requires
        forall|k: int| 0 <= k < s.len() ==> s[k] != c,
    ensures
        position_of(s, c) == -1,
    decreases s.len(),
{
    if s.len() > 0 {
        assert forall|k: int| 0 <= k < s.len() - 1 implies s.drop_first()[k] != c by {
            assert(s.drop_first()[k] == s[k + 1]);
        }
        lemma_position_absent(s.drop_first(), c);
    }
}

proof fn lemma_position_valid(s: Seq<char>, c: char)
    ensures
        position_of(s, c) >= 0 ==> position_of(s, c) < s.len() && s[position_of(s, c)] == c,
        position_of(s, c) >= -1,
    decreases s.len(),
{
    if s.len() > 0 && s[0] != c {
        lemma_position_valid(s.drop_first(), c);
    }
}

proof fn lemma_value_bounds(s: Seq<char>)
    requires
        is_base58(s),
    ensures
        base58_value(s) >= 0,
        s.len() > 0 && digit_value(s[0]) > 0 ==> base58_value(s) > 0,
    decreases s.len(),
{
    if s.len() > 0 {
        let init = s.drop_last();
        assert(is_base58(init)) by {
            assert forall|k: int| 0 <= k < init.len() implies digit_value(#[trigger] init[k]) >= 0 by {
                assert(init[k] == s[k]);
            }
        }
        lemma_value_bounds(init);
        assert(digit_value(s[s.len() - 1]) >= 0);
        if s.len() > 1 {
            assert(init[0] == s[0]);
        }
    }
}

proof fn lemma_digits_of_value(s: Seq<char>)
    requires
        is_base58(s),
        s.len() == 0 || digit_value(s[0]) > 0,
    ensures
        base58_digits(base58_value(s) as nat) == s,
    decreases s.len(),
{
    if s.len() == 0 {
        assert(base58_digits(0) =~= s);
    } else {
        let init = s.drop_last();
        assert(is_base58(init)) by {
            assert forall|k: int| 0 <= k < init.len() implies digit_value(#[trigger] init[k]) >= 0 by {
                assert(init[k] == s[k]);
            }
        }
        if init.len() > 0 {
            assert(init[0] == s[0]);
        }
        lemma_digits_of_value(init);
        lemma_value_bounds(s);
        lemma_value_bounds(init);
        lemma_alphabet_len();
        let last = s[s.len() - 1];
        assert(digit_value(last) >= 0);
        lemma_position_valid(alphabet(), last);
        let v = base58_value(s);
        let d = digit_value(last);
        lemma_fundamental_div_mod_converse(v, 58, base58_value(init), d);
        assert(s =~= init.push(last));
    }
}

/// Writing back a Base58 text that has no superfluous leading zero symbol,
/// and whose number fits in 128 bits, gives the same text.
pub proof fn lemma_base58_round_trip(s: Seq<char>)
    requires
        is_base58(s),
        s.len() > 0,
        s.len() == 1 || s[0] != '1',
        base58_value(s) <= u128::MAX,
    ensures
        base58_encoding(base58_value(s) as nat) == s,
{
    lemma_alphabet_len();
    lemma_position_valid(alphabet(), s[0]);
    lemma_value_bounds(s);
    if digit_value(s[0]) == 0 {
        assert(s[0] == '1');
        assert(s.len() == 1);
        assert(s.drop_last() =~= Seq::<char>::empty());
        assert(base58_value(s.drop_last()) == 0);
        assert(s.last() == s[0]);
        assert(base58_value(s) == 0);
        assert(s =~= seq!['1']);
    } else {
        lemma_digits_of_value(s);
    }
}

/// The digit of `c`, looked up in the alphabet.
fn alphabet_index(c: char) -> (r: Option<u8>)
    ensures
        match r {
            Some(d) => d as int == digit_value(c),
            None => digit_value(c) < 0,
        },
{
    proof {
        lemma_alphabet_len();
    }
    let mut j: usize = 0;
    while j < 58
        invariant
            alphabet().len() == 58,
            j <= 58,
            forall|k: int| 0 <= k < j ==> alphabet()[k] != c,
        decreases 58 - j,
    {
        if ALPHABET.get_char(j) == c {
            proof {
                lemma_position_found(alphabet(), c, j as int);
            }
            return Some(j as u8);
        }
        j += 1;
    }
    proof {
        lemma_position_absent(alphabet(), c);
    }
    None
}

/// `r` is what reading `s` as a Base58 number gives: its value when every
/// character is valid and the value fits in 128 bits, else the first invalid
/// character, else an overflow.
pub open spec fn decodes_to(s: Seq<char>, r: Result<u128, DecodeError>) -> bool {
    match r {
        Ok(v) => is_base58(s) && v as int == base58_value(s),
        Err(DecodeError::InvalidCharacter(c)) => exists|i: int|
            0 <= i < s.len() && s[i] == c && digit_value(c) < 0 && is_base58(
                #[trigger] s.take(i),
            ),
        Err(DecodeError::Overflow) => is_base58(s) && base58_value(s) > u128::MAX,
    }
}

/// Reads `base58` as a Base58 number.
pub fn base58_to_int(base58: &str) -> (r: Result<u128, DecodeError>)
    ensures
        decodes_to(base58@, r),
{
    let len = base58.unicode_len();
    let mut acc: u128 = 0;
    let mut overflow = false;
    let mut i: usize = 0;
    while i < len
        invariant
            len == base58@.len(),
            i <= len,
            is_base58(base58@.take(i as int)),
            !overflow ==> acc as int == base58_value(base58@.take(i as int)),
            overflow ==> base58_value(base58@.take(i as int)) > u128::MAX,
        decreases len - i,
    {
        let c = base58.get_char(i);
        let ghost t = base58@.take(i + 1);
        proof {
            assert(t.drop_last() =~= base58@.take(i as int));
        }
        match alphabet_index(c) {
            None => {
                return Err(DecodeError::InvalidCharacter(c));
            },
            Some(d) => {
                proof {
                    assert forall|k: int| 0 <= k < t.len() implies digit_value(#[trigger] t[k]) >= 0 by {
                        if k < i {
                            assert(t[k] == base58@.take(i as int)[k]);
                        }
                    }
                }
                if !overflow {
                    if acc <= (u128::MAX - d as u128) / 58 {
                        acc = acc * 58 + d as u128;
                    } else {
                        overflow = true;
                    }
                }
            },
        }
        i += 1;
    }
    proof {
        assert(base58@.take(len as int) =~= base58@);
    }
    if overflow {
        Err(DecodeError::Overflow)
    } else {
        Ok(acc)
    }
}

/// Writes `n` as a Base58 number; 0 is written as the symbol for 0.
pub fn int_to_base58(n: u128) -> (r: String)
    ensures
        r@ == base58_encoding(n as nat),
{
    proof {
        lemma_alphabet_len();
    }
    if n == 0 {
        let r = String::from_str("1");
        proof {
            reveal_strlit("1");
            assert(r@ =~= base58_encoding(0));
        }
        return r;
    }
    let mut digits: Vec<u8> = Vec::new();
    let mut cur: u128 = n;
    proof {
        assert(base58_digits(n as nat) =~= base58_digits(cur as nat) + reversed_symbols(digits@));
    }
    while cur > 0
        invariant
            alphabet().len() == 58,
            base58_digits(n as nat) =~= base58_digits(cur as nat) + reversed_symbols(digits@),
            forall|k: int| 0 <= k < digits@.len() ==> #[trigger] digits@[k] < 58,
        decreases cur,
    {
        let ghost before = digits@;
        digits.push((cur % 58) as u8);
        proof {
            assert(reversed_symbols(digits@) =~= seq![alphabet()[(cur % 58) as int]] + reversed_symbols(before));
            assert(base58_digits(cur as nat) == base58_digits((cur / 58) as nat).push(alphabet()[(cur % 58) as int]));
        }
        cur = cur / 58;
    }
    let mut r = String::new();
    let mut j: usize = digits.len();
    while j > 0
        invariant
            alphabet().len() == 58,
            j <= digits@.len(),
            forall|k: int| 0 <= k < digits@.len() ==> #[trigger] digits@[k] < 58,
            r@ == reversed_symbols(digits@).take(digits@.len() - j),
        decreases j,
    {
        let d = digits[j - 1] as usize;
        let piece = ALPHABET.substring_char(d, d + 1);
        let ghost before = r@;
        r.append(piece);
        proof {
            assert(r@ =~= reversed_symbols(digits@).take(digits@.len() - j + 1));
        }
        j -= 1;
    }
    proof {
        assert(reversed_symbols(digits@).take(digits@.len() as int) =~= reversed_symbols(digits@));
        assert(base58_digits(0) =~= Seq::<char>::empty());
    }
    r
}

} // verus!
