//! The whole chain on one Base58 text: decode, pack into base-3 digits and
//! back, reduce by three primes, draw each residue, rebuild by the Chinese
//! remainder theorem, pack again and encode.
use vstd::prelude::*;
use vstd::arithmetic::div_mod::*;
use crate::base58::{base58_encoding, base58_to_int, decodes_to, int_to_base58, DecodeError};
use crate::crt::{
    chinese_remainder_theorem,
    is_reconstruction,
    is_reduction,
    lemma_crt_unique,
    mod_operation,
    pairwise_coprime,
    product,
};
use crate::matrix::{dot_matrix, matrix_representation};
use crate::modular::gcd;
use crate::trinary::{
    int_to_trinary,
    lemma_digits_are_trinary_width,
    lemma_value_of_digits,
    pow3,
    trinary_to_int,
};

verus! {

/// First of the three moduli.
pub const PRIME_LOW: u128 = 1000000007;

/// Second of the three moduli.
pub const PRIME_MID: u128 = 1000000009;

/// Third of the three moduli.
pub const PRIME_HIGH: u128 = 1000000021;

/// The three moduli, in order.
pub open spec fn moduli() -> Seq<u128> {
    seq![PRIME_LOW, PRIME_MID, PRIME_HIGH]
}

/// Every intermediate value of one run of the chain.
pub struct PipelineReport {
    /// The number the input text spells.
    pub decoded: u128,
    /// The number read back from the 60 base-3 digits of `decoded`.
    pub packed: u128,
    /// `packed` modulo each of the three moduli.
    pub residues: Vec<u128>,
    /// The dot matrix of each residue.
    pub matrices: Vec<[u8; 9]>,
    /// The number rebuilt from the residues.
    pub reconstructed: u128,
    /// `reconstructed`, packed into base-3 digits and back, as Base58 text.
    pub restored: String,
}

proof fn lemma_moduli_fit()
    ensures
        pairwise_coprime(moduli()),
        product(moduli()) == 1000000037000000399000001323nat,
        product(moduli()) * 2 <= u128::MAX,
        forall|i: int| 0 <= i < 3 ==> product(moduli()) * (#[trigger] moduli()[i] as nat) <= u128::MAX,
        forall|i: int| 0 <= i < 3 ==> #[trigger] moduli()[i] >= 1,
        product(moduli()) < pow3(60),
{
    reveal_with_fuel(gcd, 8);
    reveal_with_fuel(product, 4);
    reveal_with_fuel(pow3, 61);
    let m = moduli();
    assert(m.drop_last().drop_last().drop_last() =~= Seq::<u128>::empty());
    assert(gcd(1000000007, 1000000009) == 1);
    assert(gcd(1000000009, 1000000007) == 1);
    assert(gcd(1000000007, 1000000021) == 1);
    assert(gcd(1000000021, 1000000007) == 1);
    assert(gcd(1000000009, 1000000021) == 1);
    assert(gcd(1000000021, 1000000009) == 1);
}

/// Runs the chain on `code`; fails exactly when `code` cannot be decoded.
pub fn run_pipeline(code: &str) -> (r: Result<PipelineReport, DecodeError>)
    ensures
        match r {
            Ok(rep) => decodes_to(code@, Ok(rep.decoded)) && rep.packed as nat == (rep.decoded as nat)
                % pow3(60) && is_reduction(rep.residues@, rep.packed as nat, moduli())
                && rep.matrices@.len() == 3 && (forall|i: int|
                0 <= i < 3 ==> (#[trigger] rep.matrices@[i])@ == dot_matrix(
                    rep.residues@[i] as nat,
                )) && rep.reconstructed as nat == (rep.packed as nat) % product(moduli())
                && rep.restored@ == base58_encoding(rep.reconstructed as nat),
            Err(e) => decodes_to(code@, Err(e)),
        },
{
    let decoded = match base58_to_int(code) {
        Ok(v) => v,
        Err(e) => {
            return Err(e);
        },
    };
    let digits = int_to_trinary(decoded);
    proof {
        lemma_digits_are_trinary_width(decoded as nat);
        lemma_value_of_digits(decoded as nat, 60);
    }
    let packed = trinary_to_int(&digits);
    let mut primes: Vec<u128> = Vec::new();
    primes.push(PRIME_LOW);
    primes.push(PRIME_MID);
    primes.push(PRIME_HIGH);
    proof {
        assert(primes@ =~= moduli());
        lemma_moduli_fit();
    }
    let residues = mod_operation(packed, primes.as_slice());
    let mut matrices: Vec<[u8; 9]> = Vec::new();
    let mut i: usize = 0;
    while i < residues.len()
        invariant
            residues@.len() == 3,
            i <= 3,
            matrices@.len() == i,
            forall|k: int| 0 <= k < i ==> (#[trigger] matrices@[k])@ == dot_matrix(residues@[k] as nat),
        decreases 3 - i,
    {
        matrices.push(matrix_representation(residues[i]));
        i += 1;
    }
    proof {
        assert forall|k: int| 0 <= k < 3 implies #[trigger] residues@[k] < primes@[k] by {
            lemma_mod_bound(packed as int, primes@[k] as int);
        }
    }
    let reconstructed = chinese_remainder_theorem(residues.as_slice(), primes.as_slice());
    proof {
        let big = product(moduli());
        let want = (packed as nat) % big;
        lemma_mod_bound(packed as int, big as int);
        assert forall|k: int| 0 <= k < 3 implies (reconstructed as nat) % (#[trigger] moduli()[k] as nat) == want % (moduli()[k] as nat) by {
            let mk = moduli()[k] as int;
            lemma_fundamental_div_mod(big as int, mk);
            crate::crt::lemma_product_divides_element(moduli(), k);
            crate::crt::lemma_mod_of_mod(packed as int, big as int, mk);
        }
        lemma_crt_unique(moduli(), reconstructed as nat, want);
    }
    let again = int_to_trinary(reconstructed);
    proof {
        lemma_digits_are_trinary_width(reconstructed as nat);
        lemma_value_of_digits(reconstructed as nat, 60);
        lemma_small_mod(reconstructed as nat, pow3(60));
    }
    let unpacked = trinary_to_int(&again);
    let restored = int_to_base58(unpacked);
    Ok(PipelineReport { decoded, packed, residues, matrices, reconstructed, restored })
}

} // verus!
