use base58_crt::crt::{chinese_remainder_theorem, mod_operation};
use base58_crt::matrix::matrix_representation;
use base58_crt::modular::mod_inverse;

const PRIMES: [u128; 3] = [1000000007, 1000000009, 1000000021];

#[test]
fn inverse_small_values() {
    assert_eq!(mod_inverse(3, 7), 5);
    assert_eq!(mod_inverse(10, 17), 12);
    assert_eq!(mod_inverse(1, 5), 1);
    assert_eq!(mod_inverse(4, 5), 4);
}

#[test]
fn inverse_modulus_one_is_zero() {
    assert_eq!(mod_inverse(0, 1), 0);
    assert_eq!(mod_inverse(7, 1), 0);
}

#[test]
fn inverse_property_on_pairs() {
    for (a, m) in [(2u128, 9u128), (5, 12), (123456, 1000000007), (999999999, 1000000021), (17, 3120)] {
        let inv = mod_inverse(a, m);
        assert!(inv < m);
        assert_eq!(a * inv % m, 1);
    }
}

#[test]
fn inverse_of_value_above_modulus() {
    let inv = mod_inverse(10, 7);
    assert_eq!(inv, 5);
    assert_eq!(10 * inv % 7, 1);
}

#[test]
fn reduce_by_primes() {
    assert_eq!(
        mod_operation(654996940358353959041587265, &PRIMES),
        vec![627959409, 871153333, 369798765]
    );
    assert_eq!(mod_operation(0, &PRIMES), vec![0, 0, 0]);
    assert_eq!(mod_operation(17, &[]), Vec::<u128>::new());
}

#[test]
fn reconstruct_small_moduli() {
    assert_eq!(chinese_remainder_theorem(&[2, 3, 2], &[3, 5, 7]), 23);
    assert_eq!(chinese_remainder_theorem(&[0, 0, 0], &[3, 5, 7]), 0);
    assert_eq!(chinese_remainder_theorem(&[], &[]), 0);
    assert_eq!(chinese_remainder_theorem(&[0, 4], &[1, 9]), 4);
}

#[test]
fn reconstruct_of_reduce_is_identity() {
    let top = 1000000037000000399000001323u128 - 1;
    for n in [0u128, 1, 123456789012345678901234567, 654996940358353959041587265, top] {
        let r = mod_operation(n, &PRIMES);
        assert_eq!(chinese_remainder_theorem(&r, &PRIMES), n);
    }
}

#[test]
fn reconstruct_known_residues() {
    assert_eq!(
        chinese_remainder_theorem(&[864197440, 790123284, 86418123], &PRIMES),
        123456789012345678901234567
    );
}

#[test]
fn matrix_two_cells() {
    assert_eq!(matrix_representation(11), [0, 1, 1, 0, 0, 0, 0, 0, 0]);
    assert_eq!(matrix_representation(627959409), [0, 0, 1, 0, 0, 0, 1, 0, 0]);
    assert_eq!(matrix_representation(871153333), [0, 0, 0, 1, 0, 0, 0, 1, 0]);
    assert_eq!(matrix_representation(369798765), [0, 0, 0, 0, 0, 0, 1, 1, 0]);
}

#[test]
fn matrix_one_cell_when_positions_coincide() {
    assert_eq!(matrix_representation(0), [1, 0, 0, 0, 0, 0, 0, 0, 0]);
    assert_eq!(matrix_representation(10), [0, 1, 0, 0, 0, 0, 0, 0, 0]);
    assert_eq!(matrix_representation(80), [0, 0, 0, 0, 0, 0, 0, 0, 1]);
}

#[test]
fn matrix_cell_count_rule() {
    for r in 0u128..500 {
        let m = matrix_representation(r);
        let ones = m.iter().filter(|&&c| c == 1).count();
        let zeros = m.iter().filter(|&&c| c == 0).count();
        assert_eq!(ones + zeros, 9);
        if r % 9 != (r / 9) % 9 {
            assert_eq!(ones, 2);
        } else {
            assert_eq!(ones, 1);
        }
    }
}
