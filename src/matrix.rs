//! A residue drawn as a 3x3 grid of markers, row-major, two cells set.
use vstd::prelude::*;

verus! {

/// The grid for `value`: cell `value % 9` and cell `(value / 9) % 9` hold 1,
/// every other cell holds 0.
pub open spec fn dot_matrix(value: nat) -> Seq<u8> {
    Seq::new(
        9,
        |i: int|
            if i == (value % 9) as int || i == ((value / 9) % 9) as int {
                1u8
            } else {
                0u8
            },
    )
}

/// How many cells of `s` hold 1.
pub open spec fn count_set(s: Seq<u8>) -> nat
    decreases s.len(),
{
    if s.len() == 0 {
        0
    } else {
        count_set(s.drop_last()) + if s.last() == 1u8 {
            1nat
        } else {
            0nat
        }
    }
}

/// Renders `value` as a dot matrix.
pub fn matrix_representation(value: u128) -> (r: [u8; 9])
    ensures
        r@ == dot_matrix(value as nat),
{
    let mut matrix: [u8; 9] = [0u8; 9];
    let first_pos: usize = (value % 9) as usize;
    let second_pos: usize = ((value / 9) % 9) as usize;
    matrix[first_pos] = 1;
    matrix[second_pos] = 1;
    assert(matrix@ =~= dot_matrix(value as nat));
    matrix
}

/// Two distinct positions give two set cells; when they coincide, one.
pub proof fn lemma_matrix_cell_count(value: nat)
    ensures
        value % 9 != (value / 9) % 9 ==> count_set(dot_matrix(value)) == 2,
        value % 9 == (value / 9) % 9 ==> count_set(dot_matrix(value)) == 1,
{
    let m = dot_matrix(value);
    reveal_with_fuel(count_set, 10);
    assert(m.drop_last().drop_last().drop_last().drop_last().drop_last().drop_last().drop_last().drop_last().drop_last() =~= Seq::<u8>::empty());
    assert(count_set(m) == (if m[0] == 1u8 { 1nat } else { 0nat }) + (if m[1] == 1u8 { 1nat } else { 0nat }) + (if m[2] == 1u8 { 1nat } else { 0nat }) + (if m[3] == 1u8 { 1nat } else { 0nat }) + (if m[4] == 1u8 { 1nat } else { 0nat }) + (if m[5] == 1u8 { 1nat } else { 0nat }) + (if m[6] == 1u8 { 1nat } else { 0nat }) + (if m[7] == 1u8 { 1nat } else { 0nat }) + (if m[8] == 1u8 { 1nat } else { 0nat }));
}

} // verus!
