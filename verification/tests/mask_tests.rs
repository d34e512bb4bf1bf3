use sudoku_solver::mask::{ToCellMask, ToResult, ALL_CANDIDATES};

#[test]
fn every_value_has_its_own_bit() {
    let expected: [u16; 9] = [1, 2, 4, 8, 16, 32, 64, 128, 256];
    for value in 1..=9u8 {
        assert_eq!(value.to_cell_mask(), expected[(value - 1) as usize]);
    }
}

#[test]
fn all_candidates_is_the_union_of_the_nine_bits() {
    let mut union = 0u16;
    for value in 1..=9u8 {
        union |= value.to_cell_mask();
    }
    assert_eq!(union, ALL_CANDIDATES);
    assert_eq!(ALL_CANDIDATES, 0b1_1111_1111);
}

#[test]
fn a_single_bit_converts_back_to_its_value() {
    assert_eq!(1u16.to_result(), 1);
    assert_eq!(2u16.to_result(), 2);
    assert_eq!(16u16.to_result(), 5);
    assert_eq!(256u16.to_result(), 9);
}

#[test]
fn conversion_round_trips_for_every_value() {
    for value in 1..=9u8 {
        assert_eq!(value.to_cell_mask().to_result(), value);
    }
}
