use sudoku_solver::board::Gameboard;
use sudoku_solver::candidates::Candidates;

#[test]
fn default_has_every_candidate_everywhere() {
    let candidates = Candidates::<9, 9>::default();
    for x in 0..9 {
        for y in 0..9 {
            assert_eq!(candidates.mask(x, y), 511);
            assert_eq!(candidates.remaining_candidates(x, y), 9);
        }
    }
}

#[test]
fn default_works_for_other_shapes() {
    let candidates = Candidates::<2, 5>::default();
    assert_eq!(candidates.mask(1, 4), 511);
    assert_eq!(candidates.mask(0, 0), 511);
}

#[test]
fn exclude_candidate_clears_one_bit() {
    let mut candidates = Candidates::<9, 9>::default();
    candidates.exclude_candidate(2, 3, 5);
    assert_eq!(candidates.mask(2, 3), 511 - 16);
    assert_eq!(candidates.remaining_candidates(2, 3), 8);
    assert_eq!(candidates.mask(3, 2), 511);
    assert_eq!(candidates.mask(2, 4), 511);
}

#[test]
fn exclude_candidate_twice_is_the_same_as_once() {
    let mut candidates = Candidates::<9, 9>::default();
    candidates.exclude_candidate(0, 0, 1);
    candidates.exclude_candidate(0, 0, 1);
    assert_eq!(candidates.mask(0, 0), 510);
}

#[test]
fn excluding_every_value_leaves_nothing() {
    let mut candidates = Candidates::<9, 9>::default();
    for value in 1..=9 {
        candidates.exclude_candidate(8, 8, value);
    }
    assert_eq!(candidates.mask(8, 8), 0);
    assert_eq!(candidates.remaining_candidates(8, 8), 0);
}

#[test]
fn set_exclusive_candidate_leaves_one_bit() {
    let mut candidates = Candidates::<9, 9>::default();
    candidates.set_exclusive_candidate(4, 4, 9);
    assert_eq!(candidates.mask(4, 4), 256);
    assert_eq!(candidates.remaining_candidates(4, 4), 1);
    candidates.set_exclusive_candidate(4, 4, 1);
    assert_eq!(candidates.mask(4, 4), 1);
    assert_eq!(candidates.mask(4, 5), 511);
}

#[test]
fn mark_as_solved_clears_the_mask() {
    let mut candidates = Candidates::<9, 9>::default();
    candidates.mark_as_solved(7, 1);
    assert_eq!(candidates.mask(7, 1), 0);
    assert_eq!(candidates.remaining_candidates(7, 1), 0);
    assert_eq!(candidates.mask(1, 7), 511);
}

#[test]
fn remaining_candidates_counts_the_bits() {
    let mut candidates = Candidates::<9, 9>::default();
    candidates.exclude_candidate(0, 0, 2);
    candidates.exclude_candidate(0, 0, 4);
    candidates.exclude_candidate(0, 0, 9);
    assert_eq!(candidates.mask(0, 0), 0b0_1111_0101);
    assert_eq!(candidates.remaining_candidates(0, 0), 6);
}

#[test]
fn apply_uniques_writes_the_single_candidate() {
    let mut candidates = Candidates::<2, 2>::default();
    candidates.set_exclusive_candidate(0, 1, 7);
    candidates.set_exclusive_candidate(1, 0, 1);
    candidates.mark_as_solved(1, 1);
    let mut board: Gameboard<2, 2> = [[0, 0], [0, 4]].into();
    assert!(candidates.apply_uniques(&mut board));
    assert_eq!(board.cell(0, 0), 0);
    assert_eq!(board.cell(0, 1), 7);
    assert_eq!(board.cell(1, 0), 1);
    assert_eq!(board.cell(1, 1), 4);
}

#[test]
fn apply_uniques_leaves_cells_with_several_candidates() {
    let candidates = Candidates::<2, 2>::default();
    let mut board: Gameboard<2, 2> = [[0, 3], [0, 0]].into();
    assert!(!candidates.apply_uniques(&mut board));
    assert_eq!(board.cell(0, 0), 0);
    assert_eq!(board.cell(0, 1), 3);
    assert_eq!(board.cell(1, 0), 0);
    assert_eq!(board.cell(1, 1), 0);
}

#[test]
fn apply_uniques_reports_no_change_when_the_value_is_already_there() {
    let mut candidates = Candidates::<2, 2>::default();
    candidates.set_exclusive_candidate(0, 0, 5);
    let mut board: Gameboard<2, 2> = [[0, 0], [0, 0]].into();
    assert!(candidates.apply_uniques(&mut board));
    assert_eq!(board.cell(0, 0), 5);
    assert!(!candidates.apply_uniques(&mut board));
    assert_eq!(board.cell(0, 0), 5);
}

#[test]
fn apply_uniques_ignores_cells_without_candidates() {
    let mut candidates = Candidates::<1, 2>::default();
    candidates.mark_as_solved(0, 0);
    candidates.mark_as_solved(0, 1);
    let mut board: Gameboard<1, 2> = [[0, 6]].into();
    assert!(!candidates.apply_uniques(&mut board));
    assert_eq!(board.cell(0, 0), 0);
    assert_eq!(board.cell(0, 1), 6);
}

#[test]
fn candidates_debug_output_shows_the_masks() {
    let candidates = Candidates::<1, 2>::default();
    let text = format!("{candidates:?}");
    assert!(text.contains("Candidates"));
    assert!(text.contains("511"));
}
