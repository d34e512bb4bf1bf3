use sudoku_solver::board::Gameboard;

#[test]
fn from_keeps_every_cell() {
    let rows: [[u8; 3]; 2] = [[1, 0, 3], [0, 5, 6]];
    let board: Gameboard<2, 3> = rows.into();
    for x in 0..2 {
        for y in 0..3 {
            assert_eq!(board.cell(x, y), rows[x][y]);
        }
    }
}

#[test]
fn set_cell_writes_one_cell_only() {
    let mut board: Gameboard<2, 3> = [[1, 0, 3], [0, 5, 6]].into();
    board.set_cell(1, 0, 4);
    let expected: [[u8; 3]; 2] = [[1, 0, 3], [4, 5, 6]];
    for x in 0..2 {
        for y in 0..3 {
            assert_eq!(board.cell(x, y), expected[x][y]);
        }
    }
}

#[test]
fn set_cell_reaches_the_last_cell_of_a_wide_grid() {
    let mut board: Gameboard<2, 5> = [[0; 5]; 2].into();
    board.set_cell(1, 4, 9);
    assert_eq!(board.cell(1, 4), 9);
    assert_eq!(board.cell(0, 4), 0);
    assert_eq!(board.cell(1, 3), 0);
}

#[test]
fn is_valid_accepts_blank_and_values_up_to_nine() {
    let board: Gameboard<2, 2> = [[0, 9], [1, 5]].into();
    assert!(board.is_valid());
}

#[test]
fn is_valid_rejects_a_value_above_nine() {
    let board: Gameboard<2, 2> = [[0, 9], [10, 5]].into();
    assert!(!board.is_valid());
    let board: Gameboard<2, 2> = [[0, 9], [1, 255]].into();
    assert!(!board.is_valid());
}

#[test]
fn render_writes_a_line_per_row() {
    let board: Gameboard<2, 3> = [[1, 0, 3], [0, 0, 9]].into();
    assert_eq!(board.render(), "1 . 3 \n. . 9 \n");
}

#[test]
fn render_of_a_blank_grid_is_all_dots() {
    let board: Gameboard<1, 2> = [[0, 0]].into();
    assert_eq!(board.render(), ". . \n");
}

#[test]
fn render_writes_larger_numbers_in_decimal() {
    let board: Gameboard<1, 4> = [[10, 99, 100, 255]].into();
    assert_eq!(board.render(), "10 99 100 255 \n");
    let board: Gameboard<1, 3> = [[107, 120, 200]].into();
    assert_eq!(board.render(), "107 120 200 \n");
}

#[test]
fn debug_output_names_the_type() {
    let board: Gameboard<1, 1> = [[7]].into();
    assert!(format!("{board:?}").contains("Gameboard"));
}
