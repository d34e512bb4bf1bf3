use sudoku_solver::board::Gameboard;
use sudoku_solver::candidates::Candidates;
use sudoku_solver::region::build_9x9_regions;
use sudoku_solver::rules::{build_9x9_rules, Rule};
use sudoku_solver::solver::{run_pass, solve, solve_9x9, LoopState};

const PUZZLE: [[u8; 9]; 9] = [
    [0, 0, 0, 0, 8, 0, 0, 0, 0],
    [0, 0, 5, 6, 0, 3, 9, 0, 0],
    [0, 8, 4, 0, 0, 0, 2, 7, 0],
    [0, 3, 0, 1, 0, 0, 0, 5, 0],
    [5, 0, 0, 0, 3, 0, 0, 0, 2],
    [0, 6, 0, 0, 0, 5, 0, 1, 0],
    [0, 1, 9, 0, 0, 0, 5, 6, 0],
    [0, 0, 8, 4, 0, 2, 7, 0, 0],
    [0, 0, 0, 0, 6, 0, 0, 0, 0],
];

const SOLVED: [[u8; 9]; 9] = [
    [5, 3, 4, 6, 7, 8, 9, 1, 2],
    [6, 7, 2, 1, 9, 5, 3, 4, 8],
    [1, 9, 8, 3, 4, 2, 5, 6, 7],
    [8, 5, 9, 7, 6, 1, 4, 2, 3],
    [4, 2, 6, 8, 5, 3, 7, 9, 1],
    [7, 1, 3, 9, 2, 4, 8, 5, 6],
    [9, 6, 1, 5, 3, 7, 2, 8, 4],
    [2, 8, 7, 4, 1, 9, 6, 3, 5],
    [3, 4, 5, 2, 8, 6, 1, 7, 9],
];

fn cells(board: &Gameboard<9, 9>) -> [[u8; 9]; 9] {
    let mut rows = [[0u8; 9]; 9];
    for x in 0..9 {
        for y in 0..9 {
            rows[x][y] = board.cell(x, y);
        }
    }
    rows
}

fn masks(candidates: &Candidates<9, 9>) -> [[u16; 9]; 9] {
    let mut rows = [[0u16; 9]; 9];
    for x in 0..9 {
        for y in 0..9 {
            rows[x][y] = candidates.mask(x, y);
        }
    }
    rows
}

fn solved_cells(rows: &[[u8; 9]; 9]) -> usize {
    rows.iter().flatten().filter(|value| **value != 0).count()
}

fn has_value_twice_in_a_region(rows: &[[u8; 9]; 9]) -> bool {
    for region in build_9x9_regions() {
        for i in 0..region.len() {
            for j in (i + 1)..region.len() {
                let a = rows[region[i].0][region[i].1];
                let b = rows[region[j].0][region[j].1];
                if a != 0 && a == b {
                    return true;
                }
            }
        }
    }
    false
}

#[test]
fn canonical_puzzle_makes_progress_without_contradiction() {
    let mut board: Gameboard<9, 9> = PUZZLE.into();
    let rules = build_9x9_rules();
    let mut candidates = Candidates::<9, 9>::default();
    solve(&rules, &mut board, &mut candidates);
    let after = cells(&board);
    assert!(solved_cells(&after) > solved_cells(&PUZZLE));
    assert!(!has_value_twice_in_a_region(&after));
    for x in 0..9 {
        for y in 0..9 {
            if PUZZLE[x][y] != 0 {
                assert_eq!(after[x][y], PUZZLE[x][y]);
            }
        }
    }
}

#[test]
fn canonical_puzzle_converges_to_the_deduced_grid() {
    let mut board: Gameboard<9, 9> = PUZZLE.into();
    let candidates = solve_9x9(&mut board);
    let expected: [[u8; 9]; 9] = [
        [0, 0, 6, 0, 8, 0, 0, 0, 5],
        [0, 0, 5, 6, 0, 3, 9, 0, 0],
        [3, 8, 4, 9, 5, 1, 2, 7, 6],
        [0, 3, 0, 1, 0, 0, 0, 5, 0],
        [5, 0, 1, 0, 3, 0, 0, 0, 2],
        [0, 6, 0, 0, 0, 5, 0, 1, 0],
        [2, 1, 9, 3, 7, 8, 5, 6, 4],
        [6, 5, 8, 4, 1, 2, 7, 0, 0],
        [0, 0, 3, 5, 6, 9, 0, 2, 0],
    ];
    assert_eq!(cells(&board), expected);
    assert_eq!(solved_cells(&expected), 47);
    let expected_masks: [[u16; 9]; 9] = [
        [321, 322, 0, 66, 0, 72, 13, 12, 0],
        [65, 66, 0, 0, 10, 0, 0, 136, 129],
        [0, 0, 0, 0, 0, 0, 0, 0, 0],
        [456, 0, 66, 0, 266, 104, 168, 0, 448],
        [0, 328, 0, 192, 0, 104, 168, 392, 0],
        [456, 0, 66, 194, 266, 0, 140, 0, 452],
        [0, 0, 0, 0, 0, 0, 0, 0, 0],
        [0, 0, 0, 0, 0, 0, 0, 260, 260],
        [72, 72, 0, 0, 0, 0, 129, 0, 129],
    ];
    assert_eq!(masks(&candidates), expected_masks);
}

#[test]
fn canonical_puzzle_takes_six_passes() {
    let mut board: Gameboard<9, 9> = PUZZLE.into();
    let rules = build_9x9_rules();
    let mut candidates = Candidates::<9, 9>::default();
    let mut passes = 0;
    loop {
        passes += 1;
        if run_pass(&rules, &mut board, &mut candidates) == LoopState::Converged {
            break;
        }
    }
    assert_eq!(passes, 6);
}

#[test]
fn solve_and_solve_9x9_agree() {
    let mut first: Gameboard<9, 9> = PUZZLE.into();
    let rules = build_9x9_rules();
    let mut first_candidates = Candidates::<9, 9>::default();
    solve(&rules, &mut first, &mut first_candidates);
    let mut second: Gameboard<9, 9> = PUZZLE.into();
    let second_candidates = solve_9x9(&mut second);
    assert_eq!(cells(&first), cells(&second));
    assert_eq!(masks(&first_candidates), masks(&second_candidates));
}

#[test]
fn blank_grid_converges_at_once() {
    let mut board: Gameboard<9, 9> = [[0; 9]; 9].into();
    let rules = build_9x9_rules();
    let mut candidates = Candidates::<9, 9>::default();
    assert_eq!(run_pass(&rules, &mut board, &mut candidates), LoopState::Converged);
    assert_eq!(cells(&board), [[0u8; 9]; 9]);
    assert_eq!(masks(&candidates), [[511u16; 9]; 9]);
}

#[test]
fn blank_grid_is_left_as_it_is_by_solve() {
    let mut board: Gameboard<9, 9> = [[0; 9]; 9].into();
    let candidates = solve_9x9(&mut board);
    assert_eq!(cells(&board), [[0u8; 9]; 9]);
    assert_eq!(masks(&candidates), [[511u16; 9]; 9]);
}

#[test]
fn solved_grid_converges_in_one_pass() {
    assert!(!has_value_twice_in_a_region(&SOLVED));
    let mut board: Gameboard<9, 9> = SOLVED.into();
    let rules = build_9x9_rules();
    let mut candidates = Candidates::<9, 9>::default();
    assert_eq!(run_pass(&rules, &mut board, &mut candidates), LoopState::Converged);
    assert_eq!(cells(&board), SOLVED);
    assert_eq!(masks(&candidates), [[0u16; 9]; 9]);
}

#[test]
fn solved_grid_is_left_as_it_is_by_solve() {
    let mut board: Gameboard<9, 9> = SOLVED.into();
    let candidates = solve_9x9(&mut board);
    assert_eq!(cells(&board), SOLVED);
    assert_eq!(masks(&candidates), [[0u16; 9]; 9]);
}

#[test]
fn a_pass_after_convergence_changes_nothing() {
    let mut board: Gameboard<9, 9> = PUZZLE.into();
    let rules = build_9x9_rules();
    let mut candidates = Candidates::<9, 9>::default();
    solve(&rules, &mut board, &mut candidates);
    let grid = cells(&board);
    let held = masks(&candidates);
    assert_eq!(run_pass(&rules, &mut board, &mut candidates), LoopState::Converged);
    assert_eq!(cells(&board), grid);
    assert_eq!(masks(&candidates), held);
}

#[test]
fn no_pass_gives_a_cell_a_candidate() {
    let mut board: Gameboard<9, 9> = PUZZLE.into();
    let rules = build_9x9_rules();
    let mut candidates = Candidates::<9, 9>::default();
    loop {
        let before = masks(&candidates);
        let state = run_pass(&rules, &mut board, &mut candidates);
        let after = masks(&candidates);
        for x in 0..9 {
            for y in 0..9 {
                assert_eq!(after[x][y] & !before[x][y], 0);
                assert!(after[x][y].count_ones() <= before[x][y].count_ones());
            }
        }
        if state == LoopState::Converged {
            break;
        }
    }
}

#[test]
fn solved_cells_have_no_candidates_after_a_pass() {
    let mut board: Gameboard<9, 9> = PUZZLE.into();
    let rules = build_9x9_rules();
    let mut candidates = Candidates::<9, 9>::default();
    run_pass(&rules, &mut board, &mut candidates);
    for x in 0..9 {
        for y in 0..9 {
            if PUZZLE[x][y] != 0 {
                assert_eq!(candidates.remaining_candidates(x, y), 0);
            }
        }
    }
}

#[test]
fn first_pass_resolves_the_cells_with_one_candidate() {
    let mut board: Gameboard<9, 9> = PUZZLE.into();
    let rules = build_9x9_rules();
    let mut candidates = Candidates::<9, 9>::default();
    assert_eq!(run_pass(&rules, &mut board, &mut candidates), LoopState::Running);
    for x in 0..9 {
        for y in 0..9 {
            let mask = candidates.mask(x, y);
            if mask.count_ones() == 1 {
                assert_eq!(1u16 << (board.cell(x, y) - 1), mask);
            } else {
                assert_eq!(board.cell(x, y), PUZZLE[x][y]);
            }
        }
    }
}

#[test]
fn solve_without_rules_resolves_what_the_candidates_say() {
    let rules: Vec<Rule> = Vec::new();
    let mut board: Gameboard<1, 2> = [[0, 0]].into();
    let mut candidates = Candidates::<1, 2>::default();
    candidates.set_exclusive_candidate(0, 1, 4);
    solve(&rules, &mut board, &mut candidates);
    assert_eq!(board.cell(0, 0), 0);
    assert_eq!(board.cell(0, 1), 4);
    assert_eq!(candidates.mask(0, 1), 8);
}
