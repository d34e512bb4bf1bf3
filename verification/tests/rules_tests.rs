use std::rc::Rc;
use sudoku_solver::board::Gameboard;
use sudoku_solver::candidates::Candidates;
use sudoku_solver::exclude_when_solved::ExcludeWhenSolved;
use sudoku_solver::fill_region_uniquely::FillRegionUniquely;
use sudoku_solver::region::{build_9x9_regions, Region};
use sudoku_solver::rules::{build_9x9_rules, Rule};
use sudoku_solver::unique_by_region::UniqueByRegion;

fn row_of_four() -> Rc<Region> {
    Rc::new(Region::new(vec![(0, 0), (0, 1), (0, 2), (0, 3)]))
}

#[test]
fn exclude_when_solved_clears_solved_cells_only() {
    let board: Gameboard<2, 2> = [[3, 0], [0, 9]].into();
    let mut candidates = Candidates::<2, 2>::default();
    ExcludeWhenSolved.visit(&board, &mut candidates);
    assert_eq!(candidates.mask(0, 0), 0);
    assert_eq!(candidates.mask(0, 1), 511);
    assert_eq!(candidates.mask(1, 0), 511);
    assert_eq!(candidates.mask(1, 1), 0);
    assert_eq!(candidates.remaining_candidates(0, 0), 0);
    assert_eq!(candidates.remaining_candidates(1, 1), 0);
}

#[test]
fn unique_by_region_takes_solved_values_from_the_peers() {
    let board: Gameboard<1, 4> = [[2, 0, 9, 0]].into();
    let mut candidates = Candidates::<1, 4>::default();
    UniqueByRegion(row_of_four()).visit(&board, &mut candidates);
    // the solved cells lose the value of the other solved cell, not their own
    assert_eq!(candidates.mask(0, 0), 511 - 256);
    assert_eq!(candidates.mask(0, 2), 511 - 2);
    // the unknown cells lose both
    assert_eq!(candidates.mask(0, 1), 511 - 2 - 256);
    assert_eq!(candidates.mask(0, 3), 511 - 2 - 256);
}

#[test]
fn unique_by_region_leaves_cells_outside_the_region() {
    let board: Gameboard<2, 2> = [[4, 0], [0, 0]].into();
    let mut candidates = Candidates::<2, 2>::default();
    let region = Rc::new(Region::new(vec![(0, 0), (0, 1)]));
    UniqueByRegion(region).visit(&board, &mut candidates);
    assert_eq!(candidates.mask(0, 0), 511);
    assert_eq!(candidates.mask(0, 1), 511 - 8);
    assert_eq!(candidates.mask(1, 0), 511);
    assert_eq!(candidates.mask(1, 1), 511);
}

#[test]
fn unique_by_region_does_nothing_without_solved_cells() {
    let board: Gameboard<1, 4> = [[0, 0, 0, 0]].into();
    let mut candidates = Candidates::<1, 4>::default();
    UniqueByRegion(row_of_four()).visit(&board, &mut candidates);
    for y in 0..4 {
        assert_eq!(candidates.mask(0, y), 511);
    }
}

#[test]
fn unique_by_region_twice_is_the_same_as_once() {
    let board: Gameboard<1, 4> = [[2, 0, 9, 0]].into();
    let mut candidates = Candidates::<1, 4>::default();
    let rule = UniqueByRegion(row_of_four());
    rule.visit(&board, &mut candidates);
    let once: Vec<u16> = (0..4).map(|y| candidates.mask(0, y)).collect();
    rule.visit(&board, &mut candidates);
    let twice: Vec<u16> = (0..4).map(|y| candidates.mask(0, y)).collect();
    assert_eq!(once, twice);
}

#[test]
fn fill_region_uniquely_finds_a_hidden_single() {
    let board: Gameboard<1, 4> = [[0, 0, 0, 0]].into();
    let mut candidates = Candidates::<1, 4>::default();
    // only the cell at column 2 can still hold 5
    candidates.exclude_candidate(0, 0, 5);
    candidates.exclude_candidate(0, 1, 5);
    candidates.exclude_candidate(0, 3, 5);
    FillRegionUniquely(row_of_four()).visit(&board, &mut candidates);
    assert_eq!(candidates.mask(0, 2), 16);
    assert_eq!(candidates.remaining_candidates(0, 2), 1);
    assert_eq!(candidates.mask(0, 0), 511 - 16);
    assert_eq!(candidates.mask(0, 1), 511 - 16);
    assert_eq!(candidates.mask(0, 3), 511 - 16);
}

#[test]
fn fill_region_uniquely_skips_values_with_several_holders() {
    let board: Gameboard<1, 4> = [[0, 0, 0, 0]].into();
    let mut candidates = Candidates::<1, 4>::default();
    candidates.exclude_candidate(0, 0, 5);
    candidates.exclude_candidate(0, 1, 5);
    FillRegionUniquely(row_of_four()).visit(&board, &mut candidates);
    assert_eq!(candidates.mask(0, 0), 511 - 16);
    assert_eq!(candidates.mask(0, 1), 511 - 16);
    assert_eq!(candidates.mask(0, 2), 511);
    assert_eq!(candidates.mask(0, 3), 511);
}

#[test]
fn fill_region_uniquely_skips_values_without_a_holder() {
    let board: Gameboard<1, 4> = [[0, 0, 0, 0]].into();
    let mut candidates = Candidates::<1, 4>::default();
    for y in 0..4 {
        candidates.exclude_candidate(0, y, 7);
    }
    FillRegionUniquely(row_of_four()).visit(&board, &mut candidates);
    for y in 0..4 {
        assert_eq!(candidates.mask(0, y), 511 - 64);
    }
}

#[test]
fn fill_region_uniquely_takes_the_values_in_turn() {
    let board: Gameboard<1, 2> = [[0, 0]].into();
    let mut candidates = Candidates::<1, 2>::default();
    let region = Rc::new(Region::new(vec![(0, 0), (0, 1)]));
    // 1 can only stand at column 0; once it stands there, 2..9 can only stand at column 1,
    // and 2 is the first of them to be filled in
    candidates.exclude_candidate(0, 1, 1);
    FillRegionUniquely(region).visit(&board, &mut candidates);
    assert_eq!(candidates.mask(0, 0), 1);
    assert_eq!(candidates.mask(0, 1), 2);
}

#[test]
fn fill_region_uniquely_counts_a_repeated_position_twice() {
    let board: Gameboard<1, 2> = [[0, 0]].into();
    let mut candidates = Candidates::<1, 2>::default();
    let region = Rc::new(Region::new(vec![(0, 0), (0, 0)]));
    FillRegionUniquely(region).visit(&board, &mut candidates);
    assert_eq!(candidates.mask(0, 0), 511);
    assert_eq!(candidates.mask(0, 1), 511);
}

#[test]
fn rule_dispatches_to_its_kind() {
    let board: Gameboard<1, 4> = [[2, 0, 9, 0]].into();

    let mut candidates = Candidates::<1, 4>::default();
    Rule::ExcludeWhenSolved(ExcludeWhenSolved).visit(&board, &mut candidates);
    assert_eq!(
        (0..4).map(|y| candidates.mask(0, y)).collect::<Vec<u16>>(),
        vec![0, 511, 0, 511]
    );

    let mut candidates = Candidates::<1, 4>::default();
    Rule::UniqueByRegion(UniqueByRegion(row_of_four())).visit(&board, &mut candidates);
    assert_eq!(
        (0..4).map(|y| candidates.mask(0, y)).collect::<Vec<u16>>(),
        vec![255, 253, 509, 253]
    );

    let mut candidates = Candidates::<1, 4>::default();
    candidates.exclude_candidate(0, 0, 3);
    candidates.exclude_candidate(0, 1, 3);
    candidates.exclude_candidate(0, 2, 3);
    Rule::FillRegionUniquely(FillRegionUniquely(row_of_four())).visit(&board, &mut candidates);
    assert_eq!(
        (0..4).map(|y| candidates.mask(0, y)).collect::<Vec<u16>>(),
        vec![507, 507, 507, 4]
    );
}

#[test]
fn the_9x9_rule_set_has_55_rules_in_phase_order() {
    let rules = build_9x9_rules();
    assert_eq!(rules.len(), 55);
    assert!(matches!(rules[0], Rule::ExcludeWhenSolved(_)));
    for k in 1..28 {
        assert!(matches!(rules[k], Rule::UniqueByRegion(_)));
    }
    for k in 28..55 {
        assert!(matches!(rules[k], Rule::FillRegionUniquely(_)));
    }
}

#[test]
fn the_9x9_rules_watch_over_the_27_regions() {
    let rules = build_9x9_rules();
    let regions = build_9x9_regions();
    for k in 0..27 {
        let unique = match &rules[1 + k] {
            Rule::UniqueByRegion(rule) => rule.0.clone(),
            _ => panic!("rule {} is of another kind", 1 + k),
        };
        let fill = match &rules[28 + k] {
            Rule::FillRegionUniquely(rule) => rule.0.clone(),
            _ => panic!("rule {} is of another kind", 28 + k),
        };
        assert_eq!(unique.len(), 9);
        assert_eq!(fill.len(), 9);
        for i in 0..9 {
            assert_eq!(unique.position(i), regions[k][i]);
            assert_eq!(fill.position(i), regions[k][i]);
        }
    }
}

#[test]
fn both_rules_of_a_region_share_its_positions() {
    let rules = build_9x9_rules();
    for k in 0..27 {
        match (&rules[1 + k], &rules[28 + k]) {
            (Rule::UniqueByRegion(unique), Rule::FillRegionUniquely(fill)) => {
                assert!(Rc::ptr_eq(&unique.0, &fill.0));
            },
            _ => panic!("rules {} and {} are of other kinds", 1 + k, 28 + k),
        }
    }
}
