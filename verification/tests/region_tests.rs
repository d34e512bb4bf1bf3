use sudoku_solver::region::{build_9x9_regions, Region};

#[test]
fn region_keeps_its_positions_in_order() {
    let region = Region::new(vec![(2, 3), (0, 1), (8, 8)]);
    assert_eq!(region.len(), 3);
    assert_eq!(region.position(0), (2, 3));
    assert_eq!(region.position(1), (0, 1));
    assert_eq!(region.position(2), (8, 8));
}

#[test]
fn empty_region_has_no_positions() {
    let region = Region::new(vec![]);
    assert_eq!(region.len(), 0);
}

#[test]
fn clone_of_a_region_has_the_same_positions() {
    let region = Region::new(vec![(1, 2), (3, 4)]);
    let copy = region.clone();
    assert_eq!(copy.len(), 2);
    assert_eq!(copy.position(0), (1, 2));
    assert_eq!(copy.position(1), (3, 4));
}

#[test]
fn there_are_27_regions_of_9_cells() {
    let regions = build_9x9_regions();
    assert_eq!(regions.len(), 27);
    for region in &regions {
        assert_eq!(region.len(), 9);
    }
}

#[test]
fn rows_come_first() {
    let regions = build_9x9_regions();
    for x in 0..9 {
        let expected: Vec<(usize, usize)> = (0..9).map(|y| (x, y)).collect();
        assert_eq!(regions[x], expected);
    }
}

#[test]
fn columns_come_second() {
    let regions = build_9x9_regions();
    for y in 0..9 {
        let expected: Vec<(usize, usize)> = (0..9).map(|x| (x, y)).collect();
        assert_eq!(regions[9 + y], expected);
    }
}

#[test]
fn boxes_come_last() {
    let regions = build_9x9_regions();
    assert_eq!(
        regions[18],
        vec![(0, 0), (0, 1), (0, 2), (1, 0), (1, 1), (1, 2), (2, 0), (2, 1), (2, 2)]
    );
    assert_eq!(
        regions[19],
        vec![(0, 3), (0, 4), (0, 5), (1, 3), (1, 4), (1, 5), (2, 3), (2, 4), (2, 5)]
    );
    assert_eq!(
        regions[21],
        vec![(3, 0), (3, 1), (3, 2), (4, 0), (4, 1), (4, 2), (5, 0), (5, 1), (5, 2)]
    );
    assert_eq!(
        regions[26],
        vec![(6, 6), (6, 7), (6, 8), (7, 6), (7, 7), (7, 8), (8, 6), (8, 7), (8, 8)]
    );
}

#[test]
fn every_cell_lies_in_one_row_one_column_and_one_box() {
    let regions = build_9x9_regions();
    for x in 0..9 {
        for y in 0..9 {
            let rows = regions[0..9].iter().filter(|r| r.contains(&(x, y))).count();
            let columns = regions[9..18].iter().filter(|r| r.contains(&(x, y))).count();
            let boxes = regions[18..27].iter().filter(|r| r.contains(&(x, y))).count();
            assert_eq!((rows, columns, boxes), (1, 1, 1));
        }
    }
}
