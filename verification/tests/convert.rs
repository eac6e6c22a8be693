use nonomaker_core::convert::{cells_to_grid, neighbors_4, remove_noise};
use nonomaker_core::Cell;

#[test]
fn remove_noise_removes_small_component() {
    let cells = vec![
        vec![true, false, false],
        vec![false, true, true],
        vec![false, false, false],
    ];

    let cleaned = remove_noise(cells, 3, 3, 2);
    assert!(!cleaned[0][0]);
    assert!(cleaned[1][1]);
    assert!(cleaned[1][2]);
}

#[test]
fn remove_noise_keeps_everything_below_size_one() {
    let cells = vec![vec![true, false], vec![false, true]];
    let cleaned = remove_noise(cells.clone(), 2, 2, 1);
    assert_eq!(cleaned, cells);
}

#[test]
fn remove_noise_joins_side_by_side_cells_only() {
    let cells = vec![vec![true, false], vec![false, true]];
    let cleaned = remove_noise(cells, 2, 2, 2);
    assert_eq!(cleaned, vec![vec![false, false], vec![false, false]]);
}

#[test]
fn neighbors_in_order() {
    assert_eq!(neighbors_4(1, 1, 3, 3), vec![(0, 1), (2, 1), (1, 0), (1, 2)]);
    assert_eq!(neighbors_4(0, 0, 3, 3), vec![(1, 0), (0, 1)]);
    assert_eq!(neighbors_4(0, 0, 1, 1), vec![]);
}

#[test]
fn cells_to_grid_maps_values() {
    let grid = cells_to_grid(&vec![vec![true, false]], 2, 1);
    assert_eq!(grid.cell(0, 0), &Cell::Filled);
    assert_eq!(grid.cell(0, 1), &Cell::Blank);
}

#[test]
fn cells_to_grid_leaves_missing_cells_unknown() {
    let grid = cells_to_grid(&vec![vec![true]], 2, 2);
    assert_eq!(*grid.cell(0, 0), Cell::Filled);
    assert_eq!(*grid.cell(0, 1), Cell::Unknown);
    assert_eq!(*grid.cell(1, 0), Cell::Unknown);
    assert_eq!(*grid.cell(1, 1), Cell::Unknown);
}

#[test]
fn neighbors_4_lists_above_below_left_right() {
    assert_eq!(neighbors_4(1, 1, 3, 3), vec![(0, 1), (2, 1), (1, 0), (1, 2)]);
    assert_eq!(neighbors_4(0, 0, 2, 2), vec![(1, 0), (0, 1)]);
}
