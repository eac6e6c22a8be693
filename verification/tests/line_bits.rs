use nonomaker_core::solver::line_solver::bits::LineBits;
use nonomaker_core::{Cell, Grid};

fn make_line(pattern: &str) -> LineBits {
    let n = pattern.len();
    let mut grid = Grid::new(n, 1);
    for (i, c) in pattern.chars().enumerate() {
        let value = match c {
            'F' => Cell::Filled,
            'B' => Cell::Blank,
            '?' => Cell::Unknown,
            other => panic!("bad pattern character: {other}"),
        };
        grid.set_cell(0, i, value);
    }
    LineBits::from_grid_row(&grid, 0)
}

fn line_to_str(line: &LineBits) -> String {
    line.cells()
        .iter()
        .map(|c| match c {
            Cell::Unknown => '?',
            Cell::Filled => 'F',
            Cell::Blank => 'B',
        })
        .collect()
}

#[test]
fn cell_reads_correct_state() {
    let line = make_line("F?B");
    assert_eq!(line.cell(0), Cell::Filled);
    assert_eq!(line.cell(1), Cell::Unknown);
    assert_eq!(line.cell(2), Cell::Blank);
}

#[test]
fn count_cells_all_unknown() {
    let line = make_line("???");
    assert_eq!(line.count_cells(Cell::Unknown), 3);
    assert_eq!(line.count_cells(Cell::Filled), 0);
    assert_eq!(line.count_cells(Cell::Blank), 0);
}

#[test]
fn count_cells_mixed() {
    let line = make_line("F?B");
    assert_eq!(line.count_cells(Cell::Unknown), 1);
    assert_eq!(line.count_cells(Cell::Filled), 1);
    assert_eq!(line.count_cells(Cell::Blank), 1);
}

#[test]
fn cells_iterator_order() {
    assert_eq!(line_to_str(&make_line("FB?")), "FB?");
    assert_eq!(line_to_str(&make_line("?BF")), "?BF");
}

#[test]
fn is_solved_when_all_determined() {
    assert!(make_line("FFB").is_solved());
    assert!(make_line("F").is_solved());
    assert!(make_line("B").is_solved());
}

#[test]
fn is_not_solved_when_unknown_remains() {
    assert!(!make_line("F?B").is_solved());
    assert!(!make_line("???").is_solved());
}

#[test]
fn no_contradiction_in_normal_states() {
    assert!(!make_line("???").has_contradiction());
    assert!(!make_line("FFB").has_contradiction());
}

#[test]
fn set_cells_unknown_to_filled() {
    let mut line = make_line("???");
    line.set_cells(&[0, 2], Cell::Filled);
    assert_eq!(line.cell(0), Cell::Filled);
    assert_eq!(line.cell(1), Cell::Unknown);
    assert_eq!(line.cell(2), Cell::Filled);
}

#[test]
fn set_cells_unknown_to_blank() {
    let mut line = make_line("???");
    line.set_cells(&[1], Cell::Blank);
    assert_eq!(line.cell(1), Cell::Blank);
}

#[test]
fn can_place_block_fits_exactly() {
    let line = make_line("???");
    assert!(line.can_place_block(0, 3));
}

#[test]
fn can_place_block_out_of_bounds() {
    let line = make_line("???");
    assert!(!line.can_place_block(2, 2));
}

#[test]
fn can_place_block_blocked_by_blank_in_range() {
    let line = make_line("?B?");
    assert!(!line.can_place_block(0, 2));
    assert!(!line.can_place_block(0, 3));
    assert!(line.can_place_block(2, 1));
}

#[test]
fn can_place_block_blocked_by_filled_on_right() {
    let line = make_line("??F");
    assert!(!line.can_place_block(0, 2));
    assert!(line.can_place_block(0, 3));
}

#[test]
fn can_place_block_blocked_by_filled_on_left() {
    let line = make_line("F??");
    assert!(!line.can_place_block(1, 2));
    assert!(line.can_place_block(0, 2));
}

#[test]
fn can_place_block_at_end_no_right_check() {
    let line = make_line("???");
    assert!(line.can_place_block(1, 2));
}

#[test]
fn can_place_block_size_one() {
    let line = make_line("?B?");
    assert!(line.can_place_block(0, 1));
    assert!(!line.can_place_block(1, 1));
    assert!(line.can_place_block(2, 1));
}

#[test]
fn from_grid_col_reads_a_column() {
    let mut grid = Grid::new(2, 3);
    grid.set_cell(0, 1, Cell::Filled);
    grid.set_cell(1, 1, Cell::Blank);
    let line = LineBits::from_grid_col(&grid, 1);
    assert_eq!(line.len(), 3);
    assert_eq!(line_to_str(&line), "FB?");
}

#[test]
fn contradiction_after_setting_both_ways() {
    let mut line = make_line("?");
    line.set_cells(&[0], Cell::Filled);
    assert!(!line.has_contradiction());
    assert!(line.is_solved());
}
