use nonomaker_core::solver::line_solver::bits::LineBits;
use nonomaker_core::solver::line_solver::earliest_latest::{
    compute_earliest, compute_latest, earliest_latest_inference, overlap_inference,
    white_inference,
};
use nonomaker_core::{Cell, Grid};

fn make_line(pattern: &str) -> LineBits {
    let n = pattern.len();
    let mut grid = Grid::new(n, 1);
    for (i, c) in pattern.chars().enumerate() {
        let value = match c {
            'F' => Cell::Filled,
            'B' => Cell::Blank,
            _ => Cell::Unknown,
        };
        grid.set_cell(0, i, value);
    }
    LineBits::from_grid_row(&grid, 0)
}

fn line_to_str(line: &LineBits) -> String {
    line.cells()
        .iter()
        .map(|c| match c {
            Cell::Unknown => '?',
            Cell::Filled => 'F',
            Cell::Blank => 'B',
        })
        .collect()
}

#[test]
fn earliest_all_unknown() {
    let line = make_line("?????");
    let earliest = compute_earliest(&line, &[2, 2]).unwrap();
    assert_eq!(earliest, vec![0, 3]);
}

#[test]
fn earliest_with_leading_blank() {
    let line = make_line("B????");
    let earliest = compute_earliest(&line, &[2]).unwrap();
    assert_eq!(earliest, vec![1]);
}

#[test]
fn earliest_contradiction_filled_blocks_path() {
    let line = make_line("FBF");
    assert!(compute_earliest(&line, &[2]).is_err());
}

#[test]
fn latest_all_unknown() {
    let line = make_line("??????");
    let latest = compute_latest(&line, &[2, 2]).unwrap();
    assert_eq!(latest, vec![1, 4]);
}

#[test]
fn latest_with_trailing_blank() {
    let line = make_line("????B");
    let latest = compute_latest(&line, &[2]).unwrap();
    assert_eq!(latest, vec![2]);
}

#[test]
fn overlap_single_block_has_overlap() {
    let mut line = make_line("?????");
    let earliest = vec![0];
    let latest = vec![1];
    let changed = overlap_inference(&mut line, &earliest, &latest, &[4]);
    assert_eq!(line.cell(1), Cell::Filled);
    assert_eq!(line.cell(2), Cell::Filled);
    assert_eq!(line.cell(3), Cell::Filled);
    assert!(changed.contains(&1) && changed.contains(&2) && changed.contains(&3));
}

#[test]
fn overlap_single_block_no_overlap_when_slack_equals_block_size() {
    let mut line = make_line("????");
    let earliest = vec![0];
    let latest = vec![2];
    let changed = overlap_inference(&mut line, &earliest, &latest, &[2]);
    assert!(changed.is_empty(), "no overlap, so nothing changes");
    assert_eq!(line_to_str(&line), "????");
}

#[test]
fn overlap_two_blocks() {
    let mut line = make_line("?????");
    let earliest = vec![0, 3];
    let latest = vec![0, 3];
    overlap_inference(&mut line, &earliest, &latest, &[2, 2]);
    assert_eq!(line.cell(0), Cell::Filled);
    assert_eq!(line.cell(1), Cell::Filled);
    assert_eq!(line.cell(3), Cell::Filled);
    assert_eq!(line.cell(4), Cell::Filled);
    assert_eq!(line.cell(2), Cell::Unknown);
}

#[test]
fn white_inference_blanks_before_first_block() {
    let mut line = make_line("?????");
    let earliest = vec![2];
    let latest = vec![3];
    white_inference(&mut line, &earliest, &latest, &[2]);
    assert_eq!(line.cell(0), Cell::Blank);
    assert_eq!(line.cell(1), Cell::Blank);
}

#[test]
fn white_inference_blanks_after_last_block() {
    let mut line = make_line("?????");
    let earliest = vec![0];
    let latest = vec![1];
    white_inference(&mut line, &earliest, &latest, &[2]);
    assert_eq!(line.cell(3), Cell::Blank);
    assert_eq!(line.cell(4), Cell::Blank);
}

#[test]
fn white_inference_gap_between_blocks_must_use_latest_not_earliest() {
    let mut line = make_line("??????");
    let earliest = vec![0, 3];
    let latest = vec![1, 4];
    white_inference(&mut line, &earliest, &latest, &[2, 2]);
    assert_ne!(line.cell(2), Cell::Blank, "cell 2 is filled when block 0 starts at 1");
    assert_ne!(line.cell(3), Cell::Blank, "cell 3 is filled when block 1 starts at 3");
}

#[test]
fn white_inference_gap_is_blank_when_no_slack() {
    let mut line = make_line("?????");
    let earliest = vec![0, 3];
    let latest = vec![0, 3];
    white_inference(&mut line, &earliest, &latest, &[2, 2]);
    assert_eq!(line.cell(2), Cell::Blank, "the only placement leaves cell 2 blank");
}

#[test]
fn inference_single_block_no_slack() {
    let mut line = make_line("?????");
    earliest_latest_inference(&mut line, &[5]).unwrap();
    assert_eq!(line_to_str(&line), "FFFFF");
}

#[test]
fn inference_single_block_with_slack() {
    let mut line = make_line("?????");
    earliest_latest_inference(&mut line, &[4]).unwrap();
    assert_eq!(line.cell(1), Cell::Filled);
    assert_eq!(line.cell(2), Cell::Filled);
    assert_eq!(line.cell(3), Cell::Filled);
    assert_eq!(line.cell(0), Cell::Unknown);
    assert_eq!(line.cell(4), Cell::Unknown);
}

#[test]
fn latest_contradiction_when_blocks_do_not_fit() {
    let line = make_line("???");
    assert!(compute_latest(&line, &[2, 2]).is_err());
}
