use nonomaker_core::cli::{
    compute_clue, grid_clues, linear_solve_json, validate_grid, validate_grid_size, validate_noise_removal, CliError,
};
use nonomaker_core::{Cell, Grid};

#[test]
fn compute_clue_empty_line() {
    assert_eq!(compute_clue(&[]), Vec::<usize>::new());
}

#[test]
fn compute_clue_all_blank() {
    assert_eq!(compute_clue(&[false, false, false]), Vec::<usize>::new());
}

#[test]
fn compute_clue_single_block() {
    assert_eq!(compute_clue(&[true, true, true]), vec![3]);
}

#[test]
fn compute_clue_multiple_blocks() {
    assert_eq!(
        compute_clue(&[true, false, true, true, false, true]),
        vec![1, 2, 1]
    );
}

#[test]
fn validate_grid_errors() {
    assert!(matches!(validate_grid(&[]), Err(CliError::Parse(_))));
    assert!(matches!(validate_grid(&[vec![]]), Err(CliError::Parse(_))));
    assert!(matches!(
        validate_grid(&[vec![true], vec![true, false]]),
        Err(CliError::Parse(_))
    ));
    assert_eq!(validate_grid(&[vec![true, false], vec![false, false]]).unwrap(), 2);
}

#[test]
fn grid_clues_rows_and_columns() {
    let grid = vec![vec![true, true, false], vec![false, true, true]];
    let (rows, cols) = grid_clues(&grid, 3);
    assert_eq!(rows, vec![vec![2], vec![2]]);
    assert_eq!(cols, vec![vec![1], vec![2], vec![1]]);
}

#[test]
fn validate_grid_messages() {
    let msg = |r: Result<usize, CliError>| match r {
        Err(CliError::Parse(m)) => m,
        _ => panic!("expected a parse error"),
    };
    assert_eq!(msg(validate_grid(&[])), "grid must not be empty");
    assert_eq!(msg(validate_grid(&[vec![]])), "grid rows must not be empty");
    assert_eq!(msg(validate_grid(&[vec![true], vec![true, false]])), "all rows must have the same length");
}

#[test]
fn linear_solve_json_writes_status_and_grid() {
    assert_eq!(linear_solve_json(None), r#"{"status":"contradiction"}"#);
    let mut grid = Grid::new(2, 1);
    grid.set_cell(0, 0, Cell::Filled);
    assert_eq!(linear_solve_json(Some(grid)), r#"{"status":"ok","grid":[[true,null]]}"#);
}

#[test]
fn convert_size_checks_name_the_argument() {
    assert!(validate_grid_size(5, 50).is_ok());
    match validate_grid_size(4, 60) {
        Err(CliError::Validation(m)) => assert_eq!(m, "grid_width must be between 5 and 50, got 4"),
        _ => panic!("expected a validation error"),
    }
    match validate_grid_size(20, 51) {
        Err(CliError::Validation(m)) => assert_eq!(m, "grid_height must be between 5 and 50, got 51"),
        _ => panic!("expected a validation error"),
    }
    assert!(validate_noise_removal(20).is_ok());
    match validate_noise_removal(21) {
        Err(CliError::Validation(m)) => assert_eq!(m, "noise_removal must be between 0 and 20, got 21"),
        _ => panic!("expected a validation error"),
    }
}
