use nonomaker_core::codec::{grid_from_payload, grid_payload};
use nonomaker_core::{grid_to_id, grid_to_puzzle, id_to_grid, Cell, CodecError, Grid};

fn sample_grid() -> Grid {
    let mut grid = Grid::new(3, 2);
    grid.set_cell(0, 0, Cell::Filled);
    grid.set_cell(0, 1, Cell::Blank);
    grid.set_cell(0, 2, Cell::Filled);
    grid.set_cell(1, 0, Cell::Blank);
    grid.set_cell(1, 1, Cell::Filled);
    grid.set_cell(1, 2, Cell::Blank);
    grid
}

#[test]
fn grid_to_puzzle_computes_clues() {
    let puzzle = grid_to_puzzle(&sample_grid()).unwrap();
    assert_eq!(puzzle.row_clues()[0].blocks(), &[1, 1]);
    assert_eq!(puzzle.row_clues()[1].blocks(), &[1]);
    assert_eq!(puzzle.col_clues()[0].blocks(), &[1]);
    assert_eq!(puzzle.col_clues()[1].blocks(), &[1]);
    assert_eq!(puzzle.col_clues()[2].blocks(), &[1]);
}

#[test]
fn grid_id_roundtrip() {
    let grid = sample_grid();
    let id = grid_to_id(&grid).unwrap();
    let decoded = id_to_grid(&id).unwrap();
    assert_eq!(decoded.width(), grid.width());
    assert_eq!(decoded.height(), grid.height());
    for row in 0..grid.height() {
        for col in 0..grid.width() {
            assert_eq!(decoded.cell(row, col), grid.cell(row, col));
        }
    }
}

#[test]
fn grid_to_puzzle_rejects_unsolved_grid() {
    let grid = Grid::new(2, 2);
    assert!(matches!(grid_to_puzzle(&grid), Err(CodecError::InvalidGrid(_))));
}

#[test]
fn payload_layout() {
    let payload = grid_payload(&sample_grid()).unwrap();
    assert_eq!(payload, vec![3, b'1', b'0', b'1', b'0', b'1', b'0']);
    let grid = grid_from_payload(&payload).unwrap();
    assert_eq!(grid, sample_grid());
}

#[test]
fn payload_errors() {
    assert!(matches!(grid_from_payload(&[]), Err(CodecError::InvalidId(_))));
    assert!(matches!(grid_from_payload(&[0, b'1']), Err(CodecError::InvalidId(_))));
    assert!(matches!(grid_from_payload(&[2]), Err(CodecError::InvalidId(_))));
    assert!(matches!(grid_from_payload(&[2, b'1', b'0', b'1']), Err(CodecError::InvalidId(_))));
    assert!(matches!(grid_from_payload(&[1, b'1', b'x']), Err(CodecError::InvalidId(_))));
}

#[test]
fn id_errors() {
    assert!(matches!(id_to_grid("@@@"), Err(CodecError::Base64(_))));
    assert!(matches!(id_to_grid("AAAA"), Err(CodecError::Io(_))));
}

#[test]
fn wide_grids_have_no_id() {
    let mut grid = Grid::new(256, 1);
    for col in 0..256 {
        grid.set_cell(0, col, Cell::Blank);
    }
    assert!(matches!(grid_to_id(&grid), Err(CodecError::InvalidGrid(_))));
}

#[test]
fn error_messages() {
    let id_msg = |r: Result<Grid, CodecError>| match r {
        Err(CodecError::InvalidId(m)) => m,
        _ => panic!("expected an invalid id"),
    };
    assert_eq!(id_msg(grid_from_payload(&[])), "missing width byte");
    assert_eq!(id_msg(grid_from_payload(&[0, b'1'])), "width must be positive");
    assert_eq!(id_msg(grid_from_payload(&[2])), "missing cell payload");
    assert_eq!(id_msg(grid_from_payload(&[2, b'1', b'0', b'1'])), "payload bit length is incompatible with width");
    assert_eq!(id_msg(grid_from_payload(&[1, b'1', b'x'])), "payload contains non-binary data");
    match grid_to_puzzle(&Grid::new(2, 2)) {
        Err(CodecError::InvalidGrid(m)) => assert_eq!(m, "grid contains unknown cells"),
        _ => panic!("expected an invalid grid"),
    }
    match grid_to_puzzle(&Grid::new(0, 0)) {
        Err(CodecError::InvalidGrid(m)) => assert_eq!(m, "grid dimensions must be positive"),
        _ => panic!("expected an invalid grid"),
    }
}
