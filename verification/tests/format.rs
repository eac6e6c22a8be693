use nonomaker_core::format::{
    grid_from_json, grid_to_json, partial_grid_to_json, puzzle_from_json_type, puzzle_to_json,
    solution_from_json_type, solution_to_json, FormatError, PuzzleJson, SolutionJson,
};
use nonomaker_core::solver::Solution;
use nonomaker_core::{Cell, Clue, Grid, Puzzle};

fn filled_grid_2x2() -> Grid {
    let mut g = Grid::new(2, 2);
    g.set_cell(0, 0, Cell::Filled);
    g.set_cell(0, 1, Cell::Blank);
    g.set_cell(1, 0, Cell::Blank);
    g.set_cell(1, 1, Cell::Filled);
    g
}

#[test]
fn grid_roundtrip() {
    let grid = filled_grid_2x2();
    let s = grid_to_json(&grid).unwrap();
    assert_eq!(s, "[[true,false],[false,true]]");
    let grid2 = grid_from_json(&s).unwrap();
    assert_eq!(grid, grid2);
}

#[test]
fn grid_unknown_cell_errors() {
    let grid = Grid::new(2, 2);
    assert!(matches!(grid_to_json(&grid), Err(FormatError::UnknownCell)));
}

#[test]
fn grid_from_json_errors() {
    assert!(matches!(grid_from_json("[[true],[true,false]]"), Err(FormatError::InvalidGrid(_))));
    assert!(matches!(grid_from_json("not json"), Err(FormatError::Json(_))));
}

#[test]
fn puzzle_to_json_writes_row_then_column_clues() {
    let puzzle = Puzzle::new(
        vec![Clue::new(vec![1, 2]), Clue::new(vec![])],
        vec![Clue::new(vec![3]), Clue::new(vec![1, 1])],
    );
    assert_eq!(
        puzzle_to_json(&puzzle),
        r#"{"row_clues":[[1,2],[]],"col_clues":[[3],[1,1]]}"#
    );
}

#[test]
fn solution_to_json_writes_status_and_grids() {
    assert_eq!(
        solution_to_json(&Solution::NoSolution).unwrap(),
        r#"{"status":"none","grids":[]}"#
    );
    assert_eq!(
        solution_to_json(&Solution::Unique(filled_grid_2x2())).unwrap(),
        r#"{"status":"unique","grids":[[[true,false],[false,true]]]}"#
    );
    assert_eq!(
        solution_to_json(&Solution::Multiple(vec![filled_grid_2x2(), filled_grid_2x2()])).unwrap(),
        r#"{"status":"multiple","grids":[[[true,false],[false,true]],[[true,false],[false,true]]]}"#
    );
}

#[test]
fn solution_to_json_rejects_undecided_cells() {
    let sol = Solution::Multiple(vec![filled_grid_2x2(), Grid::new(2, 2)]);
    assert!(matches!(solution_to_json(&sol), Err(FormatError::UnknownCell)));
}

#[test]
fn partial_grid_to_json_writes_null_for_undecided_cells() {
    let mut g = Grid::new(3, 1);
    g.set_cell(0, 0, Cell::Filled);
    g.set_cell(0, 2, Cell::Blank);
    assert_eq!(partial_grid_to_json(&g), "[[true,null,false]]");
}

#[test]
fn grid_from_json_names_the_first_uneven_row() {
    match grid_from_json("[[true,false],[true,false],[true]]") {
        Err(FormatError::InvalidGrid(m)) => assert_eq!(m, "row 2 has width 1 but expected 2"),
        _ => panic!("expected an invalid grid"),
    }
}

/// Reads the JSON form of a puzzle field by field and builds the puzzle.
fn read_puzzle(s: &str) -> Puzzle {
    let v: serde_json::Value = serde_json::from_str(s).unwrap();
    let row_clues: Vec<Vec<usize>> = serde_json::from_value(v["row_clues"].clone()).unwrap();
    let col_clues: Vec<Vec<usize>> = serde_json::from_value(v["col_clues"].clone()).unwrap();
    puzzle_from_json_type(PuzzleJson { row_clues, col_clues })
}

/// Reads the JSON form of a solution field by field and builds the solution.
fn read_solution(s: &str) -> Result<Solution, FormatError> {
    let v: serde_json::Value = serde_json::from_str(s).unwrap();
    let grids: Vec<Vec<Vec<bool>>> = serde_json::from_value(v["grids"].clone()).unwrap();
    let json = match v["status"].as_str().unwrap() {
        "none" => SolutionJson::NoSolution { grids },
        "unique" => SolutionJson::Unique { grids },
        "multiple" => SolutionJson::Multiple { grids },
        other => panic!("unexpected status {other}"),
    };
    solution_from_json_type(json)
}

#[test]
fn puzzle_roundtrip() {
    let puzzle = Puzzle::new(
        vec![Clue::new(vec![1, 2]), Clue::new(vec![])],
        vec![Clue::new(vec![3]), Clue::new(vec![1, 1])],
    );
    let s = puzzle_to_json(&puzzle);
    let puzzle2 = read_puzzle(&s);
    assert_eq!(puzzle.width(), puzzle2.width());
    assert_eq!(puzzle.height(), puzzle2.height());
    assert_eq!(puzzle.row_clues()[0].blocks(), puzzle2.row_clues()[0].blocks());
    assert_eq!(puzzle.col_clues()[1].blocks(), puzzle2.col_clues()[1].blocks());
}

#[test]
fn solution_none_roundtrip() {
    let s = solution_to_json(&Solution::NoSolution).unwrap();
    assert_eq!(s, r#"{"status":"none","grids":[]}"#);
    assert!(matches!(read_solution(&s).unwrap(), Solution::NoSolution));
}

#[test]
fn solution_unique_roundtrip() {
    let sol = Solution::Unique(filled_grid_2x2());
    let s = solution_to_json(&sol).unwrap();
    let sol2 = read_solution(&s).unwrap();
    assert!(matches!(sol2, Solution::Unique(_)));
    if let Solution::Unique(g) = sol2 {
        assert_eq!(g, filled_grid_2x2());
    }
}

#[test]
fn solution_multiple_roundtrip() {
    let sol = Solution::Multiple(vec![filled_grid_2x2(), filled_grid_2x2()]);
    let s = solution_to_json(&sol).unwrap();
    let sol2 = read_solution(&s).unwrap();
    assert!(matches!(sol2, Solution::Multiple(ref v) if v.len() == 2));
}

#[test]
fn solution_from_json_type_names_the_bad_grid() {
    let r = solution_from_json_type(SolutionJson::Unique { grids: vec![] });
    assert!(matches!(r, Err(FormatError::InvalidGrid(ref m)) if m == "unique solution has no grid"));
    let good = vec![vec![true, false], vec![false, true]];
    let bad = vec![vec![true, false], vec![true]];
    let r = solution_from_json_type(SolutionJson::Multiple { grids: vec![good.clone(), bad.clone(), bad] });
    assert!(matches!(r, Err(FormatError::InvalidGrid(ref m)) if m == "row 1 has width 1 but expected 2"));
    // a unique solution reads its first grid only
    let r = solution_from_json_type(SolutionJson::Unique { grids: vec![good.clone(), vec![vec![true], vec![]]] });
    assert!(matches!(r, Ok(Solution::Unique(ref g)) if *g == filled_grid_2x2()));
    // a list of one grid stays a list
    let r = solution_from_json_type(SolutionJson::Multiple { grids: vec![good] });
    assert!(matches!(r, Ok(Solution::Multiple(ref v)) if v.len() == 1));
}

#[test]
fn grid_from_json_writes_numbers_in_decimal() {
    let text = format!("[{},{}]", serde_json::to_string(&vec![true; 12]).unwrap(), "[true,false,true]");
    match grid_from_json(&text) {
        Err(FormatError::InvalidGrid(m)) => assert_eq!(m, "row 1 has width 3 but expected 12"),
        _ => panic!("expected an invalid grid"),
    }
}
