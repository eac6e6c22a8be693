use nonomaker_core::solver::line_solver::bits::LineBits;
use nonomaker_core::solver::line_solver::dp::dp_solve;
use nonomaker_core::solver::line_solver::solve_line;
use nonomaker_core::solver::propagation::reduce;
use nonomaker_core::solver::{
    BacktrackingSolver, CompleteSolver, Fp1Solver, Fp2Solver, PartialSolver, PropagationSolver,
    SatSolver, Solution,
};
use nonomaker_core::{Cell, Clue, Grid, Puzzle};

fn clues(v: &[&[usize]]) -> Vec<Clue> {
    v.iter().map(|b| Clue::new(b.to_vec())).collect()
}

fn row_str(grid: &Grid, row: usize) -> String {
    (0..grid.width())
        .map(|col| match grid.cell(row, col) {
            Cell::Unknown => '?',
            Cell::Filled => 'F',
            Cell::Blank => 'B',
        })
        .collect()
}

#[test]
fn sat_solver_finds_unique_solution() {
    let puzzle = Puzzle::new(
        vec![Clue::new(vec![2]), Clue::new(vec![])],
        vec![Clue::new(vec![1]), Clue::new(vec![1])],
    );

    let solution = SatSolver::new(2).solve_complete(&puzzle).unwrap();
    assert!(matches!(solution, Solution::Unique(_)));
}

#[test]
fn sat_solver_detects_multiple_solutions() {
    let puzzle = Puzzle::new(
        vec![Clue::new(vec![1]), Clue::new(vec![1])],
        vec![Clue::new(vec![1]), Clue::new(vec![1])],
    );

    let solution = SatSolver::new(2).solve_complete(&puzzle).unwrap();
    assert!(matches!(solution, Solution::Multiple(ref grids) if grids.len() == 2));
}

#[test]
fn sat_solver_detects_unsat_puzzle() {
    let puzzle = Puzzle::new(vec![Clue::new(vec![1])], vec![Clue::new(vec![])]);

    assert!(matches!(SatSolver::new(2).solve_complete(&puzzle).unwrap(), Solution::NoSolution));
}

#[test]
fn sat_solution_shows_the_clues() {
    let puzzle = Puzzle::new(
        clues(&[&[2], &[1], &[3]]),
        clues(&[&[1, 1], &[3], &[1]]),
    );
    match SatSolver::new(0).solve_complete(&puzzle).unwrap() {
        Solution::Unique(grid) => {
            assert_eq!(row_str(&grid, 0), "FFB");
            assert_eq!(row_str(&grid, 1), "BFB");
            assert_eq!(row_str(&grid, 2), "FFF");
        }
        _ => panic!("expected a unique solution"),
    }
}

#[test]
fn sat_solver_stops_at_max_sol() {
    let puzzle = Puzzle::new(clues(&[&[1], &[1], &[1]]), clues(&[&[1], &[1], &[1]]));
    match SatSolver::new(2).solve_complete(&puzzle).unwrap() {
        Solution::Multiple(grids) => assert_eq!(grids.len(), 2),
        _ => panic!("expected two solutions"),
    }
    match SatSolver::new(0).solve_complete(&puzzle).unwrap() {
        Solution::Multiple(grids) => assert_eq!(grids.len(), 6),
        _ => panic!("expected six solutions"),
    }
}

#[test]
fn backtracking_finds_both_diagonals() {
    let puzzle = Puzzle::new(
        vec![Clue::new(vec![1]), Clue::new(vec![1])],
        vec![Clue::new(vec![1]), Clue::new(vec![1])],
    );
    match BacktrackingSolver::new(0).solve_complete(&puzzle).unwrap() {
        Solution::Multiple(grids) => {
            assert_eq!(grids.len(), 2);
            assert_ne!(grids[0], grids[1]);
        }
        _ => panic!("expected two solutions"),
    }
}

#[test]
fn backtracking_unique_and_unsat() {
    let puzzle = Puzzle::new(
        clues(&[&[2], &[1], &[3]]),
        clues(&[&[1, 1], &[3], &[1]]),
    );
    match BacktrackingSolver::new(2).solve_complete(&puzzle).unwrap() {
        Solution::Unique(grid) => {
            assert_eq!(row_str(&grid, 0), "FFB");
            assert_eq!(row_str(&grid, 2), "FFF");
        }
        _ => panic!("expected a unique solution"),
    }
    let unsat = Puzzle::new(vec![Clue::new(vec![1])], vec![Clue::new(vec![])]);
    assert!(matches!(BacktrackingSolver::new(2).solve_complete(&unsat).unwrap(), Solution::NoSolution));
}

#[test]
fn backtracking_respects_max_sol() {
    let puzzle = Puzzle::new(clues(&[&[1], &[1], &[1]]), clues(&[&[1], &[1], &[1]]));
    match BacktrackingSolver::new(3).solve_complete(&puzzle).unwrap() {
        Solution::Multiple(grids) => assert_eq!(grids.len(), 3),
        _ => panic!("expected three solutions"),
    }
}

#[test]
fn propagation_solves_a_line_puzzle() {
    let puzzle = Puzzle::new(
        clues(&[&[2], &[1], &[3]]),
        clues(&[&[1, 1], &[3], &[1]]),
    );
    let grid = PropagationSolver.solve_partial(&puzzle).unwrap();
    assert_eq!(row_str(&grid, 0), "FFB");
    assert_eq!(row_str(&grid, 1), "BFB");
    assert_eq!(row_str(&grid, 2), "FFF");
}

#[test]
fn propagation_reports_contradiction() {
    let puzzle = Puzzle::new(vec![Clue::new(vec![1])], vec![Clue::new(vec![])]);
    assert!(PropagationSolver.solve_partial(&puzzle).is_none());
}

#[test]
fn propagation_leaves_ambiguous_cells_unknown() {
    let puzzle = Puzzle::new(
        vec![Clue::new(vec![1]), Clue::new(vec![1])],
        vec![Clue::new(vec![1]), Clue::new(vec![1])],
    );
    let grid = PropagationSolver.solve_partial(&puzzle).unwrap();
    assert_eq!(row_str(&grid, 0), "??");
    assert_eq!(row_str(&grid, 1), "??");
}

#[test]
fn probing_solvers_agree_with_propagation_when_it_solves() {
    let puzzle = Puzzle::new(
        clues(&[&[2], &[1], &[3]]),
        clues(&[&[1, 1], &[3], &[1]]),
    );
    let fp1 = Fp1Solver.solve_partial(&puzzle).unwrap();
    let fp2 = Fp2Solver.solve_partial(&puzzle).unwrap();
    for row in 0..3 {
        assert_eq!(row_str(&fp1, row), row_str(&fp2, row));
    }
    assert_eq!(row_str(&fp1, 2), "FFF");
}

#[test]
fn probing_solvers_detect_contradiction() {
    let puzzle = Puzzle::new(vec![Clue::new(vec![1])], vec![Clue::new(vec![])]);
    assert!(Fp1Solver.solve_partial(&puzzle).is_none());
    assert!(Fp2Solver.solve_partial(&puzzle).is_none());
}

#[test]
fn probing_keeps_ambiguous_diagonals_open() {
    let puzzle = Puzzle::new(
        vec![Clue::new(vec![1]), Clue::new(vec![1])],
        vec![Clue::new(vec![1]), Clue::new(vec![1])],
    );
    let fp2 = Fp2Solver.solve_partial(&puzzle).unwrap();
    assert_eq!(row_str(&fp2, 0), "??");
}

#[test]
fn reduce_keeps_decided_cells() {
    let puzzle = Puzzle::new(
        clues(&[&[2], &[1], &[3]]),
        clues(&[&[1, 1], &[3], &[1]]),
    );
    let mut grid = Grid::new(3, 3);
    grid.set_cell(2, 2, Cell::Filled);
    assert!(reduce(&mut grid, &puzzle).is_ok());
    assert_eq!(grid.cell(2, 2), &Cell::Filled);
    assert_eq!(row_str(&grid, 0), "FFB");
}

#[test]
fn solve_line_fills_a_full_block() {
    let mut grid = Grid::new(5, 1);
    grid.set_cell(0, 0, Cell::Unknown);
    let mut line = LineBits::from_grid_row(&grid, 0);
    let changed = solve_line(&mut line, &[5]).unwrap();
    assert_eq!(changed.len(), 5);
    assert!(line.is_solved());
}

#[test]
fn solve_line_empty_clue_blanks_everything() {
    let grid = Grid::new(3, 1);
    let mut line = LineBits::from_grid_row(&grid, 0);
    solve_line(&mut line, &[]).unwrap();
    assert_eq!(line.cell(0), Cell::Blank);
    assert_eq!(line.cell(2), Cell::Blank);
}

#[test]
fn solve_line_rejects_too_long_clue() {
    let grid = Grid::new(3, 1);
    let mut line = LineBits::from_grid_row(&grid, 0);
    assert!(solve_line(&mut line, &[2, 2]).is_err());
}

#[test]
fn sat_solutions_each_show_the_clues() {
    let puzzle = Puzzle::new(clues(&[&[1], &[2], &[1]]), clues(&[&[2], &[1], &[1]]));
    let grids = match SatSolver::new(0).solve_complete(&puzzle).unwrap() {
        Solution::NoSolution => Vec::new(),
        Solution::Unique(g) => vec![g],
        Solution::Multiple(gs) => gs,
    };
    assert!(!grids.is_empty());
    for grid in &grids {
        let shown = nonomaker_core::grid_to_puzzle(grid).unwrap();
        assert_eq!(nonomaker_core::format::puzzle_to_json(&shown), nonomaker_core::format::puzzle_to_json(&puzzle));
    }
}

#[test]
fn backtracking_finds_every_solution() {
    let puzzle = Puzzle::new(clues(&[&[1], &[1], &[1]]), clues(&[&[1], &[1], &[1]]));
    match BacktrackingSolver::new(0).solve_complete(&puzzle).unwrap() {
        Solution::Multiple(grids) => assert_eq!(grids.len(), 6),
        _ => panic!("expected six solutions"),
    }
}

#[test]
fn solve_line_keeps_both_placements() {
    let mut grid = Grid::new(5, 1);
    grid.set_cell(0, 2, Cell::Filled);
    let mut line = LineBits::from_grid_row(&grid, 0);
    solve_line(&mut line, &[3]).unwrap();
    // the block can cover cells 0-2 or 2-4: only the middle cell is certain
    assert_eq!(line.cell(0), Cell::Unknown);
    assert_eq!(line.cell(1), Cell::Unknown);
    assert_eq!(line.cell(2), Cell::Filled);
    assert_eq!(line.cell(3), Cell::Unknown);
    assert_eq!(line.cell(4), Cell::Unknown);
}

#[test]
fn partial_solvers_keep_every_permutation_open() {
    let puzzle = Puzzle::new(clues(&[&[1], &[1], &[1]]), clues(&[&[1], &[1], &[1]]));
    let grids = [
        PropagationSolver.solve_partial(&puzzle).unwrap(),
        Fp1Solver.solve_partial(&puzzle).unwrap(),
        Fp2Solver.solve_partial(&puzzle).unwrap(),
    ];
    for grid in &grids {
        for row in 0..3 {
            assert_eq!(row_str(grid, row), "???");
        }
    }
}

#[test]
fn dp_solve_decides_exactly_the_forced_cells() {
    // blocks [2, 1] on five cells: placements (0, 3), (0, 4) and (1, 4);
    // only cell 1 lies in a block of every placement
    let mut line = LineBits::from_cells(&[Cell::Unknown; 5]);
    let changed = dp_solve(&mut line, &[2, 1]).unwrap();
    assert_eq!(changed, vec![1]);
    let cells: Vec<Cell> = (0..5).map(|i| line.cell(i)).collect();
    assert_eq!(
        cells,
        vec![Cell::Unknown, Cell::Filled, Cell::Unknown, Cell::Unknown, Cell::Unknown]
    );
    // with the last cell blank only (0, 3) remains, and every cell is decided
    let mut line = LineBits::from_cells(&[Cell::Unknown, Cell::Unknown, Cell::Unknown, Cell::Unknown, Cell::Blank]);
    dp_solve(&mut line, &[2, 1]).unwrap();
    let cells: Vec<Cell> = (0..5).map(|i| line.cell(i)).collect();
    assert_eq!(cells, vec![Cell::Filled, Cell::Filled, Cell::Blank, Cell::Filled, Cell::Blank]);
    // no placement fits: the solver reports the contradiction
    let mut line = LineBits::from_cells(&[Cell::Unknown, Cell::Blank, Cell::Unknown, Cell::Unknown]);
    assert!(dp_solve(&mut line, &[2, 1]).is_err());
}

#[test]
fn sat_solver_takes_puzzles_wider_than_a_line_word() {
    // one row of 70 filled cells: wider than the line solver's 64-bit words
    let puzzle = Puzzle::new(vec![Clue::new(vec![70])], (0..70).map(|_| Clue::new(vec![1])).collect());
    match SatSolver::new(2).solve_complete(&puzzle).unwrap() {
        Solution::Unique(g) => {
            assert_eq!(g.width(), 70);
            assert_eq!(g.height(), 1);
            for c in 0..70 {
                assert_eq!(*g.cell(0, c), Cell::Filled);
            }
        }
        _ => panic!("expected a unique solution"),
    }
}
