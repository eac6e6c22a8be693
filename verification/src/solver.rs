//! Solvers for nonogram puzzles.
use vstd::prelude::*;

pub mod backtracking;
mod fully_probing;
pub mod sat;
pub mod line_solver;
pub mod propagation;

use self::line_solver::soundness::{lemma_runs_placement, lemma_solve_line_complete};
use self::line_solver::solve_line_spec;
use self::propagation::{
    clue_of, empty_grid, grid_fits, grid_refines, grid_shape, line_of, line_placed, lines_accepted, placed_solution,
    propagate, propagated, solver_output,
};
use crate::types::{runs, Cell, Grid, Puzzle};

verus! {

/// A line or a grid admits no completion that the solver can find.
#[derive(Debug, Clone, Copy, PartialEq, Eq, Hash, Structural)]
pub struct Contradiction;

/// The solvers handle puzzles with one to 64 columns and at most 64 rows.
pub open spec fn puzzle_fits(puzzle: Puzzle) -> bool {
    &&& 0 < puzzle.spec_cols().len() <= 64
    &&& puzzle.spec_rows().len() <= 64
}

/// `grid` solves `puzzle`: it has the puzzle's shape, no undecided cell, and
/// every row and column shows the runs of its clue.
pub open spec fn solves(grid: Grid, puzzle: Puzzle) -> bool {
    &&& grid_shape(grid, puzzle)
    &&& grid_complete(grid)
    &&& forall|id: int|
        0 <= id < puzzle.spec_cols().len() + puzzle.spec_rows().len() ==> runs(#[trigger] line_of(grid, id))
            == clue_of(puzzle, id)
}

/// A solution is made of placements: each of its lines is the line of a
/// placement of its clue's blocks.
pub proof fn lemma_solution_is_placed(grid: Grid, puzzle: Puzzle)
    requires
        puzzle_fits(puzzle),
        solves(grid, puzzle),
    ensures
        placed_solution(grid, puzzle),
{
    grid.lemma_wf();
    assert forall|id: int| 0 <= id < grid.spec_width() + grid.spec_height() implies line_placed(
        #[trigger] line_of(grid, id),
        clue_of(puzzle, id),
    ) by {
        let line = line_of(grid, id);
        assert forall|i: int| 0 <= i < line.len() implies line[i] != Cell::Unknown by {
            let w = grid.spec_width() as int;
            let h = grid.spec_height() as int;
            if id < h {
                crate::types::lemma_cell_pos_bounds(w, h, id, i);
            } else {
                crate::types::lemma_cell_pos_bounds(w, h, i, id - h);
            }
        }
        let s = lemma_runs_placement(line);
        assert(runs(line) == clue_of(puzzle, id));
    }
}

/// A complete grid of the puzzle's shape solves the puzzle exactly when the
/// line solver accepts each of its rows and columns as it stands, for clues
/// whose blocks are each at least one cell long.
pub proof fn lemma_solves_iff_lines_accepted(grid: Grid, puzzle: Puzzle)
    requires
        puzzle_fits(puzzle),
        grid_shape(grid, puzzle),
        grid_complete(grid),
        forall|id: int, j: int|
            0 <= id < puzzle.spec_cols().len() + puzzle.spec_rows().len() && 0 <= j < clue_of(puzzle, id).len()
                ==> #[trigger] clue_of(puzzle, id)[j] >= 1,
    ensures
        solves(grid, puzzle) <==> forall|id: int|
            0 <= id < puzzle.spec_cols().len() + puzzle.spec_rows().len() ==> solve_line_spec(
                #[trigger] line_of(grid, id),
                clue_of(puzzle, id),
            ) is Some,
{
    grid.lemma_wf();
    let k = puzzle.spec_cols().len() + puzzle.spec_rows().len();
    assert forall|id: int| 0 <= id < k implies (solve_line_spec(#[trigger] line_of(grid, id), clue_of(puzzle, id))
        is Some <==> runs(line_of(grid, id)) == clue_of(puzzle, id)) by {
        let line = line_of(grid, id);
        let w = grid.spec_width() as int;
        let h = grid.spec_height() as int;
        assert forall|i: int| 0 <= i < line.len() implies line[i] != Cell::Unknown by {
            if id < h {
                crate::types::lemma_cell_pos_bounds(w, h, id, i);
            } else {
                crate::types::lemma_cell_pos_bounds(w, h, i, id - h);
            }
        }
        let b = clue_of(puzzle, id);
        assert forall|j: int| 0 <= j < b.len() implies #[trigger] b[j] >= 1 by {
            assert(clue_of(puzzle, id)[j] >= 1);
        }
        lemma_solve_line_complete(line, b);
    }
}

/// No cell of the grid is unknown.
pub open spec fn grid_complete(grid: Grid) -> bool {
    forall|i: int| 0 <= i < grid.spec_cells().len() ==> grid.spec_cells()[i] != Cell::Unknown
}

/// A solver that decides as many cells as it can without guessing.
pub trait PartialSolver {
    /// The partly solved grid, or `None` when the puzzle has no solution.
    fn solve_partial(&self, puzzle: &Puzzle) -> (r: Option<Grid>)
        requires
            puzzle_fits(*puzzle),
        ensures
            r matches Some(g) ==> grid_fits(g, *puzzle),
    ;
}

/// A solver that enumerates solutions.
pub trait CompleteSolver {
    /// The puzzles this solver takes.
    spec fn handles(&self, puzzle: Puzzle) -> bool;

    /// The solutions found, sorted by their number into none, one or
    /// several; `Err` when an engine the solver relies on failed.
    fn solve_complete(&self, puzzle: &Puzzle) -> (r: Result<Solution, SolveError>)
        requires
            self.handles(*puzzle),
        ensures
            r matches Ok(s) ==> sorted_by_count(s) && forall|i: int|
                0 <= i < s.grids().len() ==> grid_shape(#[trigger] s.grids()[i], *puzzle) && grid_complete(
                    s.grids()[i],
                ),
    ;
}

/// Why a complete solver gave no answer.
#[derive(Debug)]
pub enum SolveError {
    /// The SAT solver reported an error of its own (a time-out, an internal
    /// failure, lack of memory).
    SatSolver(splr::SolverError),
}

/// The variant of a solution matches the number of its grids: none for no
/// grid, unique for one, multiple for two or more.
pub open spec fn sorted_by_count(s: Solution) -> bool {
    &&& s is NoSolution <==> s.grids().len() == 0
    &&& s is Unique <==> s.grids().len() == 1
    &&& s is Multiple <==> s.grids().len() >= 2
}

/// The outcome of a complete solver: no solution, exactly one, or several.
pub enum Solution {
    NoSolution,
    Unique(Grid),
    Multiple(Vec<Grid>),
}

impl Solution {
    /// The grids held, in the order found.
    pub open spec fn grids(self) -> Seq<Grid> {
        match self {
            Solution::NoSolution => Seq::empty(),
            Solution::Unique(g) => seq![g],
            Solution::Multiple(v) => v@,
        }
    }
}

/// Sorts a list of solutions into none, one, or several.
pub fn into_solution(solutions: Vec<Grid>) -> (s: Solution)
    ensures
        s.grids() == solutions@,
        s is NoSolution <==> solutions@.len() == 0,
        s is Unique <==> solutions@.len() == 1,
        s is Multiple <==> solutions@.len() >= 2,
        sorted_by_count(s),
{
    let n = solutions.len();
    if n == 0 {
        Solution::NoSolution
    } else if n == 1 {
        let ghost v = solutions@;
        let mut solutions = solutions;
        let g = solutions.pop().unwrap();
        proof {
            assert(v =~= seq![g]);
        }
        Solution::Unique(g)
    } else {
        Solution::Multiple(solutions)
    }
}

/// Constraint propagation alone, from the empty grid.
#[derive(Debug, Clone)]
pub struct PropagationSolver;

impl PartialSolver for PropagationSolver {
    /// The returned grid is reached from the empty grid by propagation steps,
    /// each replacing one line by its line-solver output, and every line of
    /// it is an output of the line solver; `None` means propagation met a
    /// line that the line solver rejects. Every solution of the puzzle
    /// refines the returned grid, so `None` means the puzzle has no solution.
    fn solve_partial(&self, puzzle: &Puzzle) -> (r: Option<Grid>)
        ensures
            r matches Some(g) ==> exists|g0: Grid| empty_grid(g0, *puzzle) && #[trigger] propagated(g0, g, *puzzle),
            r matches Some(g) ==> forall|id: int|
                0 <= id < g.spec_width() + g.spec_height() ==> solver_output(
                    #[trigger] line_of(g, id),
                    clue_of(*puzzle, id),
                ),
            forall|g: Grid| solves(g, *puzzle) ==> (r matches Some(out) && grid_refines(g, out)),
    {
        let w = puzzle.width();
        let h = puzzle.height();
        proof {
            assert(w * h <= 64 * 64) by (nonlinear_arith)
                requires
                    w <= 64,
                    h <= 64,
            ;
        }
        let mut grid = Grid::new(w, h);
        let ghost g0 = grid;
        proof {
            assert forall|g: Grid| placed_solution(g, *puzzle) implies grid_refines(g, grid) by {
                g.lemma_wf();
                grid.lemma_wf();
            }
            assert(empty_grid(g0, *puzzle));
        }
        let valid = propagate(&mut grid, puzzle);
        proof {
            assert forall|g: Grid| solves(g, *puzzle) implies valid && grid_refines(g, grid) by {
                lemma_solution_is_placed(g, *puzzle);
            }
        }
        if valid {
            Some(grid)
        } else {
            None
        }
    }
}

/// Fully probing, each cell value probed on its own.
#[derive(Debug, Clone)]
pub struct Fp1Solver;

impl PartialSolver for Fp1Solver {
    /// Every line of the returned grid is an output of the line solver, the
    /// grid is reached from the empty grid by propagation steps and steps
    /// applying what a round of single-value probes infers, it is a fixpoint
    /// of probing each cell value on its own, and every
    /// solution of the puzzle refines it: `None` means the puzzle has no
    /// solution.
    fn solve_partial(&self, puzzle: &Puzzle) -> (r: Option<Grid>)
        ensures
            r matches Some(g) ==> lines_accepted(g, *puzzle),
            r matches Some(g) ==> fully_probing::fp1_fixpoint(g, *puzzle),
            r matches Some(g) ==> fully_probing::fp1_reached(g, *puzzle),
            forall|g: Grid| solves(g, *puzzle) ==> (r matches Some(out) && grid_refines(g, out)),
    {
        let r = fully_probing::solve(puzzle, fully_probing::FullyProbingMode::Fp1);
        proof {
            assert forall|g: Grid| solves(g, *puzzle) implies (r matches Some(out) && grid_refines(g, out)) by {
                lemma_solution_is_placed(g, *puzzle);
            }
        }
        r
    }
}

/// Fully probing with assumptions that grow from the contrapositives of
/// earlier probes.
#[derive(Debug, Clone)]
pub struct Fp2Solver;

impl PartialSolver for Fp2Solver {
    /// Every line of the returned grid is an output of the line solver, the
    /// grid is reached from the empty grid by propagation steps and steps
    /// applying what a round of probes under contrapositive assumption lists
    /// infers, it is a fixpoint of that probing, and every
    /// solution of the puzzle refines it: `None` means the puzzle has no
    /// solution.
    fn solve_partial(&self, puzzle: &Puzzle) -> (r: Option<Grid>)
        ensures
            r matches Some(g) ==> lines_accepted(g, *puzzle),
            r matches Some(g) ==> fully_probing::fp2_fixpoint(g, *puzzle),
            r matches Some(g) ==> fully_probing::fp2_reached(g, *puzzle),
            forall|g: Grid| solves(g, *puzzle) ==> (r matches Some(out) && grid_refines(g, out)),
    {
        let r = fully_probing::solve(puzzle, fully_probing::FullyProbingMode::Fp2);
        proof {
            assert forall|g: Grid| solves(g, *puzzle) implies (r matches Some(out) && grid_refines(g, out)) by {
                lemma_solution_is_placed(g, *puzzle);
            }
        }
        r
    }
}

/// Depth-first search over the undecided cells, with propagation after each
/// guess.
#[derive(Debug, Clone)]
pub struct BacktrackingSolver {
    max_sol: usize,
}

impl BacktrackingSolver {
    /// The most solutions to look for (`0`: no limit).
    pub closed spec fn spec_max_sol(&self) -> usize {
        self.max_sol
    }

    /// A solver that stops after `max_sol` solutions (`0`: no limit).
    pub fn new(max_sol: usize) -> (s: Self)
        ensures
            s.spec_max_sol() == max_sol,
    {
        BacktrackingSolver { max_sol }
    }
}

impl CompleteSolver for BacktrackingSolver {
    open spec fn handles(&self, puzzle: Puzzle) -> bool {
        puzzle_fits(puzzle)
    }

    /// The solutions are complete, pairwise different grids whose lines are
    /// all line-solver outputs, at most `max_sol` of them when `max_sol > 0`.
    /// Unless the limit was reached, every solution of the puzzle is among
    /// them.
    fn solve_complete(&self, puzzle: &Puzzle) -> (r: Result<Solution, SolveError>)
        ensures
            r is Ok,
            r matches Ok(s) ==> {
                &&& forall|i: int, j: int|
                    0 <= i < j < s.grids().len() ==> (#[trigger] s.grids()[i]).spec_cells() != (
                    #[trigger] s.grids()[j]).spec_cells()
                &&& self.spec_max_sol() > 0 ==> s.grids().len() <= self.spec_max_sol()
                &&& forall|i: int, id: int|
                    0 <= i < s.grids().len() && 0 <= id < puzzle.spec_rows().len() + puzzle.spec_cols().len()
                        ==> solver_output(line_of(#[trigger] s.grids()[i], id), #[trigger] clue_of(*puzzle, id))
                &&& self.spec_max_sol() == 0 || s.grids().len() < self.spec_max_sol() ==> forall|g: Grid|
                    solves(g, *puzzle) ==> exists|i: int|
                        0 <= i < s.grids().len() && #[trigger] s.grids()[i].spec_cells() == g.spec_cells()
            },
    {
        let grid = match PropagationSolver.solve_partial(puzzle) {
            Some(g) => g,
            None => {
                return Ok(Solution::NoSolution);
            },
        };
        let s = backtracking::solve(grid, puzzle, self.max_sol);
        proof {
            assert forall|g: Grid| solves(g, *puzzle) implies placed_solution(g, *puzzle) && grid_refines(g, grid) by {
                lemma_solution_is_placed(g, *puzzle);
            }
        }
        Ok(s)
    }
}

/// Enumeration of solutions by a SAT solver over an automaton encoding of
/// the lines.
#[derive(Debug, Clone)]
pub struct SatSolver {
    max_sol: usize,
}

impl SatSolver {
    /// The most solutions to look for (`0`: no limit).
    pub closed spec fn spec_max_sol(&self) -> usize {
        self.max_sol
    }

    /// A solver that stops after `max_sol` solutions (`0`: no limit).
    pub fn new(max_sol: usize) -> (s: Self)
        ensures
            s.spec_max_sol() == max_sol,
    {
        SatSolver { max_sol }
    }
}

impl CompleteSolver for SatSolver {
    /// Puzzles whose encoding numbers its variables below 2^30, and that
    /// have a column or a row whose clue has a block.
    open spec fn handles(&self, puzzle: Puzzle) -> bool {
        &&& sat::encoding_fits(puzzle)
        &&& 0 < puzzle.spec_cols().len() || exists|r: int|
            0 <= r < puzzle.spec_rows().len() && (#[trigger] puzzle.spec_rows()[r]).len() > 0
    }

    /// The solutions are complete, pairwise different grids, each the cell
    /// values of an assignment that satisfies the clauses of every line, at
    /// most `max_sol` of them when `max_sol > 0`. When every block of every
    /// clue has at least one cell, each of them solves the puzzle, and unless
    /// the limit was reached, every solution of the puzzle is among them. A
    /// puzzle without columns, whose rows cannot hold their blocks, has no
    /// solution.
    fn solve_complete(&self, puzzle: &Puzzle) -> (r: Result<Solution, SolveError>)
        ensures
            r matches Ok(s) ==> {
                &&& forall|i: int, j: int|
                    0 <= i < j < s.grids().len() ==> (#[trigger] s.grids()[i]).spec_cells() != (
                    #[trigger] s.grids()[j]).spec_cells()
                &&& self.spec_max_sol() > 0 ==> s.grids().len() <= self.spec_max_sol()
                &&& forall|i: int|
                    0 <= i < s.grids().len() ==> sat::has_model(*puzzle, (#[trigger] s.grids()[i]).spec_cells())
                &&& sat::clues_positive(*puzzle) ==> forall|i: int|
                    0 <= i < s.grids().len() ==> solves(#[trigger] s.grids()[i], *puzzle)
                &&& self.spec_max_sol() == 0 || s.grids().len() < self.spec_max_sol() ==> sat::all_found(
                    *puzzle,
                    s.grids(),
                )
            },
        puzzle.spec_cols().len() == 0 ==> r matches Ok(Solution::NoSolution),
    {
        if puzzle.width() == 0 {
            return Ok(Solution::NoSolution);
        }
        let r = sat::solve(puzzle, self.max_sol);
        proof {
            if r is Ok && sat::clues_positive(*puzzle) {
                let s = r->Ok_0;
                assert forall|i: int| 0 <= i < s.grids().len() implies solves(#[trigger] s.grids()[i], *puzzle) by {
                    sat::lemma_model_grid_solves(*puzzle, s.grids()[i]);
                }
            }
        }
        r
    }
}

} // verus!
