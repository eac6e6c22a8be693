//! Complete search: guess an undecided cell both ways, propagate, recurse.
use vstd::prelude::*;

use super::propagation::{
    grid_fits, grid_refines, grid_unknowns, lemma_count_refines, lines_accepted, placed_solution, reduce,
};
use super::{grid_complete, into_solution, sorted_by_count, Solution};
use crate::types::{cell_pos, lemma_cell_pos_bounds, lemma_cell_pos_onto, Cell, Grid, Puzzle};

verus! {

/// `g` is a solution found below `base`: complete, of the puzzle's size, a
/// refinement of `base`, with every line accepted by the line solver.
pub open spec fn found_below(g: Grid, base: Grid, puzzle: Puzzle) -> bool {
    &&& grid_fits(g, puzzle)
    &&& grid_complete(g)
    &&& grid_refines(g, base)
    &&& lines_accepted(g, puzzle)
}

/// Enumerates the solutions below `grid` by depth-first search, stopping
/// after `max_sol` of them when `max_sol > 0`.
pub fn solve(grid: Grid, puzzle: &Puzzle, max_sol: usize) -> (s: Solution)
    requires
        grid_fits(grid, *puzzle),
        lines_accepted(grid, *puzzle),
    ensures
        forall|i: int| 0 <= i < s.grids().len() ==> found_below(#[trigger] s.grids()[i], grid, *puzzle),
        forall|i: int, j: int|
            0 <= i < j < s.grids().len() ==> (#[trigger] s.grids()[i]).spec_cells() != (
            #[trigger] s.grids()[j]).spec_cells(),
        max_sol > 0 ==> s.grids().len() <= max_sol,
        max_sol == 0 || s.grids().len() < max_sol ==> forall|g: Grid|
            placed_solution(g, *puzzle) && grid_complete(g) && grid_refines(g, grid) ==> exists|i: int|
                0 <= i < s.grids().len() && #[trigger] s.grids()[i].spec_cells() == g.spec_cells(),
        sorted_by_count(s),
{
    let ghost g0 = grid;
    let mut solutions: Vec<Grid> = Vec::new();
    search(grid, puzzle, &mut solutions, max_sol);
    proof {
        assert(solutions@.subrange(0, solutions@.len() as int) =~= solutions@);
    }
    into_solution(solutions)
}

/// Refinement of grids is transitive.
proof fn lemma_refines_trans(a: Grid, b: Grid, c: Grid)
    requires
        grid_refines(a, b),
        grid_refines(b, c),
    ensures
        grid_refines(a, c),
{
}

/// Deciding an unknown cell yields a refinement with one unknown cell less.
proof fn lemma_decide_cell(before: Grid, after: Grid, k: int, v: Cell)
    requires
        0 <= k < before.spec_cells().len(),
        before.spec_cells()[k] == Cell::Unknown,
        v != Cell::Unknown,
        after.spec_width() == before.spec_width(),
        after.spec_height() == before.spec_height(),
        after.spec_cells() == before.spec_cells().update(k, v),
    ensures
        grid_refines(after, before),
        grid_unknowns(after) < grid_unknowns(before),
{
    lemma_count_refines(after.spec_cells(), before.spec_cells());
}

fn search(grid: Grid, puzzle: &Puzzle, solutions: &mut Vec<Grid>, max_sol: usize)
    requires
        grid_fits(grid, *puzzle),
        lines_accepted(grid, *puzzle),
        max_sol > 0 ==> old(solutions)@.len() <= max_sol,
    ensures
        final(solutions)@.len() >= old(solutions)@.len(),
        final(solutions)@.subrange(0, old(solutions)@.len() as int) == old(solutions)@,
        forall|i: int|
            old(solutions)@.len() <= i < final(solutions)@.len() ==> found_below(
                #[trigger] final(solutions)@[i],
                grid,
                *puzzle,
            ),
        forall|i: int, j: int|
            old(solutions)@.len() <= i < j < final(solutions)@.len()
                ==> (#[trigger] final(solutions)@[i]).spec_cells() != (
                #[trigger] final(solutions)@[j]).spec_cells(),
        max_sol > 0 ==> final(solutions)@.len() <= max_sol,
        max_sol == 0 || final(solutions)@.len() < max_sol ==> forall|g: Grid|
            placed_solution(g, *puzzle) && grid_complete(g) && grid_refines(g, grid) ==> exists|i: int|
                old(solutions)@.len() <= i < final(solutions)@.len() && #[trigger] final(solutions)@[i].spec_cells()
                    == g.spec_cells(),
    decreases grid_unknowns(grid),
{
    let ghost s0 = solutions@;
    if max_sol > 0 && solutions.len() == max_sol {
        proof {
            assert(solutions@.subrange(0, s0.len() as int) =~= s0);
        }
        return ;
    }
    let (row, col) = match find_unknown(&grid) {
        None => {
            proof {
                grid.lemma_wf();
            }
            solutions.push(grid);
            proof {
                assert(solutions@.subrange(0, s0.len() as int) =~= s0);
                assert forall|g: Grid| placed_solution(g, *puzzle) && grid_complete(g) && grid_refines(g, grid) implies exists|i: int|
                    s0.len() <= i < solutions@.len() && #[trigger] solutions@[i].spec_cells() == g.spec_cells() by {
                    g.lemma_wf();
                    assert(g.spec_cells() =~= grid.spec_cells());
                    assert(solutions@[s0.len() as int].spec_cells() == g.spec_cells());
                }
            }
            return ;
        },
        Some(p) => p,
    };
    let ghost w = grid.spec_width() as int;
    let ghost k = cell_pos(w, row as int, col as int);
    proof {
        grid.lemma_wf();
        lemma_cell_pos_bounds(w, grid.spec_height() as int, row as int, col as int);
    }
    let mut filled = grid.duplicate();
    filled.set_cell(row, col, Cell::Filled);
    let ghost f0 = filled;
    proof {
        lemma_decide_cell(grid, f0, k, Cell::Filled);
    }
    let ghost s1 = solutions@;
    let ok1 = reduce(&mut filled, puzzle).is_ok();
    let ghost f1 = filled;
    if ok1 {
        proof {
            lemma_count_refines(filled.spec_cells(), f0.spec_cells());
        }
        search(filled, puzzle, solutions, max_sol);
        proof {
            assert forall|i: int| s1.len() <= i < solutions@.len() implies found_below(
                #[trigger] solutions@[i],
                grid,
                *puzzle,
            ) && solutions@[i].spec_cells()[k] == Cell::Filled by {
                lemma_refines_trans(solutions@[i], f1, f0);
                lemma_refines_trans(solutions@[i], f0, grid);
            }
        }
    }
    let ghost s2 = solutions@;
    proof {
        if !ok1 {
            assert(s2 == s1);
        }
        assert forall|g: Grid|
            placed_solution(g, *puzzle) && grid_complete(g) && grid_refines(g, grid) && g.spec_cells()[k] == Cell::Filled
                && (max_sol == 0 || s2.len() < max_sol) implies exists|i: int|
            s1.len() <= i < s2.len() && #[trigger] s2[i].spec_cells() == g.spec_cells() by {
            assert(grid_refines(g, f0));
            assert(ok1 && grid_refines(g, f1));
        }
    }
    let ghost blank0 = grid;
    let mut blank = grid;
    blank.set_cell(row, col, Cell::Blank);
    let ghost b0 = blank;
    proof {
        lemma_decide_cell(blank0, b0, k, Cell::Blank);
    }
    let ok2 = reduce(&mut blank, puzzle).is_ok();
    let ghost b1 = blank;
    if ok2 {
        proof {
            lemma_count_refines(blank.spec_cells(), b0.spec_cells());
        }
        search(blank, puzzle, solutions, max_sol);
        proof {
            assert forall|i: int| s2.len() <= i < solutions@.len() implies found_below(
                #[trigger] solutions@[i],
                blank0,
                *puzzle,
            ) && solutions@[i].spec_cells()[k] == Cell::Blank by {
                lemma_refines_trans(solutions@[i], b1, b0);
                lemma_refines_trans(solutions@[i], b0, blank0);
            }
        }
    }
    proof {
        let s3 = solutions@;
        if !ok2 {
            assert(s3 == s2);
        }
        assert forall|g: Grid|
            placed_solution(g, *puzzle) && grid_complete(g) && grid_refines(g, blank0) && g.spec_cells()[k] == Cell::Blank
                && (max_sol == 0 || s3.len() < max_sol) implies exists|i: int|
            s2.len() <= i < s3.len() && #[trigger] s3[i].spec_cells() == g.spec_cells() by {
            assert(grid_refines(g, b0));
            assert(ok2 && grid_refines(g, b1));
        }
        assert(s2.subrange(0, s1.len() as int) =~= s1);
        assert(s3.subrange(0, s2.len() as int) =~= s2);
        assert(s3.subrange(0, s0.len() as int) =~= s0);
        assert forall|i: int| s0.len() <= i < s2.len() implies #[trigger] s3[i] == s2[i] by {
            assert(s3.subrange(0, s2.len() as int)[i] == s3[i]);
        }
        assert forall|i: int| s0.len() <= i < s3.len() implies found_below(#[trigger] s3[i], blank0, *puzzle)
            by {
            if i < s2.len() {
                assert(s3[i] == s2[i]);
            }
        }
        assert forall|i: int, j: int| s0.len() <= i < j < s3.len() implies (#[trigger] s3[i]).spec_cells()
            != (#[trigger] s3[j]).spec_cells() by {
            if j < s2.len() {
                assert(s3[i] == s2[i]);
                assert(s3[j] == s2[j]);
            } else if i < s2.len() {
                assert(s3[i] == s2[i]);
                assert(s3[i].spec_cells()[k] == Cell::Filled);
                assert(s3[j].spec_cells()[k] == Cell::Blank);
            }
        }
        assert forall|g: Grid|
            placed_solution(g, *puzzle) && grid_complete(g) && grid_refines(g, blank0) && (max_sol == 0 || s3.len()
                < max_sol) implies exists|i: int| s0.len() <= i < s3.len() && #[trigger] s3[i].spec_cells() == g.spec_cells() by {
            g.lemma_wf();
            assert(g.spec_cells()[k] != Cell::Unknown);
            if g.spec_cells()[k] == Cell::Filled {
                let i = choose|i: int| s1.len() <= i < s2.len() && #[trigger] s2[i].spec_cells() == g.spec_cells();
                assert(s3[i] == s2[i]);
                assert(s3[i].spec_cells() == g.spec_cells());
            } else {
                let i = choose|i: int| s2.len() <= i < s3.len() && #[trigger] s3[i].spec_cells() == g.spec_cells();
            }
        }
    }
}

/// The first unknown cell in row-major order, if any.
fn find_unknown(grid: &Grid) -> (r: Option<(usize, usize)>)
    requires
        grid.wf(),
        grid.spec_width() > 0,
    ensures
        r matches Some((row, col)) ==> {
            &&& row < grid.spec_height()
            &&& col < grid.spec_width()
            &&& grid.at(row as int, col as int) == Cell::Unknown
            &&& forall|r2: int, c2: int|
                0 <= r2 && 0 <= c2 < grid.spec_width() && (r2 < row || (r2 == row && c2 < col))
                    ==> grid.at(r2, c2) != Cell::Unknown
        },
        r is None ==> grid_complete(*grid),
{
    let h = grid.height();
    let w = grid.width();
    let mut row: usize = 0;
    while row < h
        invariant
            w == grid.spec_width() > 0,
            h == grid.spec_height(),
            grid.wf(),
            row <= h,
            forall|r2: int, c2: int| 0 <= r2 < row && 0 <= c2 < w ==> grid.at(r2, c2) != Cell::Unknown,
        decreases h - row,
    {
        let mut col: usize = 0;
        while col < w
            invariant
                w == grid.spec_width() > 0,
                h == grid.spec_height(),
                grid.wf(),
                row < h,
                col <= w,
                forall|r2: int, c2: int| 0 <= r2 < row && 0 <= c2 < w ==> grid.at(r2, c2) != Cell::Unknown,
                forall|c2: int| 0 <= c2 < col ==> grid.at(row as int, c2) != Cell::Unknown,
            decreases w - col,
        {
            if *grid.cell(row, col) == Cell::Unknown {
                return Some((row, col));
            }
            col += 1;
        }
        row += 1;
    }
    proof {
        grid.lemma_wf();
        assert forall|i: int| 0 <= i < grid.spec_cells().len() implies grid.spec_cells()[i] != Cell::Unknown by {
            lemma_cell_pos_onto(w as int, h as int, i);
            assert(grid.at(i / (w as int), i % (w as int)) != Cell::Unknown);
        }
    }
    None
}

} // verus!
