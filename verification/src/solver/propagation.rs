//! Constraint propagation: solving rows and columns in turn until nothing
//! changes.
use std::collections::VecDeque;

use vstd::prelude::*;

use super::line_solver::bits::LineBits;
use super::line_solver::placement::{count_cell, placed_line, placement_ok};
use super::line_solver::soundness::lemma_solve_line_keeps_placements;
use super::line_solver::{lists_decided, refines, solve_line, solve_line_spec};
use super::Contradiction;
use crate::types::{cell_pos, lemma_cell_pos_bounds, lemma_cell_pos_inj, Cell, Grid, Puzzle};

verus! {

/// The grid has one column per column clue and one row per row clue, and at
/// least one column.
pub open spec fn grid_shape(grid: Grid, puzzle: Puzzle) -> bool {
    &&& grid.wf()
    &&& grid.spec_width() == puzzle.spec_cols().len()
    &&& grid.spec_height() == puzzle.spec_rows().len()
    &&& 0 < grid.spec_width()
}

/// The grid has one column per column clue and one row per row clue, with at
/// least one and at most 64 columns and at most 64 rows.
pub open spec fn grid_fits(grid: Grid, puzzle: Puzzle) -> bool {
    &&& grid_shape(grid, puzzle)
    &&& grid.spec_width() <= 64
    &&& grid.spec_height() <= 64
}

/// Line `id`: rows first, then columns.
pub open spec fn line_of(grid: Grid, id: int) -> Seq<Cell> {
    if id < grid.spec_height() {
        grid.row_line(id)
    } else {
        grid.col_line(id - grid.spec_height())
    }
}

/// The clue of line `id`.
pub open spec fn clue_of(puzzle: Puzzle, id: int) -> Seq<usize> {
    if id < puzzle.spec_rows().len() {
        puzzle.spec_rows()[id]
    } else {
        puzzle.spec_cols()[id - puzzle.spec_rows().len()]
    }
}

/// `line` is what the line solver makes of some state of a line with clue `b`.
pub open spec fn solver_output(line: Seq<Cell>, b: Seq<usize>) -> bool {
    exists|l: Seq<Cell>| #[trigger] solve_line_spec(l, b) == Some(line)
}

/// Every row and column of `grid` is an output of the line solver for its clue.
pub open spec fn lines_accepted(grid: Grid, puzzle: Puzzle) -> bool {
    forall|id: int|
        0 <= id < grid.spec_width() + grid.spec_height() ==> solver_output(
            #[trigger] line_of(grid, id),
            clue_of(puzzle, id),
        )
}

/// `line` has no unknown cell.
pub open spec fn complete(line: Seq<Cell>) -> bool {
    forall|i: int| 0 <= i < line.len() ==> line[i] != Cell::Unknown
}

/// `after` keeps the size and every decided cell of `before`.
pub open spec fn grid_refines(after: Grid, before: Grid) -> bool {
    &&& after.spec_width() == before.spec_width()
    &&& after.spec_height() == before.spec_height()
    &&& refines(after.spec_cells(), before.spec_cells())
}

/// `g` solves the puzzle: it fits, and each of its lines is the line of a
/// placement of its clue's blocks.
pub open spec fn placed_solution(g: Grid, puzzle: Puzzle) -> bool {
    &&& grid_fits(g, puzzle)
    &&& forall|id: int|
        0 <= id < g.spec_width() + g.spec_height() ==> line_placed(#[trigger] line_of(g, id), clue_of(puzzle, id))
}

/// `line` is the line of some placement of the blocks `b`.
pub open spec fn line_placed(line: Seq<Cell>, b: Seq<usize>) -> bool {
    exists|s: Seq<int>| placement_ok(s, b, line.len() as int) && #[trigger] placed_line(s, b, line.len() as int) == line
}

/// A line of a solution that refines the grid is a placement the grid's line
/// allows, so the line solver accepts that line and decides none of its
/// cells against the solution.
proof fn lemma_solution_line(g: Grid, gb: Grid, puzzle: Puzzle, id: int)
    requires
        placed_solution(g, puzzle),
        grid_fits(gb, puzzle),
        grid_refines(g, gb),
        0 <= id < gb.spec_width() + gb.spec_height(),
    ensures
        solve_line_spec(line_of(gb, id), clue_of(puzzle, id)) matches Some(nl) && refines(line_of(g, id), nl),
{
    let b = clue_of(puzzle, id);
    let lg = line_of(g, id);
    let lb = line_of(gb, id);
    assert(line_placed(lg, b));
    let s = choose|s: Seq<int>| placement_ok(s, b, lg.len() as int) && #[trigger] placed_line(s, b, lg.len() as int) == lg;
    g.lemma_wf();
    gb.lemma_wf();
    let w = gb.spec_width() as int;
    let h = gb.spec_height() as int;
    assert forall|p: int| 0 <= p < lb.len() && lb[p] != Cell::Unknown implies lg[p] == lb[p] by {
        lemma_line_of_index(gb, id, p);
        lemma_line_of_index(g, id, p);
        if id < h {
            lemma_cell_pos_bounds(w, h, id, p);
        } else {
            lemma_cell_pos_bounds(w, h, p, id - h);
        }
    }
    assert(lg.len() == lb.len());
    lemma_solve_line_keeps_placements(lb, b, s);
}

/// A line step by the line solver keeps every solution that refined the grid.
proof fn lemma_step_keeps(g: Grid, gb: Grid, g2: Grid, puzzle: Puzzle, id: int, nl: Seq<Cell>)
    requires
        placed_solution(g, puzzle),
        grid_fits(gb, puzzle),
        grid_refines(g, gb),
        0 <= id < gb.spec_width() + gb.spec_height(),
        line_step(gb, g2, id, nl),
        solve_line_spec(line_of(gb, id), clue_of(puzzle, id)) == Some(nl),
    ensures
        grid_refines(g, g2),
{
    let w = gb.spec_width() as int;
    let h = gb.spec_height() as int;
    lemma_solution_line(g, gb, puzzle, id);
    g.lemma_wf();
    assert forall|i: int| 0 <= i < g2.spec_cells().len() && g2.spec_cells()[i] != Cell::Unknown implies g.spec_cells()[i]
        == g2.spec_cells()[i] by {
        if exists|p: int| 0 <= p < nl.len() && #[trigger] line_index(w, h, id, p) == i {
            let p = choose|p: int| 0 <= p < nl.len() && #[trigger] line_index(w, h, id, p) == i;
            lemma_line_of_index(g, id, p);
        } else {
            assert(forall|p: int| 0 <= p < nl.len() ==> #[trigger] line_index(w, h, id, p) != i);
        }
    }
}

/// Number of unknown cells of a grid.
pub open spec fn grid_unknowns(grid: Grid) -> nat {
    count_cell(grid.spec_cells(), Cell::Unknown)
}

/// Refining a sequence never adds unknown cells, and deciding one removes one.
pub proof fn lemma_count_refines(after: Seq<Cell>, before: Seq<Cell>)
    requires
        refines(after, before),
    ensures
        count_cell(after, Cell::Unknown) <= count_cell(before, Cell::Unknown),
        (exists|i: int| 0 <= i < before.len() && before[i] == Cell::Unknown && after[i] != Cell::Unknown)
            ==> count_cell(after, Cell::Unknown) < count_cell(before, Cell::Unknown),
    decreases before.len(),
{
    if before.len() > 0 {
        let a = after.drop_last();
        let b = before.drop_last();
        lemma_count_refines(a, b);
        if exists|i: int| 0 <= i < before.len() && before[i] == Cell::Unknown && after[i] != Cell::Unknown {
            let i = choose|i: int| 0 <= i < before.len() && before[i] == Cell::Unknown && after[i] != Cell::Unknown;
            if i < before.len() - 1 {
                assert(b[i] == Cell::Unknown && a[i] != Cell::Unknown);
            }
        }
    }
}

/// Numbers the lines of a grid: rows first, then columns.
#[derive(Debug, Clone, Copy)]
struct LineIdEncoder {
    height: usize,
}

/// A line number, decoded.
#[derive(Debug, Clone, Copy)]
enum Decode {
    Col(usize),
    Row(usize),
}

impl LineIdEncoder {
    fn new(grid: &Grid) -> (e: Self)
        requires
            grid.spec_width() > 0,
        ensures
            e.height == grid.spec_height(),
    {
        LineIdEncoder { height: grid.height() }
    }

    fn encode_row(&self, row: usize) -> (id: usize)
        ensures
            id == row,
    {
        row
    }

    fn encode_col(&self, col: usize) -> (id: usize)
        requires
            self.height + col <= usize::MAX,
        ensures
            id == self.height + col,
    {
        self.height + col
    }

    fn is_row(&self, line_id: usize) -> (r: bool)
        ensures
            r == (line_id < self.height),
    {
        line_id < self.height
    }

    fn decode(&self, line_id: usize) -> (d: Decode)
        ensures
            line_id < self.height ==> d == Decode::Row(line_id),
            line_id >= self.height ==> d == Decode::Col((line_id - self.height) as usize),
    {
        if self.is_row(line_id) {
            Decode::Row(line_id)
        } else {
            Decode::Col(line_id - self.height)
        }
    }
}


/// Index in the cell sequence of position `p` of line `id`.
pub open spec fn line_index(w: int, h: int, id: int, p: int) -> int {
    if id < h {
        cell_pos(w, id, p)
    } else {
        cell_pos(w, p, id - h)
    }
}

/// The line crossing line `id` at position `p`.
pub open spec fn cross_id(h: int, id: int, p: int) -> int {
    if id < h {
        h + p
    } else {
        p
    }
}

/// Length of line `id`.
pub open spec fn line_len(w: int, h: int, id: int) -> int {
    if id < h {
        w
    } else {
        h
    }
}

/// Cell positions of a line and of its crossing lines agree, and positions of
/// two lines coincide only where the lines cross.
proof fn lemma_line_index(w: int, h: int, id: int, p: int, id2: int, q: int)
    requires
        0 < w,
        0 <= h,
        0 <= id < w + h,
        0 <= id2 < w + h,
        0 <= p < line_len(w, h, id),
        0 <= q < line_len(w, h, id2),
    ensures
        0 <= line_index(w, h, id, p) < w * h,
        (id < h) == (id2 < h) ==> (line_index(w, h, id, p) == line_index(w, h, id2, q) <==> (id
            == id2 && p == q)),
        id < h && id2 >= h ==> (line_index(w, h, id, p) == line_index(w, h, id2, q) <==> (p == id2
            - h && q == id)),
        id >= h && id2 < h ==> (line_index(w, h, id, p) == line_index(w, h, id2, q) <==> (q == id
            - h && p == id2)),
{
    if id < h {
        lemma_cell_pos_bounds(w, h, id, p);
    } else {
        lemma_cell_pos_bounds(w, h, p, id - h);
    }
    if id2 < h {
        lemma_cell_pos_bounds(w, h, id2, q);
    } else {
        lemma_cell_pos_bounds(w, h, q, id2 - h);
    }
    if line_index(w, h, id, p) == line_index(w, h, id2, q) {
        if id < h && id2 < h {
            lemma_cell_pos_inj(w, id, p, id2, q);
        } else if id < h && id2 >= h {
            lemma_cell_pos_inj(w, id, p, q, id2 - h);
        } else if id >= h && id2 < h {
            lemma_cell_pos_inj(w, p, id - h, id2, q);
        } else {
            lemma_cell_pos_inj(w, p, id - h, q, id2 - h);
        }
    }
}


/// Writing one decided cell of line `id` back into the grid keeps the grid equal
/// to the original one, except at the written positions of the line.
proof fn lemma_writeback_step(
    before: Seq<Cell>,
    after: Seq<Cell>,
    g0: Seq<Cell>,
    nl: Seq<Cell>,
    taken: Seq<usize>,
    pos: usize,
    w: int,
    h: int,
    id: int,
)
    requires
        0 < w,
        0 <= h,
        0 <= id < w + h,
        nl.len() == line_len(w, h, id),
        nl.len() <= 64,
        pos < nl.len(),
        before.len() == g0.len() == w * h,
        after == before.update(line_index(w, h, id, pos as int), nl[pos as int]),
        forall|p: int|
            0 <= p < nl.len() ==> before[#[trigger] line_index(w, h, id, p)] == if taken.contains(
                p as usize,
            ) {
                nl[p]
            } else {
                g0[line_index(w, h, id, p)]
            },
        forall|i: int|
            0 <= i < g0.len() && (forall|p: int| 0 <= p < nl.len() ==> #[trigger] line_index(w, h, id, p) != i)
                ==> before[i] == g0[i],
    ensures
        after.len() == g0.len(),
        forall|p: int|
            0 <= p < nl.len() ==> after[#[trigger] line_index(w, h, id, p)] == if taken.push(pos).contains(
                p as usize,
            ) {
                nl[p]
            } else {
                g0[line_index(w, h, id, p)]
            },
        forall|i: int|
            0 <= i < g0.len() && (forall|p: int| 0 <= p < nl.len() ==> #[trigger] line_index(w, h, id, p) != i)
                ==> after[i] == g0[i],
{
    let i0 = line_index(w, h, id, pos as int);
    lemma_line_index(w, h, id, pos as int, id, pos as int);
    assert forall|p: int| 0 <= p < nl.len() implies after[#[trigger] line_index(w, h, id, p)] == if taken.push(
        pos,
    ).contains(p as usize) {
        nl[p]
    } else {
        g0[line_index(w, h, id, p)]
    } by {
        lemma_line_index(w, h, id, p, id, pos as int);
        super::line_solver::placement::lemma_push_contains(taken, pos, p as usize);
        if p != pos {
            assert(p as usize != pos);
        }
    }
    assert forall|i: int|
        0 <= i < g0.len() && (forall|p: int| 0 <= p < nl.len() ==> #[trigger] line_index(w, h, id, p) != i)
            implies after[i] == g0[i] by {
        assert(line_index(w, h, id, pos as int) != i);
    }
}

/// What one line step does to the grid: line `id` becomes `nl`, all other
/// cells stay.
pub open spec fn line_step(g: Grid, g2: Grid, id: int, nl: Seq<Cell>) -> bool {
    let w = g.spec_width() as int;
    let h = g.spec_height() as int;
    &&& g2.spec_width() == g.spec_width()
    &&& g2.spec_height() == g.spec_height()
    &&& g2.spec_cells().len() == g.spec_cells().len() == w * h
    &&& nl.len() == line_len(w, h, id)
    &&& forall|p: int| 0 <= p < nl.len() ==> g2.spec_cells()[#[trigger] line_index(w, h, id, p)] == nl[p]
    &&& forall|i: int|
        0 <= i < g.spec_cells().len() && (forall|p: int|
            0 <= p < nl.len() ==> #[trigger] line_index(w, h, id, p) != i) ==> g2.spec_cells()[i]
            == g.spec_cells()[i]
}

/// One propagation step: some line of `g` that the line solver accepts is
/// replaced by what the line solver makes of it.
pub open spec fn solver_step(g: Grid, g2: Grid, puzzle: Puzzle) -> bool {
    exists|id: int|
        0 <= id < g.spec_width() + g.spec_height() && (#[trigger] solve_line_spec(
            line_of(g, id),
            clue_of(puzzle, id),
        )) is Some && line_step(g, g2, id, solve_line_spec(line_of(g, id), clue_of(puzzle, id)).unwrap())
}

/// `gs` is a run of propagation steps, each grid the step of the one before.
pub open spec fn step_run(gs: Seq<Grid>, puzzle: Puzzle) -> bool {
    &&& gs.len() >= 1
    &&& forall|i: int| 0 <= i < gs.len() - 1 ==> solver_step(#[trigger] gs[i], gs[i + 1], puzzle)
}

/// `g` is reached from `g0` by propagation steps.
pub open spec fn propagated(g0: Grid, g: Grid, puzzle: Puzzle) -> bool {
    exists|gs: Seq<Grid>| #[trigger] step_run(gs, puzzle) && gs[0] == g0 && gs.last() == g
}

/// A grid of the puzzle's shape with every cell unknown.
pub open spec fn empty_grid(g: Grid, puzzle: Puzzle) -> bool {
    &&& grid_fits(g, puzzle)
    &&& forall|i: int| 0 <= i < g.spec_cells().len() ==> g.spec_cells()[i] == Cell::Unknown
}

/// A grid is reached from itself, and one more step extends a run.
proof fn lemma_propagated_step(g0: Grid, g: Grid, g2: Grid, puzzle: Puzzle)
    requires
        propagated(g0, g, puzzle),
        g2 == g || solver_step(g, g2, puzzle),
    ensures
        propagated(g0, g2, puzzle),
{
    let gs = choose|gs: Seq<Grid>| #[trigger] step_run(gs, puzzle) && gs[0] == g0 && gs.last() == g;
    if g2 != g {
        let gs2 = gs.push(g2);
        assert forall|i: int| 0 <= i < gs2.len() - 1 implies solver_step(#[trigger] gs2[i], gs2[i + 1], puzzle) by {
            if i < gs.len() - 1 {
                assert(gs2[i] == gs[i] && gs2[i + 1] == gs[i + 1]);
            } else {
                assert(gs2[i] == g);
            }
        }
        assert(step_run(gs2, puzzle) && gs2[0] == g0 && gs2.last() == g2);
    }
}

/// A grid is reached from itself.
proof fn lemma_propagated_refl(g: Grid, puzzle: Puzzle)
    ensures
        propagated(g, g, puzzle),
{
    let gs = seq![g];
    assert(step_run(gs, puzzle) && gs[0] == g && gs.last() == g);
}

/// Cell `q` of line `id` sits at `line_index(.., id, q)`.
proof fn lemma_line_of_index(g: Grid, id: int, q: int)
    requires
        g.wf(),
        g.spec_width() > 0,
        0 <= id < g.spec_width() + g.spec_height(),
        0 <= q < line_len(g.spec_width() as int, g.spec_height() as int, id),
    ensures
        line_of(g, id).len() == line_len(g.spec_width() as int, g.spec_height() as int, id),
        line_of(g, id)[q] == g.spec_cells()[line_index(
            g.spec_width() as int,
            g.spec_height() as int,
            id,
            q,
        )],
{
}

/// After a line step, line `id` reads `nl`, and another line changes only if
/// it crosses `id` at a decided cell.
proof fn lemma_step_lines(g: Grid, g2: Grid, id: int, ol: Seq<Cell>, nl: Seq<Cell>, changed: Seq<usize>)
    requires
        g.wf(),
        g2.wf(),
        0 < g.spec_width() <= 64,
        g.spec_height() <= 64,
        0 <= id < g.spec_width() + g.spec_height(),
        line_step(g, g2, id, nl),
        ol == line_of(g, id),
        lists_decided(changed, ol, nl),
        refines(nl, ol),
    ensures
        line_of(g2, id) == nl,
        refines(g2.spec_cells(), g.spec_cells()),
        changed.len() == 0 ==> g2.spec_cells() == g.spec_cells(),
        changed.len() > 0 ==> count_cell(g2.spec_cells(), Cell::Unknown) < count_cell(
            g.spec_cells(),
            Cell::Unknown,
        ),
        forall|id2: int|
            0 <= id2 < g.spec_width() + g.spec_height() && id2 != id && (forall|m: int|
                0 <= m < changed.len() ==> id2 != #[trigger] cross_id(
                    g.spec_height() as int,
                    id,
                    changed[m] as int,
                )) ==> line_of(g2, id2) == line_of(g, id2),
        forall|m: int|
            0 <= m < changed.len() ==> !complete(
                line_of(g, #[trigger] cross_id(g.spec_height() as int, id, changed[m] as int)),
            ),
{
    let w = g.spec_width() as int;
    let h = g.spec_height() as int;
    assert forall|q: int| 0 <= q < nl.len() implies #[trigger] line_of(g2, id)[q] == nl[q] by {
        lemma_line_of_index(g2, id, q);
    }
    assert(line_of(g2, id) =~= nl);
    assert forall|i: int| 0 <= i < g.spec_cells().len() && g.spec_cells()[i] != Cell::Unknown implies #[trigger] g2.spec_cells()[i]
        == g.spec_cells()[i] by {
        if exists|p: int| 0 <= p < nl.len() && #[trigger] line_index(w, h, id, p) == i {
            let p = choose|p: int| 0 <= p < nl.len() && #[trigger] line_index(w, h, id, p) == i;
            lemma_line_of_index(g, id, p);
        }
    }
    if changed.len() == 0 {
        assert forall|i: int| 0 <= i < g.spec_cells().len() implies #[trigger] g2.spec_cells()[i]
            == g.spec_cells()[i] by {
            if exists|p: int| 0 <= p < nl.len() && #[trigger] line_index(w, h, id, p) == i {
                let p = choose|p: int| 0 <= p < nl.len() && #[trigger] line_index(w, h, id, p) == i;
                lemma_line_of_index(g, id, p);
                assert((p as usize) as int == p);
                assert(!changed.contains(p as usize));
            }
        }
        assert(g2.spec_cells() =~= g.spec_cells());
    } else {
        let x = changed[0];
        assert(changed.contains(x));
        lemma_line_of_index(g, id, x as int);
        lemma_line_index(w, h, id, x as int, id, x as int);
        lemma_count_refines(g2.spec_cells(), g.spec_cells());
        assert(g.spec_cells()[line_index(w, h, id, x as int)] == Cell::Unknown);
    }
    assert forall|id2: int|
        0 <= id2 < w + h && id2 != id && (forall|m: int|
            0 <= m < changed.len() ==> id2 != #[trigger] cross_id(h, id, changed[m] as int)) implies line_of(
        g2,
        id2,
    ) == line_of(g, id2) by {
        assert forall|q: int| 0 <= q < line_len(w, h, id2) implies #[trigger] line_of(g2, id2)[q]
            == line_of(g, id2)[q] by {
            lemma_line_of_index(g, id2, q);
            lemma_line_of_index(g2, id2, q);
            let i = line_index(w, h, id2, q);
            lemma_line_index(w, h, id2, q, id2, q);
            if exists|p: int| 0 <= p < nl.len() && #[trigger] line_index(w, h, id, p) == i {
                let p = choose|p: int| 0 <= p < nl.len() && #[trigger] line_index(w, h, id, p) == i;
                lemma_line_index(w, h, id, p, id2, q);
                lemma_line_of_index(g, id, p);
                assert(cross_id(h, id, p) == id2);
                assert((p as usize) as int == p);
                if changed.contains(p as usize) {
                    let m = choose|m: int| 0 <= m < changed.len() && changed[m] == p as usize;
                    assert(id2 != cross_id(h, id, changed[m] as int));
                }
            }
        }
        assert(line_of(g2, id2) =~= line_of(g, id2));
    }
    assert forall|m: int| 0 <= m < changed.len() implies !complete(
        line_of(g, #[trigger] cross_id(h, id, changed[m] as int)),
    ) by {
        let p = changed[m] as int;
        assert(changed.contains(changed[m]));
        let id2 = cross_id(h, id, p);
        let q = if id < h { id } else { id - h };
        lemma_line_of_index(g, id, p);
        lemma_line_of_index(g, id2, q);
        lemma_line_index(w, h, id, p, id2, q);
        assert(line_of(g, id2)[q] == Cell::Unknown);
    }
}

/// The work queue of line numbers and the per-line flags.
#[derive(Debug)]
struct Propagator {
    id_encoder: LineIdEncoder,
    id_queue: VecDeque<usize>,
    in_id_queue: Vec<bool>,
    solved: Vec<bool>,
}

impl Propagator {
    /// The queue holds distinct line numbers below `n`, exactly those flagged.
    spec fn queue_ok(&self, n: int) -> bool {
        &&& n <= 128
        &&& self.in_id_queue@.len() == n
        &&& self.solved@.len() == n
        &&& self.id_queue@.no_duplicates()
        &&& forall|i: int| 0 <= i < self.id_queue@.len() ==> self.id_queue@[i] < n
        &&& forall|id: int| 0 <= id < n ==> self.in_id_queue@[id] == self.id_queue@.contains(id as usize)
    }

    /// Every line that is neither queued nor about to be is a line-solver output,
    /// and every solved line is complete and out of the queue.
    #[verifier::opaque]
    spec fn inv(&self, grid: Grid, puzzle: Puzzle) -> bool {
        let n = (grid.spec_width() + grid.spec_height()) as int;
        &&& grid_fits(grid, puzzle)
        &&& self.id_encoder.height == grid.spec_height()
        &&& self.queue_ok(n)
        &&& forall|id: int|
            0 <= id < n && self.solved@[id] ==> !self.in_id_queue@[id] && complete(line_of(grid, id))
        &&& forall|id: int|
            0 <= id < n && !self.in_id_queue@[id] ==> solver_output(line_of(grid, id), clue_of(puzzle, id))
    }

    fn new(grid: &Grid, puzzle: &Puzzle) -> (p: Self)
        requires
            grid_fits(*grid, *puzzle),
        ensures
            p.inv(*grid, *puzzle),
            forall|id: int| 0 <= id < grid.spec_width() + grid.spec_height() ==> p.in_id_queue@[id],
    {
        let id_encoder = LineIdEncoder::new(grid);
        let n_lines = grid.width() + grid.height();
        let mut id_queue: VecDeque<usize> = VecDeque::new();
        let mut i: usize = 0;
        while i < n_lines
            invariant
                i <= n_lines,
                id_queue@ =~= Seq::new(i as nat, |x: int| x as usize),
            decreases n_lines - i,
        {
            id_queue.push_back(i);
            i += 1;
        }
        let p = Propagator { id_encoder, id_queue, in_id_queue: vec![true; n_lines], solved: vec![false; n_lines] };
        proof {
            reveal(Propagator::inv);
            assert forall|id: int| 0 <= id < n_lines implies p.in_id_queue@[id] == p.id_queue@.contains(
                id as usize,
            ) by {
                assert(p.id_queue@[id] == id as usize);
            }
        }
        p
    }

    /// Queues line `line_id` unless it is solved or queued already.
    fn enqueue(&mut self, line_id: usize)
        requires
            old(self).queue_ok(old(self).in_id_queue@.len() as int),
            line_id < old(self).in_id_queue@.len(),
        ensures
            final(self).queue_ok(old(self).in_id_queue@.len() as int),
            final(self).solved == old(self).solved,
            final(self).id_encoder == old(self).id_encoder,
            final(self).id_queue@.len() <= old(self).id_queue@.len() + 1,
            forall|x: int|
                0 <= x < old(self).in_id_queue@.len() ==> #[trigger] final(self).in_id_queue@[x] == (old(
                    self,
                ).in_id_queue@[x] || (x == line_id && !old(self).solved@[x])),
    {
        let ghost n = self.in_id_queue@.len() as int;
        if self.solved[line_id] {
            return ;
        }
        if !self.in_id_queue[line_id] {
            proof {
                assert forall|x: usize| #[trigger] self.id_queue@.push(line_id).contains(x) == (
                self.id_queue@.contains(x) || x == line_id) by {
                    super::line_solver::placement::lemma_push_contains(self.id_queue@, line_id, x);
                }
                super::line_solver::placement::lemma_push_no_duplicates(self.id_queue@, line_id);
            }
            let ghost q0 = self.id_queue@;
            let ghost f0 = self.in_id_queue@;
            self.id_queue.push_back(line_id);
            self.in_id_queue.set(line_id, true);
            proof {
                assert forall|id: int| 0 <= id < n implies self.in_id_queue@[id] == self.id_queue@.contains(
                    id as usize,
                ) by {
                    super::line_solver::placement::lemma_push_contains(q0, line_id, id as usize);
                    if id as usize == line_id {
                        assert(id == line_id);
                    }
                }
            }
        }
    }

    /// Takes the next line off the queue.
    fn dequeue(&mut self) -> (r: Option<usize>)
        requires
            old(self).queue_ok(old(self).in_id_queue@.len() as int),
        ensures
            final(self).queue_ok(old(self).in_id_queue@.len() as int),
            final(self).solved == old(self).solved,
            final(self).id_encoder == old(self).id_encoder,
            r is None ==> old(self).id_queue@.len() == 0 && final(self).in_id_queue == old(self).in_id_queue
                && final(self).id_queue@ == old(self).id_queue@,
            r matches Some(id) ==> {
                &&& id < old(self).in_id_queue@.len()
                &&& old(self).in_id_queue@[id as int]
                &&& final(self).id_queue@.len() == old(self).id_queue@.len() - 1
                &&& forall|x: int|
                    0 <= x < old(self).in_id_queue@.len() ==> #[trigger] final(self).in_id_queue@[x] == (
                    old(self).in_id_queue@[x] && x != id)
            },
    {
        let ghost q0 = self.id_queue@;
        let popped = self.id_queue.pop_front();
        if let Some(line_id) = popped {
            proof {
                assert(q0[0] == line_id);
                assert(q0.contains(line_id));
                assert forall|x: usize| #[trigger] self.id_queue@.contains(x) == (q0.contains(x) && x != line_id) by {
                    if self.id_queue@.contains(x) {
                        let m = choose|m: int| 0 <= m < self.id_queue@.len() && self.id_queue@[m] == x;
                        assert(q0[m + 1] == x);
                    }
                    if q0.contains(x) && x != line_id {
                        let m = choose|m: int| 0 <= m < q0.len() && q0[m] == x;
                        assert(m != 0);
                        assert(self.id_queue@[m - 1] == x);
                    }
                }
            }
            self.in_id_queue.set(line_id, false);
        }
        popped
    }

    /// The line crossing `line_id` at `cell_pos`.
    fn get_cross_id(id_encoder: &LineIdEncoder, line_id: usize, cell_pos: usize) -> (r: usize)
        requires
            id_encoder.height + cell_pos <= usize::MAX,
        ensures
            r == cross_id(id_encoder.height as int, line_id as int, cell_pos as int),
    {
        if id_encoder.is_row(line_id) {
            let col = cell_pos;
            id_encoder.encode_col(col)
        } else {
            let row = cell_pos;
            id_encoder.encode_row(row)
        }
    }

    /// Queues the lines that cross `line_id` at the changed cells.
    fn enqueue_cross_lines(&mut self, line_id: usize, changed_cells: &[usize])
        requires
            old(self).queue_ok(old(self).in_id_queue@.len() as int),
            forall|m: int|
                0 <= m < changed_cells@.len() ==> cross_id(
                    old(self).id_encoder.height as int,
                    line_id as int,
                    #[trigger] changed_cells@[m] as int,
                ) < old(self).in_id_queue@.len(),
            old(self).in_id_queue@.len() <= 128,
            old(self).id_encoder.height <= old(self).in_id_queue@.len(),
        ensures
            final(self).queue_ok(old(self).in_id_queue@.len() as int),
            final(self).solved == old(self).solved,
            final(self).id_encoder == old(self).id_encoder,
            forall|x: int|
                0 <= x < old(self).in_id_queue@.len() ==> #[trigger] final(self).in_id_queue@[x] == (old(
                    self,
                ).in_id_queue@[x] || (!old(self).solved@[x] && exists|m: int|
                    0 <= m < changed_cells@.len() && x == cross_id(
                        old(self).id_encoder.height as int,
                        line_id as int,
                        #[trigger] changed_cells@[m] as int,
                    ))),
    {
        let ghost n = self.in_id_queue@.len() as int;
        let ghost q0 = self.in_id_queue@;
        let mut k: usize = 0;
        while k < changed_cells.len()
            invariant
                self.queue_ok(n),
                n == old(self).in_id_queue@.len() <= 128,
                self.id_encoder.height <= n,
                self.solved == old(self).solved,
                self.id_encoder == old(self).id_encoder,
                k <= changed_cells@.len(),
                forall|m: int|
                    0 <= m < changed_cells@.len() ==> cross_id(
                        self.id_encoder.height as int,
                        line_id as int,
                        #[trigger] changed_cells@[m] as int,
                    ) < n,
                forall|x: int|
                    0 <= x < n ==> #[trigger] self.in_id_queue@[x] == (q0[x] || (!self.solved@[x]
                        && exists|m: int|
                        0 <= m < k && x == cross_id(
                            self.id_encoder.height as int,
                            line_id as int,
                            #[trigger] changed_cells@[m] as int,
                        ))),
            decreases changed_cells@.len() - k,
        {
            let cell_pos = changed_cells[k];
            proof {
                assert(cross_id(self.id_encoder.height as int, line_id as int, changed_cells@[k as int] as int) < n);
                assert(self.id_encoder.height + cell_pos <= 256);
            }
            let cross_id_v = Self::get_cross_id(&self.id_encoder, line_id, cell_pos);
            let ghost before = self.in_id_queue@;
            self.enqueue(cross_id_v);
            proof {
                assert forall|x: int| 0 <= x < n implies #[trigger] self.in_id_queue@[x] == (q0[x] || (
                !self.solved@[x] && exists|m: int|
                    0 <= m < k + 1 && x == cross_id(
                        self.id_encoder.height as int,
                        line_id as int,
                        #[trigger] changed_cells@[m] as int,
                    ))) by {
                    if x == cross_id_v && !self.solved@[x] {
                        assert(x == cross_id(self.id_encoder.height as int, line_id as int, changed_cells@[k as int] as int));
                    }
                    if exists|m: int| 0 <= m < k + 1 && x == cross_id(
                        self.id_encoder.height as int,
                        line_id as int,
                        #[trigger] changed_cells@[m] as int,
                    ) {
                        let m = choose|m: int| 0 <= m < k + 1 && x == cross_id(
                            self.id_encoder.height as int,
                            line_id as int,
                            #[trigger] changed_cells@[m] as int,
                        );
                        if m < k {
                            assert(before[x] == (q0[x] || (!self.solved@[x] && exists|m: int|
                                0 <= m < k && x == cross_id(
                                    self.id_encoder.height as int,
                                    line_id as int,
                                    #[trigger] changed_cells@[m] as int,
                                ))));
                        }
                    }
                }
            }
            k += 1;
        }
    }

    /// Solves line `line_id` of `grid` and writes the decided cells back.
    /// Returns the decided positions and whether the line is now complete.
    fn solve_line(&self, grid: &mut Grid, puzzle: &Puzzle, line_id: usize) -> (r: Result<
        (Vec<usize>, bool),
        Contradiction,
    >)
        requires
            grid_fits(*old(grid), *puzzle),
            self.id_encoder.height == old(grid).spec_height(),
            line_id < old(grid).spec_width() + old(grid).spec_height(),
        ensures
            grid_fits(*final(grid), *puzzle),
            final(grid).spec_width() == old(grid).spec_width(),
            final(grid).spec_height() == old(grid).spec_height(),
            r is Ok <==> solve_line_spec(line_of(*old(grid), line_id as int), clue_of(*puzzle, line_id as int)) is Some,
            r is Err ==> *final(grid) == *old(grid),
            r matches Ok((changed, solved)) ==> {
                let w = old(grid).spec_width() as int;
                let h = old(grid).spec_height() as int;
                let ol = line_of(*old(grid), line_id as int);
                let nl = solve_line_spec(ol, clue_of(*puzzle, line_id as int)).unwrap();
                &&& nl.len() == ol.len() == line_len(w, h, line_id as int)
                &&& lists_decided(changed@, ol, nl)
                &&& refines(nl, ol)
                &&& solved == complete(nl)
                &&& final(grid).spec_cells().len() == old(grid).spec_cells().len()
                &&& forall|p: int|
                    0 <= p < nl.len() ==> final(grid).spec_cells()[#[trigger] line_index(w, h, line_id as int, p)]
                        == nl[p]
                &&& forall|i: int|
                    0 <= i < old(grid).spec_cells().len() && (forall|p: int|
                        0 <= p < nl.len() ==> #[trigger] line_index(w, h, line_id as int, p) != i)
                        ==> final(grid).spec_cells()[i] == old(grid).spec_cells()[i]
            },
    {
        let ghost g0 = *grid;
        let ghost w = grid.spec_width() as int;
        let ghost h = grid.spec_height() as int;
        let ghost ol = line_of(g0, line_id as int);
        proof {
            g0.lemma_wf();
        }
        let decoded = self.id_encoder.decode(line_id);
        let (mut line, blocks) = match decoded {
            Decode::Row(row) => {
                let line = LineBits::from_grid_row(grid, row);
                let blocks = puzzle.row_clues()[row].blocks();
                (line, blocks)
            },
            Decode::Col(col) => {
                let line = LineBits::from_grid_col(grid, col);
                let blocks = puzzle.col_clues()[col].blocks();
                (line, blocks)
            },
        };
        proof {
            assert(line@ == ol);
            assert(blocks@ == clue_of(*puzzle, line_id as int));
        }
        let changed_cells = match solve_line(&mut line, blocks) {
            Ok(c) => c,
            Err(e) => {
                return Err(e);
            },
        };
        let ghost nl = line@;
        let mut k: usize = 0;
        while k < changed_cells.len()
            invariant
                grid_fits(*grid, *puzzle),
                line.wf(),
                line@ == nl,
                nl.len() == ol.len() == line_len(w, h, line_id as int),
                w == grid.spec_width(),
                h == grid.spec_height(),
                w == g0.spec_width(),
                h == g0.spec_height(),
                line_id < w + h,
                self.id_encoder.height == h,
                decoded == (if line_id < h { Decode::Row(line_id) } else { Decode::Col((line_id - h) as usize) }),
                grid.spec_cells().len() == g0.spec_cells().len() == w * h,
                lists_decided(changed_cells@, ol, nl),
                k <= changed_cells@.len(),
                forall|p: int|
                    0 <= p < nl.len() ==> grid.spec_cells()[#[trigger] line_index(w, h, line_id as int, p)]
                        == if changed_cells@.take(k as int).contains(p as usize) {
                        nl[p]
                    } else {
                        g0.spec_cells()[line_index(w, h, line_id as int, p)]
                    },
                forall|i: int|
                    0 <= i < g0.spec_cells().len() && (forall|p: int|
                        0 <= p < nl.len() ==> #[trigger] line_index(w, h, line_id as int, p) != i)
                        ==> grid.spec_cells()[i] == g0.spec_cells()[i],
            decreases changed_cells@.len() - k,
        {
            let pos = changed_cells[k];
            proof {
                assert(changed_cells@.contains(pos));
                assert(pos < ol.len());
                assert(nl.len() <= 64);
            }
            let (row, col) = match decoded {
                Decode::Row(row) => (row, pos),
                Decode::Col(col) => (pos, col),
            };
            let ghost gb = grid.spec_cells();
            let value = line.cell(pos);
            grid.set_cell(row, col, value);
            proof {
                assert(cell_pos(w, row as int, col as int) == line_index(w, h, line_id as int, pos as int));
                assert(changed_cells@.take(k + 1) =~= changed_cells@.take(k as int).push(pos));
                lemma_writeback_step(
                    gb,
                    grid.spec_cells(),
                    g0.spec_cells(),
                    nl,
                    changed_cells@.take(k as int),
                    pos,
                    w,
                    h,
                    line_id as int,
                );
            }
            k += 1;
        }
        proof {
            assert(changed_cells@.take(changed_cells@.len() as int) =~= changed_cells@);
            assert forall|p: int| 0 <= p < nl.len() implies grid.spec_cells()[#[trigger] line_index(
                w,
                h,
                line_id as int,
                p,
            )] == nl[p] by {
                assert((p as usize) as int == p);
                if !changed_cells@.contains(p as usize) {
                    assert(ol[p] == g0.spec_cells()[line_index(w, h, line_id as int, p)]);
                }
            }
        }
        let solved = line.is_solved();
        Ok((changed_cells, solved))
    }
}


/// The lines crossing line `id` at its decided cells are valid line numbers
/// other than `id`.
proof fn lemma_cross_bounds(w: int, h: int, id: int, ol: Seq<Cell>, nl: Seq<Cell>, changed: Seq<usize>)
    requires
        0 < w,
        0 <= h,
        0 <= id < w + h,
        ol.len() == line_len(w, h, id),
        lists_decided(changed, ol, nl),
    ensures
        forall|m: int|
            0 <= m < changed.len() ==> 0 <= #[trigger] cross_id(h, id, changed[m] as int) < w + h
                && cross_id(h, id, changed[m] as int) != id,
{
    assert forall|m: int| 0 <= m < changed.len() implies 0 <= #[trigger] cross_id(
        h,
        id,
        changed[m] as int,
    ) < w + h && cross_id(h, id, changed[m] as int) != id by {
        assert(changed.contains(changed[m]));
    }
}

impl Propagator {
    /// One round of `reduce` keeps the invariant: the solved line is a
    /// line-solver output, the lines crossing its decided cells are queued, and
    /// every other line is unchanged.
    proof fn lemma_reduce_step(
        pre: Propagator,
        post: Propagator,
        g0: Grid,
        gb: Grid,
        g2: Grid,
        puzzle: Puzzle,
        id: int,
        ol: Seq<Cell>,
        nl: Seq<Cell>,
        changed: Seq<usize>,
    )
        requires
            pre.inv(gb, puzzle),
            grid_refines(gb, g0),
            0 <= id < gb.spec_width() + gb.spec_height(),
            pre.in_id_queue@[id],
            grid_fits(g2, puzzle),
            post.queue_ok((gb.spec_width() + gb.spec_height()) as int),
            post.id_encoder == pre.id_encoder,
            line_step(gb, g2, id, nl),
            ol == line_of(gb, id),
            solve_line_spec(ol, clue_of(puzzle, id)) == Some(nl),
            lists_decided(changed, ol, nl),
            refines(nl, ol),
            forall|x: int|
                0 <= x < gb.spec_width() + gb.spec_height() ==> #[trigger] post.in_id_queue@[x] == ((
                pre.in_id_queue@[x] && x != id) || (!pre.solved@[x] && exists|m: int|
                    0 <= m < changed.len() && x == #[trigger] cross_id(
                        gb.spec_height() as int,
                        id,
                        changed[m] as int,
                    ))),
            forall|x: int|
                0 <= x < gb.spec_width() + gb.spec_height() ==> #[trigger] post.solved@[x] == (
                pre.solved@[x] || (x == id && complete(nl))),
        ensures
            post.inv(g2, puzzle),
            grid_refines(g2, g0),
            changed.len() == 0 ==> g2.spec_cells() == gb.spec_cells(),
            changed.len() > 0 ==> grid_unknowns(g2) < grid_unknowns(gb),
    {
        reveal(Propagator::inv);
        let n = (gb.spec_width() + gb.spec_height()) as int;
        let h = gb.spec_height() as int;
        lemma_step_lines(gb, g2, id, ol, nl, changed);
        lemma_cross_bounds(gb.spec_width() as int, h, id, ol, nl, changed);
        assert forall|x: int| 0 <= x < n && !post.in_id_queue@[x] implies solver_output(
            line_of(g2, x),
            clue_of(puzzle, x),
        ) by {
            if x == id {
                assert(solve_line_spec(ol, clue_of(puzzle, id)) == Some(nl));
            } else if exists|m: int|
                0 <= m < changed.len() && x == #[trigger] cross_id(h, id, changed[m] as int) {
                let m = choose|m: int| 0 <= m < changed.len() && x == #[trigger] cross_id(h, id, changed[m] as int);
                assert(!complete(line_of(gb, cross_id(h, id, changed[m] as int))));
            } else {
                assert(line_of(g2, x) == line_of(gb, x));
            }
        }
        assert forall|x: int| 0 <= x < n && post.solved@[x] implies !post.in_id_queue@[x] && complete(
            line_of(g2, x),
        ) by {
            if x != id {
                if exists|m: int|
                    0 <= m < changed.len() && x == #[trigger] cross_id(h, id, changed[m] as int) {
                    let m = choose|m: int|
                        0 <= m < changed.len() && x == #[trigger] cross_id(h, id, changed[m] as int);
                    assert(!complete(line_of(gb, cross_id(h, id, changed[m] as int))));
                }
                assert(line_of(g2, x) == line_of(gb, x));
            }
        }
    }

    /// Takes the next line off the queue and solves it: `None` when the queue
    /// is empty, an error when the line solver rejects the line.
    fn step(&mut self, grid: &mut Grid, puzzle: &Puzzle) -> (r: Option<Result<(), Contradiction>>)
        requires
            old(self).inv(*old(grid), *puzzle),
        ensures
            grid_fits(*final(grid), *puzzle),
            final(grid).spec_width() == old(grid).spec_width(),
            final(grid).spec_height() == old(grid).spec_height(),
            r is None ==> *final(grid) == *old(grid) && forall|id: int|
                0 <= id < old(grid).spec_width() + old(grid).spec_height() ==> solver_output(
                    #[trigger] line_of(*final(grid), id),
                    clue_of(*puzzle, id),
                ),
            r matches Some(Err(_)) ==> *final(grid) == *old(grid) && exists|id: int|
                0 <= id < old(grid).spec_width() + old(grid).spec_height() && (#[trigger] solve_line_spec(
                    line_of(*final(grid), id),
                    clue_of(*puzzle, id),
                )) is None,
            forall|g: Grid|
                placed_solution(g, *puzzle) && grid_refines(g, *old(grid)) ==> !(r matches Some(Err(_)))
                    && grid_refines(g, *final(grid)),
            r matches Some(Ok(_)) ==> {
                &&& final(self).inv(*final(grid), *puzzle)
                &&& grid_refines(*final(grid), *old(grid))
                &&& (*final(grid) == *old(grid) || solver_step(*old(grid), *final(grid), *puzzle))
                &&& (grid_unknowns(*final(grid)) < grid_unknowns(*old(grid)) || (final(grid).spec_cells()
                    == old(grid).spec_cells() && final(self).id_queue@.len() < old(self).id_queue@.len()))
            },
    {
        let ghost pre = *self;
        let ghost gb = *grid;
        let ghost n = (gb.spec_width() + gb.spec_height()) as int;
        assert(pre.queue_ok(n) && pre.id_encoder.height == gb.spec_height() && grid_fits(gb, *puzzle)) by {
            reveal(Propagator::inv);
        }
        let popped = self.dequeue();
        let line_id = match popped {
            None => {
                assert forall|id: int| 0 <= id < n implies solver_output(
                    #[trigger] line_of(*grid, id),
                    clue_of(*puzzle, id),
                ) by {
                    reveal(Propagator::inv);
                    assert(pre.id_queue@.len() == 0);
                    assert(!pre.id_queue@.contains(id as usize));
                    assert(!pre.in_id_queue@[id]);
                }
                return None;
            },
            Some(id) => id,
        };
        assert(!pre.solved@[line_id as int]) by {
            reveal(Propagator::inv);
        }
        if self.solved[line_id] {
            proof {
                reveal(Propagator::inv);
            }
            return Some(Ok(()));
        }
        let ghost ol = line_of(gb, line_id as int);
        let ghost b = clue_of(*puzzle, line_id as int);
        let (changed_cells, solved) = match self.solve_line(grid, puzzle, line_id) {
            Ok(x) => x,
            Err(e) => {
                assert(solve_line_spec(line_of(*grid, line_id as int), b) is None);
                proof {
                    assert forall|g: Grid| placed_solution(g, *puzzle) && grid_refines(g, gb) implies false by {
                        lemma_solution_line(g, gb, *puzzle, line_id as int);
                    }
                }
                return Some(Err(e));
            },
        };
        let ghost nl = solve_line_spec(ol, b).unwrap();
        proof {
            gb.lemma_wf();
            lemma_cross_bounds(gb.spec_width() as int, gb.spec_height() as int, line_id as int, ol, nl, changed_cells@);
        }
        if changed_cells.len() > 0 {
            self.enqueue_cross_lines(line_id, changed_cells.as_slice());
        }
        if solved {
            self.solved.set(line_id, true);
        }
        proof {
            assert(line_step(gb, *grid, line_id as int, nl));
            assert(solver_step(gb, *grid, *puzzle));
            assert forall|g: Grid| placed_solution(g, *puzzle) && grid_refines(g, gb) implies grid_refines(g, *grid) by {
                lemma_step_keeps(g, gb, *grid, *puzzle, line_id as int, nl);
            }
            grid_refines_refl(gb);
            Self::lemma_reduce_step(pre, *self, gb, gb, *grid, *puzzle, line_id as int, ol, nl, changed_cells@);
            reveal(Propagator::inv);
        }
        Some(Ok(()))
    }

    /// Solves queued lines until the queue runs dry or a line is rejected.
    fn reduce(&mut self, grid: &mut Grid, puzzle: &Puzzle) -> (r: Result<(), Contradiction>)
        requires
            old(self).inv(*old(grid), *puzzle),
        ensures
            grid_fits(*final(grid), *puzzle),
            grid_refines(*final(grid), *old(grid)),
            r is Ok ==> forall|id: int|
                0 <= id < old(grid).spec_width() + old(grid).spec_height() ==> solver_output(
                    #[trigger] line_of(*final(grid), id),
                    clue_of(*puzzle, id),
                ),
            r is Err ==> exists|id: int|
                0 <= id < old(grid).spec_width() + old(grid).spec_height() && (#[trigger] solve_line_spec(
                    line_of(*final(grid), id),
                    clue_of(*puzzle, id),
                )) is None,
            forall|g: Grid|
                placed_solution(g, *puzzle) && grid_refines(g, *old(grid)) ==> r is Ok && grid_refines(g, *final(grid)),
            r is Ok ==> propagated(*old(grid), *final(grid), *puzzle),
    {
        let ghost g0 = *grid;
        proof {
            grid_refines_refl(g0);
            lemma_propagated_refl(g0, *puzzle);
            reveal(Propagator::inv);
        }
        loop
            invariant
                self.inv(*grid, *puzzle),
                grid_fits(*grid, *puzzle),
                g0 == *old(grid),
                grid_refines(*grid, g0),
                forall|g: Grid| placed_solution(g, *puzzle) && grid_refines(g, g0) ==> grid_refines(g, *grid),
                propagated(g0, *grid, *puzzle),
            decreases grid_unknowns(*grid), self.id_queue@.len(),
        {
            let ghost gb = *grid;
            match self.step(grid, puzzle) {
                None => {
                    return Ok(());
                },
                Some(Err(e)) => {
                    return Err(e);
                },
                Some(Ok(())) => {
                    proof {
                        grid_refines_trans(*grid, gb, g0);
                        lemma_propagated_step(g0, gb, *grid, *puzzle);
                    }
                },
            }
        }
    }
}

/// A grid refines itself.
proof fn grid_refines_refl(g: Grid)
    ensures
        grid_refines(g, g),
{
}

/// Refinement of grids is transitive.
proof fn grid_refines_trans(a: Grid, b: Grid, c: Grid)
    requires
        grid_refines(a, b),
        grid_refines(b, c),
    ensures
        grid_refines(a, c),
{
}

/// Runs constraint propagation on `grid`: every row and column is solved in
/// turn, and the lines crossing a newly decided cell are solved again, until
/// nothing changes. Fails when the line solver rejects a line.
pub fn reduce(grid: &mut Grid, puzzle: &Puzzle) -> (r: Result<(), Contradiction>)
    requires
        grid_fits(*old(grid), *puzzle),
    ensures
        grid_fits(*final(grid), *puzzle),
        grid_refines(*final(grid), *old(grid)),
        r is Ok ==> forall|id: int|
            0 <= id < old(grid).spec_width() + old(grid).spec_height() ==> solver_output(
                #[trigger] line_of(*final(grid), id),
                clue_of(*puzzle, id),
            ),
        r is Err ==> exists|id: int|
            0 <= id < old(grid).spec_width() + old(grid).spec_height() && (#[trigger] solve_line_spec(
                line_of(*final(grid), id),
                clue_of(*puzzle, id),
            )) is None,
        forall|g: Grid|
            placed_solution(g, *puzzle) && grid_refines(g, *old(grid)) ==> r is Ok && grid_refines(g, *final(grid)),
        r is Ok ==> propagated(*old(grid), *final(grid), *puzzle),
{
    let mut propagator = Propagator::new(grid, puzzle);
    propagator.reduce(grid, puzzle)
}

/// Propagation as a yes/no answer: `true` when every line was accepted.
pub fn propagate(grid: &mut Grid, puzzle: &Puzzle) -> (ok: bool)
    requires
        grid_fits(*old(grid), *puzzle),
    ensures
        grid_fits(*final(grid), *puzzle),
        grid_refines(*final(grid), *old(grid)),
        ok ==> forall|id: int|
            0 <= id < old(grid).spec_width() + old(grid).spec_height() ==> solver_output(
                #[trigger] line_of(*final(grid), id),
                clue_of(*puzzle, id),
            ),
        !ok ==> exists|id: int|
            0 <= id < old(grid).spec_width() + old(grid).spec_height() && (#[trigger] solve_line_spec(
                line_of(*final(grid), id),
                clue_of(*puzzle, id),
            )) is None,
        forall|g: Grid|
            placed_solution(g, *puzzle) && grid_refines(g, *old(grid)) ==> ok && grid_refines(g, *final(grid)),
        ok ==> propagated(*old(grid), *final(grid), *puzzle),
{
    reduce(grid, puzzle).is_ok()
}

} // verus!
