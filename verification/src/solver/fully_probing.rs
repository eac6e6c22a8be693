//! Fully probing: try each value of each undecided cell, propagate, and keep
//! what every surviving probe agrees on.
use std::collections::VecDeque;

use vstd::prelude::*;

use super::line_solver::placement::{lemma_push_contains, lemma_push_no_duplicates};
use super::line_solver::{refines, solve_line_spec};
use super::propagation::{
    clue_of, empty_grid, grid_fits, grid_refines, grid_unknowns, lemma_count_refines, line_of, lines_accepted,
    placed_solution, propagate, propagated, solver_step, step_run,
};
use super::{grid_complete, puzzle_fits};
use crate::types::{cell_pos, lemma_cell_pos_bounds, lemma_cell_pos_onto, Cell, Grid, Puzzle};

verus! {

/// Cell index of a literal.
pub open spec fn lit_cell(l: int) -> int {
    l / 2
}

/// Value a literal gives its cell: even literals blank, odd ones filled.
pub open spec fn lit_value(l: int) -> Cell {
    if l % 2 == 0 {
        Cell::Blank
    } else {
        Cell::Filled
    }
}

/// The literal giving cell `cell` the decided value `v`.
pub open spec fn lit_of(cell: int, v: Cell) -> int {
    cell * 2 + if v == Cell::Filled {
        1int
    } else {
        0int
    }
}

/// A literal and its complement name the same cell with the other value.
pub proof fn lemma_literal_roundtrip(cell: int, v: Cell)
    requires
        0 <= cell,
        v != Cell::Unknown,
    ensures
        lit_cell(lit_of(cell, v)) == cell,
        lit_value(lit_of(cell, v)) == v,
        lit_of(lit_cell(lit_of(cell, v)), lit_value(lit_of(cell, v))) == lit_of(cell, v),
{
}

/// The literal of the same cell with the other value.
pub open spec fn lit_complement(l: int) -> int {
    if l % 2 == 0 {
        l + 1
    } else {
        l - 1
    }
}

/// Complementing a literal keeps its cell, flips its value, and undoes
/// itself.
pub proof fn lemma_complement_involution(l: int)
    requires
        0 <= l,
    ensures
        lit_complement(l) >= 0,
        lit_cell(lit_complement(l)) == lit_cell(l),
        lit_value(lit_complement(l)) != lit_value(l),
        lit_complement(lit_complement(l)) == l,
{
}

/// Every literal is the literal of its own cell and value.
pub proof fn lemma_literal_decode(l: int)
    requires
        0 <= l,
    ensures
        lit_of(lit_cell(l), lit_value(l)) == l,
        lit_cell(l) >= 0,
{
}

/// Numbers the literals "cell is blank" and "cell is filled" of a grid.
#[derive(Debug, Clone, Copy)]
struct LiteralCodec {
    width: usize,
    height: usize,
}

impl LiteralCodec {
    fn new(grid: &Grid) -> (c: Self)
        requires
            grid.spec_width() > 0,
        ensures
            c.width == grid.spec_width(),
            c.height == grid.spec_height(),
    {
        LiteralCodec { width: grid.width(), height: grid.height() }
    }

    fn literal_count(&self) -> (n: usize)
        requires
            self.width * self.height * 2 <= usize::MAX,
        ensures
            n == self.width * self.height * 2,
    {
        self.width * self.height * 2
    }

    fn cell_index(&self, row: usize, col: usize) -> (i: usize)
        requires
            row < self.height,
            col < self.width,
            self.width * self.height <= usize::MAX,
        ensures
            i == cell_pos(self.width as int, row as int, col as int),
    {
        proof {
            lemma_cell_pos_bounds(self.width as int, self.height as int, row as int, col as int);
        }
        row * self.width + col
    }

    fn encode(&self, cell: usize, value: Cell) -> (l: usize)
        requires
            value != Cell::Unknown,
            cell * 2 + 1 <= usize::MAX,
        ensures
            l == lit_of(cell as int, value),
    {
        let bit: usize = match value {
            Cell::Blank => 0,
            Cell::Filled => 1,
            Cell::Unknown => 0,
        };
        cell * 2 + bit
    }

    fn decode(&self, literal: usize) -> (r: (usize, usize, Cell))
        requires
            self.width > 0,
        ensures
            r.0 == lit_cell(literal as int) / (self.width as int),
            r.1 == lit_cell(literal as int) % (self.width as int),
            r.2 == lit_value(literal as int),
    {
        let cell = literal / 2;
        let row = cell / self.width;
        let col = cell % self.width;
        let value = if literal % 2 == 0 {
            Cell::Blank
        } else {
            Cell::Filled
        };
        (row, col, value)
    }

    fn complement(&self, literal: usize) -> (r: usize)
        ensures
            r == lit_complement(literal as int),
            lit_cell(r as int) == lit_cell(literal as int),
            lit_value(r as int) != lit_value(literal as int),
    {
        let r = literal ^ 1;
        assert(r == if literal % 2 == 0 {
            literal + 1
        } else {
            literal - 1
        }) by (bit_vector)
            requires
                r == literal ^ 1,
        ;
        r
    }
}

/// Appends `value` unless it is present already; tells whether it did.
fn push_unique(values: &mut Vec<usize>, value: usize) -> (added: bool)
    ensures
        added == !old(values)@.contains(value),
        final(values)@ == if added {
            old(values)@.push(value)
        } else {
            old(values)@
        },
{
    let mut i: usize = 0;
    while i < values.len()
        invariant
            i <= values@.len(),
            forall|j: int| 0 <= j < i ==> values@[j] != value,
        decreases values@.len() - i,
    {
        if values[i] == value {
            return false;
        }
        i += 1;
    }
    values.push(value);
    true
}

/// Indices of the unknown cells, in increasing order.
fn collect_unknown_cells(grid: &Grid) -> (v: Vec<usize>)
    requires
        grid.wf(),
        grid.spec_width() > 0,
    ensures
        forall|i: int, j: int| 0 <= i < j < v@.len() ==> v@[i] < v@[j],
        forall|x: usize|
            #[trigger] v@.contains(x) <==> (x < grid.spec_cells().len() && grid.spec_cells()[x as int] == Cell::Unknown),
{
    let h = grid.height();
    let w = grid.width();
    let ghost cells = grid.spec_cells();
    proof {
        grid.lemma_wf();
    }
    let mut v: Vec<usize> = Vec::new();
    let mut row: usize = 0;
    while row < h
        invariant
            w == grid.spec_width() > 0,
            h == grid.spec_height(),
            cells == grid.spec_cells(),
            cells.len() == w * h,
            cells.len() <= usize::MAX,
            grid.wf(),
            row <= h,
            forall|i: int, j: int| 0 <= i < j < v@.len() ==> v@[i] < v@[j],
            forall|i: int| 0 <= i < v@.len() ==> v@[i] < row * w,
            forall|x: usize| v@.contains(x) <==> (x < row * w && cells[x as int] == Cell::Unknown),
        decreases h - row,
    {
        let mut col: usize = 0;
        while col < w
            invariant
                w == grid.spec_width() > 0,
                h == grid.spec_height(),
                cells == grid.spec_cells(),
                cells.len() == w * h,
                cells.len() <= usize::MAX,
                grid.wf(),
                row < h,
                col <= w,
                forall|i: int, j: int| 0 <= i < j < v@.len() ==> v@[i] < v@[j],
                forall|i: int| 0 <= i < v@.len() ==> v@[i] < row * w + col,
                forall|x: usize| v@.contains(x) <==> (x < row * w + col && cells[x as int] == Cell::Unknown),
            decreases w - col,
        {
            proof {
                lemma_cell_pos_bounds(w as int, h as int, row as int, col as int);
                assert(row * w <= row * w + col);
            }
            if *grid.cell(row, col) == Cell::Unknown {
                let x = row * w + col;
                let ghost v0 = v@;
                v.push(x);
                proof {
                    assert forall|y: usize| v@.contains(y) <==> (y < row * w + col + 1 && cells[y as int]
                        == Cell::Unknown) by {
                        lemma_push_contains(v0, x, y);
                    }
                }
            } else {
                proof {
                    assert forall|y: usize| v@.contains(y) <==> (y < row * w + col + 1 && cells[y as int]
                        == Cell::Unknown) by {
                        if y == row * w + col {
                            assert(cells[y as int] == grid.at(row as int, col as int));
                        }
                    }
                }
            }
            col += 1;
        }
        proof {
            assert((row + 1) * w == row * w + w) by (nonlinear_arith);
        }
        row += 1;
    }
    proof {
        assert(h * w == w * h) by (nonlinear_arith);
    }
    v
}

/// Among the first `k` literals, one disagrees with a decided cell of
/// `cells`, or two give the same cell different values.
pub open spec fn lits_conflict_upto(cells: Seq<Cell>, lits: Seq<usize>, k: int) -> bool {
    ||| exists|a: int|
        0 <= a < k && cells[lit_cell(lits[a] as int)] != Cell::Unknown && #[trigger] cells[lit_cell(
            lits[a] as int,
        )] != lit_value(lits[a] as int)
    ||| exists|a: int, b: int|
        0 <= a < b < k && #[trigger] lit_cell(lits[a] as int) == #[trigger] lit_cell(lits[b] as int)
            && lits[a] != lits[b]
}

/// Some literal of `lits` disagrees with `cells` or with another literal.
pub open spec fn lits_conflict(cells: Seq<Cell>, lits: Seq<usize>) -> bool {
    lits_conflict_upto(cells, lits, lits.len() as int)
}

/// `after` is `before` with every literal of `lits` applied.
pub open spec fn lits_applied(after: Seq<Cell>, before: Seq<Cell>, lits: Seq<usize>) -> bool {
    &&& after.len() == before.len()
    &&& forall|a: int|
        0 <= a < lits.len() ==> after[lit_cell(#[trigger] lits[a] as int)] == lit_value(lits[a] as int)
    &&& forall|i: int|
        0 <= i < before.len() && (forall|a: int| 0 <= a < lits.len() ==> lit_cell(#[trigger] lits[a] as int) != i)
            ==> after[i] == before[i]
}

/// Two literals with the same cell and value are equal.
proof fn lemma_literal_inj(x: int, y: int)
    requires
        0 <= x,
        0 <= y,
        lit_cell(x) == lit_cell(y),
        lit_value(x) == lit_value(y),
    ensures
        x == y,
{
}

/// Applies the literals to the grid in order: an unknown cell takes the
/// literal's value, a cell with that value already stays, any other cell is
/// a conflict.
fn apply_literals(grid: &mut Grid, literals: &[usize], codec: &LiteralCodec) -> (r: Option<()>)
    requires
        old(grid).wf(),
        old(grid).spec_width() > 0,
        codec.width == old(grid).spec_width(),
        codec.height == old(grid).spec_height(),
        forall|a: int| 0 <= a < literals@.len() ==> lit_cell(#[trigger] literals@[a] as int) < old(grid).spec_cells().len(),
    ensures
        final(grid).wf(),
        final(grid).spec_width() == old(grid).spec_width(),
        final(grid).spec_height() == old(grid).spec_height(),
        r is None <==> lits_conflict(old(grid).spec_cells(), literals@),
        r is Some ==> lits_applied(final(grid).spec_cells(), old(grid).spec_cells(), literals@),
{
    let ghost c0 = grid.spec_cells();
    let ghost w = grid.spec_width() as int;
    let ghost h = grid.spec_height() as int;
    let ghost lits = literals@;
    proof {
        grid.lemma_wf();
    }
    let mut k: usize = 0;
    while k < literals.len()
        invariant
            grid.wf(),
            w == grid.spec_width() == codec.width == old(grid).spec_width(),
            h == grid.spec_height() == codec.height == old(grid).spec_height(),
            c0 == old(grid).spec_cells(),
            w > 0,
            c0.len() == w * h,
            grid.spec_cells().len() == c0.len(),
            lits == literals@,
            k <= lits.len(),
            forall|a: int| 0 <= a < lits.len() ==> lit_cell(#[trigger] lits[a] as int) < c0.len(),
            !lits_conflict_upto(c0, lits, k as int),
            forall|a: int|
                0 <= a < k ==> grid.spec_cells()[lit_cell(#[trigger] lits[a] as int)] == lit_value(lits[a] as int),
            forall|i: int|
                0 <= i < c0.len() && (forall|a: int| 0 <= a < k ==> lit_cell(#[trigger] lits[a] as int) != i)
                    ==> grid.spec_cells()[i] == c0[i],
        decreases lits.len() - k,
    {
        let literal = literals[k];
        let (row, col, value) = codec.decode(literal);
        let ghost c = lit_cell(literal as int);
        proof {
            assert(0 <= c < c0.len());
            lemma_cell_pos_onto(w, h, c);
        }
        let current = *grid.cell(row, col);
        let ghost cur = grid.spec_cells();
        if current == Cell::Unknown {
            proof {
                assert forall|a: int| 0 <= a < k implies lit_cell(#[trigger] lits[a] as int) != c by {
                    if lit_cell(lits[a] as int) == c {
                        assert(cur[lit_cell(lits[a] as int)] == lit_value(lits[a] as int));
                    }
                }
                assert(c0[c] == Cell::Unknown);
            }
            grid.set_cell(row, col, value);
            proof {
                assert forall|i: int|
                    0 <= i < c0.len() && (forall|a: int| 0 <= a < k + 1 ==> lit_cell(#[trigger] lits[a] as int) != i)
                        implies grid.spec_cells()[i] == c0[i] by {
                    assert(lit_cell(lits[k as int] as int) != i);
                }
                assert(!lits_conflict_upto(c0, lits, k + 1)) by {
                    if exists|a: int, b: int|
                        0 <= a < b < k + 1 && #[trigger] lit_cell(lits[a] as int) == #[trigger] lit_cell(
                            lits[b] as int,
                        ) && lits[a] != lits[b] {
                        let (a, b) = choose|a: int, b: int|
                            0 <= a < b < k + 1 && #[trigger] lit_cell(lits[a] as int) == #[trigger] lit_cell(
                                lits[b] as int,
                            ) && lits[a] != lits[b];
                        assert(b == k);
                    }
                }
            }
        } else if current == value {
            proof {
                assert(!lits_conflict_upto(c0, lits, k + 1)) by {
                    if exists|a: int, b: int|
                        0 <= a < b < k + 1 && #[trigger] lit_cell(lits[a] as int) == #[trigger] lit_cell(
                            lits[b] as int,
                        ) && lits[a] != lits[b] {
                        let (a, b) = choose|a: int, b: int|
                            0 <= a < b < k + 1 && #[trigger] lit_cell(lits[a] as int) == #[trigger] lit_cell(
                                lits[b] as int,
                            ) && lits[a] != lits[b];
                        assert(b == k);
                        lemma_literal_inj(lits[a] as int, lits[b] as int);
                    }
                    if exists|a: int|
                        0 <= a < k + 1 && c0[lit_cell(lits[a] as int)] != Cell::Unknown && #[trigger] c0[lit_cell(
                            lits[a] as int,
                        )] != lit_value(lits[a] as int) {
                        let a = choose|a: int|
                            0 <= a < k + 1 && c0[lit_cell(lits[a] as int)] != Cell::Unknown && #[trigger] c0[lit_cell(
                                lits[a] as int,
                            )] != lit_value(lits[a] as int);
                        assert(a == k);
                        if exists|a2: int| 0 <= a2 < k && lit_cell(#[trigger] lits[a2] as int) == c {
                            let a2 = choose|a2: int| 0 <= a2 < k && lit_cell(#[trigger] lits[a2] as int) == c;
                            lemma_literal_inj(lits[a2] as int, lits[k as int] as int);
                        }
                    }
                }
            }
        } else {
            proof {
                if exists|a2: int| 0 <= a2 < k && lit_cell(#[trigger] lits[a2] as int) == c {
                    let a2 = choose|a2: int| 0 <= a2 < k && lit_cell(#[trigger] lits[a2] as int) == c;
                    assert(lits[a2] != lits[k as int]);
                    assert(lit_cell(lits[a2] as int) == lit_cell(lits[k as int] as int));
                } else {
                    assert(cur[c] == c0[c]);
                    assert(c0[lit_cell(lits[k as int] as int)] != lit_value(lits[k as int] as int));
                }
            }
            return None;
        }
        k += 1;
    }
    Some(())
}

/// Applying literals without conflict keeps every decided cell.
proof fn lemma_applied_refines(after: Seq<Cell>, before: Seq<Cell>, lits: Seq<usize>)
    requires
        lits_applied(after, before, lits),
        !lits_conflict(before, lits),
        forall|a: int| 0 <= a < lits.len() ==> lit_cell(#[trigger] lits[a] as int) < before.len(),
    ensures
        refines(after, before),
{
    assert forall|i: int| 0 <= i < before.len() && before[i] != Cell::Unknown implies after[i] == before[i] by {
        if exists|a: int| 0 <= a < lits.len() && lit_cell(#[trigger] lits[a] as int) == i {
            let a = choose|a: int| 0 <= a < lits.len() && lit_cell(#[trigger] lits[a] as int) == i;
            assert(before[lit_cell(lits[a] as int)] == lit_value(lits[a] as int));
        }
    }
}

/// `g` has literal `x`: its cell holds the literal's value.
pub open spec fn has_lit(g: Grid, x: int) -> bool {
    g.spec_cells()[lit_cell(x)] == lit_value(x)
}

/// `g` is a solution of the puzzle that refines `grid`.
pub open spec fn solution_below(g: Grid, grid: Grid, puzzle: Puzzle) -> bool {
    &&& placed_solution(g, puzzle)
    &&& grid_complete(g)
    &&& grid_refines(g, grid)
}

/// `g` is a solution below `grid` that has every assumed literal.
pub open spec fn agrees(g: Grid, grid: Grid, puzzle: Puzzle, assumed: Seq<usize>) -> bool {
    &&& solution_below(g, grid, puzzle)
    &&& forall|a: int| 0 <= a < assumed.len() ==> has_lit(g, #[trigger] assumed[a] as int)
}

/// A grid that has every literal and refines `before` refines `before` with
/// the literals applied; and no such grid exists when the literals conflict.
proof fn lemma_agrees_applied(g: Grid, before: Grid, after: Grid, lits: Seq<usize>)
    requires
        g.wf(),
        before.wf(),
        grid_refines(g, before),
        forall|a: int| 0 <= a < lits.len() ==> has_lit(g, #[trigger] lits[a] as int),
        forall|a: int| 0 <= a < lits.len() ==> lit_cell(#[trigger] lits[a] as int) < before.spec_cells().len(),
    ensures
        !lits_conflict(before.spec_cells(), lits),
        after.spec_width() == before.spec_width() && after.spec_height() == before.spec_height() && lits_applied(
            after.spec_cells(),
            before.spec_cells(),
            lits,
        ) ==> grid_refines(g, after),
{
    let cells = before.spec_cells();
    g.lemma_wf();
    before.lemma_wf();
    if lits_conflict(cells, lits) {
        if exists|a: int|
            0 <= a < lits.len() && cells[lit_cell(lits[a] as int)] != Cell::Unknown && #[trigger] cells[lit_cell(
                lits[a] as int,
            )] != lit_value(lits[a] as int) {
            let a = choose|a: int|
                0 <= a < lits.len() && cells[lit_cell(lits[a] as int)] != Cell::Unknown && #[trigger] cells[lit_cell(
                    lits[a] as int,
                )] != lit_value(lits[a] as int);
            assert(has_lit(g, lits[a] as int));
        } else {
            let (a, b) = choose|a: int, b: int|
                0 <= a < b < lits.len() && #[trigger] lit_cell(lits[a] as int) == #[trigger] lit_cell(lits[b] as int)
                    && lits[a] != lits[b];
            assert(has_lit(g, lits[a] as int));
            assert(has_lit(g, lits[b] as int));
            lemma_literal_inj(lits[a] as int, lits[b] as int);
        }
    }
    if after.spec_width() == before.spec_width() && after.spec_height() == before.spec_height() && lits_applied(
        after.spec_cells(),
        cells,
        lits,
    ) {
        assert forall|i: int| 0 <= i < after.spec_cells().len() && after.spec_cells()[i] != Cell::Unknown implies g.spec_cells()[i]
            == after.spec_cells()[i] by {
            if exists|a: int| 0 <= a < lits.len() && lit_cell(#[trigger] lits[a] as int) == i {
                let a = choose|a: int| 0 <= a < lits.len() && lit_cell(#[trigger] lits[a] as int) == i;
                assert(has_lit(g, lits[a] as int));
            }
        }
    }
}

/// `x` is a literal that `probed` decides on a cell unknown in `base`.
pub open spec fn is_forced(x: int, base: Seq<Cell>, probed: Seq<Cell>) -> bool {
    &&& 0 <= x
    &&& lit_cell(x) < base.len()
    &&& base[lit_cell(x)] == Cell::Unknown
    &&& probed[lit_cell(x)] != Cell::Unknown
    &&& lit_value(x) == probed[lit_cell(x)]
}

/// The elements of `v` increase strictly.
pub open spec fn increasing(v: Seq<usize>) -> bool {
    forall|i: int, j: int| 0 <= i < j < v.len() ==> v[i] < v[j]
}

/// The literals decided in `probed` on cells unknown in `base`, in increasing
/// order.
fn collect_forced_literals(base: &Grid, probed: &Grid, codec: &LiteralCodec) -> (v: Vec<usize>)
    requires
        base.wf(),
        probed.wf(),
        base.spec_width() > 0,
        probed.spec_width() == base.spec_width(),
        probed.spec_height() == base.spec_height(),
        base.spec_cells().len() <= 64 * 64,
    ensures
        increasing(v@),
        forall|x: usize| v@.contains(x) <==> is_forced(x as int, base.spec_cells(), probed.spec_cells()),
{
    let h = base.height();
    let w = base.width();
    let ghost bc = base.spec_cells();
    let ghost pc = probed.spec_cells();
    proof {
        base.lemma_wf();
        probed.lemma_wf();
    }
    let mut forced: Vec<usize> = Vec::new();
    let mut row: usize = 0;
    while row < h
        invariant
            w == base.spec_width() == probed.spec_width() > 0,
            h == base.spec_height() == probed.spec_height(),
            bc == base.spec_cells(),
            pc == probed.spec_cells(),
            bc.len() == pc.len() == w * h <= 64 * 64,
            base.wf(),
            probed.wf(),
            row <= h,
            increasing(forced@),
            forall|i: int| 0 <= i < forced@.len() ==> forced@[i] < 2 * (row * w),
            forall|x: usize|
                forced@.contains(x) <==> (lit_cell(x as int) < row * w && is_forced(x as int, bc, pc)),
        decreases h - row,
    {
        let mut col: usize = 0;
        while col < w
            invariant
                w == base.spec_width() == probed.spec_width() > 0,
                h == base.spec_height() == probed.spec_height(),
                bc == base.spec_cells(),
                pc == probed.spec_cells(),
                bc.len() == pc.len() == w * h <= 64 * 64,
                base.wf(),
                probed.wf(),
                row < h,
                col <= w,
                increasing(forced@),
                forall|i: int| 0 <= i < forced@.len() ==> forced@[i] < 2 * (row * w + col),
                forall|x: usize|
                    forced@.contains(x) <==> (lit_cell(x as int) < row * w + col && is_forced(x as int, bc, pc)),
            decreases w - col,
        {
            proof {
                lemma_cell_pos_bounds(w as int, h as int, row as int, col as int);
                assert(row * w <= row * w + col);
            }
            let cell = row * w + col;
            if *base.cell(row, col) == Cell::Unknown && *probed.cell(row, col) != Cell::Unknown {
                let value = *probed.cell(row, col);
                let bit: usize = if value == Cell::Filled {
                    1
                } else {
                    0
                };
                let literal = cell * 2 + bit;
                let ghost f0 = forced@;
                forced.push(literal);
                proof {
                    assert(bc[cell as int] == base.at(row as int, col as int));
                    assert(pc[cell as int] == probed.at(row as int, col as int));
                    assert forall|x: usize| forced@.contains(x) <==> (lit_cell(x as int) < row * w + col + 1
                        && is_forced(x as int, bc, pc)) by {
                        lemma_push_contains(f0, literal, x);
                        if lit_cell(x as int) == cell && is_forced(x as int, bc, pc) {
                            lemma_literal_inj(x as int, literal as int);
                        }
                    }
                }
            } else {
                proof {
                    assert(bc[cell as int] == base.at(row as int, col as int));
                    assert(pc[cell as int] == probed.at(row as int, col as int));
                    assert forall|x: usize| forced@.contains(x) <==> (lit_cell(x as int) < row * w + col + 1
                        && is_forced(x as int, bc, pc)) by {
                        if lit_cell(x as int) == cell {
                            assert(!is_forced(x as int, bc, pc));
                        }
                    }
                }
            }
            col += 1;
        }
        proof {
            assert((row + 1) * w == row * w + w) by (nonlinear_arith);
        }
        row += 1;
    }
    proof {
        assert(h * w == w * h) by (nonlinear_arith);
    }
    forced
}

/// A grid that fits a puzzle has at most 64 * 64 cells.
proof fn lemma_grid_size(grid: Grid, puzzle: Puzzle)
    requires
        grid_fits(grid, puzzle),
    ensures
        grid.spec_cells().len() == grid.spec_width() * grid.spec_height() <= 64 * 64,
{
    grid.lemma_wf();
    let w = grid.spec_width();
    let h = grid.spec_height();
    assert(w * h <= 64 * 64) by (nonlinear_arith)
        requires
            w <= 64,
            h <= 64,
    ;
}

/// The outcome of one probe: the assumptions lead to a contradiction, or
/// propagation succeeds and decides the listed literals.
#[derive(Debug)]
enum ProbeResult {
    Conflict,
    Consistent(Vec<usize>),
}

/// `p` is `grid` with the assumed literals applied and then refined further.
pub open spec fn probed_from(p: Grid, grid: Grid, puzzle: Puzzle, assumed: Seq<usize>) -> bool {
    &&& grid_fits(p, puzzle)
    &&& grid_refines(p, grid)
    &&& forall|a: int|
        0 <= a < assumed.len() ==> p.spec_cells()[lit_cell(#[trigger] assumed[a] as int)] == lit_value(assumed[a] as int)
}

/// The line solver rejects some row or column of `p`.
pub open spec fn rejects_some_line(p: Grid, puzzle: Puzzle) -> bool {
    exists|id: int|
        0 <= id < p.spec_width() + p.spec_height() && (#[trigger] solve_line_spec(
            line_of(p, id),
            clue_of(puzzle, id),
        )) is None
}

/// What a probe of `grid` under the assumed literals may report: a conflict
/// among the assumptions or a grid, reached from them, with a rejected line;
/// or the literals decided in a grid, reached from them, whose lines are all
/// accepted.
spec fn probe_outcome(grid: Grid, puzzle: Puzzle, assumed: Seq<usize>, r: ProbeResult) -> bool {
    match r {
        ProbeResult::Conflict => {
            &&& lits_conflict(grid.spec_cells(), assumed) || exists|p: Grid|
                probed_from(p, grid, puzzle, assumed) && rejects_some_line(p, puzzle)
            &&& forall|g: Grid| !#[trigger] agrees(g, grid, puzzle, assumed)
        },
        ProbeResult::Consistent(forced) => {
            &&& forall|g: Grid, x: usize|
                #[trigger] agrees(g, grid, puzzle, assumed) && #[trigger] forced@.contains(x) ==> has_lit(g, x as int)
            &&& increasing(forced@)
            &&& exists|p: Grid|
                {
                    &&& probed_from(p, grid, puzzle, assumed)
                    &&& lines_accepted(p, puzzle)
                    &&& forall|x: usize|
                        forced@.contains(x) <==> is_forced(x as int, grid.spec_cells(), p.spec_cells())
                }
        },
    }
}

/// Assumes the literals on a copy of `grid`, propagates, and reports the
/// literals that became decided.
fn probe(grid: &Grid, puzzle: &Puzzle, assumptions: &[usize], codec: &LiteralCodec) -> (r: ProbeResult)
    requires
        grid_fits(*grid, *puzzle),
        codec.width == grid.spec_width(),
        codec.height == grid.spec_height(),
        forall|a: int| 0 <= a < assumptions@.len() ==> lit_cell(#[trigger] assumptions@[a] as int) < grid.spec_cells().len(),
    ensures
        lits_conflict(grid.spec_cells(), assumptions@) ==> r is Conflict,
        probe_outcome(*grid, *puzzle, assumptions@, r),
{
    let mut probed = grid.duplicate();
    if apply_literals(&mut probed, assumptions, codec).is_none() {
        proof {
            assert forall|g: Grid| !#[trigger] agrees(g, *grid, *puzzle, assumptions@) by {
                if agrees(g, *grid, *puzzle, assumptions@) {
                    lemma_agrees_applied(g, *grid, *grid, assumptions@);
                }
            }
        }
        return ProbeResult::Conflict;
    }
    let ghost applied = probed;
    proof {
        lemma_applied_refines(applied.spec_cells(), grid.spec_cells(), assumptions@);
        assert forall|g: Grid| #[trigger] agrees(g, *grid, *puzzle, assumptions@) implies grid_refines(g, applied) by {
            lemma_agrees_applied(g, *grid, applied, assumptions@);
        }
    }
    if !propagate(&mut probed, puzzle) {
        proof {
            assert(probed_from(probed, *grid, *puzzle, assumptions@));
            assert(rejects_some_line(probed, *puzzle));
            assert forall|g: Grid| !#[trigger] agrees(g, *grid, *puzzle, assumptions@) by {
                if agrees(g, *grid, *puzzle, assumptions@) {
                    assert(grid_refines(g, applied));
                }
            }
        }
        return ProbeResult::Conflict;
    }
    proof {
        grid.lemma_wf();
        assert(probed_from(probed, *grid, *puzzle, assumptions@));
        lemma_grid_size(*grid, *puzzle);
    }
    let forced = collect_forced_literals(grid, &probed, codec);
    proof {
        assert forall|g: Grid, x: usize| #[trigger] agrees(g, *grid, *puzzle, assumptions@) && #[trigger] forced@.contains(x) implies has_lit(
            g,
            x as int,
        ) by {
            assert(grid_refines(g, applied));
            assert(grid_refines(g, probed));
            assert(is_forced(x as int, grid.spec_cells(), probed.spec_cells()));
            g.lemma_wf();
        }
        assert(lines_accepted(probed, *puzzle));
        assert(probed_from(probed, *grid, *puzzle, assumptions@) && lines_accepted(probed, *puzzle) && forall|
            x: usize,
        | forced@.contains(x) <==> is_forced(x as int, grid.spec_cells(), probed.spec_cells()));
    }
    ProbeResult::Consistent(forced)
}

/// Every solution below `grid` that has a literal of a cell unknown in
/// `grid` survives that literal's probe and has every literal the probe
/// forced.
spec fn round_sound(grid: Grid, puzzle: Puzzle, results: Seq<ProbeResult>) -> bool {
    forall|l: int, g: Grid|
        0 <= l < results.len() && grid.spec_cells()[lit_cell(l)] == Cell::Unknown && #[trigger] solution_below(
            g,
            grid,
            puzzle,
        ) && #[trigger] has_lit(g, l) ==> match results[l] {
            ProbeResult::Conflict => false,
            ProbeResult::Consistent(f) => forall|x: usize| #[trigger] f@.contains(x) ==> has_lit(g, x as int),
        }
}

/// Every solution below `grid` that has literal `l` has every literal
/// assumed for `l`.
spec fn assumptions_implied(grid: Grid, puzzle: Puzzle, a: Seq<Vec<usize>>) -> bool {
    forall|l: int, g: Grid|
        0 <= l < a.len() && #[trigger] solution_below(g, grid, puzzle) && #[trigger] has_lit(g, l) ==> agrees(
            g,
            grid,
            puzzle,
            a[l]@,
        )
}

/// Every consistent result lists literals of cells unknown in `cells`, each
/// below `2 * cells.len()`.
spec fn results_ok(cells: Seq<Cell>, results: Seq<ProbeResult>) -> bool {
    &&& results.len() == 2 * cells.len()
    &&& forall|l: int|
        0 <= l < results.len() ==> match #[trigger] results[l] {
            ProbeResult::Conflict => true,
            ProbeResult::Consistent(f) => forall|i: int|
                0 <= i < f@.len() ==> f@[i] < 2 * cells.len() && cells[lit_cell(#[trigger] f@[i] as int)]
                    == Cell::Unknown,
        }
}

/// A consistent probe reports only literals of cells unknown in the grid.
proof fn lemma_outcome_ok(grid: Grid, puzzle: Puzzle, assumed: Seq<usize>, r: ProbeResult)
    requires
        probe_outcome(grid, puzzle, assumed, r),
    ensures
        r matches ProbeResult::Consistent(f) ==> forall|i: int|
            0 <= i < f@.len() ==> f@[i] < 2 * grid.spec_cells().len() && grid.spec_cells()[lit_cell(
                #[trigger] f@[i] as int,
            )] == Cell::Unknown,
{
    if let ProbeResult::Consistent(f) = r {
        let p = choose|p: Grid|
            {
                &&& probed_from(p, grid, puzzle, assumed)
                &&& lines_accepted(p, puzzle)
                &&& forall|x: usize| f@.contains(x) <==> is_forced(x as int, grid.spec_cells(), p.spec_cells())
            };
        assert forall|i: int| 0 <= i < f@.len() implies f@[i] < 2 * grid.spec_cells().len()
            && grid.spec_cells()[lit_cell(#[trigger] f@[i] as int)] == Cell::Unknown by {
            assert(f@.contains(f@[i]));
        }
    }
}

/// A list of `n` conflicts.
fn conflicts(n: usize) -> (v: Vec<ProbeResult>)
    ensures
        v@.len() == n,
        forall|l: int| 0 <= l < n ==> v@[l] is Conflict,
{
    let mut v: Vec<ProbeResult> = Vec::new();
    let mut i: usize = 0;
    while i < n
        invariant
            i <= n,
            v@.len() == i,
            forall|l: int| 0 <= l < i ==> v@[l] is Conflict,
        decreases n - i,
    {
        v.push(ProbeResult::Conflict);
        i += 1;
    }
    v
}

/// Probes each value of each unknown cell on its own.
fn run_fp1_round(grid: &Grid, puzzle: &Puzzle, unknown_cells: &[usize], codec: &LiteralCodec) -> (results:
    Vec<ProbeResult>)
    requires
        grid_fits(*grid, *puzzle),
        codec.width == grid.spec_width(),
        codec.height == grid.spec_height(),
        forall|x: usize|
            #[trigger] unknown_cells@.contains(x) <==> (x < grid.spec_cells().len() && grid.spec_cells()[x as int]
                == Cell::Unknown),
    ensures
        results@.len() == 2 * grid.spec_cells().len(),
        forall|l: int|
            0 <= l < results@.len() ==> if grid.spec_cells()[lit_cell(l)] == Cell::Unknown {
                probe_outcome(*grid, *puzzle, seq![l as usize], #[trigger] results@[l])
            } else {
                results@[l] is Conflict
            },
        results_ok(grid.spec_cells(), results@),
        round_sound(*grid, *puzzle, results@),
{
    let ghost cells = grid.spec_cells();
    proof {
        lemma_grid_size(*grid, *puzzle);
    }
    let mut results = conflicts(codec.literal_count());
    let mut k: usize = 0;
    while k < unknown_cells.len()
        invariant
            grid_fits(*grid, *puzzle),
            codec.width == grid.spec_width(),
            codec.height == grid.spec_height(),
            cells == grid.spec_cells(),
            cells.len() <= 64 * 64,
            forall|x: usize|
                #[trigger] unknown_cells@.contains(x) <==> (x < cells.len() && cells[x as int] == Cell::Unknown),
            k <= unknown_cells@.len(),
            results@.len() == 2 * cells.len(),
            forall|l: int|
                0 <= l < results@.len() ==> if cells[lit_cell(l)] == Cell::Unknown && (results@[l] is Consistent
                    || exists|m: int| 0 <= m < k && lit_cell(l) == #[trigger] unknown_cells@[m]) {
                    probe_outcome(*grid, *puzzle, seq![l as usize], #[trigger] results@[l])
                } else {
                    results@[l] is Conflict
                },
        decreases unknown_cells@.len() - k,
    {
        let cell = unknown_cells[k];
        proof {
            assert(unknown_cells@.contains(cell));
            assert(cell < cells.len());
        }
        let blank = codec.encode(cell, Cell::Blank);
        let blank_only = vec![blank];
        let b_result = probe(grid, puzzle, blank_only.as_slice(), codec);
        results.set(blank, b_result);
        let filled = codec.encode(cell, Cell::Filled);
        let filled_only = vec![filled];
        let f_result = probe(grid, puzzle, filled_only.as_slice(), codec);
        results.set(filled, f_result);
        proof {
            assert forall|l: int|
                0 <= l < results@.len() implies if cells[lit_cell(l)] == Cell::Unknown && (results@[l] is Consistent
                    || exists|m: int| 0 <= m < k + 1 && lit_cell(l) == #[trigger] unknown_cells@[m]) {
                probe_outcome(*grid, *puzzle, seq![l as usize], #[trigger] results@[l])
            } else {
                results@[l] is Conflict
            } by {
                if l != blank && l != filled {
                    if exists|m: int| 0 <= m < k + 1 && lit_cell(l) == #[trigger] unknown_cells@[m] {
                        let m = choose|m: int| 0 <= m < k + 1 && lit_cell(l) == #[trigger] unknown_cells@[m];
                        if m == k {
                            assert(l == blank || l == filled);
                        }
                    }
                } else if l == filled {
                    assert(filled_only@ =~= seq![l as usize]);
                    assert(results@[l] == f_result);
                } else {
                    assert(blank_only@ =~= seq![l as usize]);
                    assert(results@[l] == b_result);
                }
            }
        }
        k += 1;
    }
    proof {
        assert forall|l: int| 0 <= l < results@.len() implies if cells[lit_cell(l)] == Cell::Unknown {
            probe_outcome(*grid, *puzzle, seq![l as usize], #[trigger] results@[l])
        } else {
            results@[l] is Conflict
        } by {
            if cells[lit_cell(l)] == Cell::Unknown {
                let c = lit_cell(l) as usize;
                assert(unknown_cells@.contains(c));
                let m = choose|m: int| 0 <= m < unknown_cells@.len() && unknown_cells@[m] == c;
                assert(lit_cell(l) == unknown_cells@[m]);
            }
        }
        assert forall|l: int| 0 <= l < results@.len() implies match #[trigger] results@[l] {
            ProbeResult::Conflict => true,
            ProbeResult::Consistent(f) => forall|i: int|
                0 <= i < f@.len() ==> f@[i] < 2 * cells.len() && cells[lit_cell(#[trigger] f@[i] as int)]
                    == Cell::Unknown,
        } by {
            if cells[lit_cell(l)] == Cell::Unknown {
                lemma_outcome_ok(*grid, *puzzle, seq![l as usize], results@[l]);
            }
        }
        assert forall|l: int, g: Grid|
            0 <= l < results@.len() && cells[lit_cell(l)] == Cell::Unknown && #[trigger] solution_below(g, *grid, *puzzle)
                && #[trigger] has_lit(g, l) implies match results@[l] {
            ProbeResult::Conflict => false,
            ProbeResult::Consistent(f) => forall|x: usize| #[trigger] f@.contains(x) ==> has_lit(g, x as int),
        } by {
            assert(probe_outcome(*grid, *puzzle, seq![l as usize], results@[l]));
            assert(agrees(g, *grid, *puzzle, seq![l as usize]));
        }
    }
    results
}

/// Both probes of cell `c` ended in a conflict.
spec fn both_conflict(results: Seq<ProbeResult>, c: int) -> bool {
    &&& results[lit_of(c, Cell::Blank)] is Conflict
    &&& results[lit_of(c, Cell::Filled)] is Conflict
}

/// Literal `x` follows from the probes of cell `c`: it is forced by the only
/// consistent probe, or by both.
spec fn inferred_at(results: Seq<ProbeResult>, c: int, x: usize) -> bool {
    match results[lit_of(c, Cell::Blank)] {
        ProbeResult::Conflict => match results[lit_of(c, Cell::Filled)] {
            ProbeResult::Conflict => false,
            ProbeResult::Consistent(f) => f@.contains(x),
        },
        ProbeResult::Consistent(bf) => match results[lit_of(c, Cell::Filled)] {
            ProbeResult::Conflict => bf@.contains(x),
            ProbeResult::Consistent(ff) => bf@.contains(x) && ff@.contains(x),
        },
    }
}

/// Marks every literal of `forced` in `flags`.
fn mark_all(flags: &mut Vec<bool>, forced: &Vec<usize>)
    requires
        forall|i: int| 0 <= i < forced@.len() ==> forced@[i] < old(flags)@.len(),
    ensures
        final(flags)@.len() == old(flags)@.len(),
        forall|x: int|
            0 <= x < old(flags)@.len() ==> #[trigger] final(flags)@[x] == (old(flags)@[x] || forced@.contains(
                x as usize,
            )),
{
    let ghost f0 = flags@;
    proof {
        assert(f0.len() == flags.len());
    }
    let mut i: usize = 0;
    while i < forced.len()
        invariant
            i <= forced@.len(),
            flags@.len() == f0.len(),
            forall|j: int| 0 <= j < forced@.len() ==> forced@[j] < f0.len(),
            forall|x: int|
                0 <= x < f0.len() ==> #[trigger] flags@[x] == (f0[x] || exists|j: int|
                    0 <= j < i && forced@[j] == x),
        decreases forced@.len() - i,
    {
        let literal = forced[i];
        flags.set(literal, true);
        proof {
            assert forall|x: int| 0 <= x < f0.len() implies #[trigger] flags@[x] == (f0[x] || exists|j: int|
                0 <= j < i + 1 && forced@[j] == x) by {
                if x == literal {
                    assert(forced@[i as int] == x);
                }
            }
        }
        i += 1;
    }
    proof {
        assert forall|x: int| 0 <= x < f0.len() implies #[trigger] flags@[x] == (f0[x] || forced@.contains(
            x as usize,
        )) by {
            if forced@.contains(x as usize) {
                let j = choose|j: int| 0 <= j < forced@.len() && forced@[j] == x as usize;
                assert(forced@[j] == x);
            }
        }
    }
}

/// Combines the probe results: a cell whose two probes both conflict makes
/// the grid contradictory (`None`); otherwise the literals forced by every
/// consistent probe of some cell, in increasing order.
fn infer_literals(results: &Vec<ProbeResult>, unknown_cells: &[usize], codec: &LiteralCodec) -> (r: Option<
    Vec<usize>,
>)
    requires
        results@.len() == codec.width * codec.height * 2 <= 2 * 64 * 64,
        forall|m: int| 0 <= m < unknown_cells@.len() ==> #[trigger] unknown_cells@[m] < codec.width * codec.height,
        forall|l: int|
            0 <= l < results@.len() ==> match #[trigger] results@[l] {
                ProbeResult::Conflict => true,
                ProbeResult::Consistent(f) => forall|i: int| 0 <= i < f@.len() ==> #[trigger] f@[i] < results@.len(),
            },
    ensures
        r is None <==> exists|m: int|
            0 <= m < unknown_cells@.len() && both_conflict(results@, #[trigger] unknown_cells@[m] as int),
        r matches Some(v) ==> {
            &&& increasing(v@)
            &&& forall|x: usize|
                #[trigger] v@.contains(x) <==> (x < results@.len() && exists|m: int|
                    0 <= m < unknown_cells@.len() && inferred_at(results@, #[trigger] unknown_cells@[m] as int, x))
        },
{
    let n = codec.literal_count();
    let mut inferred: Vec<bool> = vec![false; n];
    let mut scratch: Vec<bool> = vec![false; n];
    let mut k: usize = 0;
    while k < unknown_cells.len()
        invariant
            n == results@.len() == codec.width * codec.height * 2 <= 2 * 64 * 64,
            inferred@.len() == n,
            scratch@.len() == n,
            k <= unknown_cells@.len(),
            forall|m: int| 0 <= m < unknown_cells@.len() ==> #[trigger] unknown_cells@[m] < codec.width * codec.height,
            forall|l: int|
                0 <= l < results@.len() ==> match #[trigger] results@[l] {
                    ProbeResult::Conflict => true,
                    ProbeResult::Consistent(f) => forall|i: int| 0 <= i < f@.len() ==> #[trigger] f@[i] < results@.len(),
                },
            forall|m: int| 0 <= m < k ==> !both_conflict(results@, #[trigger] unknown_cells@[m] as int),
            forall|x: int|
                0 <= x < n ==> #[trigger] inferred@[x] == exists|m: int|
                    0 <= m < k && inferred_at(results@, #[trigger] unknown_cells@[m] as int, x as usize),
        decreases unknown_cells@.len() - k,
    {
        let cell = unknown_cells[k];
        let blank = codec.encode(cell, Cell::Blank);
        let filled = codec.encode(cell, Cell::Filled);
        let ghost i0 = inferred@;
        proof {
            assert(cell * 2 + 1 < n) by (nonlinear_arith)
                requires
                    cell < codec.width * codec.height,
                    n == codec.width * codec.height * 2,
            ;
            let _ = results@[blank as int];
            let _ = results@[filled as int];
        }
        let blank_result = &results[blank];
        let filled_result = &results[filled];
        match blank_result {
            ProbeResult::Conflict => match filled_result {
                ProbeResult::Conflict => {
                    return None;
                },
                ProbeResult::Consistent(forced) => {
                    mark_all(&mut inferred, forced);
                },
            },
            ProbeResult::Consistent(blank_forced) => match filled_result {
                ProbeResult::Conflict => {
                    mark_all(&mut inferred, blank_forced);
                },
                ProbeResult::Consistent(filled_forced) => {
                    let mut s: usize = 0;
                    while s < n
                        invariant
                            s <= n,
                            scratch@.len() == n,
                            forall|x: int| 0 <= x < s ==> !scratch@[x],
                        decreases n - s,
                    {
                        scratch.set(s, false);
                        s += 1;
                    }
                    mark_all(&mut scratch, blank_forced);
                    let mut j: usize = 0;
                    while j < filled_forced.len()
                        invariant
                            j <= filled_forced@.len(),
                            inferred@.len() == n,
                            scratch@.len() == n,
                            forall|i: int| 0 <= i < filled_forced@.len() ==> #[trigger] filled_forced@[i] < n,
                            forall|x: int| 0 <= x < n ==> #[trigger] scratch@[x] == blank_forced@.contains(x as usize),
                            forall|x: int|
                                0 <= x < n ==> #[trigger] inferred@[x] == (i0[x] || exists|i: int|
                                    0 <= i < j && filled_forced@[i] == x && blank_forced@.contains(x as usize)),
                        decreases filled_forced@.len() - j,
                    {
                        let literal = filled_forced[j];
                        if scratch[literal] {
                            inferred.set(literal, true);
                        }
                        proof {
                            assert forall|x: int| 0 <= x < n implies #[trigger] inferred@[x] == (i0[x] || exists|i: int|
                                0 <= i < j + 1 && filled_forced@[i] == x && blank_forced@.contains(x as usize)) by {
                                if x == literal {
                                    assert(filled_forced@[j as int] == x);
                                }
                            }
                        }
                        j += 1;
                    }
                    proof {
                        assert forall|x: int| 0 <= x < n implies #[trigger] inferred@[x] == (i0[x] || (
                        filled_forced@.contains(x as usize) && blank_forced@.contains(x as usize))) by {
                            if filled_forced@.contains(x as usize) {
                                let i = choose|i: int| 0 <= i < filled_forced@.len() && filled_forced@[i] == x as usize;
                                assert(filled_forced@[i] == x);
                            }
                        }
                    }
                },
            },
        }
        proof {
            assert forall|x: int| 0 <= x < n implies #[trigger] inferred@[x] == exists|m: int|
                0 <= m < k + 1 && inferred_at(results@, #[trigger] unknown_cells@[m] as int, x as usize) by {
                if exists|m: int| 0 <= m < k + 1 && inferred_at(results@, #[trigger] unknown_cells@[m] as int, x as usize) {
                    let m = choose|m: int| 0 <= m < k + 1 && inferred_at(results@, #[trigger] unknown_cells@[m] as int, x as usize);
                    if m < k {
                        assert(i0[x]);
                    }
                }
                if i0[x] {
                    let m = choose|m: int| 0 <= m < k && inferred_at(results@, #[trigger] unknown_cells@[m] as int, x as usize);
                    assert(0 <= m < k + 1);
                }
            }
        }
        k += 1;
    }
    let mut out: Vec<usize> = Vec::new();
    let mut x: usize = 0;
    while x < n
        invariant
            x <= n,
            inferred@.len() == n == results@.len(),
            increasing(out@),
            forall|i: int| 0 <= i < out@.len() ==> out@[i] < x,
            forall|y: usize| #[trigger] out@.contains(y) <==> (y < x && inferred@[y as int]),
        decreases n - x,
    {
        if inferred[x] {
            let ghost o0 = out@;
            out.push(x);
            proof {
                assert forall|y: usize| #[trigger] out@.contains(y) <==> (y < x + 1 && inferred@[y as int]) by {
                    lemma_push_contains(o0, x, y);
                }
            }
        }
        x += 1;
    }
    proof {
        assert forall|y: usize| #[trigger] out@.contains(y) <==> (y < results@.len() && exists|m: int|
            0 <= m < unknown_cells@.len() && inferred_at(results@, #[trigger] unknown_cells@[m] as int, y)) by {
            if y < n {
                assert(inferred@[y as int] == exists|m: int|
                    0 <= m < k && inferred_at(results@, #[trigger] unknown_cells@[m] as int, y as usize));
            }
        }
    }
    Some(out)
}

/// Total room left in the assumption lists, each holding at most `n` literals.
spec fn slack(a: Seq<Vec<usize>>, n: int) -> int
    decreases a.len(),
{
    if a.len() == 0 {
        0
    } else {
        slack(a.drop_last(), n) + (n - a.last()@.len())
    }
}

/// Replacing one list changes the room by the difference of the lengths.
proof fn lemma_slack_update(a: Seq<Vec<usize>>, n: int, t: int, v: Vec<usize>)
    requires
        0 <= t < a.len(),
    ensures
        slack(a.update(t, v), n) == slack(a, n) - v@.len() + a[t]@.len(),
    decreases a.len(),
{
    if t < a.len() - 1 {
        assert(a.update(t, v).drop_last() =~= a.drop_last().update(t, v));
        lemma_slack_update(a.drop_last(), n, t, v);
    } else {
        assert(a.update(t, v).drop_last() =~= a.drop_last());
    }
}

/// The room is never negative while no list is longer than `n`.
proof fn lemma_slack_nonneg(a: Seq<Vec<usize>>, n: int)
    requires
        forall|t: int| 0 <= t < a.len() ==> (#[trigger] a[t])@.len() <= n,
    ensures
        slack(a, n) >= 0,
    decreases a.len(),
{
    if a.len() > 0 {
        lemma_slack_nonneg(a.drop_last(), n);
    }
}

/// The numbers below `n`.
spec fn below(n: int) -> Set<usize> {
    Set::new(|x: usize| x < n)
}

/// There are `n` numbers below `n`.
proof fn lemma_below(n: int)
    requires
        0 <= n <= usize::MAX,
    ensures
        below(n).finite(),
        below(n).len() == n,
    decreases n,
{
    if n == 0 {
        assert(below(0) =~= Set::<usize>::empty());
    } else {
        lemma_below(n - 1);
        assert(below(n) =~= below(n - 1).insert((n - 1) as usize));
    }
}

/// A list of distinct numbers below `n` has at most `n` elements.
proof fn lemma_distinct_bound(v: Seq<usize>, n: int)
    requires
        0 <= n <= usize::MAX,
        v.no_duplicates(),
        forall|i: int| 0 <= i < v.len() ==> v[i] < n,
    ensures
        v.len() <= n,
{
    v.unique_seq_to_set();
    lemma_below(n);
    assert(v.to_set().subset_of(below(n)));
    vstd::set_lib::lemma_len_subset(v.to_set(), below(n));
}

/// The assumption lists: distinct literals of unknown cells.
spec fn lists_ok(cells: Seq<Cell>, a: Seq<Vec<usize>>) -> bool {
    &&& a.len() == 2 * cells.len()
    &&& forall|t: int|
        0 <= t < a.len() ==> (#[trigger] a[t])@.no_duplicates() && forall|i: int|
            0 <= i < a[t]@.len() ==> a[t]@[i] < a.len() && cells[lit_cell(#[trigger] a[t]@[i] as int)]
                == Cell::Unknown
}

/// Each assumption list holds at most as many literals as there are.
proof fn lemma_lists_bounded(cells: Seq<Cell>, a: Seq<Vec<usize>>)
    requires
        lists_ok(cells, a),
        a.len() <= usize::MAX,
    ensures
        forall|t: int| 0 <= t < a.len() ==> (#[trigger] a[t])@.len() <= a.len(),
{
    assert forall|t: int| 0 <= t < a.len() implies (#[trigger] a[t])@.len() <= a.len() by {
        lemma_distinct_bound(a[t]@, a.len() as int);
    }
}

/// The probe of `r` forced literal `x`.
spec fn forces(r: ProbeResult, x: usize) -> bool {
    match r {
        ProbeResult::Conflict => false,
        ProbeResult::Consistent(f) => f@.contains(x),
    }
}

/// The assumption lists `a` of an Fp2 round and its results agree: each
/// literal of an unknown cell is among its own assumptions and its result is
/// the outcome of probing exactly those; and the lists are closed under
/// contrapositives: when the probe of `l` forced `x`, the complement of `l`
/// is among the assumptions of the complement of `x`.
spec fn fp2_closed(grid: Grid, puzzle: Puzzle, results: Seq<ProbeResult>, a: Seq<Seq<usize>>) -> bool {
    let cells = grid.spec_cells();
    &&& a.len() == results.len()
    &&& forall|l: int|
        0 <= l < results.len() && cells[lit_cell(l)] == Cell::Unknown ==> a[l].contains(l as usize)
            && probe_outcome(grid, puzzle, a[l], #[trigger] results[l])
    &&& forall|l: int, x: usize|
        0 <= l < results.len() && cells[lit_cell(l)] == Cell::Unknown && #[trigger] forces(results[l], x)
            ==> a[lit_complement(x as int)].contains(lit_complement(l) as usize)
}

/// Probes each literal under a growing list of assumptions: when assuming
/// `l` forces `f`, the complement of `l` is added to the assumptions of the
/// complement of `f`, and that literal is probed again.
#[verifier::rlimit(60)]
fn run_fp2_round(grid: &Grid, puzzle: &Puzzle, unknown_cells: &[usize], codec: &LiteralCodec) -> (results:
    Vec<ProbeResult>)
    requires
        grid_fits(*grid, *puzzle),
        increasing(unknown_cells@),
        codec.width == grid.spec_width(),
        codec.height == grid.spec_height(),
        forall|x: usize|
            #[trigger] unknown_cells@.contains(x) <==> (x < grid.spec_cells().len() && grid.spec_cells()[x as int]
                == Cell::Unknown),
    ensures
        results@.len() == 2 * grid.spec_cells().len(),
        forall|l: int|
            0 <= l < results@.len() && grid.spec_cells()[lit_cell(l)] != Cell::Unknown ==> #[trigger] results@[l] is Conflict,
        exists|a: Seq<Seq<usize>>| #[trigger] fp2_closed(*grid, *puzzle, results@, a),
        results_ok(grid.spec_cells(), results@),
        round_sound(*grid, *puzzle, results@),
{
    let ghost cells = grid.spec_cells();
    proof {
        lemma_grid_size(*grid, *puzzle);
    }
    let n = codec.literal_count();
    let mut assumptions: Vec<Vec<usize>> = Vec::new();
    let mut i: usize = 0;
    while i < n
        invariant
            i <= n,
            assumptions@.len() == i,
            forall|t: int| 0 <= t < i ==> (#[trigger] assumptions@[t])@.len() == 0,
        decreases n - i,
    {
        assumptions.push(Vec::new());
        i += 1;
    }
    let mut results = conflicts(n);
    let mut queue: VecDeque<usize> = VecDeque::new();
    let mut k: usize = 0;
    while k < unknown_cells.len()
        invariant
            grid_fits(*grid, *puzzle),
            cells == grid.spec_cells(),
            cells.len() <= 64 * 64,
            n == 2 * cells.len(),
            codec.width == grid.spec_width(),
            codec.height == grid.spec_height(),
            forall|x: usize|
                #[trigger] unknown_cells@.contains(x) <==> (x < cells.len() && cells[x as int] == Cell::Unknown),
            k <= unknown_cells@.len(),
            increasing(unknown_cells@),
            lists_ok(cells, assumptions@),
            assumptions_implied(*grid, *puzzle, assumptions@),
            results@.len() == n,
            forall|l: int| 0 <= l < n ==> #[trigger] results@[l] is Conflict,
            forall|q: int| 0 <= q < queue@.len() ==> #[trigger] queue@[q] < n && cells[lit_cell(queue@[q] as int)] == Cell::Unknown,
            forall|l: int|
                0 <= l < n && cells[lit_cell(l)] == Cell::Unknown ==> (#[trigger] assumptions@[l])@.contains(l as usize)
                    == exists|m: int| 0 <= m < k && lit_cell(l) == #[trigger] unknown_cells@[m],
            forall|l: int|
                0 <= l < n && cells[lit_cell(l)] == Cell::Unknown && (exists|m: int|
                    0 <= m < k && lit_cell(l) == #[trigger] unknown_cells@[m]) ==> queue@.contains(l as usize),
            forall|l: int|
                0 <= l < n && !(exists|m: int| 0 <= m < k && lit_cell(l) == #[trigger] unknown_cells@[m]) ==> (
                #[trigger] assumptions@[l])@.len() == 0,
        decreases unknown_cells@.len() - k,
    {
        let cell = unknown_cells[k];
        proof {
            assert(unknown_cells@.contains(cell));
            assert(cell < cells.len());
        }
        let blank = codec.encode(cell, Cell::Blank);
        let filled = codec.encode(cell, Cell::Filled);
        let ghost a0 = assumptions@;
        let ghost q0 = queue@;
        proof {
            assert forall|m: int| 0 <= m < k implies lit_cell(blank as int) != #[trigger] unknown_cells@[m] by {
                assert(unknown_cells@[m] < unknown_cells@[k as int]);
            }
            assert(a0[blank as int]@.len() == 0);
            assert(a0[filled as int]@.len() == 0);
        }
        assumptions[blank].push(blank);
        queue.push_back(blank);
        assumptions[filled].push(filled);
        queue.push_back(filled);
        proof {
            assert forall|l: int, g: Grid|
                0 <= l < assumptions@.len() && #[trigger] solution_below(g, *grid, *puzzle) && #[trigger] has_lit(g, l)
                    implies agrees(g, *grid, *puzzle, assumptions@[l]@) by {
                if l != blank && l != filled {
                    assert(assumptions@[l] == a0[l]);
                }
            }
            assert(assumptions@[blank as int]@ =~= seq![blank]);
            assert(assumptions@[filled as int]@ =~= seq![filled]);
            assert forall|l: int|
                0 <= l < n && cells[lit_cell(l)] == Cell::Unknown implies (#[trigger] assumptions@[l])@.contains(l as usize)
                    == exists|m: int| 0 <= m < k + 1 && lit_cell(l) == #[trigger] unknown_cells@[m] by {
                if l == blank {
                    assert(assumptions@[l]@[0] == l as usize);
                    assert(lit_cell(l) == unknown_cells@[k as int]);
                } else if l == filled {
                    assert(assumptions@[l]@[0] == l as usize);
                    assert(lit_cell(l) == unknown_cells@[k as int]);
                } else {
                    assert(assumptions@[l] == a0[l]);
                    if exists|m: int| 0 <= m < k + 1 && lit_cell(l) == #[trigger] unknown_cells@[m] {
                        let m = choose|m: int| 0 <= m < k + 1 && lit_cell(l) == #[trigger] unknown_cells@[m];
                        assert(m != k);
                    }
                }
            }
            assert forall|l: int|
                0 <= l < n && cells[lit_cell(l)] == Cell::Unknown && (exists|m: int|
                    0 <= m < k + 1 && lit_cell(l) == #[trigger] unknown_cells@[m]) implies queue@.contains(l as usize) by {
                let m = choose|m: int| 0 <= m < k + 1 && lit_cell(l) == #[trigger] unknown_cells@[m];
                if m == k {
                    if l == blank {
                        assert(queue@[q0.len() as int] == l as usize);
                    } else {
                        assert(l == filled);
                        assert(queue@[q0.len() as int + 1] == l as usize);
                    }
                } else {
                    let q = choose|q: int| 0 <= q < q0.len() && q0[q] == l as usize;
                    assert(queue@[q] == l as usize);
                }
            }
            assert forall|l: int|
                0 <= l < n && !(exists|m: int| 0 <= m < k + 1 && lit_cell(l) == #[trigger] unknown_cells@[m]) implies (
                #[trigger] assumptions@[l])@.len() == 0 by {
                assert(lit_cell(l) != unknown_cells@[k as int]);
                assert(l != blank && l != filled);
            }
        }
        k += 1;
    }
    proof {
        assert forall|l: int| 0 <= l < n && cells[lit_cell(l)] == Cell::Unknown implies (
        #[trigger] assumptions@[l])@.contains(l as usize) && queue@.contains(l as usize) by {
            let c = lit_cell(l) as usize;
            assert(unknown_cells@.contains(c));
            let m = choose|m: int| 0 <= m < unknown_cells@.len() && unknown_cells@[m] == c;
            assert(lit_cell(l) == unknown_cells@[m]);
        }
    }
    loop
        invariant
            grid_fits(*grid, *puzzle),
            cells == grid.spec_cells(),
            cells.len() <= 64 * 64,
            n == 2 * cells.len(),
            codec.width == grid.spec_width(),
            codec.height == grid.spec_height(),
            lists_ok(cells, assumptions@),
            assumptions_implied(*grid, *puzzle, assumptions@),
            results@.len() == n,
            forall|q: int| 0 <= q < queue@.len() ==> #[trigger] queue@[q] < n && cells[lit_cell(queue@[q] as int)] == Cell::Unknown,
            forall|l: int|
                0 <= l < n && cells[lit_cell(l)] == Cell::Unknown ==> (#[trigger] assumptions@[l])@.contains(l as usize),
            forall|l: int|
                0 <= l < n ==> if cells[lit_cell(l)] == Cell::Unknown {
                    queue@.contains(l as usize) || probe_outcome(*grid, *puzzle, assumptions@[l]@, #[trigger] results@[l])
                } else {
                    results@[l] is Conflict
                },
            forall|l: int, x: usize|
                0 <= l < n && cells[lit_cell(l)] == Cell::Unknown && !queue@.contains(l as usize) && #[trigger] forces(
                    results@[l],
                    x,
                ) ==> assumptions@[lit_complement(x as int)]@.contains(lit_complement(l) as usize),
        ensures
            queue@.len() == 0,
        decreases slack(assumptions@, n as int) + queue@.len(),
    {
        proof {
            lemma_lists_bounded(cells, assumptions@);
            lemma_slack_nonneg(assumptions@, n as int);
        }
        let ghost qa = queue@;
        let literal = match queue.pop_front() {
            Some(l) => l,
            None => {
                break;
            },
        };
        proof {
            assert(qa[0] == literal);
        }
        let ghost a_used = assumptions@[literal as int]@;
        let result = probe(grid, puzzle, assumptions[literal].as_slice(), codec);
        let ghost a1 = assumptions@;
        let ghost q1 = queue@;
        match result {
            ProbeResult::Conflict => {
                results.set(literal, ProbeResult::Conflict);
                proof {
                    assert forall|l: int| 0 <= l < n implies if cells[lit_cell(l)] == Cell::Unknown {
                        queue@.contains(l as usize) || probe_outcome(
                            *grid,
                            *puzzle,
                            assumptions@[l]@,
                            #[trigger] results@[l],
                        )
                    } else {
                        results@[l] is Conflict
                    } by {
                        if l != literal && cells[lit_cell(l)] == Cell::Unknown && qa.contains(l as usize)
                            && !probe_outcome(*grid, *puzzle, assumptions@[l]@, results@[l]) {
                            let q = choose|q: int| 0 <= q < qa.len() && qa[q] == l as usize;
                            assert(q != 0);
                            assert(queue@[q - 1] == l as usize);
                        }
                    }
                    assert forall|l: int, x: usize|
                        0 <= l < n && cells[lit_cell(l)] == Cell::Unknown && !queue@.contains(l as usize) && #[trigger] forces(
                            results@[l],
                            x,
                        ) implies assumptions@[lit_complement(x as int)]@.contains(lit_complement(l) as usize) by {
                        if l != literal && qa.contains(l as usize) {
                            let q = choose|q: int| 0 <= q < qa.len() && qa[q] == l as usize;
                            assert(q != 0);
                            assert(queue@[q - 1] == l as usize);
                        }
                    }
                }
            },
            ProbeResult::Consistent(forced_literals) => {
                proof {
                    lemma_outcome_ok(*grid, *puzzle, a_used, ProbeResult::Consistent(forced_literals));
                }
                let contrapositive = codec.complement(literal);
                let mut j: usize = 0;
                while j < forced_literals.len()
                    invariant
                        cells.len() <= 64 * 64,
                        n == 2 * cells.len(),
                        j <= forced_literals@.len(),
                        literal < n,
                        contrapositive < n,
                        cells[lit_cell(contrapositive as int)] == Cell::Unknown,
                        forall|i: int|
                            0 <= i < forced_literals@.len() ==> forced_literals@[i] < n && cells[lit_cell(
                                #[trigger] forced_literals@[i] as int,
                            )] == Cell::Unknown,
                        lists_ok(cells, assumptions@),
                        assumptions_implied(*grid, *puzzle, assumptions@),
                        grid_fits(*grid, *puzzle),
                        cells == grid.spec_cells(),
                        forall|g: Grid|
                            #[trigger] solution_below(g, *grid, *puzzle) && has_lit(g, literal as int) ==> agrees(
                                g,
                                *grid,
                                *puzzle,
                                a_used,
                            ),
                        forall|g: Grid, x: usize|
                            #[trigger] agrees(g, *grid, *puzzle, a_used) && #[trigger] forced_literals@.contains(x)
                                ==> has_lit(g, x as int),
                        contrapositive == lit_complement(literal as int),
                        slack(assumptions@, n as int) + queue@.len() <= slack(a1, n as int) + q1.len(),
                        forall|q: int| 0 <= q < queue@.len() ==> #[trigger] queue@[q] < n && cells[lit_cell(queue@[q] as int)] == Cell::Unknown,
                        forall|q: int| 0 <= q < q1.len() ==> #[trigger] queue@[q] == q1[q],
                        queue@.len() >= q1.len(),
                        forall|l: int|
                            0 <= l < n && cells[lit_cell(l)] == Cell::Unknown ==> (#[trigger] assumptions@[l])@.contains(l as usize),
                        assumptions@.len() == n,
                        forall|l: int|
                            0 <= l < n ==> ((#[trigger] assumptions@[l])@ == a1[l]@ || queue@.contains(l as usize)),
                        forall|t: int, y: usize|
                            0 <= t < n && #[trigger] a1[t]@.contains(y) ==> assumptions@[t]@.contains(y),
                        forall|i: int|
                            0 <= i < j ==> assumptions@[lit_complement(#[trigger] forced_literals@[i] as int)]@.contains(
                                contrapositive,
                            ),
                    decreases forced_literals@.len() - j,
                {
                    let forced = forced_literals[j];
                    let target = codec.complement(forced);
                    let ghost ab = assumptions@;
                    let ghost qb = queue@;
                    proof {
                        assert(cells[lit_cell(forced as int)] == Cell::Unknown);
                    }
                    let added = push_unique(&mut assumptions[target], contrapositive);
                    if added {
                        queue.push_back(target);
                    }
                    proof {
                        assert(forced_literals@.contains(forced)) by {
                            assert(forced_literals@[j as int] == forced);
                        }
                        assert forall|g: Grid| #[trigger] solution_below(g, *grid, *puzzle) && has_lit(g, target as int) implies has_lit(
                            g,
                            contrapositive as int,
                        ) by {
                            g.lemma_wf();
                            grid.lemma_wf();
                            lemma_complement_involution(literal as int);
                            lemma_complement_involution(forced as int);
                            if has_lit(g, literal as int) {
                                assert(agrees(g, *grid, *puzzle, a_used));
                                assert(has_lit(g, forced as int));
                            }
                            assert(g.spec_cells()[lit_cell(literal as int)] != Cell::Unknown);
                        }
                        assert forall|l: int, g: Grid|
                            0 <= l < assumptions@.len() && #[trigger] solution_below(g, *grid, *puzzle) && #[trigger] has_lit(
                                g,
                                l,
                            ) implies agrees(g, *grid, *puzzle, assumptions@[l]@) by {
                            assert(agrees(g, *grid, *puzzle, ab[l]@));
                            if l == target && added {
                                assert forall|a: int| 0 <= a < assumptions@[l]@.len() implies has_lit(
                                    g,
                                    #[trigger] assumptions@[l]@[a] as int,
                                ) by {
                                    if a < ab[l]@.len() {
                                        assert(assumptions@[l]@[a] == ab[l]@[a]);
                                    }
                                }
                            } else {
                                assert(assumptions@[l]@ == ab[l]@);
                            }
                        }
                        lemma_slack_update(ab, n as int, target as int, assumptions@[target as int]);
                        if added {
                            lemma_push_no_duplicates(ab[target as int]@, contrapositive);
                            assert(queue@[qb.len() as int] == target);
                        }
                        assert forall|t: int| 0 <= t < assumptions@.len() implies (#[trigger] assumptions@[t])@.no_duplicates()
                            && forall|i: int|
                            0 <= i < assumptions@[t]@.len() ==> assumptions@[t]@[i] < assumptions@.len() && cells[lit_cell(
                                #[trigger] assumptions@[t]@[i] as int,
                            )] == Cell::Unknown by {
                            if t == target && added {
                                assert forall|i: int| 0 <= i < assumptions@[t]@.len() implies assumptions@[t]@[i]
                                    < assumptions@.len() && cells[lit_cell(#[trigger] assumptions@[t]@[i] as int)]
                                    == Cell::Unknown by {
                                    if i < ab[t]@.len() {
                                        assert(assumptions@[t]@[i] == ab[t]@[i]);
                                    }
                                }
                            }
                        }
                        assert forall|l: int| 0 <= l < n && cells[lit_cell(l)] == Cell::Unknown implies (
                        #[trigger] assumptions@[l])@.contains(l as usize) by {
                            if l == target && added {
                                let m = choose|m: int| 0 <= m < ab[l]@.len() && ab[l]@[m] == l as usize;
                                assert(assumptions@[l]@[m] == l as usize);
                            }
                        }
                        assert forall|t: int, y: usize|
                            0 <= t < n && #[trigger] a1[t]@.contains(y) implies assumptions@[t]@.contains(y) by {
                            assert(ab[t]@.contains(y));
                            if t == target && added {
                                lemma_push_contains(ab[t]@, contrapositive, y);
                            }
                        }
                        assert forall|i: int|
                            0 <= i < j + 1 implies assumptions@[lit_complement(#[trigger] forced_literals@[i] as int)]@.contains(
                            contrapositive,
                        ) by {
                            let t = lit_complement(forced_literals@[i] as int);
                            if i == j {
                                assert(t == target);
                                if added {
                                    lemma_push_contains(ab[t]@, contrapositive, contrapositive);
                                }
                            } else {
                                assert(ab[t]@.contains(contrapositive));
                                if t == target && added {
                                    lemma_push_contains(ab[t]@, contrapositive, contrapositive);
                                }
                            }
                        }
                        assert forall|l: int| 0 <= l < n implies ((#[trigger] assumptions@[l])@ == a1[l]@ || queue@.contains(
                            l as usize,
                        )) by {
                            if l == target && added {
                                assert(queue@[qb.len() as int] == l as usize);
                            } else if ab[l]@ != a1[l]@ {
                                let q = choose|q: int| 0 <= q < qb.len() && qb[q] == l as usize;
                                assert(queue@[q] == l as usize);
                            }
                        }
                    }
                    j += 1;
                }
                results.set(literal, ProbeResult::Consistent(forced_literals));
                proof {
                    assert forall|l: int| 0 <= l < n implies if cells[lit_cell(l)] == Cell::Unknown {
                        queue@.contains(l as usize) || probe_outcome(
                            *grid,
                            *puzzle,
                            assumptions@[l]@,
                            #[trigger] results@[l],
                        )
                    } else {
                        results@[l] is Conflict
                    } by {
                        if cells[lit_cell(l)] == Cell::Unknown && !queue@.contains(l as usize) {
                            assert(assumptions@[l]@ == a1[l]@);
                            if l != literal && qa.contains(l as usize) && !probe_outcome(*grid, *puzzle, a1[l]@, results@[l]) {
                                let q = choose|q: int| 0 <= q < qa.len() && qa[q] == l as usize;
                                assert(q != 0);
                                assert(q1[q - 1] == l as usize);
                                assert(queue@[q - 1] == l as usize);
                            }
                        }
                    }
                    assert forall|l: int, x: usize|
                        0 <= l < n && cells[lit_cell(l)] == Cell::Unknown && !queue@.contains(l as usize) && #[trigger] forces(
                            results@[l],
                            x,
                        ) implies assumptions@[lit_complement(x as int)]@.contains(lit_complement(l) as usize) by {
                        if l == literal {
                            let i = choose|i: int| 0 <= i < forced_literals@.len() && forced_literals@[i] == x;
                            assert(assumptions@[lit_complement(forced_literals@[i] as int)]@.contains(contrapositive));
                        } else {
                            if qa.contains(l as usize) {
                                let q = choose|q: int| 0 <= q < qa.len() && qa[q] == l as usize;
                                assert(q != 0);
                                assert(q1[q - 1] == l as usize);
                                assert(queue@[q - 1] == l as usize);
                            }
                            assert(a1[lit_complement(x as int)]@.contains(lit_complement(l) as usize));
                        }
                    }
                }
            },
        }
        proof {
            lemma_lists_bounded(cells, assumptions@);
            lemma_slack_nonneg(assumptions@, n as int);
        }
    }
    proof {
        let av = Seq::new(n as nat, |t: int| assumptions@[t]@);
        assert forall|l: int|
            0 <= l < results@.len() && cells[lit_cell(l)] == Cell::Unknown implies av[l].contains(l as usize)
            && probe_outcome(*grid, *puzzle, av[l], #[trigger] results@[l]) by {
            assert(!queue@.contains(l as usize));
        }
        assert forall|l: int, x: usize|
            0 <= l < results@.len() && cells[lit_cell(l)] == Cell::Unknown && #[trigger] forces(results@[l], x)
                implies av[lit_complement(x as int)].contains(lit_complement(l) as usize) by {
            assert(!queue@.contains(l as usize));
            if let ProbeResult::Consistent(f) = results@[l] {
                lemma_outcome_ok(*grid, *puzzle, assumptions@[l]@, results@[l]);
                let i = choose|i: int| 0 <= i < f@.len() && f@[i] == x;
                assert(f@[i] < n);
            }
        }
        assert(fp2_closed(*grid, *puzzle, results@, av));
        assert forall|l: int| 0 <= l < results@.len() && cells[lit_cell(l)] != Cell::Unknown implies #[trigger] results@[l] is Conflict by {}
        assert forall|l: int| 0 <= l < results@.len() implies match #[trigger] results@[l] {
            ProbeResult::Conflict => true,
            ProbeResult::Consistent(f) => forall|i: int|
                0 <= i < f@.len() ==> f@[i] < 2 * cells.len() && cells[lit_cell(#[trigger] f@[i] as int)]
                    == Cell::Unknown,
        } by {
            if cells[lit_cell(l)] == Cell::Unknown {
                lemma_outcome_ok(*grid, *puzzle, assumptions@[l]@, results@[l]);
            }
        }
        assert forall|l: int, g: Grid|
            0 <= l < results@.len() && cells[lit_cell(l)] == Cell::Unknown && #[trigger] solution_below(g, *grid, *puzzle)
                && #[trigger] has_lit(g, l) implies match results@[l] {
            ProbeResult::Conflict => false,
            ProbeResult::Consistent(f) => forall|x: usize| #[trigger] f@.contains(x) ==> has_lit(g, x as int),
        } by {
            assert(!queue@.contains(l as usize));
            assert(probe_outcome(*grid, *puzzle, assumptions@[l]@, results@[l]));
            assert(agrees(g, *grid, *puzzle, assumptions@[l]@));
        }
    }
    results
}

/// A literal inferred from consistent probes names a cell unknown in the grid.
proof fn lemma_inferred_unknown(cells: Seq<Cell>, results: Seq<ProbeResult>, c: int, x: usize)
    requires
        results_ok(cells, results),
        0 <= c < cells.len(),
        inferred_at(results, c, x),
    ensures
        cells[lit_cell(x as int)] == Cell::Unknown,
        x < 2 * cells.len(),
{
    let lb = lit_of(c, Cell::Blank);
    let lf = lit_of(c, Cell::Filled);
    assert(0 <= lb < results.len() && 0 <= lf < results.len());
    let rb = results[lb];
    let rf = results[lf];
    if let ProbeResult::Consistent(f) = rb {
        if f@.contains(x) {
            let i = choose|i: int| 0 <= i < f@.len() && f@[i] == x;
            assert(f@[i] == x);
        }
    }
    if let ProbeResult::Consistent(f) = rf {
        if f@.contains(x) {
            let i = choose|i: int| 0 <= i < f@.len() && f@[i] == x;
            assert(f@[i] == x);
        }
    }
}

/// A solution below `grid` has every literal inferred from a cell's probes.
proof fn lemma_inferred_holds(grid: Grid, puzzle: Puzzle, results: Seq<ProbeResult>, c: int, x: usize, g: Grid)
    requires
        grid_fits(grid, puzzle),
        round_sound(grid, puzzle, results),
        results.len() == 2 * grid.spec_cells().len(),
        0 <= c < grid.spec_cells().len(),
        grid.spec_cells()[c] == Cell::Unknown,
        solution_below(g, grid, puzzle),
        inferred_at(results, c, x) || both_conflict(results, c),
    ensures
        !both_conflict(results, c),
        has_lit(g, x as int),
{
    g.lemma_wf();
    grid.lemma_wf();
    let v = g.spec_cells()[c];
    assert(v != Cell::Unknown);
    let l = lit_of(c, v);
    lemma_literal_roundtrip(c, v);
    assert(has_lit(g, l));
    assert(grid.spec_cells()[lit_cell(l)] == Cell::Unknown);
    assert(0 <= l < results.len());
    assert(results[l] is Consistent);
}

/// Which probing strategy a fully probing solver uses.
#[derive(Debug, Clone, Copy)]
pub(crate) enum FullyProbingMode {
    Fp1,
    Fp2,
}

/// The results of a round of `mode` on `grid`: in Fp1 each literal of an
/// unknown cell is probed alone; in Fp2 each is probed under assumption lists
/// closed under contrapositives.
spec fn round_results(grid: Grid, puzzle: Puzzle, mode: FullyProbingMode, results: Seq<ProbeResult>) -> bool {
    match mode {
        FullyProbingMode::Fp1 => forall|l: int|
            0 <= l < results.len() && grid.spec_cells()[lit_cell(l)] == Cell::Unknown ==> probe_outcome(
                grid,
                puzzle,
                seq![l as usize],
                #[trigger] results[l],
            ),
        FullyProbingMode::Fp2 => exists|a: Seq<Seq<usize>>| #[trigger] fp2_closed(grid, puzzle, results, a),
    }
}

/// A round of probes on `grid` that gives nothing new: no cell has both
/// probes in conflict, and no literal follows from the probes of a cell.
spec fn quiet_round(grid: Grid, puzzle: Puzzle, mode: FullyProbingMode, results: Seq<ProbeResult>) -> bool {
    let n = grid.spec_cells().len() as int;
    &&& results.len() == 2 * n
    &&& round_results(grid, puzzle, mode, results)
    &&& forall|c: int|
        0 <= c < n && #[trigger] grid.spec_cells()[c] == Cell::Unknown ==> !both_conflict(results, c) && forall|
            x: usize,
        | x < 2 * n ==> !inferred_at(results, c, x)
}

/// `grid` is a fixpoint of probing in `mode`: a round of probes on it (each
/// probe as the mode runs it, with the outcome the probe reports) gives
/// nothing new.
spec fn probe_fixpoint(grid: Grid, puzzle: Puzzle, mode: FullyProbingMode) -> bool {
    exists|results: Seq<ProbeResult>| #[trigger] quiet_round(grid, puzzle, mode, results)
}

/// `grid` is a fixpoint of probing each cell value on its own (Fp1).
pub closed spec fn fp1_fixpoint(grid: Grid, puzzle: Puzzle) -> bool {
    probe_fixpoint(grid, puzzle, FullyProbingMode::Fp1)
}

/// `grid` is a fixpoint of probing with assumption lists that grow by
/// contrapositives (Fp2).
pub closed spec fn fp2_fixpoint(grid: Grid, puzzle: Puzzle) -> bool {
    probe_fixpoint(grid, puzzle, FullyProbingMode::Fp2)
}

/// The grid probing in `mode` ends on is a fixpoint of that mode.
pub(crate) open spec fn mode_fixpoint(grid: Grid, puzzle: Puzzle, mode: FullyProbingMode) -> bool {
    match mode {
        FullyProbingMode::Fp1 => fp1_fixpoint(grid, puzzle),
        FullyProbingMode::Fp2 => fp2_fixpoint(grid, puzzle),
    }
}

/// One probing step of `mode` on `g`: a round of probes on it, as the mode
/// runs it, finds no cell with both probes in conflict, and `g2` is `g` with
/// every literal the round infers applied.
spec fn probe_step(g: Grid, g2: Grid, puzzle: Puzzle, mode: FullyProbingMode) -> bool {
    let n = g.spec_cells().len() as int;
    exists|results: Seq<ProbeResult>, lits: Seq<usize>|
        {
            &&& results.len() == 2 * n
            &&& #[trigger] round_results(g, puzzle, mode, results)
            &&& forall|c: int| 0 <= c < n && #[trigger] g.spec_cells()[c] == Cell::Unknown ==> !both_conflict(results, c)
            &&& forall|x: usize|
                #[trigger] lits.contains(x) <==> (x < 2 * n && exists|c: int|
                    0 <= c < n && g.spec_cells()[c] == Cell::Unknown && #[trigger] inferred_at(results, c, x))
            &&& g2.spec_width() == g.spec_width()
            &&& g2.spec_height() == g.spec_height()
            &&& #[trigger] lits_applied(g2.spec_cells(), g.spec_cells(), lits)
        }
}

/// A step of fully probing: a propagation step or a probing step.
spec fn fp_step(g: Grid, g2: Grid, puzzle: Puzzle, mode: FullyProbingMode) -> bool {
    solver_step(g, g2, puzzle) || probe_step(g, g2, puzzle, mode)
}

/// `gs` is a run of fully probing steps.
spec fn fp_run(gs: Seq<Grid>, puzzle: Puzzle, mode: FullyProbingMode) -> bool {
    &&& gs.len() >= 1
    &&& forall|i: int| 0 <= i < gs.len() - 1 ==> fp_step(#[trigger] gs[i], gs[i + 1], puzzle, mode)
}

/// `g` is reached from `g0` by fully probing steps of `mode`.
spec fn fp_reached(g0: Grid, g: Grid, puzzle: Puzzle, mode: FullyProbingMode) -> bool {
    exists|gs: Seq<Grid>| #[trigger] fp_run(gs, puzzle, mode) && gs[0] == g0 && gs.last() == g
}

/// Propagation steps after a run of fully probing steps extend the run.
proof fn lemma_fp_then_propagated(g0: Grid, g1: Grid, g2: Grid, puzzle: Puzzle, mode: FullyProbingMode)
    requires
        fp_reached(g0, g1, puzzle, mode),
        propagated(g1, g2, puzzle),
    ensures
        fp_reached(g0, g2, puzzle, mode),
{
    let gs1 = choose|gs: Seq<Grid>| #[trigger] fp_run(gs, puzzle, mode) && gs[0] == g0 && gs.last() == g1;
    let gs2 = choose|gs: Seq<Grid>| #[trigger] step_run(gs, puzzle) && gs[0] == g1 && gs.last() == g2;
    let all = gs1 + gs2.drop_first();
    assert forall|i: int| 0 <= i < all.len() - 1 implies fp_step(#[trigger] all[i], all[i + 1], puzzle, mode) by {
        let k = gs1.len() as int;
        if i < k - 1 {
            assert(all[i] == gs1[i] && all[i + 1] == gs1[i + 1]);
        } else if i == k - 1 {
            assert(all[i] == g1 && all[i + 1] == gs2[1]);
            assert(gs2[0] == g1);
            assert(solver_step(gs2[0], gs2[1], puzzle));
        } else {
            assert(all[i] == gs2[i - k + 1] && all[i + 1] == gs2[i - k + 2]);
            assert(solver_step(gs2[i - k + 1], gs2[i - k + 2], puzzle));
        }
    }
    if gs2.len() == 1 {
        assert(all =~= gs1);
    }
    assert(fp_run(all, puzzle, mode) && all[0] == g0 && all.last() == g2);
}

/// One more probing step extends a run.
proof fn lemma_fp_probe_step(g0: Grid, g1: Grid, g2: Grid, puzzle: Puzzle, mode: FullyProbingMode)
    requires
        fp_reached(g0, g1, puzzle, mode),
        probe_step(g1, g2, puzzle, mode),
    ensures
        fp_reached(g0, g2, puzzle, mode),
{
    let gs = choose|gs: Seq<Grid>| #[trigger] fp_run(gs, puzzle, mode) && gs[0] == g0 && gs.last() == g1;
    let all = gs.push(g2);
    assert forall|i: int| 0 <= i < all.len() - 1 implies fp_step(#[trigger] all[i], all[i + 1], puzzle, mode) by {
        if i < gs.len() - 1 {
            assert(all[i] == gs[i] && all[i + 1] == gs[i + 1]);
        } else {
            assert(all[i] == g1);
        }
    }
    assert(fp_run(all, puzzle, mode) && all[0] == g0 && all.last() == g2);
}

/// `g` is reached from the empty grid by steps of fully probing with each
/// cell value probed on its own (Fp1): propagation steps, and steps that
/// apply what a round of single-literal probes infers.
pub closed spec fn fp1_reached(g: Grid, puzzle: Puzzle) -> bool {
    exists|g0: Grid| empty_grid(g0, puzzle) && #[trigger] fp_reached(g0, g, puzzle, FullyProbingMode::Fp1)
}

/// `g` is reached from the empty grid by steps of fully probing with
/// assumption lists that grow by contrapositives (Fp2).
pub closed spec fn fp2_reached(g: Grid, puzzle: Puzzle) -> bool {
    exists|g0: Grid| empty_grid(g0, puzzle) && #[trigger] fp_reached(g0, g, puzzle, FullyProbingMode::Fp2)
}

/// The grid fully probing in `mode` reaches from the empty grid.
pub(crate) open spec fn mode_reached(g: Grid, puzzle: Puzzle, mode: FullyProbingMode) -> bool {
    match mode {
        FullyProbingMode::Fp1 => fp1_reached(g, puzzle),
        FullyProbingMode::Fp2 => fp2_reached(g, puzzle),
    }
}

/// Propagates, probes, applies what the probes agree on, and repeats until
/// the grid is complete or a round infers nothing. `None` when propagation
/// or probing finds the puzzle contradictory.
pub(crate) fn solve(puzzle: &Puzzle, mode: FullyProbingMode) -> (r: Option<Grid>)
    requires
        puzzle_fits(*puzzle),
    ensures
        r matches Some(g) ==> grid_fits(g, *puzzle) && lines_accepted(g, *puzzle),
        r matches Some(g) ==> mode_fixpoint(g, *puzzle, mode),
        r matches Some(g) ==> mode_reached(g, *puzzle, mode),
        forall|g: Grid| placed_solution(g, *puzzle) && grid_complete(g) ==> (r matches Some(out) && grid_refines(g, out)),
{
    let w = puzzle.width();
    let h = puzzle.height();
    proof {
        assert(w * h <= 64 * 64) by (nonlinear_arith)
            requires
                w <= 64,
                h <= 64,
        ;
    }
    let mut grid = Grid::new(w, h);
    let ghost gstart = grid;
    proof {
        assert forall|g: Grid| placed_solution(g, *puzzle) && grid_complete(g) implies grid_refines(g, grid) by {
            g.lemma_wf();
            grid.lemma_wf();
        }
        assert(empty_grid(gstart, *puzzle));
        let gs = seq![gstart];
        assert(fp_run(gs, *puzzle, mode) && gs[0] == gstart && gs.last() == gstart);
    }
    loop
        invariant
            grid_fits(grid, *puzzle),
            forall|g: Grid| placed_solution(g, *puzzle) && grid_complete(g) ==> grid_refines(g, grid),
            empty_grid(gstart, *puzzle),
            fp_reached(gstart, grid, *puzzle, mode),
        decreases grid_unknowns(grid),
    {
        let ghost g0 = grid;
        if !propagate(&mut grid, puzzle) {
            return None;
        }
        let ghost g1 = grid;
        proof {
            lemma_fp_then_propagated(gstart, g0, g1, *puzzle, mode);
            reveal(fp1_reached);
            reveal(fp2_reached);
            lemma_count_refines(g1.spec_cells(), g0.spec_cells());
            lemma_grid_size(grid, *puzzle);
            grid.lemma_wf();
        }
        let unknown_cells = collect_unknown_cells(&grid);
        if unknown_cells.len() == 0 {
            proof {
                let n = grid.spec_cells().len() as int;
                let results = Seq::new((2 * n) as nat, |l: int| ProbeResult::Conflict);
                assert forall|c: int| 0 <= c < n implies grid.spec_cells()[c] != Cell::Unknown by {
                    if grid.spec_cells()[c] == Cell::Unknown {
                        assert(unknown_cells@.contains(c as usize));
                    }
                }
                assert forall|l: int| 0 <= l < 2 * n implies grid.spec_cells()[lit_cell(l)] != Cell::Unknown by {
                    assert(0 <= lit_cell(l) < n);
                }
                let a = Seq::new((2 * n) as nat, |l: int| Seq::<usize>::empty());
                assert(fp2_closed(grid, *puzzle, results, a));
                assert(quiet_round(grid, *puzzle, mode, results));
                reveal(fp1_fixpoint);
                reveal(fp2_fixpoint);
            }
            return Some(grid);
        }
        let codec = LiteralCodec::new(&grid);
        let results = match mode {
            FullyProbingMode::Fp1 => run_fp1_round(&grid, puzzle, unknown_cells.as_slice(), &codec),
            FullyProbingMode::Fp2 => run_fp2_round(&grid, puzzle, unknown_cells.as_slice(), &codec),
        };
        proof {
            assert(unknown_cells@.contains(unknown_cells@[0]));
            assert forall|m: int| 0 <= m < unknown_cells@.len() implies #[trigger] unknown_cells@[m] < codec.width
                * codec.height by {
                assert(unknown_cells@.contains(unknown_cells@[m]));
            }
            assert forall|l: int| 0 <= l < results@.len() implies match #[trigger] results@[l] {
                ProbeResult::Conflict => true,
                ProbeResult::Consistent(f) => forall|i: int| 0 <= i < f@.len() ==> #[trigger] f@[i] < results@.len(),
            } by {
                if let ProbeResult::Consistent(f) = results@[l] {
                    assert forall|i: int| 0 <= i < f@.len() implies #[trigger] f@[i] < results@.len() by {
                        assert(f@[i] < 2 * g1.spec_cells().len());
                    }
                }
            }
        }
        let inferred = match infer_literals(&results, unknown_cells.as_slice(), &codec) {
            Some(v) => v,
            None => {
                proof {
                    let m = choose|m: int|
                        0 <= m < unknown_cells@.len() && both_conflict(results@, #[trigger] unknown_cells@[m] as int);
                    assert(unknown_cells@.contains(unknown_cells@[m]));
                    assert forall|g: Grid| placed_solution(g, *puzzle) && grid_complete(g) implies false by {
                        lemma_inferred_holds(g1, *puzzle, results@, unknown_cells@[m] as int, 0, g);
                    }
                }
                return None;
            },
        };
        if inferred.len() == 0 {
            proof {
                let n = grid.spec_cells().len() as int;
                assert forall|c: int|
                    0 <= c < n && #[trigger] grid.spec_cells()[c] == Cell::Unknown implies !both_conflict(results@, c)
                    && forall|x: usize| x < 2 * n ==> !inferred_at(results@, c, x) by {
                    assert(unknown_cells@.contains(c as usize));
                    let m = choose|m: int| 0 <= m < unknown_cells@.len() && unknown_cells@[m] == c as usize;
                    assert forall|x: usize| x < 2 * n implies !inferred_at(results@, c, x) by {
                        if inferred_at(results@, c, x) {
                            assert(inferred_at(results@, unknown_cells@[m] as int, x));
                            assert(inferred@.contains(x));
                        }
                    }
                }
                assert(quiet_round(grid, *puzzle, mode, results@));
                reveal(fp1_fixpoint);
                reveal(fp2_fixpoint);
            }
            return Some(grid);
        }
        proof {
            assert forall|a: int| 0 <= a < inferred@.len() implies lit_cell(#[trigger] inferred@[a] as int)
                < g1.spec_cells().len() && g1.spec_cells()[lit_cell(inferred@[a] as int)] == Cell::Unknown by {
                let x = inferred@[a];
                assert(inferred@.contains(x));
                let m = choose|m: int|
                    0 <= m < unknown_cells@.len() && inferred_at(results@, #[trigger] unknown_cells@[m] as int, x);
                assert(unknown_cells@.contains(unknown_cells@[m]));
                lemma_inferred_unknown(g1.spec_cells(), results@, unknown_cells@[m] as int, x);
            }
        }
        proof {
            assert forall|g: Grid| placed_solution(g, *puzzle) && grid_complete(g) implies forall|a: int|
                0 <= a < inferred@.len() ==> has_lit(g, #[trigger] inferred@[a] as int) by {
                assert forall|a: int| 0 <= a < inferred@.len() implies has_lit(g, #[trigger] inferred@[a] as int) by {
                    let x = inferred@[a];
                    assert(inferred@.contains(x));
                    let m = choose|m: int|
                        0 <= m < unknown_cells@.len() && inferred_at(results@, #[trigger] unknown_cells@[m] as int, x);
                    assert(unknown_cells@.contains(unknown_cells@[m]));
                    lemma_inferred_holds(g1, *puzzle, results@, unknown_cells@[m] as int, x, g);
                }
            }
        }
        let ghost g2 = grid;
        if apply_literals(&mut grid, inferred.as_slice(), &codec).is_none() {
            proof {
                assert forall|g: Grid| placed_solution(g, *puzzle) && grid_complete(g) implies false by {
                    lemma_agrees_applied(g, g2, g2, inferred@);
                }
            }
            return None;
        }
        proof {
            assert forall|g: Grid| placed_solution(g, *puzzle) && grid_complete(g) implies grid_refines(g, grid) by {
                lemma_agrees_applied(g, g2, grid, inferred@);
            }
            lemma_applied_refines(grid.spec_cells(), g1.spec_cells(), inferred@);
            let n = g1.spec_cells().len() as int;
            assert forall|c: int| 0 <= c < n && #[trigger] g1.spec_cells()[c] == Cell::Unknown implies !both_conflict(
                results@,
                c,
            ) by {
                assert(unknown_cells@.contains(c as usize));
                let m = choose|m: int| 0 <= m < unknown_cells@.len() && unknown_cells@[m] == c as usize;
                assert(!both_conflict(results@, unknown_cells@[m] as int));
            }
            assert forall|x: usize|
                #[trigger] inferred@.contains(x) <==> (x < 2 * n && exists|c: int|
                    0 <= c < n && g1.spec_cells()[c] == Cell::Unknown && #[trigger] inferred_at(results@, c, x)) by {
                if inferred@.contains(x) {
                    let m = choose|m: int|
                        0 <= m < unknown_cells@.len() && inferred_at(results@, #[trigger] unknown_cells@[m] as int, x);
                    assert(unknown_cells@.contains(unknown_cells@[m]));
                }
                if x < 2 * n && exists|c: int|
                    0 <= c < n && g1.spec_cells()[c] == Cell::Unknown && #[trigger] inferred_at(results@, c, x) {
                    let c = choose|c: int|
                        0 <= c < n && g1.spec_cells()[c] == Cell::Unknown && #[trigger] inferred_at(results@, c, x);
                    assert(unknown_cells@.contains(c as usize));
                    let m = choose|m: int| 0 <= m < unknown_cells@.len() && unknown_cells@[m] == c as usize;
                    assert(inferred_at(results@, unknown_cells@[m] as int, x));
                }
            }
            assert(round_results(g1, *puzzle, mode, results@));
            assert(lits_applied(grid.spec_cells(), g1.spec_cells(), inferred@));
            assert(probe_step(g1, grid, *puzzle, mode));
            lemma_fp_probe_step(gstart, g1, grid, *puzzle, mode);
            let x = inferred@[0];
            assert(grid.spec_cells()[lit_cell(x as int)] == lit_value(x as int));
            lemma_count_refines(grid.spec_cells(), g1.spec_cells());
        }
    }
}

} // verus!
