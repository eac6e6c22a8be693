use vstd::prelude::*;

verus! {

/// The state of one cell of a nonogram grid.
#[derive(Debug, Clone, Copy, PartialEq, Eq, Hash, Structural)]
pub enum Cell {
    Unknown,
    Filled,
    Blank,
}

/// The run lengths of `line` when `count` filled cells come right before it:
/// each maximal run of filled cells gives its length, in order.
pub open spec fn runs_after(line: Seq<Cell>, count: nat) -> Seq<usize>
    decreases line.len(),
{
    if line.len() == 0 {
        if count > 0 {
            seq![count as usize]
        } else {
            Seq::empty()
        }
    } else if line[0] == Cell::Filled {
        runs_after(line.drop_first(), count + 1)
    } else if count > 0 {
        seq![count as usize] + runs_after(line.drop_first(), 0)
    } else {
        runs_after(line.drop_first(), 0)
    }
}

/// The clue that a line shows: the lengths of its runs of filled cells.
pub open spec fn runs(line: Seq<Cell>) -> Seq<usize> {
    runs_after(line, 0)
}

/// A rectangular grid of cells, stored row by row.
#[derive(Debug, Clone, PartialEq, Eq)]
pub struct Grid {
    width: usize,
    cells: Vec<Cell>,
}

/// Index of cell (`r`, `c`) in the row-major cell sequence of a grid `w` cells wide.
pub open spec fn cell_pos(w: int, r: int, c: int) -> int {
    r * w + c
}

/// `r * w + c` lies inside a `w` by `h` grid when the cell does.
pub proof fn lemma_cell_pos_bounds(w: int, h: int, r: int, c: int)
    requires
        0 <= r < h,
        0 <= c < w,
    ensures
        0 <= cell_pos(w, r, c) < w * h,
        cell_pos(w, r, c) + 1 <= w * h,
{
    assert(0 <= r * w) by (nonlinear_arith)
        requires
            0 <= r,
            0 <= w,
    ;
    assert(r * w + c < w * h) by (nonlinear_arith)
        requires
            0 <= r < h,
            0 <= c < w,
    ;
}

/// Every index of a `w` by `h` grid is the position of a cell.
pub proof fn lemma_cell_pos_onto(w: int, h: int, i: int)
    requires
        0 < w,
        0 <= i < w * h,
    ensures
        0 <= i / w < h,
        0 <= i % w < w,
        i == cell_pos(w, i / w, i % w),
{
    vstd::arithmetic::div_mod::lemma_fundamental_div_mod(i, w);
    assert(i == w * (i / w) + i % w);
    assert(0 <= i % w < w);
    assert(i / w >= 0) by (nonlinear_arith)
        requires
            0 < w,
            0 <= i,
    ;
    assert(i / w < h) by (nonlinear_arith)
        requires
            0 < w,
            0 <= i < w * h,
            i == w * (i / w) + i % w,
            0 <= i % w,
    ;
    assert(i / w * w == w * (i / w)) by (nonlinear_arith);
}

/// Distinct cells of a grid `w` columns wide have distinct positions.
pub proof fn lemma_cell_pos_inj(w: int, r1: int, c1: int, r2: int, c2: int)
    requires
        0 <= r1,
        0 <= r2,
        0 <= c1 < w,
        0 <= c2 < w,
        cell_pos(w, r1, c1) == cell_pos(w, r2, c2),
    ensures
        r1 == r2,
        c1 == c2,
{
    if r1 < r2 {
        assert(r1 * w + c1 < r2 * w + c2) by (nonlinear_arith)
            requires
                r1 < r2,
                0 <= c1 < w,
                0 <= c2,
        ;
    } else if r2 < r1 {
        assert(r2 * w + c2 < r1 * w + c1) by (nonlinear_arith)
            requires
                r2 < r1,
                0 <= c2 < w,
                0 <= c1,
        ;
    }
}

/// Different cells of a grid `w` columns wide have different positions.
pub proof fn lemma_cell_pos_inj_neq(w: int, r1: int, c1: int, r2: int, c2: int)
    requires
        0 <= r1,
        0 <= r2,
        0 <= c1 < w,
        0 <= c2 < w,
        r1 != r2 || c1 != c2,
    ensures
        cell_pos(w, r1, c1) != cell_pos(w, r2, c2),
{
    if cell_pos(w, r1, c1) == cell_pos(w, r2, c2) {
        lemma_cell_pos_inj(w, r1, c1, r2, c2);
    }
}

impl Grid {
    /// Number of columns.
    pub closed spec fn spec_width(&self) -> nat {
        self.width as nat
    }

    /// Number of rows (zero for a grid without columns).
    pub closed spec fn spec_height(&self) -> nat {
        if self.width == 0 {
            0
        } else {
            self.cells@.len() / (self.width as nat)
        }
    }

    /// The cells, row by row.
    pub closed spec fn spec_cells(&self) -> Seq<Cell> {
        self.cells@
    }

    /// The grid holds exactly `width * height` cells.
    pub closed spec fn wf(&self) -> bool {
        self.cells@.len() == self.width * self.spec_height()
    }

    /// The cell in row `r` and column `c`.
    pub open spec fn at(&self, r: int, c: int) -> Cell {
        self.spec_cells()[cell_pos(self.spec_width() as int, r, c)]
    }

    /// Row `r` as a line of cells.
    pub open spec fn row_line(&self, r: int) -> Seq<Cell> {
        Seq::new(self.spec_width(), |c: int| self.at(r, c))
    }

    /// Column `c` as a line of cells.
    pub open spec fn col_line(&self, c: int) -> Seq<Cell> {
        Seq::new(self.spec_height(), |r: int| self.at(r, c))
    }

    /// A well-formed grid has `width * height` cells.
    pub proof fn lemma_wf(&self)
        requires
            self.wf(),
        ensures
            self.spec_cells().len() == self.spec_width() * self.spec_height(),
            self.spec_cells().len() <= usize::MAX,
    {
        assert(self.cells.len() == self.cells@.len());
    }

    /// Creates a `width` by `height` grid of unknown cells.
    pub fn new(width: usize, height: usize) -> (g: Self)
        requires
            width * height <= usize::MAX,
        ensures
            g.wf(),
            g.spec_width() == width,
            width > 0 ==> g.spec_height() == height,
            width == 0 ==> g.spec_height() == 0,
            g.spec_cells() == Seq::new((width * height) as nat, |i: int| Cell::Unknown),
    {
        let n = width * height;
        let cells = vec![Cell::Unknown; n];
        proof {
            if width > 0 {
                assert((width * height) as nat / (width as nat) == height) by (nonlinear_arith)
                    requires
                        width > 0,
                ;
            }
            assert(cells@ =~= Seq::new((width * height) as nat, |i: int| Cell::Unknown));
        }
        Grid { width, cells }
    }

    /// Number of columns.
    pub fn width(&self) -> (w: usize)
        ensures
            w == self.spec_width(),
    {
        self.width
    }

    /// Number of rows; the grid must have at least one column.
    pub fn height(&self) -> (h: usize)
        requires
            self.spec_width() > 0,
        ensures
            h == self.spec_height(),
    {
        self.cells.len() / self.width
    }

    fn cell_index(&self, row: usize, col: usize) -> (i: usize)
        requires
            self.wf(),
            row < self.spec_height(),
            col < self.spec_width(),
        ensures
            i == cell_pos(self.spec_width() as int, row as int, col as int),
            i < self.spec_cells().len(),
    {
        let len = self.cells.len();
        proof {
            lemma_cell_pos_bounds(self.width as int, self.spec_height() as int, row as int, col as int);
            assert(row * self.width <= row * self.width + col);
        }
        row * self.width + col
    }

    /// The cell in row `row` and column `col`.
    pub fn cell(&self, row: usize, col: usize) -> (c: &Cell)
        requires
            self.wf(),
            row < self.spec_height(),
            col < self.spec_width(),
        ensures
            *c == self.at(row as int, col as int),
    {
        let index = self.cell_index(row, col);
        &self.cells[index]
    }

    /// An identical copy of the grid.
    pub(crate) fn duplicate(&self) -> (g: Self)
        ensures
            g.spec_width() == self.spec_width(),
            g.spec_cells() == self.spec_cells(),
            g.spec_height() == self.spec_height(),
            g.wf() == self.wf(),
    {
        let cells = self.cells.clone();
        proof {
            assert(cells@ =~= self.cells@);
        }
        Grid { width: self.width, cells }
    }

    /// Sets the cell in row `row` and column `col` to `value`.
    pub fn set_cell(&mut self, row: usize, col: usize, value: Cell)
        requires
            old(self).wf(),
            row < old(self).spec_height(),
            col < old(self).spec_width(),
        ensures
            final(self).wf(),
            final(self).spec_width() == old(self).spec_width(),
            final(self).spec_height() == old(self).spec_height(),
            final(self).spec_cells() == old(self).spec_cells().update(
                cell_pos(old(self).spec_width() as int, row as int, col as int),
                value,
            ),
    {
        let index = self.cell_index(row, col);
        self.cells.set(index, value);
    }
}

/// The run lengths that one row or column must show, in order.
#[derive(Debug, Clone)]
pub struct Clue {
    blocks: Vec<usize>,
}

impl Clue {
    /// The block lengths.
    pub closed spec fn spec_blocks(&self) -> Seq<usize> {
        self.blocks@
    }

    /// Creates a clue from its block lengths.
    pub fn new(blocks: Vec<usize>) -> (c: Self)
        ensures
            c.spec_blocks() == blocks@,
    {
        Clue { blocks }
    }

    /// The block lengths.
    pub fn blocks(&self) -> (b: &[usize])
        ensures
            b@ == self.spec_blocks(),
    {
        self.blocks.as_slice()
    }
}

/// A nonogram: one clue per row and one clue per column.
#[derive(Debug, Clone)]
pub struct Puzzle {
    row_clues: Vec<Clue>,
    col_clues: Vec<Clue>,
}

impl Puzzle {
    /// The row clues, top to bottom.
    pub closed spec fn spec_rows(&self) -> Seq<Seq<usize>> {
        self.row_clues@.map_values(|c: Clue| c.spec_blocks())
    }

    /// The column clues, left to right.
    pub closed spec fn spec_cols(&self) -> Seq<Seq<usize>> {
        self.col_clues@.map_values(|c: Clue| c.spec_blocks())
    }

    /// Creates a puzzle from its row and column clues.
    pub fn new(row_clues: Vec<Clue>, col_clues: Vec<Clue>) -> (p: Self)
        ensures
            p.spec_rows() == row_clues@.map_values(|c: Clue| c.spec_blocks()),
            p.spec_cols() == col_clues@.map_values(|c: Clue| c.spec_blocks()),
    {
        Puzzle { row_clues, col_clues }
    }

    /// Number of columns: the number of column clues.
    pub fn width(&self) -> (w: usize)
        ensures
            w == self.spec_cols().len(),
    {
        self.col_clues.len()
    }

    /// Number of rows: the number of row clues.
    pub fn height(&self) -> (h: usize)
        ensures
            h == self.spec_rows().len(),
    {
        self.row_clues.len()
    }

    /// The row clues, top to bottom.
    pub fn row_clues(&self) -> (r: &[Clue])
        ensures
            r@.map_values(|c: Clue| c.spec_blocks()) == self.spec_rows(),
    {
        self.row_clues.as_slice()
    }

    /// The column clues, left to right.
    pub fn col_clues(&self) -> (r: &[Clue])
        ensures
            r@.map_values(|c: Clue| c.spec_blocks()) == self.spec_cols(),
    {
        self.col_clues.as_slice()
    }
}

} // verus!
