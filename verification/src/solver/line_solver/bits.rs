//! A line of at most 64 cells held as two bit sets: the cells that can still be
//! filled and the cells that can still be blank.
use vstd::prelude::*;

use super::placement::{can_place, count_cell, set_all};
use crate::types::{Cell, Grid};

verus! {

/// Bit `i` of `x` is set.
pub open spec fn has_bit(x: u64, i: u64) -> bool {
    (x >> i) & 1u64 == 1u64
}

/// The mask of the `n` lowest bits.
pub open spec fn low_mask(n: u64) -> u64 {
    if n >= 64 {
        0xffff_ffff_ffff_ffffu64
    } else {
        ((1u64 << n) - 1u64) as u64
    }
}

/// The cell that a pair of possibility bits stands for.
pub open spec fn cell_of_bits(can_fill: bool, can_blank: bool) -> Cell {
    if can_fill && can_blank {
        Cell::Unknown
    } else if can_fill {
        Cell::Filled
    } else {
        Cell::Blank
    }
}

pub proof fn lemma_bit_or(x: u64, y: u64, i: u64)
    requires
        i < 64,
    ensures
        has_bit(x | y, i) == (has_bit(x, i) || has_bit(y, i)),
{
    assert(((x | y) >> i) & 1u64 == 1u64 <==> ((x >> i) & 1u64 == 1u64 || (y >> i) & 1u64
        == 1u64)) by (bit_vector)
        requires
            i < 64,
    ;
}

pub proof fn lemma_bit_and(x: u64, y: u64, i: u64)
    requires
        i < 64,
    ensures
        has_bit(x & y, i) == (has_bit(x, i) && has_bit(y, i)),
{
    assert(((x & y) >> i) & 1u64 == 1u64 <==> ((x >> i) & 1u64 == 1u64 && (y >> i) & 1u64
        == 1u64)) by (bit_vector)
        requires
            i < 64,
    ;
}

pub proof fn lemma_bit_not(x: u64, i: u64)
    requires
        i < 64,
    ensures
        has_bit(!x, i) == !has_bit(x, i),
{
    assert(((!x) >> i) & 1u64 == 1u64 <==> !((x >> i) & 1u64 == 1u64)) by (bit_vector)
        requires
            i < 64,
    ;
}

pub proof fn lemma_bit_xor(x: u64, y: u64, i: u64)
    requires
        i < 64,
    ensures
        has_bit(x ^ y, i) == (has_bit(x, i) != has_bit(y, i)),
{
    assert(((x ^ y) >> i) & 1u64 == 1u64 <==> ((x >> i) & 1u64 == 1u64) != ((y >> i) & 1u64
        == 1u64)) by (bit_vector)
        requires
            i < 64,
    ;
}

pub proof fn lemma_bit_single(j: u64, i: u64)
    requires
        i < 64,
        j < 64,
    ensures
        has_bit(1u64 << j, i) == (i == j),
{
    assert(((1u64 << j) >> i) & 1u64 == 1u64 <==> i == j) by (bit_vector)
        requires
            i < 64,
            j < 64,
    ;
}

pub proof fn lemma_bit_zero(i: u64)
    requires
        i < 64,
    ensures
        !has_bit(0u64, i),
{
    assert(!((0u64 >> i) & 1u64 == 1u64)) by (bit_vector);
}

pub proof fn lemma_low_mask_bit(n: u64, i: u64)
    requires
        n <= 64,
        i < 64,
    ensures
        has_bit(low_mask(n), i) == (i < n),
{
    if n >= 64 {
        assert((0xffff_ffff_ffff_ffffu64 >> i) & 1u64 == 1u64) by (bit_vector)
            requires
                i < 64,
        ;
    } else {
        assert(((((1u64 << n) - 1u64) as u64) >> i) & 1u64 == 1u64 <==> i < n) by (bit_vector)
            requires
                i < 64,
                n < 64,
        ;
    }
}

pub proof fn lemma_low_mask_step(n: u64)
    requires
        n < 64,
    ensures
        low_mask((n + 1) as u64) == ((low_mask(n) << 1u64) | 1u64),
{
    if n + 1 >= 64 {
        assert(((((1u64 << 63u64) - 1u64) as u64) << 1u64) | 1u64 == 0xffff_ffff_ffff_ffffu64)
            by (bit_vector);
    } else {
        assert(((1u64 << ((n + 1) as u64)) - 1u64) as u64 == (((((1u64 << n) - 1u64) as u64)
            << 1u64) | 1u64)) by (bit_vector)
            requires
                n < 63,
        ;
    }
}

proof fn lemma_shift_step(x: u64, y: u64, k: u64)
    requires
        1 <= k <= 64,
        x >> k == y >> k,
        has_bit(x, (k - 1) as u64) == has_bit(y, (k - 1) as u64),
    ensures
        x >> ((k - 1) as u64) == y >> ((k - 1) as u64),
{
    let j = (k - 1) as u64;
    assert(x >> k == y >> k && ((x >> j) & 1u64 == 1u64) == ((y >> j) & 1u64 == 1u64) && j + 1
        == k ==> x >> j == y >> j) by (bit_vector)
        requires
            j < 64,
    ;
}

proof fn lemma_bit_ext_from(x: u64, y: u64, k: u64)
    requires
        k <= 64,
        forall|i: u64| i < 64 ==> has_bit(x, i) == has_bit(y, i),
    ensures
        x >> k == y >> k,
    decreases 64 - k,
{
    if k == 64 {
        assert(x >> 64u64 == 0u64 && y >> 64u64 == 0u64) by (bit_vector);
    } else {
        lemma_bit_ext_from(x, y, (k + 1) as u64);
        lemma_shift_step(x, y, (k + 1) as u64);
    }
}

/// Two words with the same bits are equal.
pub proof fn lemma_bit_ext(x: u64, y: u64)
    requires
        forall|i: u64| i < 64 ==> has_bit(x, i) == has_bit(y, i),
    ensures
        x == y,
{
    lemma_bit_ext_from(x, y, 0);
    assert(x >> 0u64 == x && y >> 0u64 == y) by (bit_vector);
}

/// Reads one cell from the lowest bits of the two possibility words.
fn cell_from_lowest_bits(filled: u64, blank: u64) -> (c: Cell)
    requires
        has_bit(filled, 0) || has_bit(blank, 0),
    ensures
        c == cell_of_bits(has_bit(filled, 0), has_bit(blank, 0)),
{
    proof {
        assert(filled >> 0u64 == filled && blank >> 0u64 == blank) by (bit_vector);
    }
    let f = filled & 1;
    let b = blank & 1;
    if f == 1 && b == 1 {
        Cell::Unknown
    } else if f == 1 {
        Cell::Filled
    } else {
        Cell::Blank
    }
}

/// One line of a grid, held as two bit sets over its cells.
#[derive(Debug, Clone)]
pub struct LineBits {
    can_be_filled: u64,
    can_be_blank: u64,
    len: usize,
    mask: u64,
}

impl View for LineBits {
    type V = Seq<Cell>;

    closed spec fn view(&self) -> Seq<Cell> {
        Seq::new(
            self.len as nat,
            |i: int| cell_of_bits(has_bit(self.can_be_filled, i as u64), has_bit(self.can_be_blank, i as u64)),
        )
    }
}

/// The mask of the `count` lowest bits.
fn create_repunit(count: usize) -> (r: u64)
    requires
        count <= 64,
    ensures
        r == low_mask(count as u64),
{
    let mut repunit: u64 = 0;
    let mut i: usize = 0;
    proof {
        assert(((1u64 << 0u64) - 1u64) as u64 == 0u64) by (bit_vector);
    }
    while i < count
        invariant
            i <= count <= 64,
            repunit == low_mask(i as u64),
        decreases count - i,
    {
        proof {
            lemma_low_mask_step(i as u64);
        }
        repunit = (repunit << 1) | 1;
        i += 1;
    }
    repunit
}

impl LineBits {
    /// The two bit sets describe the cells of the line exactly: every cell of the
    /// line has at least one possibility, and no bit is set past its end.
    pub closed spec fn wf(&self) -> bool {
        &&& self.len <= 64
        &&& self.mask == low_mask(self.len as u64)
        &&& forall|i: u64|
            i < 64 ==> (#[trigger] has_bit(self.can_be_filled, i) || has_bit(self.can_be_blank, i))
                == (i < self.len)
    }

    /// Builds the two bit sets of a line.
    fn build_bits(cells: &[Cell]) -> (r: (u64, u64))
        requires
            cells@.len() <= 64,
        ensures
            forall|i: u64|
                i < 64 ==> #[trigger] has_bit(r.0, i) == (i < cells@.len() && cells@[i as int]
                    != Cell::Blank),
            forall|i: u64|
                i < 64 ==> #[trigger] has_bit(r.1, i) == (i < cells@.len() && cells@[i as int]
                    != Cell::Filled),
    {
        let mut can_be_filled: u64 = 0;
        let mut can_be_blank: u64 = 0;
        let n = cells.len();
        let mut i: usize = 0;
        proof {
            assert forall|j: u64| j < 64 implies !has_bit(0u64, j) by {
                lemma_bit_zero(j);
            }
        }
        while i < n
            invariant
                i <= n,
                n == cells@.len() <= 64,
                forall|j: u64|
                    j < 64 ==> #[trigger] has_bit(can_be_filled, j) == (j < i && cells@[j as int]
                        != Cell::Blank),
                forall|j: u64|
                    j < 64 ==> #[trigger] has_bit(can_be_blank, j) == (j < i && cells@[j as int]
                        != Cell::Filled),
            decreases n - i,
        {
            let bit: u64 = 1u64 << (i as u64);
            let cell = cells[i];
            let old_f = can_be_filled;
            let old_b = can_be_blank;
            if cell == Cell::Filled || cell == Cell::Unknown {
                can_be_filled = can_be_filled | bit;
            }
            if cell == Cell::Blank || cell == Cell::Unknown {
                can_be_blank = can_be_blank | bit;
            }
            proof {
                assert forall|j: u64| j < 64 implies #[trigger] has_bit(can_be_filled, j) == (j < i
                    + 1 && cells@[j as int] != Cell::Blank) by {
                    lemma_bit_or(old_f, bit, j);
                    lemma_bit_single(i as u64, j);
                }
                assert forall|j: u64| j < 64 implies #[trigger] has_bit(can_be_blank, j) == (j < i
                    + 1 && cells@[j as int] != Cell::Filled) by {
                    lemma_bit_or(old_b, bit, j);
                    lemma_bit_single(i as u64, j);
                }
            }
            i += 1;
        }
        (can_be_filled, can_be_blank)
    }

    /// Builds a line from its cells.
    pub fn from_cells(cells: &[Cell]) -> (line: Self)
        requires
            cells@.len() <= 64,
        ensures
            line.wf(),
            line@ == cells@,
    {
        let len = cells.len();
        let mask = create_repunit(len);
        let (can_be_filled, can_be_blank) = Self::build_bits(cells);
        let line = LineBits { can_be_filled, can_be_blank, len, mask };
        proof {
            assert forall|i: u64| i < 64 implies (#[trigger] has_bit(line.can_be_filled, i)
                || has_bit(line.can_be_blank, i)) == (i < line.len) by {
                if i < len {
                    assert(cells@[i as int] != Cell::Blank || cells@[i as int] != Cell::Filled);
                }
            }
            assert(line@ =~= cells@);
        }
        line
    }

    /// The line of row `row` of `grid`.
    pub fn from_grid_row(grid: &Grid, row: usize) -> (line: Self)
        requires
            grid.wf(),
            row < grid.spec_height(),
            grid.spec_width() <= 64,
        ensures
            line.wf(),
            line@ == grid.row_line(row as int),
    {
        let len = grid.width();
        let mut cells: Vec<Cell> = Vec::new();
        let mut col: usize = 0;
        while col < len
            invariant
                grid.wf(),
                row < grid.spec_height(),
                len == grid.spec_width(),
                col <= len,
                cells@ =~= grid.row_line(row as int).take(col as int),
            decreases len - col,
        {
            cells.push(*grid.cell(row, col));
            col += 1;
        }
        Self::from_cells(&cells)
    }

    /// The line of column `col` of `grid`.
    pub fn from_grid_col(grid: &Grid, col: usize) -> (line: Self)
        requires
            grid.wf(),
            col < grid.spec_width(),
            grid.spec_height() <= 64,
        ensures
            line.wf(),
            line@ == grid.col_line(col as int),
    {
        let len = grid.height();
        let mut cells: Vec<Cell> = Vec::new();
        let mut row: usize = 0;
        while row < len
            invariant
                grid.wf(),
                col < grid.spec_width(),
                len == grid.spec_height(),
                row <= len,
                cells@ =~= grid.col_line(col as int).take(row as int),
            decreases len - row,
        {
            cells.push(*grid.cell(row, col));
            row += 1;
        }
        Self::from_cells(&cells)
    }

    /// A well-formed line has at most 64 cells.
    pub proof fn lemma_wf_len(&self)
        requires
            self.wf(),
        ensures
            self@.len() <= 64,
    {
    }

    /// Number of cells.
    pub fn len(&self) -> (n: usize)
        ensures
            n == self@.len(),
    {
        self.len
    }

    /// The cell at index `i`.
    pub fn cell(&self, i: usize) -> (c: Cell)
        requires
            self.wf(),
            i < self@.len(),
        ensures
            c == self@[i as int],
    {
        proof {
            assert(has_bit(self.can_be_filled, i as u64) || has_bit(self.can_be_blank, i as u64));
            let f = self.can_be_filled;
            let b = self.can_be_blank;
            let k = i as u64;
            assert((((f >> k) >> 0u64) & 1u64 == 1u64) == ((f >> k) & 1u64 == 1u64)) by (bit_vector);
            assert((((b >> k) >> 0u64) & 1u64 == 1u64) == ((b >> k) & 1u64 == 1u64)) by (bit_vector);
        }
        cell_from_lowest_bits(self.can_be_filled >> (i as u64), self.can_be_blank >> (i as u64))
    }

    /// Number of cells in state `cell`.
    pub fn count_cells(&self, cell: Cell) -> (n: usize)
        requires
            self.wf(),
        ensures
            n == count_cell(self@, cell),
    {
        let mut n: usize = 0;
        let mut i: usize = 0;
        while i < self.len
            invariant
                self.wf(),
                i <= self@.len(),
                n == count_cell(self@.take(i as int), cell),
                n <= i,
            decreases self.len - i,
        {
            proof {
                assert(self@.take(i + 1).drop_last() =~= self@.take(i as int));
            }
            if self.cell(i) == cell {
                n += 1;
            }
            i += 1;
        }
        proof {
            assert(self@.take(self.len as int) =~= self@);
        }
        n
    }

    /// The cells, in order.
    pub fn cells(&self) -> (v: Vec<Cell>)
        requires
            self.wf(),
        ensures
            v@ == self@,
    {
        let mut v: Vec<Cell> = Vec::new();
        let mut i: usize = 0;
        while i < self.len
            invariant
                self.wf(),
                i <= self@.len(),
                v@ =~= self@.take(i as int),
            decreases self.len - i,
        {
            v.push(self.cell(i));
            i += 1;
        }
        v
    }

    /// Sets the cells at `indices` to `cell`.
    pub fn set_cells(&mut self, indices: &[usize], cell: Cell)
        requires
            old(self).wf(),
            forall|k: int| 0 <= k < indices@.len() ==> indices@[k] < old(self)@.len(),
        ensures
            final(self).wf(),
            final(self)@ == set_all(old(self)@, indices@, cell),
    {
        let mut mask: u64 = 0;
        let mut k: usize = 0;
        proof {
            assert forall|j: u64| j < 64 implies !has_bit(0u64, j) by {
                lemma_bit_zero(j);
            }
        }
        while k < indices.len()
            invariant
                k <= indices@.len(),
                self.len <= 64,
                forall|m: int| 0 <= m < indices@.len() ==> indices@[m] < self.len,
                forall|j: u64|
                    j < 64 ==> #[trigger] has_bit(mask, j) == indices@.take(k as int).contains(
                        j as usize,
                    ),
            decreases indices@.len() - k,
        {
            let idx = indices[k];
            let old_mask = mask;
            mask = mask | (1u64 << (idx as u64));
            proof {
                assert forall|j: u64| j < 64 implies #[trigger] has_bit(mask, j)
                    == indices@.take(k + 1).contains(j as usize) by {
                    lemma_bit_or(old_mask, 1u64 << (idx as u64), j);
                    lemma_bit_single(idx as u64, j);
                    let t = indices@.take(k as int);
                    let t1 = indices@.take(k + 1);
                    assert(t1 =~= t.push(idx));
                    if t1.contains(j as usize) {
                        let m = choose|m: int| 0 <= m < t1.len() && t1[m] == j as usize;
                        if m < k {
                            assert(t[m] == j as usize);
                        }
                    }
                    if t.contains(j as usize) {
                        let m = choose|m: int| 0 <= m < t.len() && t[m] == j as usize;
                        assert(t1[m] == j as usize);
                    }
                    if j == idx as u64 {
                        assert(t1[k as int] == idx);
                    }
                }
            }
            k += 1;
        }
        proof {
            assert(indices@.take(indices@.len() as int) =~= indices@);
        }
        let old_f = self.can_be_filled;
        let old_b = self.can_be_blank;
        let new_f = match cell {
            Cell::Filled | Cell::Unknown => old_f | mask,
            Cell::Blank => old_f & !mask,
        };
        let new_b = match cell {
            Cell::Blank | Cell::Unknown => old_b | mask,
            Cell::Filled => old_b & !mask,
        };
        proof {
            assert forall|j: u64| j < 64 implies {
                &&& has_bit(new_f, j) == if indices@.contains(j as usize) {
                    cell != Cell::Blank
                } else {
                    has_bit(old_f, j)
                }
                &&& has_bit(new_b, j) == if indices@.contains(j as usize) {
                    cell != Cell::Filled
                } else {
                    has_bit(old_b, j)
                }
            } by {
                lemma_bit_or(old_f, mask, j);
                lemma_bit_or(old_b, mask, j);
                lemma_bit_and(old_f, !mask, j);
                lemma_bit_and(old_b, !mask, j);
                lemma_bit_not(mask, j);
            }
        }
        let ghost old_view = self@;
        *self = LineBits { can_be_filled: new_f, can_be_blank: new_b, len: self.len, mask: self.mask };
        proof {
            assert forall|i: u64| i < 64 implies (#[trigger] has_bit(self.can_be_filled, i)
                || has_bit(self.can_be_blank, i)) == (i < self.len) by {
                if indices@.contains(i as usize) {
                    let m = choose|m: int| 0 <= m < indices@.len() && indices@[m] == i as usize;
                    assert(indices@[m] < self.len);
                }
            }
            assert(self@ =~= set_all(old_view, indices@, cell));
        }
    }

    /// Some cell of the line has lost both possibilities: its bit is in the
    /// line's mask, but it is set in neither bit set.
    pub closed spec fn has_dead_cell(&self) -> bool {
        exists|i: u64|
            i < 64 && #[trigger] has_bit(self.mask, i) && !has_bit(self.can_be_filled, i) && !has_bit(
                self.can_be_blank,
                i,
            )
    }

    /// Some cell has neither possibility left. A well-formed line has no such
    /// cell.
    pub fn has_contradiction(&self) -> (r: bool)
        ensures
            r == self.has_dead_cell(),
            self.wf() ==> !r,
    {
        let valid = self.can_be_filled | self.can_be_blank;
        proof {
            assert forall|j: u64| j < 64 implies has_bit(valid & self.mask, j) == (has_bit(self.mask, j) && (
            has_bit(self.can_be_filled, j) || has_bit(self.can_be_blank, j))) by {
                lemma_bit_and(valid, self.mask, j);
                lemma_bit_or(self.can_be_filled, self.can_be_blank, j);
            }
            if self.has_dead_cell() {
                let i = choose|i: u64|
                    i < 64 && #[trigger] has_bit(self.mask, i) && !has_bit(self.can_be_filled, i) && !has_bit(
                        self.can_be_blank,
                        i,
                    );
                assert(has_bit(valid & self.mask, i) != has_bit(self.mask, i));
            } else {
                assert forall|j: u64| j < 64 implies has_bit(valid & self.mask, j) == has_bit(self.mask, j) by {
                    if has_bit(self.mask, j) && !has_bit(self.can_be_filled, j) && !has_bit(self.can_be_blank, j) {
                        assert(self.has_dead_cell());
                    }
                }
                lemma_bit_ext(valid & self.mask, self.mask);
            }
            if self.wf() && self.has_dead_cell() {
                let i = choose|i: u64|
                    i < 64 && #[trigger] has_bit(self.mask, i) && !has_bit(self.can_be_filled, i) && !has_bit(
                        self.can_be_blank,
                        i,
                    );
                lemma_low_mask_bit(self.len as u64, i);
            }
        }
        (valid & self.mask) != self.mask
    }

    /// Every cell is decided.
    pub fn is_solved(&self) -> (r: bool)
        requires
            self.wf(),
        ensures
            r == (forall|i: int| 0 <= i < self@.len() ==> self@[i] != Cell::Unknown),
    {
        let solved = self.can_be_filled ^ self.can_be_blank;
        proof {
            assert forall|j: u64| j < 64 implies has_bit(solved, j) == (j < self.len && self@[j as int]
                != Cell::Unknown) by {
                lemma_bit_xor(self.can_be_filled, self.can_be_blank, j);
            }
            if forall|i: int| 0 <= i < self@.len() ==> self@[i] != Cell::Unknown {
                assert forall|j: u64| j < 64 implies has_bit(solved, j) == has_bit(self.mask, j) by {
                    lemma_low_mask_bit(self.len as u64, j);
                    if j < self.len {
                        assert(self@[j as int] != Cell::Unknown);
                    }
                }
                lemma_bit_ext(solved, self.mask);
            } else {
                let i = choose|i: int| 0 <= i < self@.len() && self@[i] == Cell::Unknown;
                lemma_low_mask_bit(self.len as u64, i as u64);
                assert(has_bit(self.mask, i as u64) && !has_bit(solved, i as u64));
            }
        }
        solved == self.mask
    }

    /// A block of length `len` can start at `pos`.
    pub fn can_place_block(&self, pos: usize, len: usize) -> (r: bool)
        requires
            self.wf(),
        ensures
            r == can_place(self@, pos as int, len as int),
    {
        if len > self.len || pos > self.len - len {
            return false;
        }
        let mut i = pos;
        while i < pos + len
            invariant
                self.wf(),
                pos <= i <= pos + len <= self@.len(),
                forall|m: int| pos <= m < i ==> self@[m] != Cell::Blank,
            decreases pos + len - i,
        {
            if self.cell(i) == Cell::Blank {
                return false;
            }
            i += 1;
        }
        if pos + len < self.len && self.cell(pos + len) == Cell::Filled {
            return false;
        }
        if pos > 0 && self.cell(pos - 1) == Cell::Filled {
            return false;
        }
        true
    }
}

} // verus!
