//! The dynamic-programming line solver: which unknown cells can be filled or
//! left blank by some placement of the blocks.
use vstd::prelude::*;

use super::bits::LineBits;
use super::placement::{can_place, lemma_push_contains, lemma_push_no_duplicates, set_all};
use crate::solver::Contradiction;
use crate::types::{cell_pos, lemma_cell_pos_bounds, lemma_cell_pos_inj, Cell};

verus! {

/// Index right after a block of length `len` placed at `s` on a line of `n`
/// cells, skipping the blank cell that must follow it.
pub open spec fn next_after(n: int, s: int, len: int) -> int {
    if s + len == n {
        n
    } else {
        s + len + 1
    }
}

/// A two-dimensional table of booleans.
#[derive(Debug, Clone)]
struct DPArray {
    values: Vec<bool>,
    size1: usize,
    size2: usize,
}

impl DPArray {
    spec fn wf(&self) -> bool {
        self.values@.len() == self.size1 * self.size2
    }

    spec fn get(&self, i1: int, i2: int) -> bool {
        self.values@[cell_pos(self.size2 as int, i1, i2)]
    }

    fn new(size1: usize, size2: usize) -> (a: Self)
        requires
            size1 * size2 <= usize::MAX,
        ensures
            a.wf(),
            a.size1 == size1,
            a.size2 == size2,
            forall|i1: int, i2: int| 0 <= i1 < size1 && 0 <= i2 < size2 ==> !a.get(i1, i2),
    {
        let a = DPArray { values: vec![false; size1 * size2], size1, size2 };
        proof {
            assert forall|i1: int, i2: int| 0 <= i1 < size1 && 0 <= i2 < size2 implies !a.get(i1, i2) by {
                lemma_cell_pos_bounds(size2 as int, size1 as int, i1, i2);
                assert(size2 * size1 == size1 * size2) by (nonlinear_arith);
                assert(a.values@[cell_pos(size2 as int, i1, i2)] == false);
            }
        }
        a
    }

    fn raw_index(&self, i1: usize, i2: usize) -> (r: usize)
        requires
            self.wf(),
            i1 < self.size1,
            i2 < self.size2,
        ensures
            r == cell_pos(self.size2 as int, i1 as int, i2 as int),
            r < self.values@.len(),
    {
        let len = self.values.len();
        proof {
            lemma_cell_pos_bounds(self.size2 as int, self.size1 as int, i1 as int, i2 as int);
            assert(i1 * self.size2 <= i1 * self.size2 + i2);
        }
        i1 * self.size2 + i2
    }

    fn value(&self, i1: usize, i2: usize) -> (v: bool)
        requires
            self.wf(),
            i1 < self.size1,
            i2 < self.size2,
        ensures
            v == self.get(i1 as int, i2 as int),
    {
        let index = self.raw_index(i1, i2);
        self.values[index]
    }

    fn set_value(&mut self, i1: usize, i2: usize, value: bool)
        requires
            old(self).wf(),
            i1 < old(self).size1,
            i2 < old(self).size2,
        ensures
            final(self).wf(),
            final(self).size1 == old(self).size1,
            final(self).size2 == old(self).size2,
            forall|x: int, y: int|
                0 <= x < old(self).size1 && 0 <= y < old(self).size2 ==> #[trigger] final(self).get(x, y)
                    == if x == i1 && y == i2 {
                    value
                } else {
                    old(self).get(x, y)
                },
    {
        let index = self.raw_index(i1, i2);
        self.values.set(index, value);
        proof {
            assert forall|x: int, y: int|
                0 <= x < self.size1 && 0 <= y < self.size2 implies #[trigger] self.get(x, y) == if x
                    == i1 && y == i2 {
                    value
                } else {
                    old(self).get(x, y)
                } by {
                lemma_cell_pos_bounds(self.size2 as int, self.size1 as int, x, y);
                if cell_pos(self.size2 as int, x, y) == cell_pos(self.size2 as int, i1 as int, i2 as int) {
                    lemma_cell_pos_inj(self.size2 as int, x, y, i1 as int, i2 as int);
                }
            }
        }
    }
}


/// Blocks `j..` can be placed on the cells from `i` to the end (the table the
/// backward pass fills).
pub open spec fn reach_bwd(line: Seq<Cell>, b: Seq<usize>, i: int, j: int) -> bool
    decreases line.len() - i,
{
    if i < 0 || i >= line.len() {
        i == line.len() && j == b.len()
    } else {
        ||| line[i] != Cell::Filled && reach_bwd(line, b, i + 1, j)
        ||| 0 <= j < b.len() && can_place(line, i, b[j] as int) && reach_bwd(
            line,
            b,
            next_after(line.len() as int, i, b[j] as int),
            j + 1,
        )
    }
}

/// Blocks `..j` can be placed on the cells before `p`, leaving `p` free to start
/// the next block (the table the forward pass fills).
pub open spec fn reach_fwd(line: Seq<Cell>, b: Seq<usize>, p: int, q: int) -> bool
    decreases p,
{
    if p <= 0 {
        p == 0 && q == 0
    } else if p > line.len() {
        false
    } else {
        ||| line[p - 1] != Cell::Filled && reach_fwd(line, b, p - 1, q)
        ||| 0 < q <= b.len() && p - b[q - 1] - 1 >= 0 && can_place(
            line,
            p - b[q - 1] - 1,
            b[q - 1] as int,
        ) && reach_fwd(line, b, p - b[q - 1] - 1, q - 1)
        ||| 0 < q <= b.len() && p == line.len() && b[q - 1] > 0 && p - b[q - 1] >= 0 && can_place(
            line,
            p - b[q - 1],
            b[q - 1] as int,
        ) && reach_fwd(line, b, p - b[q - 1], q - 1)
    }
}

/// Cell `i` is covered by block `j` starting at `s` in some path through both tables.
pub open spec fn fill_path(line: Seq<Cell>, b: Seq<usize>, i: int, j: int, s: int) -> bool {
    &&& 0 <= j < b.len()
    &&& 0 <= s <= i < s + b[j]
    &&& can_place(line, s, b[j] as int)
    &&& reach_fwd(line, b, s, j)
    &&& reach_bwd(line, b, next_after(line.len() as int, s, b[j] as int), j + 1)
}

/// Cell `i` is passed over as a blank in some path through both tables.
pub open spec fn blank_path(line: Seq<Cell>, b: Seq<usize>, i: int, j: int) -> bool {
    &&& 0 <= j <= b.len()
    &&& reach_fwd(line, b, i, j)
    &&& reach_bwd(line, b, i + 1, j)
}

/// Cell `i` is the blank right after block `j` in some path through both
/// tables.
pub open spec fn separator_path(line: Seq<Cell>, b: Seq<usize>, i: int, j: int) -> bool {
    &&& 0 <= j < b.len()
    &&& 0 <= i - b[j]
    &&& i < line.len()
    &&& can_place(line, i - b[j], b[j] as int)
    &&& reach_fwd(line, b, i - b[j], j)
    &&& reach_bwd(line, b, i + 1, j + 1)
}

#[verifier::opaque]
pub open spec fn dp_can_fill(line: Seq<Cell>, b: Seq<usize>, i: int) -> bool {
    exists|j: int, s: int| fill_path(line, b, i, j, s)
}

#[verifier::opaque]
pub open spec fn dp_can_blank(line: Seq<Cell>, b: Seq<usize>, i: int) -> bool {
    exists|j: int| blank_path(line, b, i, j) || separator_path(line, b, i, j)
}

/// The state the DP line solver gives cell `i`.
pub open spec fn dp_cell(line: Seq<Cell>, b: Seq<usize>, i: int) -> Cell {
    if line[i] != Cell::Unknown {
        line[i]
    } else if dp_can_fill(line, b, i) && !dp_can_blank(line, b, i) {
        Cell::Filled
    } else if !dp_can_fill(line, b, i) && dp_can_blank(line, b, i) {
        Cell::Blank
    } else {
        Cell::Unknown
    }
}

/// The DP line solver succeeds: the whole line can be reached, and every unknown
/// cell can be filled or left blank.
pub open spec fn dp_ok(line: Seq<Cell>, b: Seq<usize>) -> bool {
    &&& reach_fwd(line, b, line.len() as int, b.len() as int)
    &&& forall|i: int|
        0 <= i < line.len() && line[i] == Cell::Unknown ==> dp_can_fill(line, b, i)
            || dp_can_blank(line, b, i)
}

/// The line after the DP line solver.
pub open spec fn dp_line(line: Seq<Cell>, b: Seq<usize>) -> Seq<Cell> {
    Seq::new(line.len(), |i: int| dp_cell(line, b, i))
}

/// The cells that a predecessor `(p, q)` pushes into the forward table have
/// been pushed once every predecessor before `(i, j)` has been processed.
spec fn processed(p: int, q: int, i: int, j: int) -> bool {
    p < i || (p == i && q < j)
}

spec fn pushed(line: Seq<Cell>, b: Seq<usize>, x: int, y: int, i: int, j: int) -> bool {
    ||| x == 0 && y == 0
    ||| x > 0 && processed(x - 1, y, i, j) && line[x - 1] != Cell::Filled && reach_fwd(
        line,
        b,
        x - 1,
        y,
    )
    ||| 0 < y <= b.len() && x - b[y - 1] - 1 >= 0 && processed(x - b[y - 1] - 1, y - 1, i, j)
        && can_place(line, x - b[y - 1] - 1, b[y - 1] as int) && reach_fwd(
        line,
        b,
        x - b[y - 1] - 1,
        y - 1,
    )
    ||| 0 < y <= b.len() && x == line.len() && b[y - 1] > 0 && x - b[y - 1] >= 0 && processed(
        x - b[y - 1],
        y - 1,
        i,
        j,
    ) && can_place(line, x - b[y - 1], b[y - 1] as int) && reach_fwd(line, b, x - b[y - 1], y - 1)
}

proof fn lemma_pushed_done(line: Seq<Cell>, b: Seq<usize>, x: int, y: int, i: int, j: int)
    requires
        0 <= x <= line.len(),
        x <= i,
    ensures
        pushed(line, b, x, y, i, j) == reach_fwd(line, b, x, y),
{
}

/// The DP tables for one line and its clue.
struct DPSolver<'a> {
    line: &'a LineBits,
    blocks: &'a [usize],
    fwd: DPArray,
    bwd: DPArray,
}

impl<'a> DPSolver<'a> {
    spec fn wf(&self) -> bool {
        &&& self.line.wf()
        &&& self.blocks@.len() <= self.line@.len() + 1
        &&& self.fwd.wf()
        &&& self.bwd.wf()
        &&& self.fwd.size1 == self.line@.len() + 1
        &&& self.fwd.size2 == self.blocks@.len() + 1
        &&& self.bwd.size1 == self.line@.len() + 1
        &&& self.bwd.size2 == self.blocks@.len() + 1
    }

    spec fn fwd_done(&self) -> bool {
        forall|x: int, y: int|
            0 <= x <= self.line@.len() && 0 <= y <= self.blocks@.len() ==> #[trigger] self.fwd.get(x, y)
                == reach_fwd(self.line@, self.blocks@, x, y)
    }

    spec fn bwd_done(&self) -> bool {
        forall|x: int, y: int|
            0 <= x <= self.line@.len() && 0 <= y <= self.blocks@.len() ==> #[trigger] self.bwd.get(x, y)
                == reach_bwd(self.line@, self.blocks@, x, y)
    }

    fn n(&self) -> (n: usize)
        ensures
            n == self.line@.len(),
    {
        self.line.len()
    }

    fn k(&self) -> (k: usize)
        ensures
            k == self.blocks@.len(),
    {
        self.blocks.len()
    }

    /// Index after a block of length `len` placed at `s`.
    fn next_after_block(&self, s: usize, len: usize) -> (r: usize)
        requires
            self.wf(),
            s + len <= self.line@.len(),
        ensures
            r == next_after(self.line@.len() as int, s as int, len as int),
    {
        let end = s + len;
        if end == self.line.len() {
            end
        } else {
            end + 1
        }
    }

    fn solve(line: &'a LineBits, blocks: &'a [usize]) -> (r: Result<(Vec<usize>, Vec<usize>), Contradiction>)
        requires
            line.wf(),
            blocks@.len() <= line@.len() + 1,
        ensures
            r is Ok <==> dp_ok(line@, blocks@),
            r matches Ok((f, bl)) ==> {
                &&& f@.no_duplicates()
                &&& bl@.no_duplicates()
                &&& forall|x: usize|
                    f@.contains(x) <==> (x < line@.len() && line@[x as int] == Cell::Unknown && dp_cell(
                        line@,
                        blocks@,
                        x as int,
                    ) == Cell::Filled)
                &&& forall|x: usize|
                    bl@.contains(x) <==> (x < line@.len() && line@[x as int] == Cell::Unknown
                        && dp_cell(line@, blocks@, x as int) == Cell::Blank)
            },
    {
        proof {
            line.lemma_wf_len();
            assert((line@.len() + 1) * (blocks@.len() + 1) <= 66 * 66) by (nonlinear_arith)
                requires
                    line@.len() <= 64,
                    blocks@.len() <= line@.len() + 1,
            ;
        }
        let mut solver = DPSolver {
            line,
            blocks,
            fwd: DPArray::new(line.len() + 1, blocks.len() + 1),
            bwd: DPArray::new(line.len() + 1, blocks.len() + 1),
        };
        solver.build_forward();
        if !solver.fwd.value(solver.n(), solver.k()) {
            return Err(Contradiction);
        }
        solver.build_backward();
        solver.collect_changes()
    }

    fn build_forward(&mut self)
        requires
            old(self).wf(),
            forall|x: int, y: int|
                0 <= x <= old(self).line@.len() && 0 <= y <= old(self).blocks@.len() ==> !old(
                    self,
                ).fwd.get(x, y),
        ensures
            final(self).wf(),
            final(self).line == old(self).line,
            final(self).blocks == old(self).blocks,
            final(self).bwd == old(self).bwd,
            final(self).fwd_done(),
    {
        let n = self.n();
        let k = self.k();
        self.fwd.set_value(0, 0, true);
        let mut i: usize = 0;
        while i < n
            invariant
                self.wf(),
                self.line == old(self).line,
                self.blocks == old(self).blocks,
                self.bwd == old(self).bwd,
                n == self.line@.len(),
                k == self.blocks@.len(),
                i <= n,
                forall|x: int, y: int|
                    0 <= x <= n && 0 <= y <= k ==> #[trigger] self.fwd.get(x, y) == pushed(
                        self.line@,
                        self.blocks@,
                        x,
                        y,
                        i as int,
                        0,
                    ),
            decreases n - i,
        {
            let mut j: usize = 0;
            while j <= k
                invariant
                    self.wf(),
                    self.line == old(self).line,
                    self.blocks == old(self).blocks,
                    self.bwd == old(self).bwd,
                    n == self.line@.len(),
                    k == self.blocks@.len(),
                    i < n,
                    j <= k + 1,
                    forall|x: int, y: int|
                        0 <= x <= n && 0 <= y <= k ==> #[trigger] self.fwd.get(x, y) == pushed(
                            self.line@,
                            self.blocks@,
                            x,
                            y,
                            i as int,
                            j as int,
                        ),
                decreases k + 1 - j,
            {
                self.forward_transition(i, j);
                j += 1;
            }
            proof {
                assert forall|x: int, y: int| 0 <= x <= n && 0 <= y <= k implies #[trigger] pushed(
                    self.line@,
                    self.blocks@,
                    x,
                    y,
                    i as int,
                    (k + 1) as int,
                ) == pushed(self.line@, self.blocks@, x, y, (i + 1) as int, 0) by {}
            }
            i += 1;
        }
        proof {
            assert forall|x: int, y: int| 0 <= x <= n && 0 <= y <= k implies #[trigger] self.fwd.get(x, y)
                == reach_fwd(self.line@, self.blocks@, x, y) by {
                lemma_pushed_done(self.line@, self.blocks@, x, y, n as int, 0);
            }
        }
    }

    fn forward_transition(&mut self, i: usize, j: usize)
        requires
            old(self).wf(),
            i < old(self).line@.len(),
            j <= old(self).blocks@.len(),
            forall|x: int, y: int|
                0 <= x <= old(self).line@.len() && 0 <= y <= old(self).blocks@.len()
                    ==> #[trigger] old(self).fwd.get(x, y) == pushed(
                    old(self).line@,
                    old(self).blocks@,
                    x,
                    y,
                    i as int,
                    j as int,
                ),
        ensures
            final(self).wf(),
            final(self).line == old(self).line,
            final(self).blocks == old(self).blocks,
            final(self).bwd == old(self).bwd,
            forall|x: int, y: int|
                0 <= x <= old(self).line@.len() && 0 <= y <= old(self).blocks@.len()
                    ==> #[trigger] final(self).fwd.get(x, y) == pushed(
                    old(self).line@,
                    old(self).blocks@,
                    x,
                    y,
                    i as int,
                    j + 1,
                ),
    {
        let ghost line = self.line@;
        let ghost b = self.blocks@;
        let ghost n = line.len() as int;
        let ghost k = b.len() as int;
        proof {
            lemma_pushed_done(line, b, i as int, j as int, i as int, j as int);
        }
        if !self.fwd.value(i, j) {
            proof {
                assert forall|x: int, y: int| 0 <= x <= n && 0 <= y <= k implies #[trigger] self.fwd.get(
                    x,
                    y,
                ) == pushed(line, b, x, y, i as int, j + 1) by {}
            }
            return ;
        }
        let ghost f0 = self.fwd;
        if self.line.cell(i) != Cell::Filled {
            self.fwd.set_value(i + 1, j, true);
        }
        let ghost f1 = self.fwd;
        if j < self.blocks.len() {
            let len = self.blocks[j];
            if self.line.can_place_block(i, len) {
                let next = self.next_after_block(i, len);
                self.fwd.set_value(next, j + 1, true);
            }
        }
        proof {
            assert forall|x: int, y: int| 0 <= x <= n && 0 <= y <= k implies #[trigger] self.fwd.get(x, y)
                == pushed(line, b, x, y, i as int, j + 1) by {
                assert(f0.get(x, y) == pushed(line, b, x, y, i as int, j as int));
            }
        }
    }

    fn build_backward(&mut self)
        requires
            old(self).wf(),
            forall|x: int, y: int|
                0 <= x <= old(self).line@.len() && 0 <= y <= old(self).blocks@.len() ==> !old(
                    self,
                ).bwd.get(x, y),
        ensures
            final(self).wf(),
            final(self).line == old(self).line,
            final(self).blocks == old(self).blocks,
            final(self).fwd == old(self).fwd,
            final(self).bwd_done(),
    {
        let n = self.n();
        let k = self.k();
        self.bwd.set_value(n, k, true);
        let mut i: usize = n;
        while i > 0
            invariant
                self.wf(),
                self.line == old(self).line,
                self.blocks == old(self).blocks,
                self.fwd == old(self).fwd,
                n == self.line@.len(),
                k == self.blocks@.len(),
                i <= n,
                forall|x: int, y: int|
                    0 <= x <= n && 0 <= y <= k ==> #[trigger] self.bwd.get(x, y) == if x >= i {
                        reach_bwd(self.line@, self.blocks@, x, y)
                    } else {
                        false
                    },
            decreases i,
        {
            i -= 1;
            let mut j: usize = 0;
            while j <= k
                invariant
                    self.wf(),
                    self.line == old(self).line,
                    self.blocks == old(self).blocks,
                    self.fwd == old(self).fwd,
                    n == self.line@.len(),
                    k == self.blocks@.len(),
                    i < n,
                    j <= k + 1,
                    forall|x: int, y: int|
                        0 <= x <= n && 0 <= y <= k ==> #[trigger] self.bwd.get(x, y) == if x > i || (x
                            == i && y < j) {
                            reach_bwd(self.line@, self.blocks@, x, y)
                        } else {
                            false
                        },
                decreases k + 1 - j,
            {
                self.backward_transition(i, j);
                j += 1;
            }
        }
    }

    fn backward_transition(&mut self, i: usize, j: usize)
        requires
            old(self).wf(),
            i < old(self).line@.len(),
            j <= old(self).blocks@.len(),
            forall|x: int, y: int|
                0 <= x <= old(self).line@.len() && 0 <= y <= old(self).blocks@.len()
                    ==> #[trigger] old(self).bwd.get(x, y) == if x > i || (x == i && y < j) {
                    reach_bwd(old(self).line@, old(self).blocks@, x, y)
                } else {
                    false
                },
        ensures
            final(self).wf(),
            final(self).line == old(self).line,
            final(self).blocks == old(self).blocks,
            final(self).fwd == old(self).fwd,
            forall|x: int, y: int|
                0 <= x <= old(self).line@.len() && 0 <= y <= old(self).blocks@.len()
                    ==> #[trigger] final(self).bwd.get(x, y) == if x > i || (x == i && y < j + 1) {
                    reach_bwd(old(self).line@, old(self).blocks@, x, y)
                } else {
                    false
                },
    {
        let ghost line = self.line@;
        let ghost b = self.blocks@;
        let ghost b0 = self.bwd;
        if self.bwd.value(i + 1, j) && self.line.cell(i) != Cell::Filled {
            self.bwd.set_value(i, j, true);
        }
        if j < self.blocks.len() {
            let len = self.blocks[j];
            if self.line.can_place_block(i, len) {
                let next = self.next_after_block(i, len);
                if self.bwd.value(next, j + 1) {
                    self.bwd.set_value(i, j, true);
                }
            }
        }
        proof {
            assert forall|x: int, y: int|
                0 <= x <= line.len() && 0 <= y <= b.len() implies #[trigger] self.bwd.get(x, y) == if x
                    > i || (x == i && y < j + 1) {
                    reach_bwd(line, b, x, y)
                } else {
                    false
                } by {
                assert(b0.get(x, y) == if x > i || (x == i && y < j) {
                    reach_bwd(line, b, x, y)
                } else {
                    false
                });
            }
        }
    }

    /// Some path through the tables covers cell `i` with a block.
    fn can_be_filled(&self, i: usize) -> (r: bool)
        requires
            self.wf(),
            self.fwd_done(),
            self.bwd_done(),
            i < self.line@.len(),
        ensures
            r == dp_can_fill(self.line@, self.blocks@, i as int),
    {
        let ghost line = self.line@;
        let ghost b = self.blocks@;
        let k = self.k();
        let mut j: usize = 0;
        while j < k
            invariant
                self.wf(),
                self.fwd_done(),
                self.bwd_done(),
                i < line.len(),
                line == self.line@,
                b == self.blocks@,
                k == b.len(),
                j <= k,
                forall|jj: int, ss: int| 0 <= jj < j ==> !#[trigger] fill_path(line, b, i as int, jj, ss),
            decreases k - j,
        {
            let len = self.blocks[j];
            let s_min = if i + 1 >= len {
                i + 1 - len
            } else {
                0
            };
            let mut s = s_min;
            while s <= i
                invariant
                    self.wf(),
                    self.fwd_done(),
                    self.bwd_done(),
                    i < line.len(),
                    line == self.line@,
                    b == self.blocks@,
                    k == b.len(),
                    j < k,
                    len == b[j as int],
                    s_min <= s <= i + 1,
                    s_min == if i + 1 >= len {
                        i + 1 - len
                    } else {
                        0
                    },
                    forall|ss: int| ss < s ==> !#[trigger] fill_path(line, b, i as int, j as int, ss),
                decreases i + 1 - s,
            {
                if self.line.can_place_block(s, self.blocks[j]) {
                    let next = self.next_after_block(s, len);
                    if self.fwd.value(s, j) && self.bwd.value(next, j + 1) {
                        proof {
                            assert(fill_path(line, b, i as int, j as int, s as int));
                            reveal(dp_can_fill);
                        }
                        return true;
                    }
                }
                s += 1;
            }
            j += 1;
        }
        proof {
            reveal(dp_can_fill);
        }
        false
    }

    /// Some path through the tables leaves cell `i` blank: it passes over the
    /// cell, or the cell is the gap right after a block.
    fn can_be_blank(&self, i: usize) -> (r: bool)
        requires
            self.wf(),
            self.fwd_done(),
            self.bwd_done(),
            i < self.line@.len(),
        ensures
            r == dp_can_blank(self.line@, self.blocks@, i as int),
    {
        let ghost line = self.line@;
        let ghost b = self.blocks@;
        let k = self.k();
        let mut j: usize = 0;
        while j <= k
            invariant
                self.wf(),
                self.fwd_done(),
                self.bwd_done(),
                i < line.len(),
                line == self.line@,
                b == self.blocks@,
                k == b.len(),
                j <= k + 1,
                forall|jj: int| 0 <= jj < j ==> !#[trigger] blank_path(line, b, i as int, jj),
                forall|jj: int| 0 <= jj < j ==> !#[trigger] separator_path(line, b, i as int, jj),
            decreases k + 1 - j,
        {
            if self.fwd.value(i, j) && self.bwd.value(i + 1, j) {
                proof {
                    assert(blank_path(line, b, i as int, j as int));
                    reveal(dp_can_blank);
                }
                return true;
            }
            if j < k {
                let len = self.blocks[j];
                if i >= len {
                    let s = i - len;
                    if self.line.can_place_block(s, len) && self.fwd.value(s, j) && self.bwd.value(i + 1, j + 1) {
                        proof {
                            assert(separator_path(line, b, i as int, j as int));
                            reveal(dp_can_blank);
                        }
                        return true;
                    }
                }
            }
            j += 1;
        }
        proof {
            reveal(dp_can_blank);
        }
        false
    }

    /// The state of unknown cell `i` after the DP, or a contradiction when it can
    /// be neither filled nor blank.
    fn resolve_cell(&self, i: usize) -> (r: Result<Cell, Contradiction>)
        requires
            self.wf(),
            self.fwd_done(),
            self.bwd_done(),
            i < self.line@.len(),
            self.line@[i as int] == Cell::Unknown,
        ensures
            r is Err <==> !dp_can_fill(self.line@, self.blocks@, i as int) && !dp_can_blank(
                self.line@,
                self.blocks@,
                i as int,
            ),
            r matches Ok(c) ==> c == dp_cell(self.line@, self.blocks@, i as int),
    {
        match (self.can_be_filled(i), self.can_be_blank(i)) {
            (true, true) => Ok(Cell::Unknown),
            (true, false) => Ok(Cell::Filled),
            (false, true) => Ok(Cell::Blank),
            (false, false) => Err(Contradiction),
        }
    }

    /// The unknown cells that the DP decides, filled ones and blank ones.
    fn collect_changes(&self) -> (r: Result<(Vec<usize>, Vec<usize>), Contradiction>)
        requires
            self.wf(),
            self.fwd_done(),
            self.bwd_done(),
        ensures
            r is Ok <==> forall|i: int|
                0 <= i < self.line@.len() && self.line@[i] == Cell::Unknown ==> dp_can_fill(
                    self.line@,
                    self.blocks@,
                    i,
                ) || dp_can_blank(self.line@, self.blocks@, i),
            r matches Ok((f, bl)) ==> {
                &&& f@.no_duplicates()
                &&& bl@.no_duplicates()
                &&& forall|x: usize|
                    f@.contains(x) <==> (x < self.line@.len() && self.line@[x as int] == Cell::Unknown
                        && dp_cell(self.line@, self.blocks@, x as int) == Cell::Filled)
                &&& forall|x: usize|
                    bl@.contains(x) <==> (x < self.line@.len() && self.line@[x as int]
                        == Cell::Unknown && dp_cell(self.line@, self.blocks@, x as int) == Cell::Blank)
            },
    {
        let ghost line = self.line@;
        let ghost b = self.blocks@;
        let n = self.n();
        let mut filled: Vec<usize> = Vec::new();
        let mut blank: Vec<usize> = Vec::new();
        let mut i: usize = 0;
        while i < n
            invariant
                self.wf(),
                self.fwd_done(),
                self.bwd_done(),
                line == self.line@,
                b == self.blocks@,
                n == line.len(),
                i <= n,
                forall|m: int|
                    0 <= m < i && line[m] == Cell::Unknown ==> dp_can_fill(line, b, m) || dp_can_blank(
                        line,
                        b,
                        m,
                    ),
                filled@.no_duplicates(),
                blank@.no_duplicates(),
                forall|x: usize|
                    filled@.contains(x) <==> (x < i && line[x as int] == Cell::Unknown && dp_cell(
                        line,
                        b,
                        x as int,
                    ) == Cell::Filled),
                forall|x: usize|
                    blank@.contains(x) <==> (x < i && line[x as int] == Cell::Unknown && dp_cell(
                        line,
                        b,
                        x as int,
                    ) == Cell::Blank),
            decreases n - i,
        {
            if self.line.cell(i) != Cell::Unknown {
                i += 1;
                continue;
            }
            match self.resolve_cell(i) {
                Err(e) => {
                    return Err(e);
                },
                Ok(Cell::Filled) => {
                    proof {
                        assert(!filled@.contains(i));
                        lemma_push_no_duplicates(filled@, i);
                        assert forall|x: usize| filled@.push(i).contains(x) == (filled@.contains(x) || x == i) by {
                            lemma_push_contains(filled@, i, x);
                        }
                    }
                    filled.push(i);
                },
                Ok(Cell::Blank) => {
                    proof {
                        assert(!blank@.contains(i));
                        lemma_push_no_duplicates(blank@, i);
                        assert forall|x: usize| blank@.push(i).contains(x) == (blank@.contains(x) || x == i) by {
                            lemma_push_contains(blank@, i, x);
                        }
                    }
                    blank.push(i);
                },
                Ok(Cell::Unknown) => {},
            }
            i += 1;
        }
        Ok((filled, blank))
    }
}

/// Runs the DP line solver on `line`: every unknown cell that only a block can
/// cover becomes filled, and every unknown cell that only a gap can pass over
/// becomes blank. Returns the cells it decided.
pub fn dp_solve(line: &mut LineBits, blocks: &[usize]) -> (r: Result<Vec<usize>, Contradiction>)
    requires
        old(line).wf(),
        blocks@.len() <= old(line)@.len() + 1,
    ensures
        final(line).wf(),
        r is Ok <==> dp_ok(old(line)@, blocks@),
        r is Err ==> final(line)@ == old(line)@,
        r matches Ok(changed) ==> {
            &&& final(line)@ == dp_line(old(line)@, blocks@)
            &&& changed@.no_duplicates()
            &&& forall|x: usize|
                changed@.contains(x) <==> (x < old(line)@.len() && old(line)@[x as int] == Cell::Unknown
                    && final(line)@[x as int] != Cell::Unknown)
        },
{
    let ghost l0 = line@;
    proof {
        line.lemma_wf_len();
    }
    let (filled, blank) = match DPSolver::solve(line, blocks) {
        Ok(v) => v,
        Err(e) => {
            return Err(e);
        },
    };
    proof {
        assert forall|m: int| 0 <= m < filled@.len() implies filled@[m] < l0.len() by {
            assert(filled@.contains(filled@[m]));
        }
        assert forall|m: int| 0 <= m < blank@.len() implies blank@[m] < l0.len() by {
            assert(blank@.contains(blank@[m]));
        }
    }
    line.set_cells(filled.as_slice(), Cell::Filled);
    let ghost l1 = line@;
    line.set_cells(blank.as_slice(), Cell::Blank);
    proof {
        assert forall|x: int| 0 <= x < l0.len() implies #[trigger] line@[x] == dp_cell(l0, blocks@, x) by {
            assert((x as usize) as int == x);
            assert(filled@.contains(x as usize) == (l0[x] == Cell::Unknown && dp_cell(l0, blocks@, x) == Cell::Filled));
            assert(blank@.contains(x as usize) == (l0[x] == Cell::Unknown && dp_cell(l0, blocks@, x) == Cell::Blank));
        }
        assert(line@ =~= dp_line(l0, blocks@));
    }
    let mut changed = filled;
    let mut rest = blank;
    let ghost f = changed@;
    let ghost bl = rest@;
    changed.append(&mut rest);
    proof {
        assert(changed@ =~= f + bl);
        assert forall|a: int, c: int| 0 <= a < c < changed@.len() implies changed@[a] != changed@[c] by {
            if a < f.len() && c >= f.len() {
                assert(f.contains(changed@[a]));
                assert(bl.contains(changed@[c]));
            }
        }
        assert forall|x: usize| changed@.contains(x) <==> (x < l0.len() && l0[x as int] == Cell::Unknown
            && line@[x as int] != Cell::Unknown) by {
            if changed@.contains(x) {
                let m = choose|m: int| 0 <= m < changed@.len() && changed@[m] == x;
                if m < f.len() {
                    assert(f.contains(x));
                } else {
                    assert(bl[m - f.len()] == x);
                    assert(bl.contains(x));
                }
            }
            if x < l0.len() && l0[x as int] == Cell::Unknown && line@[x as int] != Cell::Unknown {
                if f.contains(x) {
                    let m = choose|m: int| 0 <= m < f.len() && f[m] == x;
                    assert(changed@[m] == x);
                } else {
                    assert(bl.contains(x));
                    let m = choose|m: int| 0 <= m < bl.len() && bl[m] == x;
                    assert(changed@[f.len() + m] == x);
                }
            }
        }
    }
    Ok(changed)
}

} // verus!
