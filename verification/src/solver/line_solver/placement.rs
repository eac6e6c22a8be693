//! The meaning of a clue on a line: the placements of its blocks.
use vstd::prelude::*;

use crate::types::Cell;

verus! {

/// A block of length `len` can start at `pos` on `line`: it fits, covers no blank
/// cell, and has no filled cell right before or right after it.
pub open spec fn can_place(line: Seq<Cell>, pos: int, len: int) -> bool {
    &&& 0 <= pos
    &&& pos + len <= line.len()
    &&& forall|i: int| pos <= i < pos + len ==> line[i] != Cell::Blank
    &&& pos + len < line.len() ==> line[pos + len] != Cell::Filled
    &&& pos > 0 ==> line[pos - 1] != Cell::Filled
}

/// Number of cells of `line` in state `c`.
pub open spec fn count_cell(line: Seq<Cell>, c: Cell) -> nat
    decreases line.len(),
{
    if line.len() == 0 {
        0
    } else {
        count_cell(line.drop_last(), c) + if line.last() == c {
            1nat
        } else {
            0nat
        }
    }
}

/// Sum of the block lengths.
pub open spec fn sum_blocks(b: Seq<usize>) -> int
    decreases b.len(),
{
    if b.len() == 0 {
        0
    } else {
        sum_blocks(b.drop_last()) + b.last()
    }
}

/// The largest block length (zero without blocks).
pub open spec fn max_block(b: Seq<usize>) -> int
    decreases b.len(),
{
    if b.len() == 0 {
        0
    } else if max_block(b.drop_last()) >= b.last() {
        max_block(b.drop_last())
    } else {
        b.last() as int
    }
}

/// Length of the run of filled cells that ends right before index `i`.
pub open spec fn filled_run_before(line: Seq<Cell>, i: int) -> nat
    decreases i,
{
    if i <= 0 || i > line.len() || line[i - 1] != Cell::Filled {
        0
    } else {
        filled_run_before(line, i - 1) + 1
    }
}

/// `line` with the cells at `indices` set to `c`.
pub open spec fn set_all(line: Seq<Cell>, indices: Seq<usize>, c: Cell) -> Seq<Cell> {
    Seq::new(line.len(), |i: int| if indices.contains(i as usize) { c } else { line[i] })
}

/// Pushing `v` adds exactly `v` to the elements of a sequence.
pub proof fn lemma_push_contains<T>(s: Seq<T>, v: T, x: T)
    ensures
        s.push(v).contains(x) == (s.contains(x) || x == v),
{
    if s.push(v).contains(x) {
        let m = choose|m: int| 0 <= m < s.push(v).len() && s.push(v)[m] == x;
        if m < s.len() {
            assert(s[m] == x);
        }
    }
    if s.contains(x) {
        let m = choose|m: int| 0 <= m < s.len() && s[m] == x;
        assert(s.push(v)[m] == x);
    }
    if x == v {
        assert(s.push(v)[s.len() as int] == x);
    }
}

/// Pushing a new element keeps a sequence free of duplicates.
pub proof fn lemma_push_no_duplicates<T>(s: Seq<T>, v: T)
    requires
        s.no_duplicates(),
        !s.contains(v),
    ensures
        s.push(v).no_duplicates(),
{
    assert forall|a: int, c: int| 0 <= a < c < s.push(v).len() implies s.push(v)[a] != s.push(v)[c] by {
        if c == s.len() {
            assert(s[a] == s.push(v)[a]);
        }
    }
}

/// Block `j` of `b` starts at `s[j]`: the blocks lie on a line of `n` cells in
/// order, each at least one cell long and separated by at least one cell.
pub open spec fn placement_ok(s: Seq<int>, b: Seq<usize>, n: int) -> bool {
    &&& s.len() == b.len()
    &&& forall|j: int| 0 <= j < b.len() ==> 0 <= #[trigger] s[j] && s[j] + b[j] <= n && b[j] >= 1
    &&& forall|j1: int, j2: int| 0 <= j1 < j2 < b.len() ==> #[trigger] s[j1] + b[j1] < #[trigger] s[j2]
}

/// Cell `i` lies in some block of the placement.
pub open spec fn covered(s: Seq<int>, b: Seq<usize>, i: int) -> bool {
    exists|j: int| 0 <= j < b.len() && #[trigger] s[j] <= i < s[j] + b[j]
}

/// The solved line of a placement: its blocks filled, every other cell blank.
pub open spec fn placed_line(s: Seq<int>, b: Seq<usize>, n: int) -> Seq<Cell> {
    Seq::new(n as nat, |i: int| if covered(s, b, i) { Cell::Filled } else { Cell::Blank })
}

/// The unknown cells of `line` in `[lo, hi)`, in increasing order.
pub open spec fn unknown_cells(line: Seq<Cell>, lo: int, hi: int) -> Seq<usize>
    decreases hi - lo,
{
    if hi <= lo {
        Seq::empty()
    } else if line[hi - 1] == Cell::Unknown {
        unknown_cells(line, lo, hi - 1).push((hi - 1) as usize)
    } else {
        unknown_cells(line, lo, hi - 1)
    }
}

/// The unknown cells of a range are increasing, lie in the range, and are
/// exactly its unknown cells.
pub proof fn lemma_unknown_cells(line: Seq<Cell>, lo: int, hi: int)
    requires
        0 <= lo,
        hi <= line.len(),
        hi <= usize::MAX + 1,
    ensures
        forall|a: int, b: int|
            0 <= a < b < unknown_cells(line, lo, hi).len() ==> #[trigger] unknown_cells(line, lo, hi)[a]
                < #[trigger] unknown_cells(line, lo, hi)[b],
        forall|a: int|
            0 <= a < unknown_cells(line, lo, hi).len() ==> lo <= #[trigger] unknown_cells(line, lo, hi)[a] < hi,
        forall|x: usize|
            #[trigger] unknown_cells(line, lo, hi).contains(x) <==> (lo <= x < hi && line[x as int] == Cell::Unknown),
    decreases hi - lo,
{
    if hi > lo {
        lemma_unknown_cells(line, lo, hi - 1);
        let r = unknown_cells(line, lo, hi - 1);
        let v = (hi - 1) as usize;
        assert(v == hi - 1);
        if line[hi - 1] == Cell::Unknown {
            let u = r.push(v);
            assert(unknown_cells(line, lo, hi) == u);
            assert forall|a: int, b: int| 0 <= a < b < u.len() implies #[trigger] u[a] < #[trigger] u[b] by {
                if b < r.len() {
                    assert(u[a] == r[a] && u[b] == r[b]);
                } else {
                    assert(u[a] == r[a]);
                }
            }
            assert forall|a: int| 0 <= a < u.len() implies lo <= #[trigger] u[a] < hi by {
                if a < r.len() {
                    assert(u[a] == r[a]);
                }
            }
            assert forall|x: usize| #[trigger] u.contains(x) <==> (lo <= x < hi && line[x as int] == Cell::Unknown) by {
                lemma_push_contains(r, v, x);
            }
        } else {
            assert(unknown_cells(line, lo, hi) == r);
        }
    }
}

/// The cells of `v` are strictly increasing.
pub open spec fn strictly_increasing(v: Seq<usize>) -> bool {
    forall|a: int, b: int| 0 <= a < b < v.len() ==> #[trigger] v[a] < #[trigger] v[b]
}

/// Two increasing lists, every cell of the first below every cell of the
/// second, make an increasing list.
pub proof fn lemma_concat_increasing(x: Seq<usize>, y: Seq<usize>)
    requires
        strictly_increasing(x),
        strictly_increasing(y),
        forall|a: int, b: int| 0 <= a < x.len() && 0 <= b < y.len() ==> #[trigger] x[a] < #[trigger] y[b],
    ensures
        strictly_increasing(x + y),
{
    let z = x + y;
    assert forall|a: int, b: int| 0 <= a < b < z.len() implies #[trigger] z[a] < #[trigger] z[b] by {
        if b < x.len() {
            assert(z[a] == x[a] && z[b] == x[b]);
        } else if a >= x.len() {
            assert(z[a] == y[a - x.len()] && z[b] == y[b - x.len()]);
        } else {
            assert(z[a] == x[a] && z[b] == y[b - x.len()]);
        }
    }
}

/// The unknown cells of a range, as an increasing list between its bounds.
pub proof fn lemma_unknown_cells_inc(line: Seq<Cell>, lo: int, hi: int)
    requires
        0 <= lo,
        hi <= line.len(),
        hi <= usize::MAX + 1,
    ensures
        strictly_increasing(unknown_cells(line, lo, hi)),
        forall|a: int|
            0 <= a < unknown_cells(line, lo, hi).len() ==> lo <= #[trigger] unknown_cells(line, lo, hi)[a] < hi,
{
    lemma_unknown_cells(line, lo, hi);
}

} // verus!
