//! Inference from the leftmost and rightmost placements of each block.
use vstd::prelude::*;

use super::bits::LineBits;
use super::placement::{
    can_place, lemma_concat_increasing, lemma_push_contains, lemma_unknown_cells, lemma_unknown_cells_inc,
    strictly_increasing, unknown_cells,
};
use crate::solver::Contradiction;
use crate::types::Cell;

verus! {

/// The integers of a sequence of indices.
pub open spec fn as_ints(s: Seq<usize>) -> Seq<int> {
    s.map_values(|x: usize| x as int)
}

proof fn lemma_as_ints(s: Seq<usize>)
    ensures
        as_ints(s).len() == s.len(),
        forall|j: int| 0 <= j < s.len() ==> #[trigger] as_ints(s)[j] == s[j] as int,
{
}

/// The first start at or after `p` where a block of length `len` can be placed.
pub open spec fn first_fit(line: Seq<Cell>, len: int, p: int) -> Option<int>
    decreases line.len() + 1 - p,
{
    if len < 0 || p < 0 || p + len > line.len() {
        None
    } else if can_place(line, p, len) {
        Some(p)
    } else {
        first_fit(line, len, p + 1)
    }
}

/// The last start of a block of length `len` that ends at or before `p`.
pub open spec fn last_fit(line: Seq<Cell>, len: int, p: int) -> Option<int>
    decreases p + 1,
{
    if len < 0 || p < 0 || p < len || p > line.len() {
        None
    } else if can_place(line, p - len, len) {
        Some(p - len)
    } else {
        last_fit(line, len, p - 1)
    }
}

/// Leftmost starts of the first `j` blocks, each placed at the first fitting
/// position after the previous one and its gap.
pub open spec fn earliest_seq(line: Seq<Cell>, b: Seq<usize>, j: int) -> Option<Seq<int>>
    decreases j,
{
    if j <= 0 {
        Some(Seq::empty())
    } else {
        match earliest_seq(line, b, j - 1) {
            None => None,
            Some(e) => {
                let start = if j == 1 {
                    0
                } else {
                    e.last() + b[j - 2] + 1
                };
                match first_fit(line, b[j - 1] as int, start) {
                    None => None,
                    Some(p) => Some(e.push(p)),
                }
            },
        }
    }
}

/// Rightmost starts of the last `m` blocks, each placed at the last fitting
/// position before the next one and its gap.
pub open spec fn latest_seq(line: Seq<Cell>, b: Seq<usize>, m: int) -> Option<Seq<int>>
    decreases m,
{
    if m <= 0 {
        Some(Seq::empty())
    } else {
        match latest_seq(line, b, m - 1) {
            None => None,
            Some(l) => {
                let j = b.len() - m;
                if m > 1 && l[0] == 0 {
                    None
                } else {
                    let pos = if m == 1 {
                        line.len() as int
                    } else {
                        l[0] - 1
                    };
                    match last_fit(line, b[j] as int, pos) {
                        None => None,
                        Some(q) => Some(seq![q].add(l)),
                    }
                }
            },
        }
    }
}

proof fn lemma_first_fit(line: Seq<Cell>, len: int, p: int)
    ensures
        first_fit(line, len, p) matches Some(q) ==> p <= q && q + len <= line.len() && can_place(
            line,
            q,
            len,
        ) && 0 <= len,
    decreases line.len() + 1 - p,
{
    if !(len < 0 || p < 0 || p + len > line.len()) && !can_place(line, p, len) {
        lemma_first_fit(line, len, p + 1);
    }
}

proof fn lemma_last_fit(line: Seq<Cell>, len: int, p: int)
    ensures
        last_fit(line, len, p) matches Some(q) ==> 0 <= q && q + len <= p <= line.len() && can_place(
            line,
            q,
            len,
        ),
    decreases p + 1,
{
    if !(len < 0 || p < 0 || p < len || p > line.len()) && !can_place(line, p - len, len) {
        lemma_last_fit(line, len, p - 1);
    }
}

/// The greedy leftmost starts fit in the line.
pub proof fn lemma_earliest_seq(line: Seq<Cell>, b: Seq<usize>, j: int)
    requires
        0 <= j <= b.len(),
    ensures
        earliest_seq(line, b, j) matches Some(e) ==> e.len() == j && forall|m: int|
            0 <= m < j ==> 0 <= #[trigger] e[m] && e[m] + b[m] <= line.len(),
    decreases j,
{
    if j > 0 {
        lemma_earliest_seq(line, b, j - 1);
        if let Some(e) = earliest_seq(line, b, j - 1) {
            let start = if j == 1 {
                0
            } else {
                e.last() + b[j - 2] + 1
            };
            lemma_first_fit(line, b[j - 1] as int, start);
        }
    }
}

/// Once the greedy fails for some block it fails for all later ones.
proof fn lemma_earliest_none(line: Seq<Cell>, b: Seq<usize>, j: int, j2: int)
    requires
        0 <= j <= j2,
        earliest_seq(line, b, j) is None,
    ensures
        earliest_seq(line, b, j2) is None,
    decreases j2 - j,
{
    if j2 > j {
        lemma_earliest_none(line, b, j, j2 - 1);
    }
}

/// The greedy rightmost starts fit in the line.
pub proof fn lemma_latest_seq(line: Seq<Cell>, b: Seq<usize>, m: int)
    requires
        0 <= m <= b.len(),
    ensures
        latest_seq(line, b, m) matches Some(l) ==> l.len() == m && forall|x: int|
            0 <= x < m ==> 0 <= #[trigger] l[x] && l[x] + b[b.len() - m + x] <= line.len(),
    decreases m,
{
    if m > 0 {
        lemma_latest_seq(line, b, m - 1);
        if let Some(l) = latest_seq(line, b, m - 1) {
            let j = b.len() - m;
            if !(m > 1 && l[0] == 0) {
                let pos = if m == 1 {
                    line.len() as int
                } else {
                    l[0] - 1
                };
                lemma_last_fit(line, b[j] as int, pos);
            }
        }
    }
}

proof fn lemma_latest_none(line: Seq<Cell>, b: Seq<usize>, m: int, m2: int)
    requires
        0 <= m <= m2,
        latest_seq(line, b, m) is None,
    ensures
        latest_seq(line, b, m2) is None,
    decreases m2 - m,
{
    if m2 > m {
        lemma_latest_none(line, b, m, m2 - 1);
    }
}

/// Leftmost start of each block.
pub fn compute_earliest(line: &LineBits, blocks: &[usize]) -> (r: Result<Vec<usize>, Contradiction>)
    requires
        line.wf(),
    ensures
        r is Err <==> earliest_seq(line@, blocks@, blocks@.len() as int) is None,
        r matches Ok(e) ==> earliest_seq(line@, blocks@, blocks@.len() as int) == Some(as_ints(e@)),
{
    let ghost l = line@;
    let ghost b = blocks@;
    let n = line.len();
    let k = blocks.len();
    let mut earliest_start: Vec<usize> = Vec::new();
    let mut pos: usize = 0;
    let mut j: usize = 0;
    proof {
        line.lemma_wf_len();
        assert(as_ints(earliest_start@) =~= Seq::<int>::empty());
    }
    while j < k
        invariant
            line.wf(),
            l == line@,
            b == blocks@,
            n == l.len() <= 64,
            k == b.len(),
            j <= k,
            earliest_seq(l, b, j as int) == Some(as_ints(earliest_start@)),
            earliest_start@.len() == j,
            pos <= n + 1,
            j == 0 ==> pos == 0,
            j > 0 ==> pos == earliest_start@[j - 1] + b[j - 1] + 1,
        decreases k - j,
    {
        let len = blocks[j];
        let ghost start = pos as int;
        proof {
            lemma_earliest_seq(l, b, j as int);
        }
        loop
            invariant
                line.wf(),
                l == line@,
                b == blocks@,
                n == l.len() <= 64,
                k == b.len(),
                j < k,
                len == b[j as int],
                earliest_seq(l, b, j as int) == Some(as_ints(earliest_start@)),
                earliest_start@.len() == j,
                j == 0 ==> start == 0,
                j > 0 ==> start == earliest_start@[j - 1] + b[j - 1] + 1,
                start <= pos <= n + 1,
                first_fit(l, len as int, start) == first_fit(l, len as int, pos as int),
            ensures
                pos + len <= n,
                first_fit(l, len as int, start) == Some(pos as int),
            decreases n + 1 - pos,
        {
            if len > n || pos > n - len {
                proof {
                    assert(earliest_seq(l, b, (j + 1) as int) is None);
                    lemma_earliest_none(l, b, (j + 1) as int, k as int);
                }
                return Err(Contradiction);
            }
            if line.can_place_block(pos, len) {
                break;
            }
            pos += 1;
        }
        proof {
            assert(as_ints(earliest_start@.push(pos)) =~= as_ints(earliest_start@).push(pos as int));
        }
        earliest_start.push(pos);
        pos += len + 1;
        j += 1;
    }
    Ok(earliest_start)
}

/// Rightmost start of each block.
pub fn compute_latest(line: &LineBits, blocks: &[usize]) -> (r: Result<Vec<usize>, Contradiction>)
    requires
        line.wf(),
    ensures
        r is Err <==> latest_seq(line@, blocks@, blocks@.len() as int) is None,
        r matches Ok(l) ==> latest_seq(line@, blocks@, blocks@.len() as int) == Some(as_ints(l@)),
{
    let ghost ln = line@;
    let ghost b = blocks@;
    let k = blocks.len();
    let mut latest_start: Vec<usize> = vec![0; k];
    let mut pos: usize = line.len();
    let mut j: usize = k;
    proof {
        line.lemma_wf_len();
    }
    while j > 0
        invariant
            line.wf(),
            ln == line@,
            b == blocks@,
            ln.len() <= 64,
            k == b.len(),
            j <= k,
            latest_start@.len() == k,
            latest_seq(ln, b, (k - j) as int) == Some(as_ints(latest_start@.skip(j as int))),
            pos <= ln.len(),
            j == k ==> pos == ln.len(),
            0 < j < k ==> pos + 1 == latest_start@[j as int],
        decreases j,
    {
        j -= 1;
        let len = blocks[j];
        let ghost start = pos as int;
        proof {
            lemma_latest_seq(ln, b, (k - j - 1) as int);
        }
        loop
            invariant
                line.wf(),
                ln == line@,
                b == blocks@,
                ln.len() <= 64,
                k == b.len(),
                j < k,
                len == b[j as int],
                latest_start@.len() == k,
                latest_seq(ln, b, (k - j - 1) as int) == Some(as_ints(latest_start@.skip(j + 1))),
                j + 1 == k ==> start == ln.len(),
                j + 1 < k ==> start + 1 == latest_start@[j + 1],
                pos <= start <= ln.len(),
                last_fit(ln, len as int, start) == last_fit(ln, len as int, pos as int),
            ensures
                len <= pos,
                last_fit(ln, len as int, start) == Some(pos - len),
            decreases pos,
        {
            if pos < len {
                proof {
                    assert(latest_seq(ln, b, (k - j) as int) is None);
                    lemma_latest_none(ln, b, (k - j) as int, k as int);
                }
                return Err(Contradiction);
            }
            let start_pos = pos - len;
            if line.can_place_block(start_pos, len) {
                break;
            }
            if pos == 0 {
                proof {
                    assert(last_fit(ln, len as int, -1) is None);
                    assert(last_fit(ln, len as int, pos as int) is None);
                    assert(latest_seq(ln, b, (k - j) as int) is None);
                    lemma_latest_none(ln, b, (k - j) as int, k as int);
                }
                return Err(Contradiction);
            }
            pos -= 1;
        }
        let ghost old_l = latest_start@;
        latest_start.set(j, pos - len);
        proof {
            assert(latest_start@.skip(j as int) =~= seq![(pos - len) as usize].add(old_l.skip(j + 1)));
            assert(as_ints(latest_start@.skip(j as int)) =~= seq![(pos - len) as int].add(
                as_ints(old_l.skip(j + 1)),
            ));
        }
        if j > 0 {
            if latest_start[j] == 0 {
                proof {
                    assert(latest_seq(ln, b, (k - j + 1) as int) is None);
                    lemma_latest_none(ln, b, (k - j + 1) as int, k as int);
                }
                return Err(Contradiction);
            }
            pos = latest_start[j] - 1;
        }
    }
    proof {
        assert(latest_start@.skip(0) =~= latest_start@);
    }
    Ok(latest_start)
}


/// Cell `i` lies in the overlap of the leftmost and rightmost placements of some block.
pub open spec fn in_overlap(e: Seq<int>, l: Seq<int>, b: Seq<usize>, i: int) -> bool {
    exists|j: int| 0 <= j < b.len() && #[trigger] l[j] <= i < e[j] + b[j]
}

/// Cell `i` lies outside the reach of every block: before the first block's
/// leftmost start, between one block's rightmost end and the next block's
/// leftmost start, or after the last block's rightmost end.
pub open spec fn in_white(e: Seq<int>, l: Seq<int>, b: Seq<usize>, n: int, i: int) -> bool {
    ||| 0 <= i < e[0]
    ||| exists|j: int| 0 <= j < b.len() - 1 && #[trigger] l[j] + b[j] <= i < e[j + 1]
    ||| l[b.len() - 1] + b[b.len() - 1] <= i < n
}

/// `line` with its unknown cells in the overlaps set to filled.
pub open spec fn overlap_line(line: Seq<Cell>, e: Seq<int>, l: Seq<int>, b: Seq<usize>) -> Seq<Cell> {
    Seq::new(
        line.len(),
        |i: int|
            if line[i] == Cell::Unknown && in_overlap(e, l, b, i) {
                Cell::Filled
            } else {
                line[i]
            },
    )
}

/// `line` with its unknown cells outside every block's reach set to blank.
pub open spec fn white_line(line: Seq<Cell>, e: Seq<int>, l: Seq<int>, b: Seq<usize>) -> Seq<Cell> {
    Seq::new(
        line.len(),
        |i: int|
            if line[i] == Cell::Unknown && in_white(e, l, b, line.len() as int, i) {
                Cell::Blank
            } else {
                line[i]
            },
    )
}

/// Appends the unknown cells of `[from, to)` to `changed`, in increasing
/// order.
fn push_unknown_range(line: &LineBits, from: usize, to: usize, changed: &mut Vec<usize>)
    requires
        line.wf(),
        to <= line@.len(),
    ensures
        final(changed)@ == old(changed)@ + unknown_cells(line@, from as int, to as int),
        forall|x: usize|
            #[trigger] final(changed)@.contains(x) <==> (old(changed)@.contains(x) || (from <= x < to
                && line@[x as int] == Cell::Unknown)),
{
    let ghost c0 = changed@;
    let mut i = from;
    proof {
        assert(c0 + unknown_cells(line@, from as int, from as int) =~= c0);
    }
    while i < to
        invariant
            line.wf(),
            to <= line@.len(),
            from <= i,
            i <= to || i == from,
            c0 == old(changed)@,
            changed@ == c0 + unknown_cells(line@, from as int, i as int),
        decreases to - i,
    {
        if line.cell(i) == Cell::Unknown {
            changed.push(i);
        }
        proof {
            assert(changed@ =~= c0 + unknown_cells(line@, from as int, i + 1));
        }
        i += 1;
    }
    proof {
        if from < to {
            assert(i == to);
        } else {
            assert(unknown_cells(line@, from as int, to as int) =~= Seq::<usize>::empty());
            assert(unknown_cells(line@, from as int, i as int) =~= Seq::<usize>::empty());
        }
        lemma_unknown_cells(line@, from as int, to as int);
        assert forall|x: usize| #[trigger] changed@.contains(x) <==> (c0.contains(x) || (from <= x < to
            && line@[x as int] == Cell::Unknown)) by {
            let u = unknown_cells(line@, from as int, to as int);
            if changed@.contains(x) {
                let m = choose|m: int| 0 <= m < changed@.len() && changed@[m] == x;
                if m < c0.len() {
                    assert(c0[m] == x);
                } else {
                    assert(u[m - c0.len()] == x);
                    assert(u.contains(x));
                }
            }
            if c0.contains(x) {
                let m = choose|m: int| 0 <= m < c0.len() && c0[m] == x;
                assert(changed@[m] == x);
            }
            if from <= x < to && line@[x as int] == Cell::Unknown {
                assert(u.contains(x));
                let m = choose|m: int| 0 <= m < u.len() && u[m] == x;
                assert(changed@[c0.len() + m] == x);
            }
        }
    }
}

/// The unknown cells of the overlaps of the first `j` blocks, block by block,
/// each overlap in increasing order.
pub open spec fn overlap_cells(line: Seq<Cell>, e: Seq<int>, l: Seq<int>, b: Seq<usize>, j: int) -> Seq<usize>
    decreases j,
{
    if j <= 0 {
        Seq::empty()
    } else {
        overlap_cells(line, e, l, b, j - 1) + unknown_cells(line, l[j - 1], e[j - 1] + b[j - 1])
    }
}

/// The unknown cells of the gaps after the first `j` blocks, gap by gap.
pub open spec fn gap_cells(line: Seq<Cell>, e: Seq<int>, l: Seq<int>, b: Seq<usize>, j: int) -> Seq<usize>
    decreases j,
{
    if j <= 0 {
        Seq::empty()
    } else {
        gap_cells(line, e, l, b, j - 1) + unknown_cells(line, l[j - 1] + b[j - 1], e[j])
    }
}

/// The unknown cells no block can reach: those before the first block, then
/// those of each gap between blocks, then those after the last block, each
/// part in increasing order.
pub open spec fn white_cells(line: Seq<Cell>, e: Seq<int>, l: Seq<int>, b: Seq<usize>) -> Seq<usize> {
    let k = b.len() as int;
    unknown_cells(line, 0, e[0]) + gap_cells(line, e, l, b, k - 1) + unknown_cells(
        line,
        l[k - 1] + b[k - 1],
        line.len() as int,
    )
}

/// The first fit at or after `p` is no later than any start `q >= p` where the
/// block can be placed.
pub proof fn lemma_first_fit_before(line: Seq<Cell>, len: int, p: int, q: int)
    requires
        0 <= p <= q,
        0 <= len,
        can_place(line, q, len),
    ensures
        first_fit(line, len, p) matches Some(r) && p <= r <= q,
    decreases q - p,
{
    if !can_place(line, p, len) {
        lemma_first_fit_before(line, len, p + 1, q);
    }
}

/// The greedy leftmost starts, each the first fit after the previous block and
/// its gap; their blocks lie in order with gaps.
proof fn lemma_earliest_steps(line: Seq<Cell>, b: Seq<usize>, j: int)
    requires
        0 <= j <= b.len(),
    ensures
        earliest_seq(line, b, j) matches Some(e) ==> {
            &&& e.len() == j
            &&& forall|m: int|
                0 <= m < j ==> first_fit(line, b[m] as int, if m == 0 {
                    0
                } else {
                    e[m - 1] + b[m - 1] + 1
                }) == Some(#[trigger] e[m])
            &&& forall|m: int| 0 <= m < j - 1 ==> #[trigger] e[m] + b[m] < e[m + 1]
            &&& forall|m: int| 0 <= m < j ==> 0 <= #[trigger] e[m] && e[m] + b[m] <= line.len()
        },
    decreases j,
{
    if j > 0 {
        lemma_earliest_steps(line, b, j - 1);
        if let Some(e0) = earliest_seq(line, b, j - 1) {
            let start = if j == 1 {
                0
            } else {
                e0.last() + b[j - 2] + 1
            };
            lemma_first_fit(line, b[j - 1] as int, start);
            if let Some(p) = first_fit(line, b[j - 1] as int, start) {
                let e = e0.push(p);
                assert forall|m: int| 0 <= m < j - 1 implies #[trigger] e[m] == e0[m] by {}
                if j >= 2 {
                    assert(e0.last() == e0[j - 2]);
                }
            }
        }
    }
}

/// The greedy rightmost starts of the last `m` blocks can each be placed, and
/// their blocks lie in order with gaps.
proof fn lemma_latest_steps(line: Seq<Cell>, b: Seq<usize>, m: int)
    requires
        0 <= m <= b.len(),
    ensures
        latest_seq(line, b, m) matches Some(l) ==> {
            &&& l.len() == m
            &&& forall|x: int| 0 <= x < m ==> can_place(line, #[trigger] l[x], b[b.len() - m + x] as int)
            &&& forall|x: int| 0 <= x < m - 1 ==> #[trigger] l[x] + b[b.len() - m + x] < l[x + 1]
        },
    decreases m,
{
    if m > 0 {
        lemma_latest_steps(line, b, m - 1);
        if let Some(l0) = latest_seq(line, b, m - 1) {
            let j = b.len() - m;
            if !(m > 1 && l0[0] == 0) {
                let pos = if m == 1 {
                    line.len() as int
                } else {
                    l0[0] - 1
                };
                lemma_last_fit(line, b[j] as int, pos);
                if let Some(q) = last_fit(line, b[j] as int, pos) {
                    let l = seq![q].add(l0);
                    assert forall|x: int| 1 <= x < m implies #[trigger] l[x] == l0[x - 1] by {}
                    assert forall|x: int| 0 <= x < m implies can_place(line, #[trigger] l[x], b[b.len() - m + x] as int) by {
                        if x > 0 {
                            assert(l[x] == l0[x - 1]);
                            assert(b.len() - m + x == b.len() - (m - 1) + (x - 1));
                        }
                    }
                    assert forall|x: int| 0 <= x < m - 1 implies #[trigger] l[x] + b[b.len() - m + x] < l[x + 1] by {
                        if x > 0 {
                            assert(l[x] == l0[x - 1] && l[x + 1] == l0[x]);
                            assert(b.len() - m + x == b.len() - (m - 1) + (x - 1));
                        }
                    }
                }
            }
        }
    }
}

/// When both greedy placements exist, each block's leftmost start is at most
/// its rightmost start, both placements keep the blocks in order with gaps,
/// and each block can be placed at its rightmost start.
pub proof fn lemma_el_order(line: Seq<Cell>, b: Seq<usize>)
    requires
        el_ok(line, b),
    ensures
        ({
            let e = earliest_seq(line, b, b.len() as int).unwrap();
            let l = latest_seq(line, b, b.len() as int).unwrap();
            &&& e.len() == b.len() && l.len() == b.len()
            &&& forall|j: int| 0 <= j < b.len() ==> 0 <= #[trigger] e[j] <= l[j] && l[j] + b[j] <= line.len()
            &&& forall|j: int| 0 <= j < b.len() - 1 ==> #[trigger] e[j] + b[j] < e[j + 1]
            &&& forall|j: int| 0 <= j < b.len() - 1 ==> #[trigger] l[j] + b[j] < l[j + 1]
            &&& forall|j: int| 0 <= j < b.len() ==> can_place(line, #[trigger] l[j], b[j] as int)
        }),
{
    let k = b.len() as int;
    lemma_earliest_steps(line, b, k);
    lemma_latest_steps(line, b, k);
    let e = earliest_seq(line, b, k).unwrap();
    let l = latest_seq(line, b, k).unwrap();
    assert forall|x: int| 0 <= x < k implies can_place(line, #[trigger] l[x], b[x] as int) by {
        assert(can_place(line, l[x], b[k - k + x] as int));
    }
    assert forall|x: int| 0 <= x < k - 1 implies #[trigger] l[x] + b[x] < l[x + 1] by {
        assert(l[x] + b[k - k + x] < l[x + 1]);
    }
    assert forall|m: int| 0 <= m < k implies first_fit(line, b[m] as int, fit_start(e, b, m)) == Some(#[trigger] e[m]) by {
        assert(first_fit(line, b[m] as int, if m == 0 {
            0
        } else {
            e[m - 1] + b[m - 1] + 1
        }) == Some(e[m]));
    }
    lemma_el_le(line, b, e, l, k);
}

/// Where the greedy leftmost search for block `m` starts: the line's start,
/// or the cell after the previous block's gap.
spec fn fit_start(e: Seq<int>, b: Seq<usize>, m: int) -> int {
    if m == 0 {
        0
    } else {
        e[m - 1] + b[m - 1] + 1
    }
}

/// Each leftmost start up to `j` is at most the rightmost start.
#[verifier::spinoff_prover]
#[verifier::rlimit(30)]
proof fn lemma_el_le(line: Seq<Cell>, b: Seq<usize>, e: Seq<int>, l: Seq<int>, j: int)
    requires
        0 <= j <= b.len(),
        e.len() == b.len(),
        l.len() == b.len(),
        forall|m: int| 0 <= m < b.len() ==> first_fit(line, b[m] as int, fit_start(e, b, m)) == Some(#[trigger] e[m]),
        forall|x: int| 0 <= x < b.len() ==> can_place(line, #[trigger] l[x], b[x] as int),
        forall|x: int| 0 <= x < b.len() - 1 ==> #[trigger] l[x] + b[x] < l[x + 1],
    ensures
        forall|m: int| 0 <= m < j ==> #[trigger] e[m] <= l[m],
    decreases j,
{
    if j > 0 {
        lemma_el_le(line, b, e, l, j - 1);
        let m = j - 1;
        assert(can_place(line, l[m], b[m] as int));
        assert(first_fit(line, b[m] as int, fit_start(e, b, m)) == Some(e[m]));
        if m > 0 {
            assert(e[m - 1] <= l[m - 1]);
            assert(l[m - 1] + b[m - 1] < l[m]);
        }
        lemma_first_fit_before(line, b[m] as int, fit_start(e, b, m), l[m]);
    }
}

/// The filled overlap cells are increasing, each below the end of the last
/// overlap.
proof fn lemma_overlap_cells_inc(line: Seq<Cell>, e: Seq<int>, l: Seq<int>, b: Seq<usize>, j: int)
    requires
        0 <= j <= b.len(),
        e.len() == b.len(),
        l.len() == b.len(),
        line.len() <= 64,
        forall|m: int| 0 <= m < b.len() ==> 0 <= #[trigger] e[m] <= l[m] && l[m] + b[m] <= line.len(),
        forall|m: int| 0 <= m < b.len() - 1 ==> #[trigger] e[m] + b[m] < e[m + 1],
        forall|m: int| 0 <= m < b.len() - 1 ==> #[trigger] l[m] + b[m] < l[m + 1],
    ensures
        strictly_increasing(overlap_cells(line, e, l, b, j)),
        j > 0 ==> forall|a: int|
            0 <= a < overlap_cells(line, e, l, b, j).len() ==> #[trigger] overlap_cells(line, e, l, b, j)[a] < e[j - 1]
                + b[j - 1],
    decreases j,
{
    if j > 0 {
        lemma_overlap_cells_inc(line, e, l, b, j - 1);
        let prev = overlap_cells(line, e, l, b, j - 1);
        let u = unknown_cells(line, l[j - 1], e[j - 1] + b[j - 1]);
        lemma_unknown_cells_inc(line, l[j - 1], e[j - 1] + b[j - 1]);
        if j > 1 {
            assert(e[j - 2] + b[j - 2] <= l[j - 2] + b[j - 2]);
        }
        assert forall|a: int, c: int| 0 <= a < prev.len() && 0 <= c < u.len() implies #[trigger] prev[a] < #[trigger] u[c] by {
            if j > 1 {
                assert(prev[a] < e[j - 2] + b[j - 2]);
            }
        }
        lemma_concat_increasing(prev, u);
        let all = prev + u;
        assert forall|a: int| 0 <= a < all.len() implies #[trigger] all[a] < e[j - 1] + b[j - 1] by {
            if a < prev.len() {
                assert(all[a] == prev[a]);
                if j > 1 {
                    assert(prev[a] < e[j - 2] + b[j - 2]);
                }
            } else {
                assert(all[a] == u[a - prev.len()]);
            }
        }
    }
}

/// The cells of the gaps after the first `j` blocks are increasing, at or
/// after the first block's rightmost end, and before the next block's
/// leftmost start.
proof fn lemma_gap_cells_inc(line: Seq<Cell>, e: Seq<int>, l: Seq<int>, b: Seq<usize>, j: int)
    requires
        0 <= j < b.len(),
        e.len() == b.len(),
        l.len() == b.len(),
        line.len() <= 64,
        forall|m: int| 0 <= m < b.len() ==> 0 <= #[trigger] e[m] <= l[m] && l[m] + b[m] <= line.len(),
        forall|m: int| 0 <= m < b.len() - 1 ==> #[trigger] e[m] + b[m] < e[m + 1],
        forall|m: int| 0 <= m < b.len() - 1 ==> #[trigger] l[m] + b[m] < l[m + 1],
    ensures
        strictly_increasing(gap_cells(line, e, l, b, j)),
        forall|a: int|
            0 <= a < gap_cells(line, e, l, b, j).len() ==> l[0] + b[0] <= #[trigger] gap_cells(line, e, l, b, j)[a]
                < e[j],
    decreases j,
{
    if j > 0 {
        lemma_gap_cells_inc(line, e, l, b, j - 1);
        let prev = gap_cells(line, e, l, b, j - 1);
        let lo = l[j - 1] + b[j - 1];
        let hi = if e[j] <= line.len() { e[j] } else { line.len() as int };
        assert(e[j] + b[j] <= line.len());
        let u = unknown_cells(line, lo, e[j]);
        lemma_unknown_cells_inc(line, lo, e[j]);
        assert(e[j - 1] <= l[j - 1]);
        assert forall|a: int, c: int| 0 <= a < prev.len() && 0 <= c < u.len() implies #[trigger] prev[a] < #[trigger] u[c] by {
            assert(prev[a] < e[j - 1]);
        }
        lemma_concat_increasing(prev, u);
        let all = prev + u;
        assert forall|a: int| 0 <= a < all.len() implies l[0] + b[0] <= #[trigger] all[a] < e[j] by {
            if a < prev.len() {
                assert(all[a] == prev[a]);
                assert(prev[a] < e[j - 1]);
                assert(e[j - 1] + b[j - 1] < e[j]);
            } else {
                assert(all[a] == u[a - prev.len()]);
                if j - 1 > 0 {
                    assert(l[0] + b[0] <= l[j - 1] + b[j - 1]) by {
                        lemma_l_mono(l, b, 0, j - 1);
                    }
                }
            }
        }
    }
}

/// Rightmost ends grow from block to block.
proof fn lemma_l_mono(l: Seq<int>, b: Seq<usize>, x: int, y: int)
    requires
        0 <= x <= y < b.len(),
        l.len() == b.len(),
        forall|m: int| 0 <= m < b.len() - 1 ==> #[trigger] l[m] + b[m] < l[m + 1],
        forall|m: int| 0 <= m < b.len() ==> #[trigger] b[m] >= 0,
    ensures
        l[x] + b[x] <= l[y] + b[y],
    decreases y - x,
{
    if x < y {
        lemma_l_mono(l, b, x + 1, y);
        assert(l[x] + b[x] < l[x + 1]);
    }
}

/// The blanked cells are increasing.
proof fn lemma_white_cells_inc(line: Seq<Cell>, e: Seq<int>, l: Seq<int>, b: Seq<usize>)
    requires
        b.len() > 0,
        e.len() == b.len(),
        l.len() == b.len(),
        line.len() <= 64,
        forall|m: int| 0 <= m < b.len() ==> 0 <= #[trigger] e[m] <= l[m] && l[m] + b[m] <= line.len(),
        forall|m: int| 0 <= m < b.len() - 1 ==> #[trigger] e[m] + b[m] < e[m + 1],
        forall|m: int| 0 <= m < b.len() - 1 ==> #[trigger] l[m] + b[m] < l[m + 1],
    ensures
        strictly_increasing(white_cells(line, e, l, b)),
{
    let k = b.len() as int;
    let n = line.len() as int;
    let head = unknown_cells(line, 0, e[0]);
    let gaps = gap_cells(line, e, l, b, k - 1);
    let tail = unknown_cells(line, l[k - 1] + b[k - 1], n);
    lemma_unknown_cells_inc(line, 0, e[0]);
    lemma_gap_cells_inc(line, e, l, b, k - 1);
    lemma_unknown_cells_inc(line, l[k - 1] + b[k - 1], n);
    lemma_l_mono(l, b, 0, k - 1);
    assert forall|a: int, c: int| 0 <= a < head.len() && 0 <= c < gaps.len() implies #[trigger] head[a] < #[trigger] gaps[c] by {
        assert(gaps[c] >= l[0] + b[0]);
    }
    lemma_concat_increasing(head, gaps);
    let hg = head + gaps;
    assert forall|a: int, c: int| 0 <= a < hg.len() && 0 <= c < tail.len() implies #[trigger] hg[a] < #[trigger] tail[c] by {
        if a < head.len() {
            assert(hg[a] == head[a]);
        } else {
            assert(hg[a] == gaps[a - head.len()]);
            assert(gaps[a - head.len()] < e[k - 1]);
        }
    }
    lemma_concat_increasing(hg, tail);
}

/// Fills the unknown cells where the leftmost and rightmost placements of a
/// block overlap. Returns those cells.
pub fn overlap_inference(
    line: &mut LineBits,
    earliest: &[usize],
    latest: &[usize],
    blocks: &[usize],
) -> (changed: Vec<usize>)
    requires
        old(line).wf(),
        earliest@.len() == blocks@.len(),
        latest@.len() == blocks@.len(),
        forall|j: int| 0 <= j < blocks@.len() ==> earliest@[j] + blocks@[j] <= old(line)@.len(),
    ensures
        final(line).wf(),
        final(line)@ == overlap_line(old(line)@, as_ints(earliest@), as_ints(latest@), blocks@),
        changed@ == overlap_cells(old(line)@, as_ints(earliest@), as_ints(latest@), blocks@, blocks@.len() as int),
        forall|x: usize|
            changed@.contains(x) <==> (x < old(line)@.len() && old(line)@[x as int] == Cell::Unknown
                && in_overlap(as_ints(earliest@), as_ints(latest@), blocks@, x as int)),
{
    let ghost l0 = line@;
    proof {
        line.lemma_wf_len();
        lemma_as_ints(earliest@);
        lemma_as_ints(latest@);
    }
    let mut changed: Vec<usize> = Vec::new();
    let mut j: usize = 0;
    while j < blocks.len()
        invariant
            line.wf(),
            line@ == l0,
            l0.len() <= 64,
            j <= blocks@.len(),
            earliest@.len() == blocks@.len(),
            latest@.len() == blocks@.len(),
            forall|m: int| 0 <= m < blocks@.len() ==> earliest@[m] + blocks@[m] <= l0.len(),
            changed@ == overlap_cells(l0, as_ints(earliest@), as_ints(latest@), blocks@, j as int),
            forall|x: usize|
                #[trigger] changed@.contains(x) <==> (x < l0.len() && l0[x as int] == Cell::Unknown
                    && exists|m: int| 0 <= m < j && #[trigger] latest@[m] <= x < earliest@[m] + blocks@[m]),
        decreases blocks@.len() - j,
    {
        let ghost before = changed@;
        push_unknown_range(line, latest[j], earliest[j] + blocks[j], &mut changed);
        proof {
            assert forall|x: usize| #[trigger] changed@.contains(x) <==> (x < l0.len() && l0[x as int]
                == Cell::Unknown && exists|m: int|
                0 <= m < j + 1 && #[trigger] latest@[m] <= x < earliest@[m] + blocks@[m]) by {
                if exists|m: int| 0 <= m < j + 1 && #[trigger] latest@[m] <= x < earliest@[m] + blocks@[m] {
                    let m = choose|m: int| 0 <= m < j + 1 && #[trigger] latest@[m] <= x < earliest@[m] + blocks@[m];
                    if m < j {
                        assert(before.contains(x) || !(l0[x as int] == Cell::Unknown));
                    }
                }
            }
        }
        j += 1;
    }
    proof {
        assert forall|x: usize| (exists|m: int| 0 <= m < blocks@.len() && #[trigger] latest@[m] <= x < earliest@[m] + blocks@[m])
            <==> in_overlap(as_ints(earliest@), as_ints(latest@), blocks@, x as int) by {
            if exists|m: int| 0 <= m < blocks@.len() && #[trigger] latest@[m] <= x < earliest@[m] + blocks@[m] {
                let m = choose|m: int| 0 <= m < blocks@.len() && #[trigger] latest@[m] <= x < earliest@[m] + blocks@[m];
                assert(as_ints(latest@)[m] <= x < as_ints(earliest@)[m] + blocks@[m]);
            }
            if in_overlap(as_ints(earliest@), as_ints(latest@), blocks@, x as int) {
                let m = choose|m: int| 0 <= m < blocks@.len() && #[trigger] as_ints(latest@)[m] <= x < as_ints(earliest@)[m] + blocks@[m];
                assert(latest@[m] <= x < earliest@[m] + blocks@[m]);
            }
        }
        assert forall|m: int| 0 <= m < changed@.len() implies changed@[m] < line@.len() by {
            assert(changed@.contains(changed@[m]));
        }
    }
    line.set_cells(changed.as_slice(), Cell::Filled);
    proof {
        assert forall|i: int| 0 <= i < l0.len() implies #[trigger] line@[i] == overlap_line(
            l0,
            as_ints(earliest@),
            as_ints(latest@),
            blocks@,
        )[i] by {
            assert((i as usize) as int == i);
            assert(changed@.contains(i as usize) == (l0[i] == Cell::Unknown && in_overlap(
                as_ints(earliest@),
                as_ints(latest@),
                blocks@,
                i,
            )));
        }
        assert(line@ =~= overlap_line(l0, as_ints(earliest@), as_ints(latest@), blocks@));
    }
    changed
}

/// Blanks the unknown cells that no block can reach. Returns those cells.
pub fn white_inference(
    line: &mut LineBits,
    earliest: &[usize],
    latest: &[usize],
    blocks: &[usize],
) -> (changed: Vec<usize>)
    requires
        old(line).wf(),
        blocks@.len() > 0,
        earliest@.len() == blocks@.len(),
        latest@.len() == blocks@.len(),
        forall|j: int| 0 <= j < blocks@.len() ==> earliest@[j] <= old(line)@.len(),
        forall|j: int| 0 <= j < blocks@.len() ==> latest@[j] + blocks@[j] <= old(line)@.len(),
    ensures
        final(line).wf(),
        final(line)@ == white_line(old(line)@, as_ints(earliest@), as_ints(latest@), blocks@),
        changed@ == white_cells(old(line)@, as_ints(earliest@), as_ints(latest@), blocks@),
        forall|x: usize|
            changed@.contains(x) <==> (x < old(line)@.len() && old(line)@[x as int] == Cell::Unknown
                && in_white(as_ints(earliest@), as_ints(latest@), blocks@, old(line)@.len() as int, x as int)),
{
    let ghost l0 = line@;
    proof {
        line.lemma_wf_len();
        lemma_as_ints(earliest@);
        lemma_as_ints(latest@);
    }
    let n = line.len();
    let k = blocks.len();
    let mut changed: Vec<usize> = Vec::new();
    push_unknown_range(line, 0, earliest[0], &mut changed);
    let mut j: usize = 0;
    while j < k - 1
        invariant
            line.wf(),
            line@ == l0,
            n == l0.len() <= 64,
            k == blocks@.len() > 0,
            j <= k - 1,
            earliest@.len() == k,
            latest@.len() == k,
            forall|m: int| 0 <= m < k ==> earliest@[m] <= l0.len(),
            forall|m: int| 0 <= m < k ==> latest@[m] + blocks@[m] <= l0.len(),
            changed@ == unknown_cells(l0, 0, earliest@[0] as int) + gap_cells(
                l0,
                as_ints(earliest@),
                as_ints(latest@),
                blocks@,
                j as int,
            ),
            forall|x: usize|
                #[trigger] changed@.contains(x) <==> (x < l0.len() && l0[x as int] == Cell::Unknown && (
                x < earliest@[0] || exists|m: int|
                    0 <= m < j && #[trigger] latest@[m] + blocks@[m] <= x < earliest@[m + 1])),
        decreases k - 1 - j,
    {
        let ghost before = changed@;
        push_unknown_range(line, latest[j] + blocks[j], earliest[j + 1], &mut changed);
        proof {
            assert forall|x: usize| #[trigger] changed@.contains(x) <==> (x < l0.len() && l0[x as int]
                == Cell::Unknown && (x < earliest@[0] || exists|m: int|
                0 <= m < j + 1 && #[trigger] latest@[m] + blocks@[m] <= x < earliest@[m + 1])) by {
                if exists|m: int| 0 <= m < j + 1 && #[trigger] latest@[m] + blocks@[m] <= x < earliest@[m + 1] {
                    let m = choose|m: int|
                        0 <= m < j + 1 && #[trigger] latest@[m] + blocks@[m] <= x < earliest@[m + 1];
                    if m < j {
                        assert(before.contains(x) || !(l0[x as int] == Cell::Unknown));
                    }
                }
            }
        }
        j += 1;
    }
    push_unknown_range(line, latest[k - 1] + blocks[k - 1], n, &mut changed);
    proof {
        assert forall|x: usize| changed@.contains(x) <==> (x < l0.len() && l0[x as int] == Cell::Unknown
            && in_white(as_ints(earliest@), as_ints(latest@), blocks@, l0.len() as int, x as int)) by {
            if exists|m: int| 0 <= m < k - 1 && #[trigger] as_ints(latest@)[m] + blocks@[m] <= x < as_ints(earliest@)[m + 1] {
                let m = choose|m: int| 0 <= m < k - 1 && #[trigger] as_ints(latest@)[m] + blocks@[m] <= x < as_ints(earliest@)[m + 1];
                assert(latest@[m] + blocks@[m] <= x < earliest@[m + 1]);
            }
            if exists|m: int| 0 <= m < k - 1 && #[trigger] latest@[m] + blocks@[m] <= x < earliest@[m + 1] {
                let m = choose|m: int| 0 <= m < k - 1 && #[trigger] latest@[m] + blocks@[m] <= x < earliest@[m + 1];
                assert(as_ints(latest@)[m] + blocks@[m] <= x < as_ints(earliest@)[m + 1]);
            }
        }
        assert forall|m: int| 0 <= m < changed@.len() implies changed@[m] < line@.len() by {
            assert(changed@.contains(changed@[m]));
        }
    }
    line.set_cells(changed.as_slice(), Cell::Blank);
    proof {
        assert forall|i: int| 0 <= i < l0.len() implies #[trigger] line@[i] == white_line(
            l0,
            as_ints(earliest@),
            as_ints(latest@),
            blocks@,
        )[i] by {
            assert((i as usize) as int == i);
            assert(changed@.contains(i as usize) == (l0[i] == Cell::Unknown && in_white(
                as_ints(earliest@),
                as_ints(latest@),
                blocks@,
                l0.len() as int,
                i,
            )));
        }
        assert(line@ =~= white_line(l0, as_ints(earliest@), as_ints(latest@), blocks@));
    }
    changed
}


/// The line after overlap and white inference from the greedy placements.
pub open spec fn el_line(line: Seq<Cell>, b: Seq<usize>) -> Seq<Cell> {
    let e = earliest_seq(line, b, b.len() as int).unwrap();
    let l = latest_seq(line, b, b.len() as int).unwrap();
    white_line(overlap_line(line, e, l, b), e, l, b)
}

/// The cells overlap and white inference decide, in the order they are
/// listed: the filled overlap cells block by block, then the blanked cells
/// from left to right.
pub open spec fn el_cells(line: Seq<Cell>, b: Seq<usize>) -> Seq<usize> {
    let e = earliest_seq(line, b, b.len() as int).unwrap();
    let l = latest_seq(line, b, b.len() as int).unwrap();
    overlap_cells(line, e, l, b, b.len() as int) + white_cells(overlap_line(line, e, l, b), e, l, b)
}

/// The filled overlap cells, and then the blanked cells, each come in
/// increasing order.
pub open spec fn el_cells_increasing(line: Seq<Cell>, b: Seq<usize>) -> bool {
    let e = earliest_seq(line, b, b.len() as int).unwrap();
    let l = latest_seq(line, b, b.len() as int).unwrap();
    &&& strictly_increasing(overlap_cells(line, e, l, b, b.len() as int))
    &&& strictly_increasing(white_cells(overlap_line(line, e, l, b), e, l, b))
}

/// Both greedy placements exist.
pub open spec fn el_ok(line: Seq<Cell>, b: Seq<usize>) -> bool {
    earliest_seq(line, b, b.len() as int) is Some && latest_seq(line, b, b.len() as int) is Some
}

/// The cells overlap and white inference list come each once: the overlap
/// cells and the blanked cells are each increasing, and no cell is both.
proof fn lemma_el_cells_props(l0: Seq<Cell>, b: Seq<usize>, c1: Seq<usize>, c2: Seq<usize>)
    requires
        el_ok(l0, b),
        b.len() > 0,
        l0.len() <= 64,
        c1 == overlap_cells(
            l0,
            earliest_seq(l0, b, b.len() as int).unwrap(),
            latest_seq(l0, b, b.len() as int).unwrap(),
            b,
            b.len() as int,
        ),
        c2 == white_cells(
            overlap_line(l0, earliest_seq(l0, b, b.len() as int).unwrap(), latest_seq(l0, b, b.len() as int).unwrap(), b),
            earliest_seq(l0, b, b.len() as int).unwrap(),
            latest_seq(l0, b, b.len() as int).unwrap(),
            b,
        ),
        forall|x: usize|
            c1.contains(x) ==> x < l0.len() && l0[x as int] == Cell::Unknown && in_overlap(
                earliest_seq(l0, b, b.len() as int).unwrap(),
                latest_seq(l0, b, b.len() as int).unwrap(),
                b,
                x as int,
            ),
        forall|x: usize|
            c2.contains(x) ==> x < l0.len() && overlap_line(
                l0,
                earliest_seq(l0, b, b.len() as int).unwrap(),
                latest_seq(l0, b, b.len() as int).unwrap(),
                b,
            )[x as int] == Cell::Unknown,
    ensures
        el_cells_increasing(l0, b),
        (c1 + c2).no_duplicates(),
{
    let e = earliest_seq(l0, b, b.len() as int).unwrap();
    let l = latest_seq(l0, b, b.len() as int).unwrap();
    let l1 = overlap_line(l0, e, l, b);
    lemma_el_order(l0, b);
    lemma_overlap_cells_inc(l0, e, l, b, b.len() as int);
    lemma_white_cells_inc(l1, e, l, b);
    let c = c1 + c2;
    assert forall|a1: int, a2: int| 0 <= a1 < a2 < c.len() implies c[a1] != c[a2] by {
        if a2 < c1.len() {
            assert(c[a1] == c1[a1] && c[a2] == c1[a2]);
        } else if a1 >= c1.len() {
            assert(c[a1] == c2[a1 - c1.len()] && c[a2] == c2[a2 - c1.len()]);
        } else {
            let x = c[a1];
            assert(c1[a1] == x);
            assert(c1.contains(x));
            assert(c2[a2 - c1.len()] == c[a2]);
            assert(c2.contains(c[a2]));
            assert(l1[x as int] == Cell::Filled);
        }
    }
}

/// Overlap and white inference from the leftmost and rightmost placements.
/// Returns the cells it decided.
pub fn earliest_latest_inference(line: &mut LineBits, blocks: &[usize]) -> (r: Result<
    Vec<usize>,
    Contradiction,
>)
    requires
        old(line).wf(),
        blocks@.len() > 0,
    ensures
        final(line).wf(),
        r is Ok <==> el_ok(old(line)@, blocks@),
        r is Err ==> final(line)@ == old(line)@,
        r matches Ok(changed) ==> {
            &&& final(line)@ == el_line(old(line)@, blocks@)
            &&& changed@ == el_cells(old(line)@, blocks@)
            &&& el_cells_increasing(old(line)@, blocks@)
            &&& changed@.no_duplicates()
            &&& forall|x: usize|
                changed@.contains(x) <==> (x < old(line)@.len() && old(line)@[x as int] == Cell::Unknown
                    && final(line)@[x as int] != Cell::Unknown)
        },
{
    let ghost l0 = line@;
    let ghost b = blocks@;
    proof {
        line.lemma_wf_len();
    }
    let earliest = match compute_earliest(line, blocks) {
        Ok(e) => e,
        Err(c) => {
            return Err(c);
        },
    };
    let latest = match compute_latest(line, blocks) {
        Ok(l) => l,
        Err(c) => {
            return Err(c);
        },
    };
    proof {
        lemma_earliest_seq(l0, b, b.len() as int);
        lemma_latest_seq(l0, b, b.len() as int);
        assert forall|j: int| 0 <= j < b.len() implies earliest@[j] + b[j] <= l0.len() by {
            assert(as_ints(earliest@)[j] == earliest@[j]);
        }
        assert forall|j: int| 0 <= j < b.len() implies latest@[j] + b[j] <= l0.len() by {
            assert(as_ints(latest@)[j] == latest@[j]);
        }
    }
    proof {
        lemma_as_ints(earliest@);
        lemma_as_ints(latest@);
        assert forall|j: int| 0 <= j < b.len() implies earliest@[j] <= l0.len() by {
            assert(earliest@[j] + b[j] <= l0.len());
        }
    }
    let mut changed = overlap_inference(line, earliest.as_slice(), latest.as_slice(), blocks);
    let ghost l1 = line@;
    let ghost c1 = changed@;
    let mut more = white_inference(line, earliest.as_slice(), latest.as_slice(), blocks);
    let ghost c2 = more@;
    changed.append(&mut more);
    proof {
        assert(changed@ =~= c1 + c2);
        assert(as_ints(earliest@) == earliest_seq(l0, b, b.len() as int).unwrap());
        assert(as_ints(latest@) == latest_seq(l0, b, b.len() as int).unwrap());
        lemma_el_cells_props(l0, b, c1, c2);
        assert forall|x: usize| changed@.contains(x) <==> (x < l0.len() && l0[x as int] == Cell::Unknown
            && line@[x as int] != Cell::Unknown) by {
            if changed@.contains(x) {
                let m = choose|m: int| 0 <= m < changed@.len() && changed@[m] == x;
                if m < c1.len() {
                    assert(c1.contains(x));
                } else {
                    assert(c2[m - c1.len()] == x);
                    assert(c2.contains(x));
                }
            }
            if x < l0.len() && l0[x as int] == Cell::Unknown && line@[x as int] != Cell::Unknown {
                if c1.contains(x) {
                    let m = choose|m: int| 0 <= m < c1.len() && c1[m] == x;
                    assert(changed@[m] == x);
                } else {
                    assert(c2.contains(x));
                    let m = choose|m: int| 0 <= m < c2.len() && c2[m] == x;
                    assert(changed@[c1.len() + m] == x);
                }
            }
        }
    }
    Ok(changed)
}

} // verus!
