//! Splitting a line at its blank cells and ruling out segments no block can use.
use vstd::prelude::*;

use super::bits::LineBits;
use super::placement::{
    lemma_concat_increasing, lemma_push_contains, lemma_unknown_cells_inc, strictly_increasing, sum_blocks, unknown_cells,
};
use crate::solver::Contradiction;
use crate::types::Cell;

verus! {

/// A maximal stretch of non-blank cells, from `start` (inclusive) to `end` (exclusive).
#[derive(Debug, Clone)]
pub struct Segment {
    start: usize,
    end: usize,
}

impl Segment {
    /// The bounds of the segment.
    pub closed spec fn bounds(&self) -> (int, int) {
        (self.start as int, self.end as int)
    }

    /// Number of cells.
    pub fn len(&self) -> (n: usize)
        requires
            self.bounds().0 <= self.bounds().1,
        ensures
            n == self.bounds().1 - self.bounds().0,
    {
        self.end - self.start
    }
}

/// The bounds of each segment.
pub open spec fn seg_bounds(s: Seq<Segment>) -> Seq<(int, int)> {
    s.map_values(|x: Segment| x.bounds())
}

/// The first blank cell at or after `i`, or the end of the line.
pub open spec fn run_end(line: Seq<Cell>, i: int) -> int
    decreases line.len() - i,
{
    if i < 0 || i >= line.len() {
        line.len() as int
    } else if line[i] == Cell::Blank {
        i
    } else {
        run_end(line, i + 1)
    }
}

/// The maximal stretches of non-blank cells at or after `i`, in order.
pub open spec fn segments_from(line: Seq<Cell>, i: int) -> Seq<(int, int)>
    decreases line.len() - i,
{
    if i < 0 || i >= line.len() {
        Seq::empty()
    } else if line[i] == Cell::Blank {
        segments_from(line, i + 1)
    } else {
        proof {
            lemma_run_end_bounds(line, i);
        }
        seq![(i, run_end(line, i))].add(segments_from(line, run_end(line, i)))
    }
}

proof fn lemma_run_end(line: Seq<Cell>, s: int, i: int)
    requires
        0 <= s <= i <= line.len(),
        forall|m: int| s <= m < i ==> line[m] != Cell::Blank,
        i == line.len() || line[i] == Cell::Blank,
    ensures
        run_end(line, s) == i,
    decreases i - s,
{
    if s < i {
        lemma_run_end(line, s + 1, i);
    }
}

pub proof fn lemma_run_end_bounds(line: Seq<Cell>, i: int)
    requires
        0 <= i < line.len(),
        line[i] != Cell::Blank,
    ensures
        i < run_end(line, i) <= line.len(),
    decreases line.len() - i,
{
    assert(run_end(line, i) == run_end(line, i + 1));
    if i + 1 < line.len() && line[i + 1] != Cell::Blank {
        lemma_run_end_bounds(line, i + 1);
    } else if i + 1 < line.len() {
        assert(run_end(line, i + 1) == i + 1);
    } else {
        assert(run_end(line, i + 1) == line.len());
    }
}

/// The segments of a line.
pub fn split_at_blanks(line: &LineBits) -> (segs: Vec<Segment>)
    requires
        line.wf(),
    ensures
        seg_bounds(segs@) == segments_from(line@, 0),
        forall|m: int|
            0 <= m < segs@.len() ==> 0 <= (#[trigger] segs@[m]).bounds().0 < segs@[m].bounds().1
                <= line@.len(),
{
    let ghost l = line@;
    let n = line.len();
    let mut segments: Vec<Segment> = Vec::new();
    let mut seg_start: usize = 0;
    let mut i: usize = 0;
    while i < n
        invariant
            line.wf(),
            l == line@,
            n == l.len(),
            seg_start <= i <= n,
            seg_start == 0 || l[seg_start - 1] == Cell::Blank,
            forall|m: int| seg_start <= m < i ==> l[m] != Cell::Blank,
            seg_bounds(segments@).add(segments_from(l, seg_start as int)) == segments_from(l, 0),
            forall|m: int|
                0 <= m < segments@.len() ==> 0 <= (#[trigger] segments@[m]).bounds().0
                    < segments@[m].bounds().1 <= n,
        decreases n - i,
    {
        if line.cell(i) != Cell::Blank {
            i += 1;
            continue;
        }
        let ghost before = segments@;
        if seg_start < i {
            proof {
                lemma_run_end(l, seg_start as int, i as int);
                assert(segments_from(l, seg_start as int) == seq![(seg_start as int, i as int)].add(
                    segments_from(l, i as int),
                ));
            }
            segments.push(Segment { start: seg_start, end: i });
            proof {
                assert(seg_bounds(segments@) =~= seg_bounds(before).push((seg_start as int, i as int)));
                assert(seg_bounds(segments@).add(segments_from(l, (i + 1) as int)) =~= seg_bounds(
                    before,
                ).add(segments_from(l, seg_start as int)));
            }
        } else {
            proof {
                assert(segments_from(l, i as int) == segments_from(l, (i + 1) as int));
            }
        }
        seg_start = i + 1;
        i += 1;
    }
    if seg_start < n {
        let ghost before = segments@;
        proof {
            lemma_run_end(l, seg_start as int, n as int);
            assert(segments_from(l, n as int) =~= Seq::<(int, int)>::empty());
        }
        segments.push(Segment { start: seg_start, end: n });
        proof {
            assert(seg_bounds(segments@) =~= seg_bounds(before).add(segments_from(l, seg_start as int)));
        }
    } else {
        proof {
            assert(seg_bounds(segments@) =~= seg_bounds(segments@).add(segments_from(l, seg_start as int)));
        }
    }
    segments
}


/// Blocks `bs`, separated by single gaps, fit in `len` cells.
pub open spec fn fits_spec(len: int, bs: Seq<usize>) -> bool {
    bs.len() == 0 || sum_blocks(bs) + bs.len() - 1 <= len
}

/// Number of cells of a segment.
pub open spec fn seg_len(seg: (int, int)) -> int {
    seg.1 - seg.0
}

/// Moves right from segment `idx` until blocks `ss..=j` fit in it; when a
/// segment is skipped, the slice restarts at block `j`.
pub open spec fn advance_earliest(segs: Seq<(int, int)>, b: Seq<usize>, j: int, idx: int, ss: int) -> Option<
    (int, int),
>
    decreases segs.len() - idx,
{
    if idx < 0 || idx >= segs.len() {
        None
    } else if fits_spec(seg_len(segs[idx]), b.subrange(ss, j + 1)) {
        Some((idx, ss))
    } else if idx + 1 >= segs.len() {
        None
    } else {
        advance_earliest(segs, b, j, idx + 1, j)
    }
}

/// Leftmost segment of each of the first `j` blocks, with the greedy's state.
pub open spec fn earliest_segs(segs: Seq<(int, int)>, b: Seq<usize>, j: int) -> Option<(Seq<int>, int, int)>
    decreases j,
{
    if j <= 0 {
        Some((Seq::empty(), 0, 0))
    } else {
        match earliest_segs(segs, b, j - 1) {
            None => None,
            Some((lst, idx, ss)) => match advance_earliest(segs, b, j - 1, idx, ss) {
                None => None,
                Some((idx2, ss2)) => Some((lst.push(idx2), idx2, ss2)),
            },
        }
    }
}

/// Moves left from segment `idx` until blocks `j..=se` fit in it; when a
/// segment is skipped, the slice restarts at block `j`.
pub open spec fn advance_latest(segs: Seq<(int, int)>, b: Seq<usize>, j: int, idx: int, se: int) -> Option<
    (int, int),
>
    decreases idx,
{
    if idx < 0 || idx >= segs.len() {
        None
    } else if fits_spec(seg_len(segs[idx]), b.subrange(j, se + 1)) {
        Some((idx, se))
    } else if idx == 0 {
        None
    } else {
        advance_latest(segs, b, j, idx - 1, j)
    }
}

/// Rightmost segment of each of the last `m` blocks, with the greedy's state.
pub open spec fn latest_segs(segs: Seq<(int, int)>, b: Seq<usize>, m: int) -> Option<(Seq<int>, int, int)>
    decreases m,
{
    if m <= 0 {
        Some((Seq::empty(), segs.len() - 1, b.len() - 1))
    } else {
        match latest_segs(segs, b, m - 1) {
            None => None,
            Some((lst, idx, se)) => match advance_latest(segs, b, b.len() - m, idx, se) {
                None => None,
                Some((idx2, se2)) => Some((seq![idx2].add(lst), idx2, se2)),
            },
        }
    }
}

/// No block can lie in segment `m`.
pub open spec fn seg_unused(e: Seq<int>, l: Seq<int>, m: int) -> bool {
    !exists|j: int| 0 <= j < e.len() && #[trigger] e[j] <= m && m <= l[j]
}

/// The unknown cells of the first `m` segments that no block can use,
/// segment by segment, each in increasing order.
pub open spec fn unused_cells(line: Seq<Cell>, segs: Seq<(int, int)>, e: Seq<int>, l: Seq<int>, m: int) -> Seq<
    usize,
>
    decreases m,
{
    if m <= 0 {
        Seq::empty()
    } else if seg_unused(e, l, m - 1) {
        unused_cells(line, segs, e, l, m - 1) + unknown_cells(line, segs[m - 1].0, segs[m - 1].1)
    } else {
        unused_cells(line, segs, e, l, m - 1)
    }
}

/// Segments lie within `[lo, n]`, each with its start before its end, one
/// after the other.
pub open spec fn segs_sorted(segs: Seq<(int, int)>, lo: int, n: int) -> bool {
    &&& forall|m: int| 0 <= m < segs.len() ==> lo <= (#[trigger] segs[m]).0 <= segs[m].1 <= n
    &&& forall|m1: int, m2: int| 0 <= m1 < m2 < segs.len() ==> (#[trigger] segs[m1]).1 <= (#[trigger] segs[m2]).0
}

/// The segments of a line from `i` on are sorted.
pub proof fn lemma_segments_sorted(line: Seq<Cell>, i: int)
    requires
        0 <= i <= line.len(),
    ensures
        segs_sorted(segments_from(line, i), i, line.len() as int),
    decreases line.len() - i,
{
    if i < line.len() {
        if line[i] == Cell::Blank {
            lemma_segments_sorted(line, i + 1);
        } else {
            lemma_run_end_bounds(line, i);
            let r = run_end(line, i);
            lemma_segments_sorted(line, r);
            let rest = segments_from(line, r);
            let all = seq![(i, r)].add(rest);
            assert(segments_from(line, i) == all);
            assert forall|m: int| 1 <= m < all.len() implies #[trigger] all[m] == rest[m - 1] by {}
            assert forall|m1: int, m2: int| 0 <= m1 < m2 < all.len() implies (#[trigger] all[m1]).1 <= (
            #[trigger] all[m2]).0 by {
                assert(all[m2] == rest[m2 - 1]);
                if m1 > 0 {
                    assert(all[m1] == rest[m1 - 1]);
                }
            }
        }
    }
}

/// The unknown cells of unused segments are increasing, and lie before the
/// end of the `m`-th segment.
proof fn lemma_unused_cells_inc(line: Seq<Cell>, segs: Seq<(int, int)>, e: Seq<int>, l: Seq<int>, m: int)
    requires
        0 <= m <= segs.len(),
        segs_sorted(segs, 0, line.len() as int),
        line.len() <= 64,
    ensures
        strictly_increasing(unused_cells(line, segs, e, l, m)),
        m > 0 ==> forall|a: int|
            0 <= a < unused_cells(line, segs, e, l, m).len() ==> #[trigger] unused_cells(line, segs, e, l, m)[a]
                < segs[m - 1].1,
    decreases m,
{
    if m > 0 {
        lemma_unused_cells_inc(line, segs, e, l, m - 1);
        let prev = unused_cells(line, segs, e, l, m - 1);
        if m > 1 {
            assert(segs[m - 2].1 <= segs[m - 1].0);
        }
        if seg_unused(e, l, m - 1) {
            let u = unknown_cells(line, segs[m - 1].0, segs[m - 1].1);
            lemma_unknown_cells_inc(line, segs[m - 1].0, segs[m - 1].1);
            assert forall|a: int, c: int| 0 <= a < prev.len() && 0 <= c < u.len() implies #[trigger] prev[a]
                < #[trigger] u[c] by {
                assert(prev[a] < segs[m - 2].1);
            }
            lemma_concat_increasing(prev, u);
            let all = prev + u;
            assert forall|a: int| 0 <= a < all.len() implies #[trigger] all[a] < segs[m - 1].1 by {
                if a < prev.len() {
                    assert(all[a] == prev[a]);
                    assert(prev[a] < segs[m - 2].1);
                } else {
                    assert(all[a] == u[a - prev.len()]);
                }
            }
        } else {
            assert forall|a: int| 0 <= a < prev.len() implies #[trigger] prev[a] < segs[m - 1].1 by {
                assert(prev[a] < segs[m - 2].1);
            }
        }
    }
}

/// Cell `i` lies in a segment that no block can use.
pub open spec fn in_unused_segment(segs: Seq<(int, int)>, e: Seq<int>, l: Seq<int>, i: int) -> bool {
    exists|m: int| 0 <= m < segs.len() && seg_unused(e, l, m) && #[trigger] segs[m].0 <= i < segs[m].1
}

/// The segment phase succeeds.
pub open spec fn seg_phase_ok(line: Seq<Cell>, b: Seq<usize>) -> bool {
    let segs = segments_from(line, 0);
    if segs.len() == 0 {
        b.len() == 0
    } else {
        &&& earliest_segs(segs, b, b.len() as int) is Some
        &&& latest_segs(segs, b, b.len() as int) is Some
        &&& forall|i: int|
            0 <= i < line.len() && line[i] == Cell::Filled ==> !in_unused_segment(
                segs,
                earliest_segs(segs, b, b.len() as int).unwrap().0,
                latest_segs(segs, b, b.len() as int).unwrap().0,
                i,
            )
    }
}

/// The line after the segment phase: unknown cells of unused segments become blank.
pub open spec fn seg_phase_line(line: Seq<Cell>, b: Seq<usize>) -> Seq<Cell> {
    let segs = segments_from(line, 0);
    if segs.len() == 0 {
        line
    } else {
        let e = earliest_segs(segs, b, b.len() as int).unwrap().0;
        let l = latest_segs(segs, b, b.len() as int).unwrap().0;
        Seq::new(
            line.len(),
            |i: int|
                if line[i] == Cell::Unknown && in_unused_segment(segs, e, l, i) {
                    Cell::Blank
                } else {
                    line[i]
                },
        )
    }
}

proof fn lemma_sum_range_step(b: Seq<usize>, from: int, i: int)
    requires
        0 <= from <= i < b.len(),
    ensures
        sum_blocks(b.subrange(from, i + 1)) == sum_blocks(b.subrange(from, i)) + b[i],
{
    assert(b.subrange(from, i + 1).drop_last() =~= b.subrange(from, i));
}

proof fn lemma_sum_range_mono(b: Seq<usize>, from: int, i: int, to: int)
    requires
        0 <= from <= i <= to <= b.len(),
    ensures
        sum_blocks(b.subrange(from, i)) <= sum_blocks(b.subrange(from, to)),
    decreases to - i,
{
    if i < to {
        lemma_sum_range_mono(b, from, i + 1, to);
        lemma_sum_range_step(b, from, i);
    }
}

/// Blocks `from..to`, separated by single gaps, fit in the segment.
fn fits(segment: &Segment, blocks: &[usize], from: usize, to: usize) -> (r: bool)
    requires
        from <= to <= blocks@.len(),
        segment.bounds().0 <= segment.bounds().1,
    ensures
        r == fits_spec(seg_len(segment.bounds()), blocks@.subrange(from as int, to as int)),
{
    if from == to {
        return true;
    }
    let len = segment.len();
    let mut total: usize = 0;
    let mut i = from;
    while i < to
        invariant
            from <= i <= to <= blocks@.len(),
            total == sum_blocks(blocks@.subrange(from as int, i as int)),
            total <= len,
            len == seg_len(segment.bounds()),
            from < to,
        decreases to - i,
    {
        proof {
            lemma_sum_range_step(blocks@, from as int, i as int);
        }
        if blocks[i] > len - total {
            proof {
                lemma_sum_range_mono(blocks@, from as int, (i + 1) as int, to as int);
            }
            return false;
        }
        total = total + blocks[i];
        i += 1;
    }
    to - from - 1 <= len - total
}

proof fn lemma_earliest_segs(segs: Seq<(int, int)>, b: Seq<usize>, j: int)
    requires
        0 <= j <= b.len(),
    ensures
        earliest_segs(segs, b, j) matches Some((lst, idx, ss)) ==> lst.len() == j && 0 <= ss <= j
            && (j > 0 ==> 0 <= idx < segs.len() && ss < j && lst.last() == idx) && (j == 0 ==> idx
            == 0 && ss == 0) && forall|m: int| 0 <= m < j ==> 0 <= #[trigger] lst[m] < segs.len(),
    decreases j,
{
    if j > 0 {
        lemma_earliest_segs(segs, b, j - 1);
        if let Some((lst, idx, ss)) = earliest_segs(segs, b, j - 1) {
            lemma_advance_earliest(segs, b, j - 1, idx, ss);
        }
    }
}

proof fn lemma_advance_earliest(segs: Seq<(int, int)>, b: Seq<usize>, j: int, idx: int, ss: int)
    requires
        0 <= ss <= j,
    ensures
        advance_earliest(segs, b, j, idx, ss) matches Some((i2, s2)) ==> idx <= i2 < segs.len() && 0
            <= i2 && ss <= s2 <= j,
    decreases segs.len() - idx,
{
    if !(idx < 0 || idx >= segs.len()) && !fits_spec(seg_len(segs[idx]), b.subrange(ss, j + 1))
        && idx + 1 < segs.len() {
        lemma_advance_earliest(segs, b, j, idx + 1, j);
    }
}

proof fn lemma_earliest_segs_none(segs: Seq<(int, int)>, b: Seq<usize>, j: int, j2: int)
    requires
        0 <= j <= j2,
        earliest_segs(segs, b, j) is None,
    ensures
        earliest_segs(segs, b, j2) is None,
    decreases j2 - j,
{
    if j2 > j {
        lemma_earliest_segs_none(segs, b, j, j2 - 1);
    }
}

/// Leftmost segment that each block can lie in.
fn compute_earliest_segment(segments: &[Segment], blocks: &[usize]) -> (r: Result<Vec<usize>, Contradiction>)
    requires
        segments@.len() > 0,
        forall|m: int|
            0 <= m < segments@.len() ==> (#[trigger] segments@[m]).bounds().0 <= segments@[m].bounds().1,
    ensures
        r is Err <==> earliest_segs(seg_bounds(segments@), blocks@, blocks@.len() as int) is None,
        r matches Ok(e) ==> earliest_segs(seg_bounds(segments@), blocks@, blocks@.len() as int).unwrap().0
            == e@.map_values(|x: usize| x as int),
{
    let ghost segs = seg_bounds(segments@);
    let ghost b = blocks@;
    let k = blocks.len();
    let mut earliest: Vec<usize> = Vec::new();
    let mut slice_start: usize = 0;
    let mut seg_idx: usize = 0;
    let mut j: usize = 0;
    proof {
        assert(earliest@.map_values(|x: usize| x as int) =~= Seq::<int>::empty());
    }
    while j < k
        invariant
            segs == seg_bounds(segments@),
            b == blocks@,
            k == b.len(),
            segments@.len() > 0,
            forall|m: int|
                0 <= m < segments@.len() ==> (#[trigger] segments@[m]).bounds().0
                    <= segments@[m].bounds().1,
            j <= k,
            earliest_segs(segs, b, j as int) == Some(
                (earliest@.map_values(|x: usize| x as int), seg_idx as int, slice_start as int),
            ),
            seg_idx < segments@.len(),
            slice_start <= j,
        decreases k - j,
    {
        let ghost idx0 = seg_idx as int;
        let ghost ss0 = slice_start as int;
        proof {
            lemma_earliest_segs(segs, b, j as int);
        }
        while !fits(&segments[seg_idx], blocks, slice_start, j + 1)
            invariant
                segs == seg_bounds(segments@),
                b == blocks@,
                k == b.len(),
                forall|m: int|
                    0 <= m < segments@.len() ==> (#[trigger] segments@[m]).bounds().0
                        <= segments@[m].bounds().1,
                j < k,
                seg_idx < segments@.len(),
                slice_start <= j,
                earliest_segs(segs, b, j as int) == Some(
                    (earliest@.map_values(|x: usize| x as int), idx0, ss0),
                ),
                advance_earliest(segs, b, j as int, idx0, ss0) == advance_earliest(
                    segs,
                    b,
                    j as int,
                    seg_idx as int,
                    slice_start as int,
                ),
            decreases segments@.len() - seg_idx,
        {
            seg_idx += 1;
            slice_start = j;
            if seg_idx >= segments.len() {
                proof {
                    lemma_earliest_segs_none(segs, b, (j + 1) as int, k as int);
                }
                return Err(Contradiction);
            }
        }
        proof {
            assert(earliest@.push(seg_idx).map_values(|x: usize| x as int) =~= earliest@.map_values(
                |x: usize| x as int,
            ).push(seg_idx as int));
        }
        earliest.push(seg_idx);
        j += 1;
    }
    Ok(earliest)
}


proof fn lemma_advance_latest(segs: Seq<(int, int)>, b: Seq<usize>, j: int, idx: int, se: int)
    requires
        0 <= j <= se,
    ensures
        advance_latest(segs, b, j, idx, se) matches Some((i2, s2)) ==> 0 <= i2 <= idx && i2 < segs.len()
            && j <= s2 <= se,
    decreases idx,
{
    if !(idx < 0 || idx >= segs.len()) && !fits_spec(seg_len(segs[idx]), b.subrange(j, se + 1))
        && idx != 0 {
        lemma_advance_latest(segs, b, j, idx - 1, j);
    }
}

proof fn lemma_latest_segs(segs: Seq<(int, int)>, b: Seq<usize>, m: int)
    requires
        0 <= m <= b.len(),
        segs.len() > 0,
        b.len() > 0,
    ensures
        latest_segs(segs, b, m) matches Some((lst, idx, se)) ==> lst.len() == m && 0 <= idx < segs.len()
            && b.len() - m - 1 <= se < b.len() && (m > 0 ==> se >= b.len() - m && lst[0] == idx)
            && forall|x: int| 0 <= x < m ==> 0 <= #[trigger] lst[x] < segs.len(),
    decreases m,
{
    if m > 0 {
        lemma_latest_segs(segs, b, m - 1);
        if let Some((lst, idx, se)) = latest_segs(segs, b, m - 1) {
            lemma_advance_latest(segs, b, b.len() - m, idx, se);
        }
    }
}

proof fn lemma_latest_segs_none(segs: Seq<(int, int)>, b: Seq<usize>, m: int, m2: int)
    requires
        0 <= m <= m2,
        latest_segs(segs, b, m) is None,
    ensures
        latest_segs(segs, b, m2) is None,
    decreases m2 - m,
{
    if m2 > m {
        lemma_latest_segs_none(segs, b, m, m2 - 1);
    }
}

/// Rightmost segment that each block can lie in.
fn compute_latest_segment(segments: &[Segment], blocks: &[usize]) -> (r: Result<Vec<usize>, Contradiction>)
    requires
        segments@.len() > 0,
        blocks@.len() > 0,
        forall|m: int|
            0 <= m < segments@.len() ==> (#[trigger] segments@[m]).bounds().0 <= segments@[m].bounds().1,
    ensures
        r is Err <==> latest_segs(seg_bounds(segments@), blocks@, blocks@.len() as int) is None,
        r matches Ok(l) ==> latest_segs(seg_bounds(segments@), blocks@, blocks@.len() as int).unwrap().0
            == l@.map_values(|x: usize| x as int),
{
    let ghost segs = seg_bounds(segments@);
    let ghost b = blocks@;
    let k = blocks.len();
    let mut latest: Vec<usize> = vec![0; k];
    let mut slice_end: usize = k - 1;
    let mut seg_idx: usize = segments.len() - 1;
    let mut j: usize = k;
    proof {
        assert(latest@.skip(k as int).map_values(|x: usize| x as int) =~= Seq::<int>::empty());
    }
    while j > 0
        invariant
            segs == seg_bounds(segments@),
            b == blocks@,
            k == b.len() > 0,
            segments@.len() > 0,
            forall|m: int|
                0 <= m < segments@.len() ==> (#[trigger] segments@[m]).bounds().0
                    <= segments@[m].bounds().1,
            j <= k,
            latest@.len() == k,
            latest_segs(segs, b, (k - j) as int) == Some(
                (latest@.skip(j as int).map_values(|x: usize| x as int), seg_idx as int, slice_end as int),
            ),
            seg_idx < segments@.len(),
            slice_end < k,
            j <= slice_end + 1,
        decreases j,
    {
        j -= 1;
        let ghost idx0 = seg_idx as int;
        let ghost se0 = slice_end as int;
        proof {
            lemma_latest_segs(segs, b, (k - j - 1) as int);
        }
        while !fits(&segments[seg_idx], blocks, j, slice_end + 1)
            invariant
                segs == seg_bounds(segments@),
                b == blocks@,
                k == b.len(),
                forall|m: int|
                    0 <= m < segments@.len() ==> (#[trigger] segments@[m]).bounds().0
                        <= segments@[m].bounds().1,
                j < k,
                seg_idx < segments@.len(),
                j <= slice_end < k,
                latest@.len() == k,
                latest_segs(segs, b, (k - j - 1) as int) == Some(
                    (latest@.skip(j + 1).map_values(|x: usize| x as int), idx0, se0),
                ),
                advance_latest(segs, b, j as int, idx0, se0) == advance_latest(
                    segs,
                    b,
                    j as int,
                    seg_idx as int,
                    slice_end as int,
                ),
            decreases seg_idx,
        {
            if seg_idx == 0 {
                proof {
                    lemma_latest_segs_none(segs, b, (k - j) as int, k as int);
                }
                return Err(Contradiction);
            }
            seg_idx -= 1;
            slice_end = j;
        }
        let ghost old_l = latest@;
        latest.set(j, seg_idx);
        proof {
            assert(latest@.skip(j as int) =~= seq![seg_idx].add(old_l.skip(j + 1)));
            assert(latest@.skip(j as int).map_values(|x: usize| x as int) =~= seq![seg_idx as int].add(
                old_l.skip(j + 1).map_values(|x: usize| x as int),
            ));
        }
    }
    proof {
        assert(latest@.skip(0) =~= latest@);
    }
    Ok(latest)
}

/// Blanks the unknown cells of segments that no block can lie in; a filled
/// cell there is a contradiction. Returns the cells it decided.
fn confirm_empty_segments(
    line: &mut LineBits,
    segments: &[Segment],
    earliest_segment: &[usize],
    latest_segment: &[usize],
) -> (r: Result<Vec<usize>, Contradiction>)
    requires
        old(line).wf(),
        earliest_segment@.len() == latest_segment@.len(),
        forall|m: int|
            0 <= m < segments@.len() ==> 0 <= (#[trigger] segments@[m]).bounds().0
                <= segments@[m].bounds().1 <= old(line)@.len(),
    ensures
        final(line).wf(),
        ({
            let segs = seg_bounds(segments@);
            let e = earliest_segment@.map_values(|x: usize| x as int);
            let l = latest_segment@.map_values(|x: usize| x as int);
            &&& r is Ok <==> forall|i: int|
                0 <= i < old(line)@.len() && old(line)@[i] == Cell::Filled ==> !in_unused_segment(
                    segs,
                    e,
                    l,
                    i,
                )
            &&& r is Err ==> final(line)@ == old(line)@
            &&& r matches Ok(changed) ==> {
                &&& changed@ == unused_cells(old(line)@, segs, e, l, segs.len() as int)
                &&& segs_sorted(segs, 0, old(line)@.len() as int) ==> strictly_increasing(changed@)
                &&& final(line)@ == Seq::new(
                    old(line)@.len(),
                    |i: int|
                        if old(line)@[i] == Cell::Unknown && in_unused_segment(segs, e, l, i) {
                            Cell::Blank
                        } else {
                            old(line)@[i]
                        },
                )
                &&& forall|x: usize|
                    changed@.contains(x) <==> (x < old(line)@.len() && old(line)@[x as int]
                        == Cell::Unknown && in_unused_segment(segs, e, l, x as int))
            }
        }),
{
    let ghost l0 = line@;
    let ghost segs = seg_bounds(segments@);
    let ghost e = earliest_segment@.map_values(|x: usize| x as int);
    let ghost l = latest_segment@.map_values(|x: usize| x as int);
    proof {
        line.lemma_wf_len();
    }
    let mut changed: Vec<usize> = Vec::new();
    let mut seg_idx: usize = 0;
    while seg_idx < segments.len()
        invariant
            line.wf(),
            line@ == l0,
            old(line)@ == l0,
            l0.len() <= 64,
            segs == seg_bounds(segments@),
            e == earliest_segment@.map_values(|x: usize| x as int),
            l == latest_segment@.map_values(|x: usize| x as int),
            earliest_segment@.len() == latest_segment@.len(),
            forall|m: int|
                0 <= m < segments@.len() ==> 0 <= (#[trigger] segments@[m]).bounds().0
                    <= segments@[m].bounds().1 <= l0.len(),
            seg_idx <= segments@.len(),
            changed@ == unused_cells(l0, segs, e, l, seg_idx as int),
            forall|i: int|
                0 <= i < l0.len() && l0[i] == Cell::Filled ==> !exists|m: int|
                    0 <= m < seg_idx && seg_unused(e, l, m) && #[trigger] segs[m].0 <= i < segs[m].1,
            forall|x: usize|
                #[trigger] changed@.contains(x) <==> (x < l0.len() && l0[x as int] == Cell::Unknown
                    && exists|m: int|
                    0 <= m < seg_idx && seg_unused(e, l, m) && #[trigger] segs[m].0 <= x < segs[m].1),
        decreases segments@.len() - seg_idx,
    {
        let mut has_block = false;
        let mut j: usize = 0;
        while j < earliest_segment.len()
            invariant
                e == earliest_segment@.map_values(|x: usize| x as int),
                l == latest_segment@.map_values(|x: usize| x as int),
                earliest_segment@.len() == latest_segment@.len(),
                j <= earliest_segment@.len(),
                has_block == exists|jj: int| 0 <= jj < j && #[trigger] e[jj] <= seg_idx && seg_idx <= l[jj],
            decreases earliest_segment@.len() - j,
        {
            if earliest_segment[j] <= seg_idx && seg_idx <= latest_segment[j] {
                has_block = true;
            }
            proof {
                if has_block {
                    if earliest_segment[j as int] <= seg_idx && seg_idx <= latest_segment[j as int] {
                        assert(e[j as int] <= seg_idx && seg_idx <= l[j as int]);
                    }
                }
                if exists|jj: int| 0 <= jj < j + 1 && #[trigger] e[jj] <= seg_idx && seg_idx <= l[jj] {
                    let jj = choose|jj: int| 0 <= jj < j + 1 && #[trigger] e[jj] <= seg_idx && seg_idx <= l[jj];
                    if jj == j {
                        assert(earliest_segment[j as int] <= seg_idx && seg_idx <= latest_segment[j as int]);
                    }
                }
            }
            j += 1;
        }
        let ghost before = changed@;
        if !has_block {
            let start = segments[seg_idx].start;
            let end = segments[seg_idx].end;
            let mut i = start;
            proof {
                assert(seg_unused(e, l, seg_idx as int));
                assert(segs[seg_idx as int] == segments@[seg_idx as int].bounds());
            }
            while i < end
                invariant
                    line.wf(),
                    line@ == l0,
                    old(line)@ == l0,
                    e == earliest_segment@.map_values(|x: usize| x as int),
                    l == latest_segment@.map_values(|x: usize| x as int),
                    l0.len() <= 64,
                    seg_idx < segments@.len(),
                    segs == seg_bounds(segments@),
                    seg_unused(e, l, seg_idx as int),
                    start <= i <= end <= l0.len(),
                    segs[seg_idx as int] == (start as int, end as int),
                    forall|c: int| start <= c < i ==> l0[c] != Cell::Filled,
                    changed@ == before + unknown_cells(l0, start as int, i as int),
                    forall|x: usize|
                        #[trigger] changed@.contains(x) <==> (before.contains(x) || (start <= x < i
                            && l0[x as int] == Cell::Unknown)),
                decreases end - i,
            {
                let c = line.cell(i);
                if c == Cell::Filled {
                    proof {
                        assert(segs[seg_idx as int].0 <= i < segs[seg_idx as int].1);
                        assert(seg_unused(e, l, seg_idx as int));
                        assert(in_unused_segment(segs, e, l, i as int));
                    }
                    return Err(Contradiction);
                }
                if c == Cell::Unknown {
                    let ghost b2 = changed@;
                    changed.push(i);
                    proof {
                        assert forall|x: usize| #[trigger] changed@.contains(x) <==> (before.contains(x) || (
                        start <= x < i + 1 && l0[x as int] == Cell::Unknown)) by {
                            lemma_push_contains(b2, i, x);
                        }
                    }
                }
                proof {
                    assert(changed@ =~= before + unknown_cells(l0, start as int, i + 1));
                }
                i += 1;
            }
        }
        proof {
            assert forall|i: int|
                0 <= i < l0.len() && l0[i] == Cell::Filled implies !exists|m: int|
                    0 <= m < seg_idx + 1 && seg_unused(e, l, m) && #[trigger] segs[m].0 <= i < segs[m].1 by {
                if exists|m: int| 0 <= m < seg_idx + 1 && seg_unused(e, l, m) && #[trigger] segs[m].0 <= i < segs[m].1 {
                    let m = choose|m: int| 0 <= m < seg_idx + 1 && seg_unused(e, l, m) && #[trigger] segs[m].0 <= i < segs[m].1;
                    assert(m < seg_idx);
                }
            }
            assert forall|x: usize| #[trigger] changed@.contains(x) <==> (x < l0.len() && l0[x as int]
                == Cell::Unknown && exists|m: int|
                0 <= m < seg_idx + 1 && seg_unused(e, l, m) && #[trigger] segs[m].0 <= x < segs[m].1) by {
                if exists|m: int| 0 <= m < seg_idx + 1 && seg_unused(e, l, m) && #[trigger] segs[m].0 <= x < segs[m].1 {
                    let m = choose|m: int| 0 <= m < seg_idx + 1 && seg_unused(e, l, m) && #[trigger] segs[m].0 <= x < segs[m].1;
                    if m < seg_idx {
                        assert(before.contains(x) || l0[x as int] != Cell::Unknown);
                    }
                }
            }
        }
        seg_idx += 1;
    }
    proof {
        assert forall|m: int| 0 <= m < changed@.len() implies changed@[m] < line@.len() by {
            assert(changed@.contains(changed@[m]));
        }
    }
    proof {
        if segs_sorted(segs, 0, l0.len() as int) {
            lemma_unused_cells_inc(l0, segs, e, l, segments@.len() as int);
        }
    }
    line.set_cells(changed.as_slice(), Cell::Blank);
    proof {
        assert forall|i: int| 0 <= i < l0.len() implies #[trigger] line@[i] == (if l0[i] == Cell::Unknown
            && in_unused_segment(segs, e, l, i) {
            Cell::Blank
        } else {
            l0[i]
        }) by {
            assert((i as usize) as int == i);
            assert(changed@.contains(i as usize) == (l0[i] == Cell::Unknown && in_unused_segment(
                segs,
                e,
                l,
                i,
            )));
        }
    }
    Ok(changed)
}


/// Splits the line into segments, finds the leftmost and rightmost segment of
/// each block, and blanks the segments no block can use. Returns the cells it
/// decided.
pub fn segment_phase(line: &mut LineBits, blocks: &[usize]) -> (r: Result<Vec<usize>, Contradiction>)
    requires
        old(line).wf(),
        blocks@.len() > 0 || segments_from(old(line)@, 0).len() == 0,
    ensures
        final(line).wf(),
        r is Ok <==> seg_phase_ok(old(line)@, blocks@),
        r is Err ==> final(line)@ == old(line)@,
        r matches Ok(changed) ==> {
            &&& final(line)@ == seg_phase_line(old(line)@, blocks@)
            &&& strictly_increasing(changed@)
            &&& forall|x: usize|
                changed@.contains(x) <==> (x < old(line)@.len() && old(line)@[x as int] == Cell::Unknown
                    && final(line)@[x as int] != Cell::Unknown)
        },
{
    let ghost l0 = line@;
    let segments = split_at_blanks(line);
    proof {
        assert(seg_bounds(segments@).len() == segments@.len());
    }
    if segments.len() == 0 {
        return if blocks.len() == 0 {
            Ok(Vec::new())
        } else {
            Err(Contradiction)
        };
    }
    let earliest_segment = match compute_earliest_segment(segments.as_slice(), blocks) {
        Ok(e) => e,
        Err(c) => {
            return Err(c);
        },
    };
    let latest_segment = match compute_latest_segment(segments.as_slice(), blocks) {
        Ok(l) => l,
        Err(c) => {
            return Err(c);
        },
    };
    proof {
        lemma_earliest_segs(seg_bounds(segments@), blocks@, blocks@.len() as int);
        lemma_latest_segs(seg_bounds(segments@), blocks@, blocks@.len() as int);
        assert(earliest_segment@.len() == blocks@.len());
        assert(latest_segment@.len() == blocks@.len());
    }
    let r = confirm_empty_segments(line, segments.as_slice(), earliest_segment.as_slice(), latest_segment.as_slice());
    proof {
        line.lemma_wf_len();
        lemma_segments_sorted(l0, 0);
        lemma_unused_cells_inc(
            l0,
            seg_bounds(segments@),
            earliest_segment@.map_values(|x: usize| x as int),
            latest_segment@.map_values(|x: usize| x as int),
            segments@.len() as int,
        );
        if r is Ok {
            assert(line@ =~= seg_phase_line(l0, blocks@));
        }
    }
    r
}

} // verus!
