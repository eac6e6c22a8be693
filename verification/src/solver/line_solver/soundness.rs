//! Every phase of the line solver keeps every solution of the line: when the
//! blocks of a clue can be placed on a line, no phase reports a
//! contradiction, and every cell a phase decides has the value it has in the
//! placement. The DP phase is also exact: it decides every cell on which all
//! the placements the line allows agree.
use vstd::prelude::*;

use super::earliest_latest::{
    earliest_seq, el_line, el_ok, first_fit, in_overlap, lemma_el_order, lemma_first_fit_before, in_white, last_fit, latest_seq,
    overlap_line, white_line,
};
use super::dp::{
    blank_path, dp_can_blank, dp_can_fill, dp_cell, dp_line, dp_ok, fill_path, next_after, reach_bwd, reach_fwd,
    separator_path,
};
use super::placement::{
    can_place, count_cell, covered, filled_run_before, max_block, placed_line, placement_ok, sum_blocks,
};
use super::segment::{
    advance_earliest, advance_latest, earliest_segs, fits_spec, in_unused_segment, latest_segs,
    lemma_run_end_bounds, run_end, seg_len, seg_phase_line, seg_phase_ok, seg_unused, segments_from,
};
use super::{all_blank, checks_pass, lemma_count_pos, lemma_count_zero, refines, solve_line_spec};
use crate::types::{runs, runs_after, Cell};

verus! {

/// The placement `s` of the blocks `b` is one that `line` allows: its blocks
/// lie in order on the line, and its solved line agrees with every decided cell.
pub open spec fn line_allows(line: Seq<Cell>, b: Seq<usize>, s: Seq<int>) -> bool {
    &&& placement_ok(s, b, line.len() as int)
    &&& refines(placed_line(s, b, line.len() as int), line)
}

/// Each block of a placement that a line allows can be placed on the line.
proof fn lemma_block_can_place(line: Seq<Cell>, b: Seq<usize>, s: Seq<int>, j: int)
    requires
        placement_ok(s, b, line.len() as int),
        refines(placed_line(s, b, line.len() as int), line),
        0 <= j < b.len(),
    ensures
        can_place(line, s[j], b[j] as int),
{
    let n = line.len() as int;
    let pl = placed_line(s, b, n);
    assert forall|i: int| s[j] <= i < s[j] + b[j] implies line[i] != Cell::Blank by {
        assert(covered(s, b, i));
        assert(pl[i] == Cell::Filled);
    }
    if s[j] + b[j] < n {
        let i = s[j] + b[j];
        assert(!covered(s, b, i)) by {
            if covered(s, b, i) {
                let j2 = choose|j2: int| 0 <= j2 < b.len() && #[trigger] s[j2] <= i < s[j2] + b[j2];
                if j2 < j {
                    assert(s[j2] + b[j2] < s[j]);
                } else if j < j2 {
                    assert(s[j] + b[j] < s[j2]);
                }
            }
        }
        assert(pl[i] == Cell::Blank);
    }
    if s[j] > 0 {
        let i = s[j] - 1;
        assert(!covered(s, b, i)) by {
            if covered(s, b, i) {
                let j2 = choose|j2: int| 0 <= j2 < b.len() && #[trigger] s[j2] <= i < s[j2] + b[j2];
                if j2 < j {
                    assert(s[j2] + b[j2] < s[j]);
                } else if j < j2 {
                    assert(s[j] + b[j] < s[j2]);
                }
            }
        }
        assert(pl[i] == Cell::Blank);
    }
}

/// The last fit ending at or before `p` starts no earlier than any start `q`
/// of a placeable block that ends by `p`.
proof fn lemma_last_fit_after(line: Seq<Cell>, len: int, p: int, q: int)
    requires
        0 <= q,
        0 <= len,
        q + len <= p <= line.len(),
        can_place(line, q, len),
    ensures
        last_fit(line, len, p) matches Some(r) && q <= r && r + len <= p,
    decreases p - q,
{
    if !can_place(line, p - len, len) {
        lemma_last_fit_after(line, len, p - 1, q);
    }
}

/// The greedy leftmost starts of the first `j` blocks exist and are no later
/// than the placement's.
proof fn lemma_earliest_below(line: Seq<Cell>, b: Seq<usize>, s: Seq<int>, j: int)
    requires
        placement_ok(s, b, line.len() as int),
        refines(placed_line(s, b, line.len() as int), line),
        0 <= j <= b.len(),
    ensures
        earliest_seq(line, b, j) matches Some(e) && e.len() == j && forall|t: int| 0 <= t < j ==> 0 <= #[trigger] e[t]
            <= s[t],
    decreases j,
{
    if j > 0 {
        lemma_earliest_below(line, b, s, j - 1);
        let e = earliest_seq(line, b, j - 1).unwrap();
        let start = if j == 1 {
            0
        } else {
            e.last() + b[j - 2] + 1
        };
        if j > 1 {
            assert(e.last() == e[j - 2]);
            assert(0 <= e[j - 2] <= s[j - 2]);
            assert(s[j - 2] + b[j - 2] < s[j - 1]);
        }
        lemma_block_can_place(line, b, s, j - 1);
        lemma_first_fit_before(line, b[j - 1] as int, start, s[j - 1]);
    }
}

/// The greedy rightmost starts of the last `m` blocks exist and are no
/// earlier than the placement's.
proof fn lemma_latest_above(line: Seq<Cell>, b: Seq<usize>, s: Seq<int>, m: int)
    requires
        placement_ok(s, b, line.len() as int),
        refines(placed_line(s, b, line.len() as int), line),
        0 <= m <= b.len(),
    ensures
        latest_seq(line, b, m) matches Some(l) && l.len() == m && forall|t: int| 0 <= t < m ==> s[b.len() - m + t]
            <= #[trigger] l[t] && l[t] + b[b.len() - m + t] <= line.len(),
    decreases m,
{
    let k = b.len() as int;
    if m > 0 {
        lemma_latest_above(line, b, s, m - 1);
        let l = latest_seq(line, b, m - 1).unwrap();
        let j = k - m;
        lemma_block_can_place(line, b, s, j);
        if m > 1 {
            assert(s[j + 1] <= l[0]);
            assert(s[j] + b[j] < s[j + 1]);
            lemma_last_fit_after(line, b[j] as int, l[0] - 1, s[j]);
        } else {
            lemma_last_fit_after(line, b[j] as int, line.len() as int, s[j]);
        }
        let q = last_fit(line, b[j] as int, if m == 1 {
            line.len() as int
        } else {
            l[0] - 1
        }).unwrap();
        let l2 = seq![q].add(l);
        assert forall|t: int| 0 <= t < m implies s[k - m + t] <= #[trigger] l2[t] && l2[t] + b[k - m + t] <= line.len() by {
            if t > 0 {
                assert(l2[t] == l[t - 1]);
            }
        }
    }
}

/// Earliest/latest inference keeps every placement the line allows.
pub proof fn lemma_el_sound(line: Seq<Cell>, b: Seq<usize>, s: Seq<int>)
    requires
        placement_ok(s, b, line.len() as int),
        refines(placed_line(s, b, line.len() as int), line),
        b.len() > 0,
    ensures
        el_ok(line, b),
        refines(placed_line(s, b, line.len() as int), el_line(line, b)),
{
    let n = line.len() as int;
    let k = b.len() as int;
    let pl = placed_line(s, b, n);
    lemma_earliest_below(line, b, s, k);
    lemma_latest_above(line, b, s, k);
    let e = earliest_seq(line, b, k).unwrap();
    let l = latest_seq(line, b, k).unwrap();
    let ol = overlap_line(line, e, l, b);
    assert forall|i: int| 0 <= i < n && in_overlap(e, l, b, i) implies pl[i] == Cell::Filled by {
        let j = choose|j: int| 0 <= j < b.len() && #[trigger] l[j] <= i < e[j] + b[j];
        assert(e[j] <= s[j]);
        assert(s[j] <= l[j]);
        assert(covered(s, b, i));
    }
    assert forall|i: int| 0 <= i < n && in_white(e, l, b, n, i) implies pl[i] == Cell::Blank by {
        if covered(s, b, i) {
            let j = choose|j: int| 0 <= j < b.len() && #[trigger] s[j] <= i < s[j] + b[j];
            assert(e[j] <= s[j] <= l[j]);
            if 0 <= i < e[0] {
                assert(e[0] <= s[0]);
                if j > 0 {
                    assert(s[0] + b[0] < s[j]);
                }
            } else if l[k - 1] + b[k - 1] <= i < n {
                assert(s[k - 1] <= l[k - 1]);
                if j < k - 1 {
                    assert(s[j] + b[j] < s[k - 1]);
                }
            } else {
                let j2 = choose|j2: int| 0 <= j2 < b.len() - 1 && #[trigger] l[j2] + b[j2] <= i < e[j2 + 1];
                assert(s[j2] <= l[j2]);
                assert(e[j2 + 1] <= s[j2 + 1]);
                if j <= j2 {
                    if j < j2 {
                        assert(s[j] + b[j] < s[j2]);
                    }
                } else {
                    if j > j2 + 1 {
                        assert(s[j2 + 1] + b[j2 + 1] < s[j]);
                    }
                }
            }
        }
    }
    assert(refines(pl, el_line(line, b))) by {
        assert forall|i: int| 0 <= i < n && el_line(line, b)[i] != Cell::Unknown implies pl[i] == el_line(
            line,
            b,
        )[i] by {
            assert(ol[i] == if line[i] == Cell::Unknown && in_overlap(e, l, b, i) {
                Cell::Filled
            } else {
                line[i]
            });
        }
    }
}

/// Cells before `p` hold the first `q` blocks of the placement, each with its
/// gap (or the last one ending the line at `p`), and the later blocks start
/// at `p` or after: the forward table reaches `(p, q)`.
proof fn lemma_reach_fwd(line: Seq<Cell>, b: Seq<usize>, s: Seq<int>, p: int, q: int)
    requires
        placement_ok(s, b, line.len() as int),
        refines(placed_line(s, b, line.len() as int), line),
        0 <= q <= b.len(),
        0 <= p <= line.len(),
        q == 0 || s[q - 1] + b[q - 1] < p || (p == line.len() && s[q - 1] + b[q - 1] == line.len()),
        q == b.len() || p <= s[q],
    ensures
        reach_fwd(line, b, p, q),
    decreases p,
{
    let n = line.len() as int;
    let k = b.len() as int;
    if p > 0 {
        if q > 0 && s[q - 1] + b[q - 1] == p - 1 {
            lemma_block_can_place(line, b, s, q - 1);
            if q > 1 {
                assert(s[q - 2] + b[q - 2] < s[q - 1]);
            }
            lemma_reach_fwd(line, b, s, s[q - 1], q - 1);
        } else if q > 0 && p == n && s[q - 1] + b[q - 1] == n {
            lemma_block_can_place(line, b, s, q - 1);
            if q > 1 {
                assert(s[q - 2] + b[q - 2] < s[q - 1]);
            }
            lemma_reach_fwd(line, b, s, s[q - 1], q - 1);
        } else {
            let i = p - 1;
            assert(!covered(s, b, i)) by {
                if covered(s, b, i) {
                    let j = choose|j: int| 0 <= j < b.len() && #[trigger] s[j] <= i < s[j] + b[j];
                    if j < q - 1 {
                        assert(s[j] + b[j] < s[q - 1]);
                    } else if j > q {
                        assert(s[q] + b[q] < s[j]);
                    }
                }
            }
            assert(placed_line(s, b, n)[i] == Cell::Blank);
            lemma_reach_fwd(line, b, s, p - 1, q);
        }
    } else if q > 0 {
        assert(s[q - 1] >= 0);
    }
}

/// Cells from `i` on hold the blocks of the placement from `j` on, and the
/// earlier blocks end by `i`: the backward table reaches `(i, j)`.
proof fn lemma_reach_bwd(line: Seq<Cell>, b: Seq<usize>, s: Seq<int>, i: int, j: int)
    requires
        placement_ok(s, b, line.len() as int),
        refines(placed_line(s, b, line.len() as int), line),
        0 <= j <= b.len(),
        0 <= i <= line.len(),
        j == b.len() || i <= s[j],
        j == 0 || s[j - 1] + b[j - 1] <= i,
    ensures
        reach_bwd(line, b, i, j),
    decreases line.len() - i,
{
    let n = line.len() as int;
    let k = b.len() as int;
    if i < n {
        if j < k && s[j] == i {
            lemma_block_can_place(line, b, s, j);
            if j + 1 < k {
                assert(s[j] + b[j] < s[j + 1]);
            }
            lemma_reach_bwd(line, b, s, next_after(n, i, b[j] as int), j + 1);
        } else {
            assert(!covered(s, b, i)) by {
                if covered(s, b, i) {
                    let t = choose|t: int| 0 <= t < b.len() && #[trigger] s[t] <= i < s[t] + b[t];
                    if t < j - 1 {
                        assert(s[t] + b[t] < s[j - 1]);
                    } else if t > j {
                        assert(s[j] + b[j] < s[t]);
                    }
                }
            }
            assert(placed_line(s, b, n)[i] == Cell::Blank);
            lemma_reach_bwd(line, b, s, i + 1, j);
        }
    } else if j < k {
        assert(s[j] + b[j] <= n);
    }
}

/// An uncovered cell lies between two consecutive blocks (or before the first,
/// or after the last).
proof fn lemma_gap_index(b: Seq<usize>, s: Seq<int>, n: int, i: int, j: int) -> (g: int)
    requires
        placement_ok(s, b, n),
        !covered(s, b, i),
        0 <= j <= b.len(),
        j == 0 || s[j - 1] + b[j - 1] <= i,
    ensures
        j <= g <= b.len(),
        g == 0 || s[g - 1] + b[g - 1] <= i,
        g == b.len() || i < s[g],
    decreases b.len() - j,
{
    if j == b.len() || i < s[j] {
        j
    } else {
        if i < s[j] + b[j] {
            assert(covered(s, b, i));
        }
        lemma_gap_index(b, s, n, i, j + 1)
    }
}

/// The DP solver keeps every placement the line allows.
pub proof fn lemma_dp_sound(line: Seq<Cell>, b: Seq<usize>, s: Seq<int>)
    requires
        placement_ok(s, b, line.len() as int),
        refines(placed_line(s, b, line.len() as int), line),
    ensures
        dp_ok(line, b),
        refines(placed_line(s, b, line.len() as int), dp_line(line, b)),
{
    let n = line.len() as int;
    let k = b.len() as int;
    let pl = placed_line(s, b, n);
    reveal(dp_can_fill);
    reveal(dp_can_blank);
    if k > 0 {
        assert(s[k - 1] + b[k - 1] <= n);
    }
    lemma_reach_fwd(line, b, s, n, k);
    assert forall|i: int| 0 <= i < n implies (pl[i] == Cell::Filled ==> dp_can_fill(line, b, i)) && (pl[i]
        == Cell::Blank ==> dp_can_blank(line, b, i)) by {
        if covered(s, b, i) {
            let j = choose|j: int| 0 <= j < b.len() && #[trigger] s[j] <= i < s[j] + b[j];
            lemma_block_can_place(line, b, s, j);
            if j > 0 {
                assert(s[j - 1] + b[j - 1] < s[j]);
            }
            lemma_reach_fwd(line, b, s, s[j], j);
            if j + 1 < k {
                assert(s[j] + b[j] < s[j + 1]);
            }
            lemma_reach_bwd(line, b, s, next_after(n, s[j], b[j] as int), j + 1);
            assert(fill_path(line, b, i, j, s[j]));
        } else {
            let g = lemma_gap_index(b, s, n, i, 0);
            if g > 0 && s[g - 1] + b[g - 1] == i {
                lemma_block_can_place(line, b, s, g - 1);
                if g > 1 {
                    assert(s[g - 2] + b[g - 2] < s[g - 1]);
                }
                lemma_reach_fwd(line, b, s, s[g - 1], g - 1);
                lemma_reach_bwd(line, b, s, i + 1, g);
                assert(separator_path(line, b, i, g - 1));
            } else {
                lemma_reach_fwd(line, b, s, i, g);
                lemma_reach_bwd(line, b, s, i + 1, g);
                assert(blank_path(line, b, i, g));
            }
        }
    }
    assert forall|i: int| 0 <= i < n && line[i] == Cell::Unknown implies dp_can_fill(line, b, i) || dp_can_blank(
        line,
        b,
        i,
    ) by {
        assert(pl[i] == Cell::Filled || pl[i] == Cell::Blank);
    }
    assert forall|i: int| 0 <= i < n && dp_line(line, b)[i] != Cell::Unknown implies pl[i] == dp_line(line, b)[i] by {
        assert(dp_line(line, b)[i] == dp_cell(line, b, i));
    }
}

/// Each block starts after the earlier blocks and their gaps.
proof fn lemma_start_bound(s: Seq<int>, b: Seq<usize>, n: int, j: int)
    requires
        placement_ok(s, b, n),
        0 <= j < b.len(),
    ensures
        s[j] >= sum_blocks(b.take(j)) + j,
    decreases j,
{
    if j == 0 {
        assert(b.take(0) =~= Seq::<usize>::empty());
    } else {
        lemma_start_bound(s, b, n, j - 1);
        assert(b.take(j).drop_last() =~= b.take(j - 1));
        assert(s[j - 1] + b[j - 1] < s[j]);
    }
}

/// The blocks and their gaps fit in the line.
proof fn lemma_min_space(s: Seq<int>, b: Seq<usize>, n: int)
    requires
        placement_ok(s, b, n),
        b.len() > 0,
    ensures
        sum_blocks(b) + b.len() - 1 <= n,
{
    let k = b.len() as int;
    lemma_start_bound(s, b, n, k - 1);
    assert(b.take(k).drop_last() =~= b.take(k - 1));
    assert(b.take(k) =~= b);
}

/// More cells in state `c` where every `c` of `x` is a `c` of `y`.
proof fn lemma_count_mono(x: Seq<Cell>, y: Seq<Cell>, c: Cell)
    requires
        x.len() == y.len(),
        forall|i: int| 0 <= i < x.len() && x[i] == c ==> y[i] == c,
    ensures
        count_cell(x, c) <= count_cell(y, c),
    decreases x.len(),
{
    if x.len() > 0 {
        lemma_count_mono(x.drop_last(), y.drop_last(), c);
    }
}

/// The filled cells of `y` are filled or unknown in `x`.
proof fn lemma_count_two(x: Seq<Cell>, y: Seq<Cell>)
    requires
        x.len() == y.len(),
        forall|i: int| 0 <= i < y.len() && y[i] == Cell::Filled ==> x[i] == Cell::Filled || x[i] == Cell::Unknown,
    ensures
        count_cell(y, Cell::Filled) <= count_cell(x, Cell::Filled) + count_cell(x, Cell::Unknown),
    decreases x.len(),
{
    if x.len() > 0 {
        lemma_count_two(x.drop_last(), y.drop_last());
    }
}

/// Cells of block `t` (of the first `j`) before `p`, summed over the blocks.
spec fn covered_count(s: Seq<int>, b: Seq<usize>, p: int, j: int) -> int
    decreases j,
{
    if j <= 0 {
        0
    } else {
        let part = if p <= s[j - 1] {
            0
        } else if p >= s[j - 1] + b[j - 1] {
            b[j - 1] as int
        } else {
            p - s[j - 1]
        };
        covered_count(s, b, p, j - 1) + part
    }
}

/// One more cell adds one to the count exactly when a block covers it.
proof fn lemma_covered_count_step(s: Seq<int>, b: Seq<usize>, n: int, p: int, j: int)
    requires
        placement_ok(s, b, n),
        0 <= j <= b.len(),
    ensures
        covered_count(s, b, p + 1, j) == covered_count(s, b, p, j) + if exists|t: int|
            0 <= t < j && #[trigger] s[t] <= p < s[t] + b[t] {
            1int
        } else {
            0int
        },
    decreases j,
{
    if j > 0 {
        lemma_covered_count_step(s, b, n, p, j - 1);
        if s[j - 1] <= p < s[j - 1] + b[j - 1] {
            assert forall|t: int| 0 <= t < j - 1 implies !(#[trigger] s[t] <= p < s[t] + b[t]) by {
                assert(s[t] + b[t] < s[j - 1]);
            }
        } else if exists|t: int| 0 <= t < j && #[trigger] s[t] <= p < s[t] + b[t] {
            let t = choose|t: int| 0 <= t < j && #[trigger] s[t] <= p < s[t] + b[t];
            assert(t < j - 1);
        }
    }
}

/// At the end of the line every block is counted in full.
proof fn lemma_covered_count_all(s: Seq<int>, b: Seq<usize>, n: int, j: int)
    requires
        placement_ok(s, b, n),
        0 <= j <= b.len(),
    ensures
        covered_count(s, b, n, j) == sum_blocks(b.take(j)),
    decreases j,
{
    if j == 0 {
        assert(b.take(0) =~= Seq::<usize>::empty());
    } else {
        lemma_covered_count_all(s, b, n, j - 1);
        assert(b.take(j).drop_last() =~= b.take(j - 1));
    }
}

/// The filled cells of the first `p` cells of a placed line are the covered
/// ones.
proof fn lemma_placed_count(s: Seq<int>, b: Seq<usize>, n: int, p: int)
    requires
        placement_ok(s, b, n),
        0 <= p <= n,
    ensures
        count_cell(placed_line(s, b, n).take(p), Cell::Filled) == covered_count(s, b, p, b.len() as int),
    decreases p,
{
    let pl = placed_line(s, b, n);
    if p == 0 {
        assert(pl.take(0) =~= Seq::<Cell>::empty());
        assert forall|j: int| 0 <= j <= b.len() implies covered_count(s, b, 0, j) == 0 by {
            lemma_covered_zero(s, b, n, j);
        }
    } else {
        lemma_placed_count(s, b, n, p - 1);
        assert(pl.take(p).drop_last() =~= pl.take(p - 1));
        lemma_covered_count_step(s, b, n, p - 1, b.len() as int);
    }
}

/// Before the first cell nothing is counted.
proof fn lemma_covered_zero(s: Seq<int>, b: Seq<usize>, n: int, j: int)
    requires
        placement_ok(s, b, n),
        0 <= j <= b.len(),
    ensures
        covered_count(s, b, 0, j) == 0,
    decreases j,
{
    if j > 0 {
        lemma_covered_zero(s, b, n, j - 1);
    }
}

/// A placed line has as many filled cells as its blocks hold.
proof fn lemma_placed_filled(s: Seq<int>, b: Seq<usize>, n: int)
    requires
        placement_ok(s, b, n),
        0 <= n,
    ensures
        count_cell(placed_line(s, b, n), Cell::Filled) == sum_blocks(b),
{
    lemma_placed_count(s, b, n, n);
    assert(placed_line(s, b, n).take(n) =~= placed_line(s, b, n));
    lemma_covered_count_all(s, b, n, b.len() as int);
    assert(b.take(b.len() as int) =~= b);
}

/// Within a block, the filled run before a cell reaches back to the block's
/// start.
proof fn lemma_placed_run(s: Seq<int>, b: Seq<usize>, n: int, j: int, p: int)
    requires
        placement_ok(s, b, n),
        0 <= j < b.len(),
        s[j] <= p <= s[j] + b[j],
    ensures
        filled_run_before(placed_line(s, b, n), p) == p - s[j],
    decreases p,
{
    let pl = placed_line(s, b, n);
    if p == s[j] {
        if p > 0 {
            assert(!covered(s, b, p - 1)) by {
                if covered(s, b, p - 1) {
                    let t = choose|t: int| 0 <= t < b.len() && #[trigger] s[t] <= p - 1 < s[t] + b[t];
                    if t < j {
                        assert(s[t] + b[t] < s[j]);
                    } else if t > j {
                        assert(s[j] + b[j] < s[t]);
                    }
                }
            }
        }
    } else {
        lemma_placed_run(s, b, n, j, p - 1);
        assert(covered(s, b, p - 1));
    }
}

/// A block is no longer than the longest block.
proof fn lemma_max_block(b: Seq<usize>, j: int)
    requires
        0 <= j < b.len(),
    ensures
        b[j] <= max_block(b),
    decreases b.len(),
{
    if j < b.len() - 1 {
        lemma_max_block(b.drop_last(), j);
    }
}

/// Filled runs of a line that a placement refines are within its runs.
proof fn lemma_run_mono(x: Seq<Cell>, y: Seq<Cell>, i: int)
    requires
        x.len() == y.len(),
        forall|t: int| 0 <= t < x.len() && x[t] == Cell::Filled ==> y[t] == Cell::Filled,
    ensures
        filled_run_before(x, i) <= filled_run_before(y, i),
    decreases i,
{
    if i > 0 && i <= x.len() && x[i - 1] == Cell::Filled {
        lemma_run_mono(x, y, i - 1);
    }
}

/// The quick checks pass on a line that allows a placement.
pub proof fn lemma_checks_sound(line: Seq<Cell>, b: Seq<usize>, s: Seq<int>)
    requires
        placement_ok(s, b, line.len() as int),
        refines(placed_line(s, b, line.len() as int), line),
        b.len() > 0,
    ensures
        checks_pass(line, b),
{
    let n = line.len() as int;
    let pl = placed_line(s, b, n);
    lemma_min_space(s, b, n);
    lemma_placed_filled(s, b, n);
    lemma_count_mono(line, pl, Cell::Filled);
    assert forall|i: int| 0 <= i < n && pl[i] == Cell::Filled implies line[i] == Cell::Filled || line[i]
        == Cell::Unknown by {}
    lemma_count_two(line, pl);
    assert forall|i: int| 0 <= i <= n implies filled_run_before(line, i) <= max_block(b) by {
        lemma_run_mono(line, pl, i);
        if i > 0 && pl[i - 1] == Cell::Filled {
            assert(covered(s, b, i - 1));
            let j = choose|j: int| 0 <= j < b.len() && #[trigger] s[j] <= i - 1 < s[j] + b[j];
            lemma_placed_run(s, b, n, j, i);
            lemma_max_block(b, j);
        }
    }
}

/// `segs` are the segments of `line` from cell `i` on: ordered, bounded by
/// blank cells or the ends of the line, free of blank cells, and covering
/// every cell from `i` on that is not blank.
spec fn seg_structure(line: Seq<Cell>, segs: Seq<(int, int)>, i: int) -> bool {
    &&& forall|m: int| 0 <= m < segs.len() ==> i <= (#[trigger] segs[m]).0 < segs[m].1 <= line.len()
    &&& forall|m: int, c: int|
        #![trigger segs[m], line[c]]
        0 <= m < segs.len() && segs[m].0 <= c < segs[m].1 ==> line[c] != Cell::Blank
    &&& forall|m: int| 0 <= m < segs.len() ==> (#[trigger] segs[m]).1 == line.len() || line[segs[m].1] == Cell::Blank
    &&& forall|m1: int, m2: int| 0 <= m1 < m2 < segs.len() ==> (#[trigger] segs[m1]).1 < (#[trigger] segs[m2]).0
    &&& forall|c: int|
        i <= c < line.len() && line[c] != Cell::Blank ==> exists|m: int|
            0 <= m < segs.len() && #[trigger] segs[m].0 <= c < segs[m].1
}

/// The cells from `i` to `run_end` are not blank, and `run_end` is blank or
/// the end of the line.
proof fn lemma_run_end_props(line: Seq<Cell>, i: int)
    requires
        0 <= i <= line.len(),
    ensures
        i <= run_end(line, i) <= line.len(),
        forall|c: int| i <= c < run_end(line, i) ==> line[c] != Cell::Blank,
        run_end(line, i) == line.len() || line[run_end(line, i)] == Cell::Blank,
    decreases line.len() - i,
{
    if i < line.len() && line[i] != Cell::Blank {
        lemma_run_end_props(line, i + 1);
    }
}

/// The segments of a line have the structure `seg_structure` describes.
proof fn lemma_segments(line: Seq<Cell>, i: int)
    requires
        0 <= i <= line.len(),
    ensures
        seg_structure(line, segments_from(line, i), i),
    decreases line.len() - i,
{
    let n = line.len() as int;
    if i < n {
        if line[i] == Cell::Blank {
            lemma_segments(line, i + 1);
        } else {
            let r = run_end(line, i);
            lemma_run_end_props(line, i);
            lemma_run_end_bounds(line, i);
            lemma_segments(line, r);
            let tail = segments_from(line, r);
            let segs = segments_from(line, i);
            assert(segs == seq![(i, r)].add(tail));
            if r < n {
                assert(tail == segments_from(line, r + 1));
                lemma_segments(line, r + 1);
            }
            assert forall|m: int| 0 <= m < segs.len() implies i <= (#[trigger] segs[m]).0 < segs[m].1 <= n by {
                if m > 0 {
                    assert(segs[m] == tail[m - 1]);
                }
            }
            assert forall|m: int, c: int|
                #![trigger segs[m], line[c]]
                0 <= m < segs.len() && segs[m].0 <= c < segs[m].1 implies line[c] != Cell::Blank by {
                if m > 0 {
                    assert(segs[m] == tail[m - 1]);
                }
            }
            assert forall|m: int| 0 <= m < segs.len() implies (#[trigger] segs[m]).1 == n || line[segs[m].1]
                == Cell::Blank by {
                if m > 0 {
                    assert(segs[m] == tail[m - 1]);
                }
            }
            assert forall|m1: int, m2: int| 0 <= m1 < m2 < segs.len() implies (#[trigger] segs[m1]).1 < (
            #[trigger] segs[m2]).0 by {
                assert(segs[m2] == tail[m2 - 1]);
                if m1 > 0 {
                    assert(segs[m1] == tail[m1 - 1]);
                } else {
                    if r < n {
                        assert(tail[m2 - 1].0 >= r + 1);
                    }
                }
            }
            assert forall|c: int| i <= c < n && line[c] != Cell::Blank implies exists|m: int|
                0 <= m < segs.len() && #[trigger] segs[m].0 <= c < segs[m].1 by {
                if c < r {
                    assert(segs[0].0 <= c < segs[0].1);
                } else {
                    assert(c > r || r == n);
                    let m = choose|m: int| 0 <= m < tail.len() && #[trigger] tail[m].0 <= c < tail[m].1;
                    assert(segs[m + 1] == tail[m]);
                }
            }
        }
    }
}

/// The segment that holds the start of block `j`.
spec fn block_seg(segs: Seq<(int, int)>, s: Seq<int>, j: int) -> int {
    choose|m: int| 0 <= m < segs.len() && #[trigger] segs[m].0 <= s[j] < segs[m].1
}

/// Each block of a placement the line allows lies in one segment, and later
/// blocks lie in the same or later segments.
proof fn lemma_block_seg(line: Seq<Cell>, b: Seq<usize>, s: Seq<int>, segs: Seq<(int, int)>, j: int)
    requires
        placement_ok(s, b, line.len() as int),
        refines(placed_line(s, b, line.len() as int), line),
        seg_structure(line, segs, 0),
        0 <= j < b.len(),
    ensures
        0 <= block_seg(segs, s, j) < segs.len(),
        segs[block_seg(segs, s, j)].0 <= s[j],
        s[j] + b[j] <= segs[block_seg(segs, s, j)].1,
        forall|j2: int| 0 <= j2 < j ==> block_seg(segs, s, j2) <= block_seg(segs, s, j),
{
    let n = line.len() as int;
    lemma_block_can_place(line, b, s, j);
    assert(line[s[j]] != Cell::Blank);
    let m = block_seg(segs, s, j);
    assert(0 <= m < segs.len() && segs[m].0 <= s[j] < segs[m].1);
    if s[j] + b[j] > segs[m].1 {
        let c = segs[m].1;
        assert(line[c] != Cell::Blank);
    }
    assert forall|j2: int| 0 <= j2 < j implies block_seg(segs, s, j2) <= block_seg(segs, s, j) by {
        lemma_block_can_place(line, b, s, j2);
        assert(line[s[j2]] != Cell::Blank);
        let m2 = block_seg(segs, s, j2);
        assert(0 <= m2 < segs.len() && segs[m2].0 <= s[j2] < segs[m2].1);
        assert(s[j2] + b[j2] < s[j]);
        if m2 > m {
            assert(segs[m].1 < segs[m2].0);
        }
    }
}

/// Sum of the block lengths over a range grows by the next block.
proof fn lemma_sum_range_next(b: Seq<usize>, from: int, i: int)
    requires
        0 <= from <= i < b.len(),
    ensures
        sum_blocks(b.subrange(from, i + 1)) == sum_blocks(b.subrange(from, i)) + b[i],
{
    assert(b.subrange(from, i + 1).drop_last() =~= b.subrange(from, i));
}

/// Blocks `t` to `u` of a placement span at least their lengths and gaps.
proof fn lemma_span(s: Seq<int>, b: Seq<usize>, n: int, t: int, u: int)
    requires
        placement_ok(s, b, n),
        0 <= t <= u < b.len(),
    ensures
        s[u] >= s[t] + sum_blocks(b.subrange(t, u)) + (u - t),
    decreases u - t,
{
    if u == t {
        assert(b.subrange(t, t) =~= Seq::<usize>::empty());
    } else {
        lemma_span(s, b, n, t, u - 1);
        lemma_sum_range_next(b, t, u - 1);
        assert(s[u - 1] + b[u - 1] < s[u]);
    }
}

/// Blocks `t` to `u`, all in segment `m`, fit in it.
proof fn lemma_blocks_fit(line: Seq<Cell>, b: Seq<usize>, s: Seq<int>, segs: Seq<(int, int)>, t: int, u: int, m: int)
    requires
        placement_ok(s, b, line.len() as int),
        refines(placed_line(s, b, line.len() as int), line),
        seg_structure(line, segs, 0),
        0 <= t <= u < b.len(),
        block_seg(segs, s, t) == m,
        block_seg(segs, s, u) == m,
    ensures
        fits_spec(seg_len(segs[m]), b.subrange(t, u + 1)),
{
    lemma_block_seg(line, b, s, segs, t);
    lemma_block_seg(line, b, s, segs, u);
    lemma_span(s, b, line.len() as int, t, u);
    lemma_sum_range_next(b, t, u);
}

/// Starting with block `j` alone at segment `idx`, the greedy reaches a
/// segment no later than `target`, where block `j` fits.
proof fn lemma_adv_earliest_single(segs: Seq<(int, int)>, b: Seq<usize>, j: int, idx: int, target: int)
    requires
        0 <= idx <= target < segs.len(),
        0 <= j < b.len(),
        fits_spec(seg_len(segs[target]), b.subrange(j, j + 1)),
    ensures
        advance_earliest(segs, b, j, idx, j) matches Some((i2, s2)) && idx <= i2 <= target && s2 == j,
    decreases target - idx,
{
    if !fits_spec(seg_len(segs[idx]), b.subrange(j, j + 1)) {
        lemma_adv_earliest_single(segs, b, j, idx + 1, target);
    }
}

/// The greedy leftmost segments of the first `j` blocks exist and are no
/// later than the placement's.
proof fn lemma_earliest_segs_below(line: Seq<Cell>, b: Seq<usize>, s: Seq<int>, segs: Seq<(int, int)>, j: int)
    requires
        placement_ok(s, b, line.len() as int),
        refines(placed_line(s, b, line.len() as int), line),
        seg_structure(line, segs, 0),
        0 <= j <= b.len(),
    ensures
        earliest_segs(segs, b, j) matches Some((lst, idx, ss)) && {
            &&& lst.len() == j
            &&& 0 <= ss <= j
            &&& j == 0 ==> idx == 0 && ss == 0
            &&& j > 0 ==> ss < j && idx == lst[j - 1]
            &&& forall|t: int| ss <= t < j ==> #[trigger] lst[t] == idx
            &&& forall|t: int| 0 <= t < j ==> 0 <= #[trigger] lst[t] <= block_seg(segs, s, t)
        },
    decreases j,
{
    if j > 0 {
        let jj = j - 1;
        lemma_earliest_segs_below(line, b, s, segs, jj);
        let (lst, idx, ss) = earliest_segs(segs, b, jj).unwrap();
        lemma_block_seg(line, b, s, segs, jj);
        let sig = block_seg(segs, s, jj);
        if jj > 0 {
            assert(lst[jj - 1] <= block_seg(segs, s, jj - 1));
        }
        assert(idx <= sig);
        if fits_spec(seg_len(segs[idx]), b.subrange(ss, jj + 1)) {
            let lst2 = lst.push(idx);
            assert(forall|t: int| 0 <= t < jj ==> lst2[t] == lst[t]);
        } else {
            if sig == idx {
                assert forall|t: int| ss <= t <= jj implies block_seg(segs, s, t) == idx by {
                    if t < jj {
                        assert(lst[t] == idx);
                        assert(lst[t] <= block_seg(segs, s, t));
                        lemma_block_seg(line, b, s, segs, jj);
                    }
                }
                lemma_blocks_fit(line, b, s, segs, ss, jj, idx);
            }
            lemma_blocks_fit(line, b, s, segs, jj, jj, sig);
            lemma_adv_earliest_single(segs, b, jj, idx + 1, sig);
            let (i2, s2) = advance_earliest(segs, b, jj, idx + 1, jj).unwrap();
            let lst2 = lst.push(i2);
            assert(forall|t: int| 0 <= t < jj ==> lst2[t] == lst[t]);
        }
    }
}

/// Starting with block `j` alone at segment `idx`, the greedy reaches a
/// segment no earlier than `target`, where block `j` fits.
proof fn lemma_adv_latest_single(segs: Seq<(int, int)>, b: Seq<usize>, j: int, idx: int, target: int)
    requires
        0 <= target <= idx < segs.len(),
        0 <= j < b.len(),
        fits_spec(seg_len(segs[target]), b.subrange(j, j + 1)),
    ensures
        advance_latest(segs, b, j, idx, j) matches Some((i2, s2)) && target <= i2 <= idx && s2 == j,
    decreases idx - target,
{
    if !fits_spec(seg_len(segs[idx]), b.subrange(j, j + 1)) {
        lemma_adv_latest_single(segs, b, j, idx - 1, target);
    }
}

/// The greedy rightmost segments of the last `m` blocks exist and are no
/// earlier than the placement's.
proof fn lemma_latest_segs_above(line: Seq<Cell>, b: Seq<usize>, s: Seq<int>, segs: Seq<(int, int)>, m: int)
    requires
        placement_ok(s, b, line.len() as int),
        refines(placed_line(s, b, line.len() as int), line),
        seg_structure(line, segs, 0),
        segs.len() > 0,
        0 <= m <= b.len(),
    ensures
        latest_segs(segs, b, m) matches Some((lst, idx, se)) && {
            &&& lst.len() == m
            &&& m == 0 ==> idx == segs.len() - 1 && se == b.len() - 1
            &&& m > 0 ==> idx == lst[0] && b.len() - m <= se < b.len()
            &&& m > 0 ==> forall|t: int| b.len() - m <= t <= se ==> #[trigger] lst[t - (b.len() - m)] == idx
            &&& forall|t: int| 0 <= t < m ==> segs.len() > #[trigger] lst[t] >= block_seg(segs, s, b.len() - m + t)
        },
    decreases m,
{
    let k = b.len() as int;
    if m > 0 {
        let j = k - m;
        lemma_latest_segs_above(line, b, s, segs, m - 1);
        let (lst, idx, se) = latest_segs(segs, b, m - 1).unwrap();
        lemma_block_seg(line, b, s, segs, j);
        let sig = block_seg(segs, s, j);
        if m > 1 {
            lemma_block_seg(line, b, s, segs, j + 1);
            assert(lst[0] >= block_seg(segs, s, j + 1));
        }
        assert(sig <= idx);
        if fits_spec(seg_len(segs[idx]), b.subrange(j, se + 1)) {
            let lst2 = seq![idx].add(lst);
            assert forall|t: int| j <= t <= se implies #[trigger] lst2[t - j] == idx by {
                if t > j {
                    assert(m > 1);
                    assert(lst2[t - j] == lst[t - j - 1]);
                    assert(lst[t - (k - (m - 1))] == idx);
                }
            }
            assert forall|t: int| 0 <= t < m implies segs.len() > #[trigger] lst2[t] >= block_seg(segs, s, k - m + t) by {
                if t > 0 {
                    assert(lst2[t] == lst[t - 1]);
                }
            }
        } else {
            if sig == idx {
                assert forall|t: int| j <= t <= se implies block_seg(segs, s, t) == idx by {
                    if t > j {
                        assert(lst[t - (k - m + 1)] == idx);
                        assert(lst[t - (k - m + 1)] >= block_seg(segs, s, t));
                        lemma_block_seg(line, b, s, segs, t);
                    }
                }
                lemma_blocks_fit(line, b, s, segs, j, se, idx);
            }
            lemma_blocks_fit(line, b, s, segs, j, j, sig);
            lemma_adv_latest_single(segs, b, j, idx - 1, sig);
            let (i2, s2) = advance_latest(segs, b, j, idx - 1, j).unwrap();
            let lst2 = seq![i2].add(lst);
            assert forall|t: int| 0 <= t < m implies segs.len() > #[trigger] lst2[t] >= block_seg(segs, s, k - m + t) by {
                if t > 0 {
                    assert(lst2[t] == lst[t - 1]);
                }
            }
        }
    }
}

/// A cell lies in at most one segment.
proof fn lemma_seg_unique(line: Seq<Cell>, segs: Seq<(int, int)>, m1: int, m2: int, c: int)
    requires
        seg_structure(line, segs, 0),
        0 <= m1 < segs.len(),
        0 <= m2 < segs.len(),
        segs[m1].0 <= c < segs[m1].1,
        segs[m2].0 <= c < segs[m2].1,
    ensures
        m1 == m2,
{
    if m1 < m2 {
        assert(segs[m1].1 < segs[m2].0);
    } else if m2 < m1 {
        assert(segs[m2].1 < segs[m1].0);
    }
}

/// The segment phase keeps every placement the line allows.
pub proof fn lemma_seg_sound(line: Seq<Cell>, b: Seq<usize>, s: Seq<int>)
    requires
        placement_ok(s, b, line.len() as int),
        refines(placed_line(s, b, line.len() as int), line),
        b.len() > 0,
    ensures
        seg_phase_ok(line, b),
        refines(placed_line(s, b, line.len() as int), seg_phase_line(line, b)),
{
    let n = line.len() as int;
    let k = b.len() as int;
    let pl = placed_line(s, b, n);
    let segs = segments_from(line, 0);
    lemma_segments(line, 0);
    lemma_block_can_place(line, b, s, 0);
    assert(line[s[0]] != Cell::Blank);
    assert(segs.len() > 0);
    lemma_earliest_segs_below(line, b, s, segs, k);
    lemma_latest_segs_above(line, b, s, segs, k);
    let e = earliest_segs(segs, b, k).unwrap().0;
    let l = latest_segs(segs, b, k).unwrap().0;
    // a covered cell lies in the segment of its block, which some block uses
    assert forall|i: int| 0 <= i < n && covered(s, b, i) implies !in_unused_segment(segs, e, l, i) by {
        let j = choose|j: int| 0 <= j < b.len() && #[trigger] s[j] <= i < s[j] + b[j];
        lemma_block_seg(line, b, s, segs, j);
        let sig = block_seg(segs, s, j);
        assert(e[j] <= sig);
        assert(l[k - k + j] >= block_seg(segs, s, k - k + j));
        if in_unused_segment(segs, e, l, i) {
            let mm = choose|mm: int| 0 <= mm < segs.len() && seg_unused(e, l, mm) && #[trigger] segs[mm].0 <= i
                < segs[mm].1;
            lemma_seg_unique(line, segs, mm, sig, i);
            assert(e[j] <= mm && mm <= l[j]);
        }
    }
    assert forall|i: int| 0 <= i < n && line[i] == Cell::Filled implies !in_unused_segment(segs, e, l, i) by {
        assert(pl[i] == Cell::Filled);
    }
    assert forall|i: int| 0 <= i < n && seg_phase_line(line, b)[i] != Cell::Unknown implies pl[i] == seg_phase_line(
        line,
        b,
    )[i] by {
        if line[i] == Cell::Unknown && in_unused_segment(segs, e, l, i) {
            assert(!covered(s, b, i));
        }
    }
}

/// The line solver keeps every placement of the clue that the line allows:
/// it reports no contradiction, and every cell it decides has the value the
/// placement gives it.
pub proof fn lemma_solve_line_keeps_placements(line: Seq<Cell>, b: Seq<usize>, s: Seq<int>)
    requires
        placement_ok(s, b, line.len() as int),
        refines(placed_line(s, b, line.len() as int), line),
    ensures
        solve_line_spec(line, b) matches Some(out) && refines(placed_line(s, b, line.len() as int), out),
{
    reveal(solve_line_spec);
    let n = line.len() as int;
    let pl = placed_line(s, b, n);
    if b.len() == 0 {
        lemma_placed_filled(s, b, n);
        lemma_count_mono(line, pl, Cell::Filled);
        assert(b =~= Seq::<usize>::empty());
        assert(count_cell(line, Cell::Filled) == 0);
        assert forall|i: int| 0 <= i < n && all_blank(line)[i] != Cell::Unknown implies pl[i] == all_blank(line)[i] by {
            assert(!covered(s, b, i));
        }
    } else {
        lemma_checks_sound(line, b, s);
        lemma_seg_sound(line, b, s);
        let l1 = seg_phase_line(line, b);
        lemma_el_sound(l1, b, s);
        let l2 = el_line(l1, b);
        lemma_dp_sound(l2, b, s);
    }
}

/// The runs of the cells from `p` on, after `c` filled cells that start a
/// run at `p - c`, are the blocks of a placement on those cells: it covers
/// exactly their filled cells, and when `c > 0` its first block starts at
/// `p - c`.
proof fn lemma_suffix_placement(line: Seq<Cell>, p: int, c: int) -> (s: Seq<int>)
    requires
        forall|i: int| 0 <= i < line.len() ==> line[i] != Cell::Unknown,
        line.len() <= usize::MAX,
        0 <= c <= p <= line.len(),
        forall|i: int| p - c <= i < p ==> line[i] == Cell::Filled,
        p - c == 0 || line[p - c - 1] != Cell::Filled,
    ensures
        ({
            let r = runs_after(line.skip(p), c as nat);
            &&& placement_ok(s, r, line.len() as int)
            &&& forall|t: int| 0 <= t < s.len() ==> #[trigger] s[t] >= p - c
            &&& c > 0 ==> s.len() > 0 && s[0] == p - c
            &&& forall|i: int| p - c <= i < line.len() ==> (line[i] == Cell::Filled <==> covered(s, r, i))
        }),
    decreases line.len() - p,
{
    let n = line.len() as int;
    let r = runs_after(line.skip(p), c as nat);
    if p == n {
        assert(line.skip(p) =~= Seq::<Cell>::empty());
        if c > 0 {
            let s = seq![p - c];
            assert(r == seq![c as usize]);
            assert forall|i: int| p - c <= i < n implies (line[i] == Cell::Filled <==> covered(s, r, i)) by {
                assert(s[0] <= i < s[0] + r[0]);
            }
            s
        } else {
            let s = Seq::<int>::empty();
            assert(r.len() == 0);
            s
        }
    } else {
        let tail = line.skip(p);
        assert(tail[0] == line[p]);
        assert(tail.drop_first() =~= line.skip(p + 1));
        if line[p] == Cell::Filled {
            lemma_suffix_placement(line, p + 1, c + 1)
        } else {
            let s1 = lemma_suffix_placement(line, p + 1, 0);
            let r1 = runs_after(line.skip(p + 1), 0);
            if c > 0 {
                let s = seq![p - c].add(s1);
                assert(r == seq![c as usize].add(r1));
                assert forall|j1: int, j2: int| 0 <= j1 < j2 < r.len() implies #[trigger] s[j1] + r[j1] < #[trigger] s[j2] by {
                    if j1 > 0 {
                        assert(s1[j1 - 1] + r1[j1 - 1] < s1[j2 - 1]);
                    } else {
                        assert(s[j2] == s1[j2 - 1]);
                        assert(s1[j2 - 1] >= p + 1);
                    }
                }
                assert forall|j: int| 0 <= j < r.len() implies 0 <= #[trigger] s[j] && s[j] + r[j] <= n && r[j] >= 1 by {
                    if j > 0 {
                        assert(s[j] == s1[j - 1]);
                        assert(r[j] == r1[j - 1]);
                    }
                }
                assert forall|i: int| p - c <= i < n implies (line[i] == Cell::Filled <==> covered(s, r, i)) by {
                    if i < p {
                        assert(s[0] <= i < s[0] + r[0]);
                    } else {
                        if covered(s, r, i) {
                            let j = choose|j: int| 0 <= j < r.len() && #[trigger] s[j] <= i < s[j] + r[j];
                            if j > 0 {
                                assert(s1[j - 1] <= i < s1[j - 1] + r1[j - 1]);
                                assert(covered(s1, r1, i));
                            }
                        }
                        if i > p && covered(s1, r1, i) {
                            let j = choose|j: int| 0 <= j < r1.len() && #[trigger] s1[j] <= i < s1[j] + r1[j];
                            assert(s[j + 1] <= i < s[j + 1] + r[j + 1]);
                        }
                        if i == p && covered(s1, r1, i) {
                            let j = choose|j: int| 0 <= j < r1.len() && #[trigger] s1[j] <= i < s1[j] + r1[j];
                        }
                    }
                }
                s
            } else {
                assert(r == r1);
                assert forall|i: int| p <= i < n implies (line[i] == Cell::Filled <==> covered(s1, r1, i)) by {
                    if i == p && covered(s1, r1, i) {
                        let j = choose|j: int| 0 <= j < r1.len() && #[trigger] s1[j] <= i < s1[j] + r1[j];
                    }
                }
                s1
            }
        }
    }
}

/// A solved line is the line of a placement of its own runs.
pub proof fn lemma_runs_placement(line: Seq<Cell>) -> (s: Seq<int>)
    requires
        forall|i: int| 0 <= i < line.len() ==> line[i] != Cell::Unknown,
        line.len() <= usize::MAX,
    ensures
        placement_ok(s, runs(line), line.len() as int),
        placed_line(s, runs(line), line.len() as int) == line,
{
    let s = lemma_suffix_placement(line, 0, 0);
    assert(line.skip(0) =~= line);
    let pl = placed_line(s, runs(line), line.len() as int);
    assert forall|i: int| 0 <= i < line.len() implies pl[i] == line[i] by {}
    assert(pl =~= line);
    s
}

/// Block `j` of `b`, placed at the `m`-th start of `t` (counting from block
/// `j0`), covers cell `c`.
spec fn covers_from(t: Seq<int>, b: Seq<usize>, j0: int, c: int) -> bool {
    exists|m: int| 0 <= m < t.len() && #[trigger] t[m] <= c < t[m] + b[j0 + m]
}

/// `t` places blocks `j0..j0 + t.len()` of `b`, in order with gaps, on
/// cells `lo..hi` of `line`, filling every filled cell there and no blank one.
spec fn part_ok(line: Seq<Cell>, b: Seq<usize>, t: Seq<int>, j0: int, lo: int, hi: int) -> bool {
    &&& 0 <= j0
    &&& j0 + t.len() <= b.len()
    &&& forall|m: int| 0 <= m < t.len() ==> lo <= #[trigger] t[m] && t[m] + b[j0 + m] <= hi
    &&& forall|m1: int, m2: int| 0 <= m1 < m2 < t.len() ==> #[trigger] t[m1] + b[j0 + m1] < #[trigger] t[m2]
    &&& forall|c: int|
        lo <= c < hi ==> (line[c] == Cell::Filled ==> covers_from(t, b, j0, c)) && (line[c] == Cell::Blank
            ==> !covers_from(t, b, j0, c))
}

/// The forward table reaching `(p, q)` gives a placement of the first `q`
/// blocks on the cells before `p`, each followed by a gap before `p` unless
/// the last one ends the line.
proof fn lemma_fwd_placement(line: Seq<Cell>, b: Seq<usize>, p: int, q: int) -> (s: Seq<int>)
    requires
        reach_fwd(line, b, p, q),
        forall|j: int| 0 <= j < b.len() ==> #[trigger] b[j] >= 1,
        0 <= q <= b.len(),
    ensures
        s.len() == q,
        0 <= p <= line.len(),
        part_ok(line, b, s, 0, 0, p),
        q > 0 ==> s[q - 1] + b[q - 1] < p || (p == line.len() && s[q - 1] + b[q - 1] == p),
    decreases p,
{
    let n = line.len() as int;
    if p <= 0 {
        Seq::empty()
    } else if line[p - 1] != Cell::Filled && reach_fwd(line, b, p - 1, q) {
        let s = lemma_fwd_placement(line, b, p - 1, q);
        assert forall|c: int| 0 <= c < p implies (line[c] == Cell::Filled ==> covers_from(s, b, 0, c)) && (line[c]
            == Cell::Blank ==> !covers_from(s, b, 0, c)) by {
            if c == p - 1 && covers_from(s, b, 0, c) {
                let m = choose|m: int| 0 <= m < s.len() && #[trigger] s[m] <= c < s[m] + b[0 + m];
                if m < q - 1 {
                    assert(s[m] + b[m] < s[q - 1]);
                }
            }
        }
        s
    } else if 0 < q <= b.len() && p - b[q - 1] - 1 >= 0 && can_place(line, p - b[q - 1] - 1, b[q - 1] as int)
        && reach_fwd(line, b, p - b[q - 1] - 1, q - 1) {
        let st = p - b[q - 1] - 1;
        let s0 = lemma_fwd_placement(line, b, st, q - 1);
        let s = s0.push(st);
        assert forall|m1: int, m2: int| 0 <= m1 < m2 < s.len() implies #[trigger] s[m1] + b[0 + m1] < #[trigger] s[m2] by {
            if m2 < q - 1 {
                assert(s[m1] == s0[m1] && s[m2] == s0[m2]);
            } else {
                assert(s[m1] == s0[m1]);
                if m1 < q - 2 {
                    assert(s0[m1] + b[m1] < s0[q - 2]);
                }
            }
        }
        assert forall|c: int| 0 <= c < p implies (line[c] == Cell::Filled ==> covers_from(s, b, 0, c)) && (line[c]
            == Cell::Blank ==> !covers_from(s, b, 0, c)) by {
            if c < st {
                if covers_from(s0, b, 0, c) {
                    let m = choose|m: int| 0 <= m < s0.len() && #[trigger] s0[m] <= c < s0[m] + b[0 + m];
                    assert(s[m] == s0[m]);
                }
                if covers_from(s, b, 0, c) {
                    let m = choose|m: int| 0 <= m < s.len() && #[trigger] s[m] <= c < s[m] + b[0 + m];
                    if m < q - 1 {
                        assert(s[m] == s0[m]);
                    }
                }
            } else if c < p - 1 {
                assert(s[q - 1] <= c < s[q - 1] + b[q - 1]);
            } else {
                if covers_from(s, b, 0, c) {
                    let m = choose|m: int| 0 <= m < s.len() && #[trigger] s[m] <= c < s[m] + b[0 + m];
                    if m < q - 1 {
                        assert(s[m] == s0[m]);
                        if m < q - 2 {
                            assert(s0[m] + b[m] < s0[q - 2]);
                        }
                    }
                }
            }
        }
        s
    } else {
        let st = p - b[q - 1];
        let s0 = lemma_fwd_placement(line, b, st, q - 1);
        let s = s0.push(st);
        assert(p == n);
        assert forall|m1: int, m2: int| 0 <= m1 < m2 < s.len() implies #[trigger] s[m1] + b[0 + m1] < #[trigger] s[m2] by {
            if m2 < q - 1 {
                assert(s[m1] == s0[m1] && s[m2] == s0[m2]);
            } else {
                assert(s[m1] == s0[m1]);
                if m1 < q - 2 {
                    assert(s0[m1] + b[m1] < s0[q - 2]);
                }
            }
        }
        assert forall|c: int| 0 <= c < p implies (line[c] == Cell::Filled ==> covers_from(s, b, 0, c)) && (line[c]
            == Cell::Blank ==> !covers_from(s, b, 0, c)) by {
            if c < st {
                if covers_from(s0, b, 0, c) {
                    let m = choose|m: int| 0 <= m < s0.len() && #[trigger] s0[m] <= c < s0[m] + b[0 + m];
                    assert(s[m] == s0[m]);
                }
                if covers_from(s, b, 0, c) {
                    let m = choose|m: int| 0 <= m < s.len() && #[trigger] s[m] <= c < s[m] + b[0 + m];
                    if m < q - 1 {
                        assert(s[m] == s0[m]);
                    }
                }
            } else {
                assert(s[q - 1] <= c < s[q - 1] + b[q - 1]);
            }
        }
        s
    }
}

/// The backward table reaching `(i, j)` gives a placement of blocks `j..` on
/// the cells from `i` on.
proof fn lemma_bwd_placement(line: Seq<Cell>, b: Seq<usize>, i: int, j: int) -> (t: Seq<int>)
    requires
        reach_bwd(line, b, i, j),
        forall|jj: int| 0 <= jj < b.len() ==> #[trigger] b[jj] >= 1,
        0 <= j <= b.len(),
        0 <= i,
    ensures
        t.len() == b.len() - j,
        i <= line.len(),
        part_ok(line, b, t, j, i, line.len() as int),
    decreases line.len() - i,
{
    let n = line.len() as int;
    if i >= n {
        Seq::empty()
    } else if line[i] != Cell::Filled && reach_bwd(line, b, i + 1, j) {
        let t = lemma_bwd_placement(line, b, i + 1, j);
        assert forall|c: int| i <= c < n implies (line[c] == Cell::Filled ==> covers_from(t, b, j, c)) && (line[c]
            == Cell::Blank ==> !covers_from(t, b, j, c)) by {
            if c == i && covers_from(t, b, j, c) {
                let m = choose|m: int| 0 <= m < t.len() && #[trigger] t[m] <= c < t[m] + b[j + m];
            }
        }
        t
    } else {
        let nx = next_after(n, i, b[j] as int);
        let t0 = lemma_bwd_placement(line, b, nx, j + 1);
        lemma_bwd_prepend(line, b, i, j, t0)
    }
}

/// Block `j` placed at `i`, followed by a placement of the later blocks after
/// its gap, places blocks `j..` on the cells from `i` on.
proof fn lemma_bwd_prepend(line: Seq<Cell>, b: Seq<usize>, i: int, j: int, t0: Seq<int>) -> (t: Seq<int>)
    requires
        forall|jj: int| 0 <= jj < b.len() ==> #[trigger] b[jj] >= 1,
        0 <= j < b.len(),
        can_place(line, i, b[j] as int),
        t0.len() == b.len() - j - 1,
        part_ok(line, b, t0, j + 1, next_after(line.len() as int, i, b[j] as int), line.len() as int),
    ensures
        t == seq![i].add(t0),
        t.len() == b.len() - j,
        part_ok(line, b, t, j, i, line.len() as int),
{
    let n = line.len() as int;
    let nx = next_after(n, i, b[j] as int);
    let t = seq![i].add(t0);
    assert forall|m: int| 0 <= m < t.len() implies i <= #[trigger] t[m] && t[m] + b[j + m] <= n by {
        if m > 0 {
            assert(t[m] == t0[m - 1]);
        }
    }
    assert forall|m1: int, m2: int| 0 <= m1 < m2 < t.len() implies #[trigger] t[m1] + b[j + m1] < #[trigger] t[m2] by {
        assert(t[m2] == t0[m2 - 1]);
        if m1 > 0 {
            assert(t[m1] == t0[m1 - 1]);
        } else {
            assert(t0[m2 - 1] >= nx);
            if i + b[j] == n {
                assert(t0.len() == 0);
            }
        }
    }
    assert forall|c: int| i <= c < n implies (line[c] == Cell::Filled ==> covers_from(t, b, j, c)) && (line[c]
        == Cell::Blank ==> !covers_from(t, b, j, c)) by {
        if c < i + b[j] {
            assert(t[0] <= c < t[0] + b[j + 0]);
        } else if c >= nx {
            if covers_from(t0, b, j + 1, c) {
                let m = choose|m: int| 0 <= m < t0.len() && #[trigger] t0[m] <= c < t0[m] + b[j + 1 + m];
                assert(t[m + 1] == t0[m]);
            }
            if covers_from(t, b, j, c) {
                let m = choose|m: int| 0 <= m < t.len() && #[trigger] t[m] <= c < t[m] + b[j + m];
                if m > 0 {
                    assert(t[m] == t0[m - 1]);
                }
            }
        } else {
            if covers_from(t, b, j, c) {
                let m = choose|m: int| 0 <= m < t.len() && #[trigger] t[m] <= c < t[m] + b[j + m];
                if m > 0 {
                    assert(t[m] == t0[m - 1]);
                    assert(t0[m - 1] >= nx);
                }
            }
        }
    }
    t
}

/// A cell lies in a block of two placements put side by side exactly when it
/// lies in a block of one of them.
proof fn lemma_covers_concat(s: Seq<int>, t: Seq<int>, b: Seq<usize>, c: int)
    requires
        s.len() + t.len() <= b.len(),
    ensures
        covers_from(s.add(t), b, 0, c) <==> covers_from(s, b, 0, c) || covers_from(t, b, s.len() as int, c),
{
    let q = s.len() as int;
    let u = s.add(t);
    if covers_from(u, b, 0, c) {
        let m = choose|m: int| 0 <= m < u.len() && #[trigger] u[m] <= c < u[m] + b[0 + m];
        if m < q {
            assert(u[m] == s[m]);
            assert(s[m] <= c < s[m] + b[0 + m]);
        } else {
            assert(u[m] == t[m - q]);
            assert(t[m - q] <= c < t[m - q] + b[q + (m - q)]);
        }
    }
    if covers_from(s, b, 0, c) {
        let m = choose|m: int| 0 <= m < s.len() && #[trigger] s[m] <= c < s[m] + b[0 + m];
        assert(u[m] == s[m]);
    }
    if covers_from(t, b, q, c) {
        let m = choose|m: int| 0 <= m < t.len() && #[trigger] t[m] <= c < t[m] + b[q + m];
        assert(u[q + m] == t[m]);
        assert(u[q + m] <= c < u[q + m] + b[0 + (q + m)]);
    }
}

/// A placement of the first `q` blocks on the cells before `p` and of the
/// others on the cells from `i0` on, with no filled cell in between, places
/// all the blocks on the line.
proof fn lemma_join(line: Seq<Cell>, b: Seq<usize>, s: Seq<int>, t: Seq<int>, p: int, i0: int) -> (u: Seq<int>)
    requires
        forall|jj: int| 0 <= jj < b.len() ==> #[trigger] b[jj] >= 1,
        s.len() + t.len() == b.len(),
        0 <= p <= i0 <= line.len(),
        part_ok(line, b, s, 0, 0, p),
        part_ok(line, b, t, s.len() as int, i0, line.len() as int),
        forall|c: int| p <= c < i0 ==> line[c] != Cell::Filled,
        s.len() > 0 && t.len() > 0 ==> s[s.len() - 1] + b[s.len() - 1] < i0,
    ensures
        u == s.add(t),
        part_ok(line, b, u, 0, 0, line.len() as int),
        forall|c: int| p <= c < i0 ==> !covers_from(u, b, 0, c),
        forall|c: int| i0 <= c < line.len() ==> (covers_from(u, b, 0, c) <==> covers_from(t, b, s.len() as int, c)),
{
    let n = line.len() as int;
    let q = s.len() as int;
    let u = s.add(t);
    assert forall|m: int| 0 <= m < u.len() implies 0 <= #[trigger] u[m] && u[m] + b[0 + m] <= n by {
        if m < q {
            assert(u[m] == s[m]);
        } else {
            assert(u[m] == t[m - q]);
            assert(b[q + (m - q)] == b[m]);
        }
    }
    assert forall|m1: int, m2: int| 0 <= m1 < m2 < u.len() implies #[trigger] u[m1] + b[0 + m1] < #[trigger] u[m2] by {
        if m2 < q {
            assert(u[m1] == s[m1] && u[m2] == s[m2]);
        } else if m1 >= q {
            assert(u[m1] == t[m1 - q] && u[m2] == t[m2 - q]);
            assert(t[m1 - q] + b[q + (m1 - q)] < t[m2 - q]);
        } else {
            assert(u[m1] == s[m1] && u[m2] == t[m2 - q]);
            assert(t[m2 - q] >= i0);
            if m1 < q - 1 {
                assert(s[m1] + b[0 + m1] < s[q - 1]);
            }
        }
    }
    assert forall|c: int| 0 <= c < n implies {
        &&& c < p ==> (covers_from(u, b, 0, c) <==> covers_from(s, b, 0, c))
        &&& p <= c < i0 ==> !covers_from(u, b, 0, c)
        &&& i0 <= c ==> (covers_from(u, b, 0, c) <==> covers_from(t, b, q, c))
    } by {
        lemma_covers_concat(s, t, b, c);
        if covers_from(s, b, 0, c) {
            let m = choose|m: int| 0 <= m < s.len() && #[trigger] s[m] <= c < s[m] + b[0 + m];
        }
        if covers_from(t, b, q, c) {
            let m = choose|m: int| 0 <= m < t.len() && #[trigger] t[m] <= c < t[m] + b[q + m];
        }
    }
    assert forall|c: int| 0 <= c < n implies (line[c] == Cell::Filled ==> covers_from(u, b, 0, c)) && (line[c]
        == Cell::Blank ==> !covers_from(u, b, 0, c)) by {
        if c < p {
        } else if c < i0 {
        } else {
        }
    }
    u
}

/// A placement of all the blocks on the whole line that part_ok describes is
/// a placement the line allows, and its blocks cover the same cells.
proof fn lemma_part_full(line: Seq<Cell>, b: Seq<usize>, u: Seq<int>)
    requires
        forall|jj: int| 0 <= jj < b.len() ==> #[trigger] b[jj] >= 1,
        u.len() == b.len(),
        part_ok(line, b, u, 0, 0, line.len() as int),
    ensures
        line_allows(line, b, u),
        forall|c: int| #[trigger] covered(u, b, c) <==> covers_from(u, b, 0, c),
{
    let n = line.len() as int;
    assert forall|j: int| 0 <= j < b.len() implies 0 <= #[trigger] u[j] && u[j] + b[j] <= n && b[j] >= 1 by {
        assert(0 <= u[j] && u[j] + b[0 + j] <= n);
    }
    assert forall|j1: int, j2: int| 0 <= j1 < j2 < b.len() implies #[trigger] u[j1] + b[j1] < #[trigger] u[j2] by {
        assert(u[j1] + b[0 + j1] < u[j2]);
    }
    assert forall|c: int| #[trigger] covered(u, b, c) <==> covers_from(u, b, 0, c) by {
        if covered(u, b, c) {
            let j = choose|j: int| 0 <= j < b.len() && #[trigger] u[j] <= c < u[j] + b[j];
            assert(u[j] <= c < u[j] + b[0 + j]);
        }
        if covers_from(u, b, 0, c) {
            let m = choose|m: int| 0 <= m < u.len() && #[trigger] u[m] <= c < u[m] + b[0 + m];
            assert(u[m] <= c < u[m] + b[m]);
        }
    }
    let pl = placed_line(u, b, n);
    assert forall|c: int| 0 <= c < n && line[c] != Cell::Unknown implies pl[c] == line[c] by {
        assert(covered(u, b, c) <==> covers_from(u, b, 0, c));
    }
}

/// A path through both tables that fills cell `i` gives a placement the line
/// allows with cell `i` in a block.
proof fn lemma_fill_witness(line: Seq<Cell>, b: Seq<usize>, i: int, j: int, st: int) -> (u: Seq<int>)
    requires
        forall|jj: int| 0 <= jj < b.len() ==> #[trigger] b[jj] >= 1,
        fill_path(line, b, i, j, st),
    ensures
        line_allows(line, b, u),
        covered(u, b, i),
{
    let n = line.len() as int;
    let s0 = lemma_fwd_placement(line, b, st, j);
    let nx = next_after(n, st, b[j] as int);
    let t0 = lemma_bwd_placement(line, b, nx, j + 1);
    let t = lemma_bwd_prepend(line, b, st, j, t0);
    let u = lemma_join(line, b, s0, t, st, st);
    lemma_part_full(line, b, u);
    assert(t[0] <= i < t[0] + b[j + 0]);
    assert(covers_from(t, b, j, i));
    u
}

/// A path through both tables that passes over an undecided cell `i` as a
/// blank gives a placement the line allows with cell `i` outside every block.
proof fn lemma_blank_witness(line: Seq<Cell>, b: Seq<usize>, i: int, j: int) -> (u: Seq<int>)
    requires
        forall|jj: int| 0 <= jj < b.len() ==> #[trigger] b[jj] >= 1,
        0 <= i < line.len(),
        line[i] != Cell::Filled,
        blank_path(line, b, i, j),
    ensures
        line_allows(line, b, u),
        !covered(u, b, i),
{
    let s0 = lemma_fwd_placement(line, b, i, j);
    let t = lemma_bwd_placement(line, b, i + 1, j);
    let u = lemma_join(line, b, s0, t, i, i + 1);
    lemma_part_full(line, b, u);
    u
}

/// A path through both tables with cell `i` as the gap after block `j` gives a
/// placement the line allows with cell `i` outside every block.
proof fn lemma_separator_witness(line: Seq<Cell>, b: Seq<usize>, i: int, j: int) -> (u: Seq<int>)
    requires
        forall|jj: int| 0 <= jj < b.len() ==> #[trigger] b[jj] >= 1,
        separator_path(line, b, i, j),
    ensures
        line_allows(line, b, u),
        !covered(u, b, i),
{
    let n = line.len() as int;
    let st = i - b[j];
    let s0 = lemma_fwd_placement(line, b, st, j);
    let t0 = lemma_bwd_placement(line, b, i + 1, j + 1);
    let t = lemma_bwd_prepend(line, b, st, j, t0);
    let u = lemma_join(line, b, s0, t, st, st);
    lemma_part_full(line, b, u);
    assert(!covers_from(t, b, j, i)) by {
        if covers_from(t, b, j, i) {
            let m = choose|m: int| 0 <= m < t.len() && #[trigger] t[m] <= i < t[m] + b[j + m];
            if m > 0 {
                assert(t[m] == t0[m - 1]);
            }
        }
    }
    u
}

/// For a clue whose blocks are each at least one cell long, the DP line solver
/// succeeds exactly when the line allows some placement of the blocks; it then
/// fills an undecided cell exactly when every placement the line allows covers
/// it, and blanks one exactly when none of them does.
pub proof fn lemma_dp_exact(line: Seq<Cell>, b: Seq<usize>)
    requires
        forall|j: int| 0 <= j < b.len() ==> #[trigger] b[j] >= 1,
    ensures
        dp_ok(line, b) <==> exists|s: Seq<int>| #[trigger] line_allows(line, b, s),
        dp_ok(line, b) ==> forall|i: int|
            0 <= i < line.len() && line[i] == Cell::Unknown ==> {
                &&& (dp_cell(line, b, i) == Cell::Filled <==> forall|s: Seq<int>| #[trigger]
                    line_allows(line, b, s) ==> covered(s, b, i))
                &&& (dp_cell(line, b, i) == Cell::Blank <==> forall|s: Seq<int>| #[trigger]
                    line_allows(line, b, s) ==> !covered(s, b, i))
            },
{
    let n = line.len() as int;
    if dp_ok(line, b) {
        let s = lemma_fwd_placement(line, b, n, b.len() as int);
        lemma_part_full(line, b, s);
    }
    if exists|s: Seq<int>| #[trigger] line_allows(line, b, s) {
        let s = choose|s: Seq<int>| #[trigger] line_allows(line, b, s);
        lemma_dp_sound(line, b, s);
    }
    if dp_ok(line, b) {
        assert forall|i: int| 0 <= i < n && line[i] == Cell::Unknown implies {
            &&& (dp_cell(line, b, i) == Cell::Filled <==> forall|s: Seq<int>| #[trigger]
                line_allows(line, b, s) ==> covered(s, b, i))
            &&& (dp_cell(line, b, i) == Cell::Blank <==> forall|s: Seq<int>| #[trigger]
                line_allows(line, b, s) ==> !covered(s, b, i))
        } by {
            assert forall|s: Seq<int>| #[trigger] line_allows(line, b, s) implies (dp_cell(line, b, i)
                == Cell::Filled ==> covered(s, b, i)) && (dp_cell(line, b, i) == Cell::Blank ==> !covered(
                s,
                b,
                i,
            )) by {
                lemma_dp_sound(line, b, s);
                assert(dp_line(line, b)[i] == dp_cell(line, b, i));
            }
            reveal(dp_can_fill);
            reveal(dp_can_blank);
            if forall|s: Seq<int>| #[trigger] line_allows(line, b, s) ==> covered(s, b, i) {
                if dp_can_blank(line, b, i) {
                    let j = choose|j: int| blank_path(line, b, i, j) || separator_path(line, b, i, j);
                    if blank_path(line, b, i, j) {
                        let u = lemma_blank_witness(line, b, i, j);
                    } else {
                        let u = lemma_separator_witness(line, b, i, j);
                    }
                }
            }
            if forall|s: Seq<int>| #[trigger] line_allows(line, b, s) ==> !covered(s, b, i) {
                if dp_can_fill(line, b, i) {
                    let (j, st) = choose|j: int, st: int| fill_path(line, b, i, j, st);
                    let u = lemma_fill_witness(line, b, i, j, st);
                }
            }
        }
    }
}

/// A cell the line solver leaves undecided is one the clue leaves open: for a
/// clue whose blocks are each at least one cell long, the line allows a
/// placement whose blocks cover the cell and another that leaves it blank.
pub proof fn lemma_solve_line_open_cells(line: Seq<Cell>, b: Seq<usize>, i: int)
    requires
        forall|j: int| 0 <= j < b.len() ==> #[trigger] b[j] >= 1,
        0 <= i < line.len(),
        solve_line_spec(line, b) matches Some(out) && out[i] == Cell::Unknown,
    ensures
        exists|s: Seq<int>| #[trigger] line_allows(line, b, s) && covered(s, b, i),
        exists|s: Seq<int>| #[trigger] line_allows(line, b, s) && !covered(s, b, i),
{
    reveal(solve_line_spec);
    reveal(seg_phase_line);
    let n = line.len() as int;
    let out = solve_line_spec(line, b).unwrap();
    assert(b.len() > 0);
    let l1 = seg_phase_line(line, b);
    let l2 = el_line(l1, b);
    if count_cell(l2, Cell::Unknown) == 0 {
        lemma_count_zero(l2, Cell::Unknown, i);
    }
    assert(refines(l1, line));
    assert(refines(l2, l1));
    assert(out == dp_line(l2, b));
    assert(out[i] == dp_cell(l2, b, i));
    lemma_dp_exact(l2, b);
    assert forall|s: Seq<int>| line_allows(l2, b, s) implies #[trigger] line_allows(line, b, s) by {
        let pl = placed_line(s, b, n);
        assert forall|c: int| 0 <= c < n && line[c] != Cell::Unknown implies pl[c] == line[c] by {
            assert(l1[c] == line[c]);
            assert(l2[c] == l1[c]);
        }
    }
    let s1 = choose|s: Seq<int>| #[trigger] line_allows(l2, b, s) && covered(s, b, i);
    let s2 = choose|s: Seq<int>| #[trigger] line_allows(l2, b, s) && !covered(s, b, i);
    assert(line_allows(line, b, s1));
    assert(line_allows(line, b, s2));
}

/// The line solver's result is the common part of the placements the line
/// allows, as far as it goes: every allowed placement is kept (the solver
/// succeeds and every cell it decides has the placement's value), and, for a
/// clue of blocks of at least one cell, every cell it leaves undecided is
/// covered by one allowed placement and left blank by another.
pub proof fn lemma_solve_line_laws(line: Seq<Cell>, b: Seq<usize>)
    ensures
        forall|s: Seq<int>| #[trigger]
            line_allows(line, b, s) ==> (solve_line_spec(line, b) matches Some(out) && refines(
                placed_line(s, b, line.len() as int),
                out,
            )),
        (forall|j: int| 0 <= j < b.len() ==> #[trigger] b[j] >= 1) ==> (solve_line_spec(line, b) matches Some(
            out,
        ) ==> forall|i: int|
            0 <= i < line.len() && out[i] == Cell::Unknown ==> (exists|s: Seq<int>| #[trigger]
                line_allows(line, b, s) && covered(s, b, i)) && (exists|s: Seq<int>| #[trigger]
                line_allows(line, b, s) && !covered(s, b, i))),
{
    assert forall|s: Seq<int>| #[trigger] line_allows(line, b, s) implies (solve_line_spec(line, b) matches Some(
        out,
    ) && refines(placed_line(s, b, line.len() as int), out)) by {
        lemma_solve_line_keeps_placements(line, b, s);
    }
    if (forall|j: int| 0 <= j < b.len() ==> #[trigger] b[j] >= 1) && solve_line_spec(line, b) is Some {
        let out = solve_line_spec(line, b).unwrap();
        assert forall|i: int| 0 <= i < line.len() && out[i] == Cell::Unknown implies (exists|s: Seq<int>| #[trigger]
            line_allows(line, b, s) && covered(s, b, i)) && (exists|s: Seq<int>| #[trigger]
            line_allows(line, b, s) && !covered(s, b, i)) by {
            lemma_solve_line_open_cells(line, b, i);
        }
    }
}

/// In a placement whose consecutive blocks are in order with gaps, every
/// earlier block ends before every later one starts.
proof fn lemma_consecutive_order(s: Seq<int>, b: Seq<usize>, j1: int, j2: int)
    requires
        s.len() == b.len(),
        forall|j: int| 0 <= j < b.len() - 1 ==> #[trigger] s[j] + b[j] < s[j + 1],
        0 <= j1 < j2 < b.len(),
    ensures
        s[j1] + b[j1] < s[j2],
    decreases j2 - j1,
{
    assert(s[j2 - 1] + b[j2 - 1] < s[j2]);
    if j2 > j1 + 1 {
        lemma_consecutive_order(s, b, j1, j2 - 1);
    }
}

/// Where every `c` of `x` is a `c` of `y`, a `c` of `y` that is not one of
/// `x` makes `x` count fewer of them.
proof fn lemma_count_strict(x: Seq<Cell>, y: Seq<Cell>, c: Cell, i: int)
    requires
        x.len() == y.len(),
        forall|k: int| 0 <= k < x.len() && x[k] == c ==> y[k] == c,
        0 <= i < x.len(),
        y[i] == c,
        x[i] != c,
    ensures
        count_cell(x, c) < count_cell(y, c),
    decreases x.len(),
{
    if i == x.len() - 1 {
        lemma_count_mono(x.drop_last(), y.drop_last(), c);
    } else {
        lemma_count_strict(x.drop_last(), y.drop_last(), c, i);
    }
}

/// For an empty clue the line solver succeeds exactly when no cell of the
/// line is filled, which is exactly when the line allows a placement of the
/// (empty) clue; the line it then gives back is blank everywhere.
pub proof fn lemma_solve_line_empty_clue(line: Seq<Cell>, b: Seq<usize>)
    requires
        b.len() == 0,
    ensures
        solve_line_spec(line, b) is Some <==> forall|i: int| 0 <= i < line.len() ==> line[i] != Cell::Filled,
        solve_line_spec(line, b) is Some <==> exists|s: Seq<int>| #[trigger] line_allows(line, b, s),
        solve_line_spec(line, b) matches Some(out) ==> out.len() == line.len() && forall|i: int|
            0 <= i < line.len() ==> #[trigger] out[i] == Cell::Blank,
{
    reveal(solve_line_spec);
    let n = line.len() as int;
    if count_cell(line, Cell::Filled) > 0 {
        let i = lemma_count_pos(line, Cell::Filled);
    } else {
        assert forall|i: int| 0 <= i < n implies line[i] != Cell::Filled by {
            lemma_count_zero(line, Cell::Filled, i);
        }
        let e = Seq::<int>::empty();
        assert(placed_line(e, b, n) =~= Seq::new(n as nat, |i: int| Cell::Blank));
        assert(line_allows(line, b, e));
    }
    if exists|s: Seq<int>| #[trigger] line_allows(line, b, s) {
        let s = choose|s: Seq<int>| #[trigger] line_allows(line, b, s);
        lemma_solve_line_keeps_placements(line, b, s);
    }
}

/// On a line with no unknown cell and a clue of blocks of at least one cell,
/// the line solver succeeds exactly when the line is the solved line of a
/// placement of the clue, that is when the runs of the line are the clue, and
/// it then gives the line back unchanged.
pub proof fn lemma_solve_line_complete(line: Seq<Cell>, b: Seq<usize>)
    requires
        forall|i: int| 0 <= i < line.len() ==> line[i] != Cell::Unknown,
        forall|j: int| 0 <= j < b.len() ==> #[trigger] b[j] >= 1,
    ensures
        solve_line_spec(line, b) is Some <==> exists|s: Seq<int>| #[trigger] line_allows(line, b, s),
        solve_line_spec(line, b) is Some ==> solve_line_spec(line, b) == Some(line),
        line.len() <= usize::MAX ==> (solve_line_spec(line, b) is Some <==> runs(line) == b),
{
    reveal(solve_line_spec);
    let n = line.len() as int;
    if line.len() <= usize::MAX {
        lemma_complete_allows_runs(line, b);
    }
    if exists|s: Seq<int>| #[trigger] line_allows(line, b, s) {
        let s = choose|s: Seq<int>| #[trigger] line_allows(line, b, s);
        lemma_solve_line_keeps_placements(line, b, s);
    }
    if b.len() == 0 {
        lemma_solve_line_empty_clue(line, b);
        if solve_line_spec(line, b) is Some {
            assert(all_blank(line) =~= line);
        }
    } else if solve_line_spec(line, b) is Some {
        assert(checks_pass(line, b));
        let l1 = seg_phase_line(line, b);
        assert(l1 =~= line);
        assert(el_ok(line, b));
        lemma_el_order(line, b);
        let e = earliest_seq(line, b, b.len() as int).unwrap();
        let l = latest_seq(line, b, b.len() as int).unwrap();
        assert(overlap_line(line, e, l, b) =~= line);
        assert(white_line(line, e, l, b) =~= line);
        assert(el_line(line, b) =~= line);
        if count_cell(line, Cell::Unknown) > 0 {
            let i = lemma_count_pos(line, Cell::Unknown);
        }
        let pl = placed_line(l, b, n);
        assert forall|j1: int, j2: int| 0 <= j1 < j2 < b.len() implies #[trigger] l[j1] + b[j1] < #[trigger] l[j2] by {
            lemma_consecutive_order(l, b, j1, j2);
        }
        assert(placement_ok(l, b, n));
        assert forall|i: int| 0 <= i < n && pl[i] == Cell::Filled implies line[i] == Cell::Filled by {
            let j = choose|j: int| 0 <= j < b.len() && #[trigger] l[j] <= i < l[j] + b[j];
            assert(can_place(line, l[j], b[j] as int));
        }
        lemma_count_mono(pl, line, Cell::Filled);
        lemma_placed_filled(l, b, n);
        assert forall|i: int| 0 <= i < n && line[i] == Cell::Filled implies pl[i] == Cell::Filled by {
            if pl[i] != Cell::Filled {
                lemma_count_strict(pl, line, Cell::Filled, i);
            }
        }
        assert(pl =~= line);
        assert(line_allows(line, b, l));
    }
}

/// A cell past the end of block `j - 1` (or from the line's start, for
/// `j == 0`) and before the start of block `j` (or anywhere after the last
/// block) lies in no block.
proof fn lemma_gap_uncovered(s: Seq<int>, b: Seq<usize>, n: int, j: int, i: int)
    requires
        placement_ok(s, b, n),
        0 <= j <= b.len(),
        j == 0 || s[j - 1] + b[j - 1] <= i,
        j == b.len() || i < s[j],
    ensures
        !covered(s, b, i),
{
    if covered(s, b, i) {
        let m = choose|m: int| 0 <= m < b.len() && #[trigger] s[m] <= i < s[m] + b[m];
        if m < j - 1 {
            assert(s[m] + b[m] < s[j - 1]);
        } else if m > j {
            assert(s[j] + b[j] < s[m]);
        }
    }
}

/// Two placements with the same solved line agree on their first `j`
/// blocks: same starts and same lengths.
proof fn lemma_placement_unique_prefix(s: Seq<int>, b: Seq<usize>, t: Seq<int>, c: Seq<usize>, n: int, j: int)
    requires
        placement_ok(s, b, n),
        placement_ok(t, c, n),
        0 <= n,
        placed_line(s, b, n) == placed_line(t, c, n),
        0 <= j <= b.len(),
        j <= c.len(),
    ensures
        forall|m: int| 0 <= m < j ==> s[m] == t[m] && #[trigger] b[m] == c[m],
    decreases j,
{
    if j > 0 {
        let k = j - 1;
        lemma_placement_unique_prefix(s, b, t, c, n, k);
        let pl = placed_line(s, b, n);
        if k > 0 {
            assert(s[k - 1] == t[k - 1] && b[k - 1] == c[k - 1]);
            assert(s[k - 1] + b[k - 1] < s[k]);
            assert(t[k - 1] + c[k - 1] < t[k]);
        }
        if s[k] < t[k] {
            assert(covered(s, b, s[k]));
            assert(pl[s[k]] == Cell::Filled);
            lemma_gap_uncovered(t, c, n, k, s[k]);
        } else if t[k] < s[k] {
            assert(covered(t, c, t[k]));
            assert(placed_line(t, c, n)[t[k]] == Cell::Filled);
            lemma_gap_uncovered(s, b, n, k, t[k]);
        }
        assert(s[k] == t[k]);
        if b[k] < c[k] {
            let x = s[k] + b[k];
            assert(t[k] <= x < t[k] + c[k]);
            assert(covered(t, c, x));
            assert(placed_line(t, c, n)[x] == Cell::Filled);
            if k + 1 < b.len() {
                assert(s[k] + b[k] < s[k + 1]);
            }
            lemma_gap_uncovered(s, b, n, k + 1, x);
            assert(pl[x] == Cell::Blank);
        } else if c[k] < b[k] {
            let x = t[k] + c[k];
            assert(s[k] <= x < s[k] + b[k]);
            assert(covered(s, b, x));
            assert(pl[x] == Cell::Filled);
            if k + 1 < c.len() {
                assert(t[k] + c[k] < t[k + 1]);
            }
            lemma_gap_uncovered(t, c, n, k + 1, x);
            assert(placed_line(t, c, n)[x] == Cell::Blank);
        }
    }
}

/// The blocks of a placement can be read back from its solved line: two
/// placements with the same solved line place the same blocks.
proof fn lemma_placement_unique(s: Seq<int>, b: Seq<usize>, t: Seq<int>, c: Seq<usize>, n: int)
    requires
        placement_ok(s, b, n),
        placement_ok(t, c, n),
        0 <= n,
        placed_line(s, b, n) == placed_line(t, c, n),
    ensures
        b == c,
{
    let pl = placed_line(s, b, n);
    if b.len() < c.len() {
        let k = b.len() as int;
        lemma_placement_unique_prefix(s, b, t, c, n, k);
        assert(covered(t, c, t[k]));
        assert(placed_line(t, c, n)[t[k]] == Cell::Filled);
        if k > 0 {
            assert(s[k - 1] == t[k - 1] && b[k - 1] == c[k - 1]);
            assert(t[k - 1] + c[k - 1] < t[k]);
        }
        lemma_gap_uncovered(s, b, n, k, t[k]);
        assert(pl[t[k]] == Cell::Blank);
    } else if c.len() < b.len() {
        let k = c.len() as int;
        lemma_placement_unique_prefix(s, b, t, c, n, k);
        assert(covered(s, b, s[k]));
        assert(pl[s[k]] == Cell::Filled);
        if k > 0 {
            assert(s[k - 1] == t[k - 1] && b[k - 1] == c[k - 1]);
            assert(s[k - 1] + b[k - 1] < s[k]);
        }
        lemma_gap_uncovered(t, c, n, k, s[k]);
        assert(placed_line(t, c, n)[s[k]] == Cell::Blank);
    } else {
        lemma_placement_unique_prefix(s, b, t, c, n, b.len() as int);
        assert(b =~= c);
    }
}

/// A line with no unknown cell allows a placement of a clue exactly when its
/// runs are the clue.
pub proof fn lemma_complete_allows_runs(line: Seq<Cell>, b: Seq<usize>)
    requires
        forall|i: int| 0 <= i < line.len() ==> line[i] != Cell::Unknown,
        line.len() <= usize::MAX,
    ensures
        (exists|s: Seq<int>| #[trigger] line_allows(line, b, s)) <==> runs(line) == b,
{
    let n = line.len() as int;
    let t = lemma_runs_placement(line);
    if exists|s: Seq<int>| #[trigger] line_allows(line, b, s) {
        let s = choose|s: Seq<int>| #[trigger] line_allows(line, b, s);
        let pl = placed_line(s, b, n);
        assert(pl =~= line);
        lemma_placement_unique(s, b, t, runs(line), n);
    }
    if runs(line) == b {
        assert(line_allows(line, b, t));
    }
}

/// The line solver accepts no line that no placement could fill: one with
/// more filled cells than the blocks hold, with fewer filled and unknown cells
/// than they need, too short to hold the blocks with their gaps, or with a
/// run of filled cells longer than every block.
pub proof fn lemma_solve_line_counts(line: Seq<Cell>, b: Seq<usize>)
    requires
        solve_line_spec(line, b) is Some,
    ensures
        count_cell(line, Cell::Filled) <= sum_blocks(b),
        count_cell(line, Cell::Filled) + count_cell(line, Cell::Unknown) >= sum_blocks(b),
        b.len() > 0 ==> sum_blocks(b) + b.len() - 1 <= line.len(),
        forall|i: int| 0 <= i <= line.len() ==> #[trigger] filled_run_before(line, i) <= max_block(b),
{
    reveal(solve_line_spec);
    if b.len() == 0 {
        assert(b =~= Seq::<usize>::empty());
        assert forall|i: int| 0 <= i <= line.len() implies #[trigger] filled_run_before(line, i) <= max_block(b) by {
            if 0 < i {
                lemma_count_zero(line, Cell::Filled, i - 1);
            }
        }
    } else {
        assert(checks_pass(line, b));
    }
}

/// The line the solver gives back keeps every decided cell of the line it
/// was given.
pub proof fn lemma_solve_line_refines(line: Seq<Cell>, b: Seq<usize>)
    requires
        solve_line_spec(line, b) is Some,
    ensures
        refines(solve_line_spec(line, b).unwrap(), line),
{
    reveal(solve_line_spec);
    if b.len() > 0 {
        let l1 = seg_phase_line(line, b);
        let l2 = el_line(l1, b);
        assert(refines(l1, line));
        assert(refines(l2, l1));
        if count_cell(l2, Cell::Unknown) > 0 {
            assert(refines(dp_line(l2, b), l2));
        }
    }
}

/// Solving a line a second time changes nothing: when the line allows some
/// placement of a clue of blocks of at least one cell, the solver accepts the
/// line it gave back and gives it back unchanged.
pub proof fn lemma_solve_line_idempotent(line: Seq<Cell>, b: Seq<usize>, s: Seq<int>)
    requires
        line_allows(line, b, s),
        forall|j: int| 0 <= j < b.len() ==> #[trigger] b[j] >= 1,
    ensures
        solve_line_spec(line, b) matches Some(out) && solve_line_spec(out, b) == Some(out),
{
    let n = line.len() as int;
    lemma_solve_line_keeps_placements(line, b, s);
    let out = solve_line_spec(line, b).unwrap();
    lemma_solve_line_refines(line, b);
    lemma_solve_line_laws(line, b);
    assert(line_allows(out, b, s));
    lemma_solve_line_keeps_placements(out, b, s);
    let out2 = solve_line_spec(out, b).unwrap();
    lemma_solve_line_refines(out, b);
    assert forall|i: int| 0 <= i < n && out[i] == Cell::Unknown implies out2[i] == Cell::Unknown by {
        lemma_solve_line_open_cells(line, b, i);
        let s1 = choose|s: Seq<int>| #[trigger] line_allows(line, b, s) && covered(s, b, i);
        let s2 = choose|s: Seq<int>| #[trigger] line_allows(line, b, s) && !covered(s, b, i);
        assert(line_allows(out, b, s1));
        assert(line_allows(out, b, s2));
        lemma_solve_line_keeps_placements(out, b, s1);
        lemma_solve_line_keeps_placements(out, b, s2);
        assert(placed_line(s1, b, n)[i] == Cell::Filled);
        assert(placed_line(s2, b, n)[i] == Cell::Blank);
    }
    assert(out2 =~= out);
}

} // verus!
