//! Solving a single line (row or column) against its clue.
use vstd::prelude::*;

pub mod bits;
pub mod contradiction;
pub mod dp;
pub mod earliest_latest;
pub mod placement;
pub mod segment;
pub mod soundness;

use self::bits::LineBits;
use self::contradiction::{check_consecutive_overflow, check_filled_count, check_min_space, check_no_dead_cells};
use self::dp::{dp_line, dp_ok, dp_solve};
use self::earliest_latest::{earliest_latest_inference, el_line, el_ok};
use self::placement::{count_cell, filled_run_before, lemma_push_contains, max_block, sum_blocks};
use self::segment::{seg_phase_line, seg_phase_ok, segment_phase, segments_from};
use self::soundness::{
    lemma_solve_line_complete, lemma_solve_line_counts, lemma_solve_line_empty_clue, lemma_solve_line_laws, line_allows,
};
use self::placement::{covered, placed_line};
use super::Contradiction;
use crate::types::{runs, Cell};

verus! {

/// The quick checks on a line and a non-empty clue all pass.
pub open spec fn checks_pass(line: Seq<Cell>, b: Seq<usize>) -> bool {
    &&& sum_blocks(b) + b.len() - 1 <= line.len()
    &&& count_cell(line, Cell::Filled) <= sum_blocks(b)
    &&& count_cell(line, Cell::Filled) + count_cell(line, Cell::Unknown) >= sum_blocks(b)
    &&& forall|i: int| 0 <= i <= line.len() ==> filled_run_before(line, i) <= max_block(b)
}

/// `line` with every unknown cell blank.
pub open spec fn all_blank(line: Seq<Cell>) -> Seq<Cell> {
    Seq::new(line.len(), |i: int| if line[i] == Cell::Unknown { Cell::Blank } else { line[i] })
}

/// The line after all phases of the line solver, or `None` on a contradiction.
#[verifier::opaque]
pub open spec fn solve_line_spec(line: Seq<Cell>, b: Seq<usize>) -> Option<Seq<Cell>> {
    if b.len() == 0 {
        if count_cell(line, Cell::Filled) == 0 {
            Some(all_blank(line))
        } else {
            None
        }
    } else if !checks_pass(line, b) || !seg_phase_ok(line, b) {
        None
    } else {
        let l1 = seg_phase_line(line, b);
        if !el_ok(l1, b) {
            None
        } else {
            let l2 = el_line(l1, b);
            if count_cell(l2, Cell::Unknown) > 0 {
                if dp_ok(l2, b) {
                    Some(dp_line(l2, b))
                } else {
                    None
                }
            } else {
                Some(l2)
            }
        }
    }
}

/// `changed` lists exactly the cells that were unknown in `before` and are
/// decided in `after`.
pub open spec fn lists_decided(changed: Seq<usize>, before: Seq<Cell>, after: Seq<Cell>) -> bool {
    forall|x: usize|
        changed.contains(x) <==> (x < before.len() && before[x as int] == Cell::Unknown && after[x as int]
            != Cell::Unknown)
}

/// `after` keeps every decided cell of `before`.
pub open spec fn refines(after: Seq<Cell>, before: Seq<Cell>) -> bool {
    &&& after.len() == before.len()
    &&& forall|i: int| 0 <= i < before.len() && before[i] != Cell::Unknown ==> after[i] == before[i]
}

fn to_result(value: bool) -> (r: Result<(), Contradiction>)
    ensures
        r is Ok <==> value,
{
    if value {
        Ok(())
    } else {
        Err(Contradiction)
    }
}

proof fn lemma_count_zero(line: Seq<Cell>, c: Cell, i: int)
    requires
        count_cell(line, c) == 0,
        0 <= i < line.len(),
    ensures
        line[i] != c,
    decreases line.len(),
{
    if i < line.len() - 1 {
        lemma_count_zero(line.drop_last(), c, i);
    }
}

proof fn lemma_count_pos(line: Seq<Cell>, c: Cell) -> (i: int)
    requires
        count_cell(line, c) > 0,
    ensures
        0 <= i < line.len(),
        line[i] == c,
    decreases line.len(),
{
    if line.last() == c {
        (line.len() - 1) as int
    } else {
        let i = lemma_count_pos(line.drop_last(), c);
        i
    }
}

/// Appending the cells decided by a later phase keeps the list exact.
proof fn lemma_lists_append(c1: Seq<usize>, c2: Seq<usize>, l0: Seq<Cell>, l1: Seq<Cell>, l2: Seq<Cell>)
    requires
        lists_decided(c1, l0, l1),
        lists_decided(c2, l1, l2),
        refines(l1, l0),
        refines(l2, l1),
    ensures
        lists_decided(c1 + c2, l0, l2),
        refines(l2, l0),
        c1.no_duplicates() && c2.no_duplicates() ==> (c1 + c2).no_duplicates(),
{
    if c1.no_duplicates() && c2.no_duplicates() {
        let c = c1 + c2;
        assert forall|a: int, b: int| 0 <= a < b < c.len() implies c[a] != c[b] by {
            if a < c1.len() && b >= c1.len() {
                assert(c1.contains(c[a]));
                assert(c2[b - c1.len()] == c[b]);
                assert(c2.contains(c[b]));
            } else if a >= c1.len() {
                assert(c[a] == c2[a - c1.len()] && c[b] == c2[b - c1.len()]);
            }
        }
    }
    assert forall|x: usize| #[trigger] (c1 + c2).contains(x) <==> (x < l0.len() && l0[x as int]
        == Cell::Unknown && l2[x as int] != Cell::Unknown) by {
        if (c1 + c2).contains(x) {
            let m = choose|m: int| 0 <= m < (c1 + c2).len() && (c1 + c2)[m] == x;
            if m < c1.len() {
                assert(c1.contains(x));
            } else {
                assert(c2[m - c1.len()] == x);
                assert(c2.contains(x));
            }
        }
        if x < l0.len() && l0[x as int] == Cell::Unknown && l2[x as int] != Cell::Unknown {
            if c1.contains(x) {
                let m = choose|m: int| 0 <= m < c1.len() && c1[m] == x;
                assert((c1 + c2)[m] == x);
            } else {
                assert(c2.contains(x));
                let m = choose|m: int| 0 <= m < c2.len() && c2[m] == x;
                assert((c1 + c2)[c1.len() + m] == x);
            }
        }
    }
}

/// Solves one line against its clue: quick contradiction checks, the segment
/// phase, earliest/latest inference, and the DP solver when unknown cells
/// remain. Returns the cells it decided, each once. Every placement the line
/// allows is kept, and for a clue of blocks of at least one cell every cell
/// left undecided is covered by one allowed placement and blank in another.
/// An empty clue is met exactly when no cell is filled; a line with no
/// unknown cell is accepted, for a clue of blocks of at least one cell,
/// exactly when it is the solved line of a placement of the clue, that is
/// when its runs are the clue. No line is accepted that has more filled
/// cells than the blocks hold, fewer filled and unknown cells than they need,
/// too few cells for the blocks and their gaps, or a filled run longer than
/// every block.
pub fn solve_line(line: &mut LineBits, blocks: &[usize]) -> (r: Result<Vec<usize>, Contradiction>)
    requires
        old(line).wf(),
    ensures
        final(line).wf(),
        r is Ok <==> solve_line_spec(old(line)@, blocks@) is Some,
        r matches Ok(changed) ==> {
            &&& final(line)@ == solve_line_spec(old(line)@, blocks@).unwrap()
            &&& refines(final(line)@, old(line)@)
            &&& lists_decided(changed@, old(line)@, final(line)@)
            &&& changed@.no_duplicates()
        },
        forall|s: Seq<int>| #[trigger]
            line_allows(old(line)@, blocks@, s) ==> r is Ok && refines(
                placed_line(s, blocks@, old(line)@.len() as int),
                final(line)@,
            ),
        r is Ok && (forall|j: int| 0 <= j < blocks@.len() ==> #[trigger] blocks@[j] >= 1) ==> forall|i: int|
            0 <= i < old(line)@.len() && final(line)@[i] == Cell::Unknown ==> (exists|s: Seq<int>| #[trigger]
                line_allows(old(line)@, blocks@, s) && covered(s, blocks@, i)) && (exists|s: Seq<int>| #[trigger]
                line_allows(old(line)@, blocks@, s) && !covered(s, blocks@, i)),
        blocks@.len() == 0 ==> (r is Ok <==> forall|i: int|
            0 <= i < old(line)@.len() ==> old(line)@[i] != Cell::Filled),
        (forall|i: int| 0 <= i < old(line)@.len() ==> old(line)@[i] != Cell::Unknown) && (forall|j: int|
            0 <= j < blocks@.len() ==> #[trigger] blocks@[j] >= 1) ==> (r is Ok <==> exists|s: Seq<int>|
            #[trigger] line_allows(old(line)@, blocks@, s)),
        (forall|i: int| 0 <= i < old(line)@.len() ==> old(line)@[i] != Cell::Unknown) && (forall|j: int|
            0 <= j < blocks@.len() ==> #[trigger] blocks@[j] >= 1) ==> (r is Ok <==> runs(old(line)@) == blocks@),
        r is Ok ==> {
            &&& count_cell(old(line)@, Cell::Filled) <= sum_blocks(blocks@)
            &&& count_cell(old(line)@, Cell::Filled) + count_cell(old(line)@, Cell::Unknown) >= sum_blocks(blocks@)
            &&& blocks@.len() > 0 ==> sum_blocks(blocks@) + blocks@.len() - 1 <= old(line)@.len()
            &&& forall|i: int| 0 <= i <= old(line)@.len() ==> #[trigger] filled_run_before(old(line)@, i) <= max_block(
                blocks@,
            )
        },
{
    let ghost l0 = line@;
    let ghost b = blocks@;
    proof {
        line.lemma_wf_len();
        lemma_solve_line_laws(l0, b);
        if b.len() == 0 {
            lemma_solve_line_empty_clue(l0, b);
        }
        if (forall|i: int| 0 <= i < l0.len() ==> l0[i] != Cell::Unknown) && (forall|j: int|
            0 <= j < b.len() ==> #[trigger] b[j] >= 1) {
            lemma_solve_line_complete(l0, b);
        }
        if solve_line_spec(l0, b) is Some {
            lemma_solve_line_counts(l0, b);
        }
        reveal(solve_line_spec);
    }
    if blocks.len() == 0 {
        let no_filled = to_result(line.count_cells(Cell::Filled) == 0);
        if no_filled.is_err() {
            return Err(Contradiction);
        }
        let n = line.len();
        let mut unknowns: Vec<usize> = Vec::new();
        let mut i: usize = 0;
        while i < n
            invariant
                line.wf(),
                line@ == l0,
                n == l0.len() <= 64,
                i <= n,
                forall|x: usize| #[trigger] unknowns@.contains(x) <==> (x < i && l0[x as int] == Cell::Unknown),
                forall|a: int| 0 <= a < unknowns@.len() ==> #[trigger] unknowns@[a] < i,
                forall|a: int, c: int| 0 <= a < c < unknowns@.len() ==> #[trigger] unknowns@[a] < #[trigger] unknowns@[c],
            decreases n - i,
        {
            if line.cell(i) == Cell::Unknown {
                let ghost u = unknowns@;
                unknowns.push(i);
                proof {
                    assert forall|x: usize| #[trigger] unknowns@.contains(x) <==> (x < i + 1 && l0[x as int]
                        == Cell::Unknown) by {
                        lemma_push_contains(u, i, x);
                    }
                }
            }
            i += 1;
        }
        proof {
            assert forall|m: int| 0 <= m < unknowns@.len() implies unknowns@[m] < line@.len() by {
                assert(unknowns@.contains(unknowns@[m]));
            }
        }
        line.set_cells(unknowns.as_slice(), Cell::Blank);
        proof {
            assert forall|x: int| 0 <= x < l0.len() implies #[trigger] line@[x] == all_blank(l0)[x] by {
                assert((x as usize) as int == x);
                assert(unknowns@.contains(x as usize) == (l0[x] == Cell::Unknown));
            }
            assert(line@ =~= all_blank(l0));
        }
        return Ok(unknowns);
    }
    if check_min_space(line, blocks).is_err() {
        return Err(Contradiction);
    }
    if check_filled_count(line, blocks).is_err() {
        return Err(Contradiction);
    }
    if check_consecutive_overflow(line, blocks).is_err() {
        return Err(Contradiction);
    }
    let mut changed = match segment_phase(line, blocks) {
        Ok(c) => c,
        Err(e) => {
            return Err(e);
        },
    };
    let ghost l1 = line@;
    let ghost c1 = changed@;
    proof {
        assert forall|a: int, c: int| 0 <= a < c < c1.len() implies c1[a] != c1[c] by {
            assert(c1[a] < c1[c]);
        }
    }
    let mut more = match earliest_latest_inference(line, blocks) {
        Ok(c) => c,
        Err(e) => {
            return Err(e);
        },
    };
    let ghost l2 = line@;
    let ghost c2 = more@;
    changed.append(&mut more);
    proof {
        assert(changed@ =~= c1 + c2);
        lemma_lists_append(c1, c2, l0, l1, l2);
    }
    if line.count_cells(Cell::Unknown) > 0 {
        proof {
            assert(sum_blocks(b) >= 0) by {
                lemma_sum_nonneg(b);
            }
        }
        let ghost c12 = changed@;
        let mut dp_changed = match dp_solve(line, blocks) {
            Ok(c) => c,
            Err(e) => {
                return Err(e);
            },
        };
        let ghost c3 = dp_changed@;
        changed.append(&mut dp_changed);
        proof {
            assert(changed@ =~= c12 + c3);
            lemma_lists_append(c12, c3, l0, l2, line@);
        }
    }
    if check_no_dead_cells(line).is_err() {
        return Err(Contradiction);
    }
    Ok(changed)
}

proof fn lemma_sum_nonneg(b: Seq<usize>)
    ensures
        sum_blocks(b) >= 0,
    decreases b.len(),
{
    if b.len() > 0 {
        lemma_sum_nonneg(b.drop_last());
    }
}

} // verus!
