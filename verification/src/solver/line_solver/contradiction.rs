//! Cheap checks that rule a line out before any inference.
use vstd::prelude::*;

use super::bits::LineBits;
use super::placement::{count_cell, filled_run_before, max_block, sum_blocks};
use crate::solver::Contradiction;
use crate::types::Cell;

verus! {

proof fn lemma_sum_step(b: Seq<usize>, i: int)
    requires
        0 <= i < b.len(),
    ensures
        sum_blocks(b.take(i + 1)) == sum_blocks(b.take(i)) + b[i],
{
    assert(b.take(i + 1).drop_last() =~= b.take(i));
}

proof fn lemma_max_step(b: Seq<usize>, i: int)
    requires
        0 <= i < b.len(),
    ensures
        max_block(b.take(i + 1)) == if max_block(b.take(i)) >= b[i] {
            max_block(b.take(i))
        } else {
            b[i] as int
        },
{
    assert(b.take(i + 1).drop_last() =~= b.take(i));
}

/// Sum of the blocks when it does not exceed `limit`.
fn sum_up_to(blocks: &[usize], limit: usize) -> (r: Option<usize>)
    ensures
        r is Some <==> sum_blocks(blocks@) <= limit,
        r matches Some(t) ==> t == sum_blocks(blocks@),
{
    let mut total: usize = 0;
    let mut i: usize = 0;
    while i < blocks.len()
        invariant
            i <= blocks@.len(),
            total == sum_blocks(blocks@.take(i as int)),
            total <= limit,
        decreases blocks@.len() - i,
    {
        proof {
            lemma_sum_step(blocks@, i as int);
        }
        if blocks[i] > limit - total {
            proof {
                lemma_sum_prefix_le(blocks@, (i + 1) as int);
            }
            return None;
        }
        total = total + blocks[i];
        i += 1;
    }
    proof {
        assert(blocks@.take(blocks@.len() as int) =~= blocks@);
    }
    Some(total)
}

/// A prefix sums to no more than the whole.
proof fn lemma_sum_prefix_le(b: Seq<usize>, i: int)
    requires
        0 <= i <= b.len(),
    ensures
        sum_blocks(b.take(i)) <= sum_blocks(b),
    decreases b.len() - i,
{
    if i < b.len() {
        lemma_sum_prefix_le(b, i + 1);
        lemma_sum_step(b, i);
    } else {
        assert(b.take(i) =~= b);
    }
}

/// The blocks and the single gaps between them fit in the line.
pub fn check_min_space(line: &LineBits, blocks: &[usize]) -> (r: Result<(), Contradiction>)
    requires
        line.wf(),
    ensures
        r is Ok <==> (blocks@.len() == 0 || sum_blocks(blocks@) + blocks@.len() - 1 <= line@.len()),
{
    let k = blocks.len();
    if k == 0 {
        return Ok(());
    }
    let n = line.len();
    match sum_up_to(blocks, n) {
        None => Err(Contradiction),
        Some(total) => {
            if k - 1 <= n - total {
                Ok(())
            } else {
                Err(Contradiction)
            }
        },
    }
}

/// The filled cells do not outnumber the blocks' cells, and the filled and
/// unknown cells together can hold them.
pub fn check_filled_count(line: &LineBits, blocks: &[usize]) -> (r: Result<(), Contradiction>)
    requires
        line.wf(),
    ensures
        r is Ok <==> (count_cell(line@, Cell::Filled) <= sum_blocks(blocks@) && count_cell(
            line@,
            Cell::Filled,
        ) + count_cell(line@, Cell::Unknown) >= sum_blocks(blocks@)),
{
    let n = line.len();
    let n_filled = line.count_cells(Cell::Filled);
    let n_unknown = line.count_cells(Cell::Unknown);
    proof {
        line.lemma_wf_len();
        lemma_count_le_len(line@, Cell::Filled, Cell::Unknown);
    }
    match sum_up_to(blocks, n) {
        None => Err(Contradiction),
        Some(req_filled) => {
            if n_filled <= req_filled && n_filled + n_unknown >= req_filled {
                Ok(())
            } else {
                Err(Contradiction)
            }
        },
    }
}

/// Two different states together count at most the cells of the line.
proof fn lemma_count_le_len(line: Seq<Cell>, a: Cell, b: Cell)
    requires
        a != b,
    ensures
        count_cell(line, a) + count_cell(line, b) <= line.len(),
    decreases line.len(),
{
    if line.len() > 0 {
        lemma_count_le_len(line.drop_last(), a, b);
    }
}

/// No cell has lost both possibilities: `Err` exactly when some cell has,
/// which never happens on a well-formed line.
pub fn check_no_dead_cells(line: &LineBits) -> (r: Result<(), Contradiction>)
    ensures
        r is Err <==> line.has_dead_cell(),
        line.wf() ==> r is Ok,
{
    if line.has_contradiction() {
        Err(Contradiction)
    } else {
        Ok(())
    }
}

/// The largest block.
fn max_of(blocks: &[usize]) -> (m: usize)
    ensures
        m == max_block(blocks@),
{
    let mut m: usize = 0;
    let mut i: usize = 0;
    while i < blocks.len()
        invariant
            i <= blocks@.len(),
            m == max_block(blocks@.take(i as int)),
        decreases blocks@.len() - i,
    {
        proof {
            lemma_max_step(blocks@, i as int);
        }
        if blocks[i] > m {
            m = blocks[i];
        }
        i += 1;
    }
    proof {
        assert(blocks@.take(blocks@.len() as int) =~= blocks@);
    }
    m
}

/// No run of filled cells is longer than the largest block.
pub fn check_consecutive_overflow(line: &LineBits, blocks: &[usize]) -> (r: Result<(), Contradiction>)
    requires
        line.wf(),
    ensures
        r is Ok <==> (blocks@.len() == 0 || forall|i: int|
            0 <= i <= line@.len() ==> filled_run_before(line@, i) <= max_block(blocks@)),
{
    if blocks.len() == 0 {
        return Ok(());
    }
    let max_len = max_of(blocks);
    let n = line.len();
    let mut current_run: usize = 0;
    let mut i: usize = 0;
    while i < n
        invariant
            line.wf(),
            n == line@.len(),
            i <= n,
            current_run == filled_run_before(line@, i as int),
            forall|m: int| 0 <= m <= i ==> filled_run_before(line@, m) <= max_len,
            max_len == max_block(blocks@),
            blocks@.len() > 0,
        decreases n - i,
    {
        proof {
            lemma_run_le(line@, i as int);
        }
        current_run = if line.cell(i) == Cell::Filled {
            current_run + 1
        } else {
            0
        };
        proof {
            assert(current_run == filled_run_before(line@, (i + 1) as int));
        }
        if current_run > max_len {
            proof {
                assert(0 <= i + 1 <= line@.len() && filled_run_before(line@, (i + 1) as int) > max_block(blocks@));
            }
            return Err(Contradiction);
        }
        i += 1;
    }
    Ok(())
}

proof fn lemma_run_le(line: Seq<Cell>, i: int)
    ensures
        filled_run_before(line, i) <= if i < 0 { 0 } else { i },
    decreases i,
{
    if i > 0 {
        lemma_run_le(line, i - 1);
    }
}

} // verus!
