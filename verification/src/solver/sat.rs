//! Complete solving through a SAT encoding: each line is an automaton run
//! over its cells, and solutions are enumerated with blocking clauses.
use vstd::prelude::*;

use super::line_solver::placement::sum_blocks;
use super::propagation::{clue_of, grid_shape, line_len, line_of};
use super::{grid_complete, into_solution, solves, sorted_by_count, Solution, SolveError};
use crate::types::{cell_pos, lemma_cell_pos_bounds, runs, runs_after, Cell, Clue, Grid, Puzzle};

verus! {

#[verifier::external_type_specification]
#[verifier::external_body]
pub struct ExSolverError(splr::SolverError);

/// Index of the state that waits before block `i` (or after the last block
/// when `i` is the number of blocks); the `b[i]` states of block `i` follow
/// it.
pub open spec fn gap_state(b: Seq<usize>, i: int) -> int {
    i + sum_blocks(b.take(i))
}

/// Taking one more block adds its length to the sum.
proof fn lemma_sum_take_step(b: Seq<usize>, i: int)
    requires
        0 <= i < b.len(),
    ensures
        sum_blocks(b.take(i + 1)) == sum_blocks(b.take(i)) + b[i],
{
    assert(b.take(i + 1).drop_last() =~= b.take(i));
}

/// Sums of prefixes are not negative.
proof fn lemma_sum_take_nonneg(b: Seq<usize>, i: int)
    requires
        0 <= i <= b.len(),
    ensures
        sum_blocks(b.take(i)) >= 0,
    decreases i,
{
    if i > 0 {
        lemma_sum_take_nonneg(b, i - 1);
        lemma_sum_take_step(b, i - 1);
    }
}

/// The states of block `j1` all come before the gap state of a later block.
proof fn lemma_gap_mono(b: Seq<usize>, j1: int, j2: int)
    requires
        0 <= j1 < j2 <= b.len(),
    ensures
        0 <= gap_state(b, j1),
        gap_state(b, j1) + b[j1] < gap_state(b, j2),
    decreases j2 - j1,
{
    lemma_sum_take_nonneg(b, j1);
    lemma_sum_take_step(b, j1);
    if j2 > j1 + 1 {
        lemma_gap_mono(b, j1 + 1, j2);
        assert(gap_state(b, j1 + 1) <= gap_state(b, j1 + 1) + b[j1 + 1]);
    }
}

/// State `q` of block `j` (`q == 0`: its gap state) is a different state for
/// each block and position.
proof fn lemma_state_distinct(b: Seq<usize>, j1: int, q1: int, j2: int, q2: int)
    requires
        0 <= j1 <= b.len(),
        0 <= j2 <= b.len(),
        0 <= q1,
        0 <= q2,
        j1 < b.len() ==> q1 <= b[j1],
        j1 == b.len() ==> q1 == 0,
        j2 < b.len() ==> q2 <= b[j2],
        j2 == b.len() ==> q2 == 0,
        j1 != j2 || q1 != q2,
    ensures
        gap_state(b, j1) + q1 != gap_state(b, j2) + q2,
        0 <= gap_state(b, j1) + q1 <= gap_state(b, b.len() as int),
        0 <= gap_state(b, j2) + q2 <= gap_state(b, b.len() as int),
{
    lemma_sum_take_nonneg(b, j1);
    lemma_sum_take_nonneg(b, j2);
    if j1 < b.len() {
        lemma_gap_mono(b, j1, b.len() as int);
    }
    if j2 < b.len() {
        lemma_gap_mono(b, j2, b.len() as int);
    }
    if j1 < j2 {
        lemma_gap_mono(b, j1, j2);
    } else if j2 < j1 {
        lemma_gap_mono(b, j2, j1);
    }
}

/// Where a state of a line automaton goes on a blank and on a filled cell.
#[derive(Debug, Clone, Copy)]
struct StateTransitions {
    on_blank: Option<usize>,
    on_filled: Option<usize>,
}

/// The automaton that accepts the lines showing the blocks of a clue.
#[derive(Debug)]
struct Automaton {
    states: Vec<StateTransitions>,
    start: usize,
    accepting: Vec<usize>,
}

/// `a` is the automaton of clue `b`: the gap state before block `i` loops on
/// blank cells and enters the block on a filled one; inside a block each
/// filled cell moves one state on, and the last state of a block moves to
/// the next gap state on a blank cell. It starts in the first gap state and
/// accepts in the last gap state or at the end of the last block.
spec fn automaton_of(a: Automaton, b: Seq<usize>) -> bool {
    let k = b.len() as int;
    &&& a.states@.len() == gap_state(b, k) + 1
    &&& a.start == 0
    &&& forall|i: int|
        0 <= i <= k ==> (#[trigger] a.states@[gap_state(b, i)]).on_blank == Some(gap_state(b, i) as usize)
    &&& forall|i: int|
        0 <= i < k ==> (#[trigger] a.states@[gap_state(b, i)]).on_filled == Some((gap_state(b, i) + 1) as usize)
    &&& a.states@[gap_state(b, k)].on_filled is None
    &&& forall|i: int, p: int|
        0 <= i < k && 1 <= p < b[i] ==> #[trigger] a.states@[gap_state(b, i) + p] == (StateTransitions {
            on_blank: None,
            on_filled: Some((gap_state(b, i) + p + 1) as usize),
        })
    &&& forall|i: int|
        0 <= i < k && b[i] >= 1 ==> #[trigger] a.states@[gap_state(b, i) + b[i]] == (StateTransitions {
            on_blank: Some(gap_state(b, i + 1) as usize),
            on_filled: None,
        })
    &&& a.accepting@ == if k == 0 {
        seq![gap_state(b, k) as usize]
    } else {
        seq![gap_state(b, k) as usize, (gap_state(b, k - 1) + b[k - 1]) as usize]
    }
}

/// Index of state `progress` (counted from one) of block `block_index`.
fn filled_state_index(blocks: &[usize], block_index: usize, progress: usize) -> (s: usize)
    requires
        block_index <= blocks@.len(),
        gap_state(blocks@, block_index as int) + progress <= usize::MAX,
    ensures
        s == gap_state(blocks@, block_index as int) + progress,
{
    let mut filled_before: usize = 0;
    let mut i: usize = 0;
    while i < block_index
        invariant
            i <= block_index <= blocks@.len(),
            gap_state(blocks@, block_index as int) + progress <= usize::MAX,
            filled_before == sum_blocks(blocks@.take(i as int)),
        decreases block_index - i,
    {
        proof {
            lemma_sum_take_step(blocks@, i as int);
            lemma_sum_take_nonneg(blocks@, i as int + 1);
            if i + 1 < block_index {
                lemma_gap_mono(blocks@, i as int + 1, block_index as int);
                lemma_sum_take_nonneg(blocks@, i as int + 2);
            }
            assert(gap_state(blocks@, i as int + 1) <= gap_state(blocks@, block_index as int)) by {
                if i + 1 < block_index {
                    lemma_gap_mono(blocks@, i as int + 1, block_index as int);
                }
            }
        }
        filled_before = filled_before + blocks[i];
        i += 1;
    }
    block_index + filled_before + progress
}

/// A blank gap state, or a block state that is not wired yet.
spec fn gap_entry(g: int) -> StateTransitions {
    StateTransitions { on_blank: Some(g as usize), on_filled: None }
}

/// The final transitions of state `q` (from one) of block `i`.
spec fn block_entry(b: Seq<usize>, i: int, q: int) -> StateTransitions {
    if q < b[i] {
        StateTransitions { on_blank: None, on_filled: Some((gap_state(b, i) + q + 1) as usize) }
    } else {
        StateTransitions { on_blank: Some(gap_state(b, i + 1) as usize), on_filled: None }
    }
}

/// A block state before it is wired.
spec fn dead_entry() -> StateTransitions {
    StateTransitions { on_blank: None, on_filled: None }
}

impl Automaton {
    /// Builds the automaton of a clue.
    #[verifier::rlimit(40)]
    fn from_blocks(blocks: &[usize]) -> (a: Self)
        requires
            gap_state(blocks@, blocks@.len() as int) + 2 <= usize::MAX,
        ensures
            automaton_of(a, blocks@),
    {
        let ghost b = blocks@;
        let k = blocks.len();
        proof {
            lemma_sum_take_nonneg(b, k as int);
        }
        let mut states: Vec<StateTransitions> = Vec::new();
        let mut gap_states: Vec<usize> = Vec::with_capacity(k + 1);
        let mut filled_states: Vec<(usize, usize)> = Vec::with_capacity(k);
        let mut bi: usize = 0;
        while bi < k
            invariant
                k == b.len() == blocks@.len(),
                b == blocks@,
                gap_state(b, k as int) + 2 <= usize::MAX,
                bi <= k,
                states@.len() == gap_state(b, bi as int),
                gap_states@.len() == bi,
                forall|j: int| 0 <= j < bi ==> #[trigger] gap_states@[j] == gap_state(b, j),
                forall|j: int| 0 <= j < bi ==> #[trigger] states@[gap_state(b, j)] == gap_entry(gap_state(b, j)),
                forall|j: int, q: int|
                    0 <= j < bi && 1 <= q <= b[j] ==> #[trigger] states@[gap_state(b, j) + q] == dead_entry(),
            decreases k - bi,
        {
            let block_len = blocks[bi];
            proof {
                lemma_sum_take_step(b, bi as int);
                if bi + 1 < k {
                    lemma_gap_mono(b, bi as int + 1, k as int);
                }
                lemma_sum_take_nonneg(b, bi as int + 1);
            }
            let g = states.len();
            gap_states.push(g);
            let last_gap = gap_states[gap_states.len() - 1];
            let ghost s_before = states@;
            states.push(StateTransitions { on_blank: Some(last_gap), on_filled: None });
            proof {
                assert forall|j: int| 0 <= j <= bi implies #[trigger] states@[gap_state(b, j)] == gap_entry(
                    gap_state(b, j),
                ) by {
                    if j < bi {
                        lemma_gap_mono(b, j, bi as int);
                        assert(states@[gap_state(b, j)] == s_before[gap_state(b, j)]);
                    }
                }
                assert forall|j: int, q: int| 0 <= j < bi && 1 <= q <= b[j] implies #[trigger] states@[gap_state(
                    b,
                    j,
                ) + q] == dead_entry() by {
                    lemma_gap_mono(b, j, bi as int);
                    assert(states@[gap_state(b, j) + q] == s_before[gap_state(b, j) + q]);
                }
            }
            let start = states.len();
            let mut progress: usize = 1;
            while progress <= block_len
                invariant_except_break
                    progress <= block_len + 1,
                    states@.len() == g + progress,
                    forall|q: int| 1 <= q < progress ==> #[trigger] states@[g + q] == dead_entry(),
                invariant
                    k == b.len() == blocks@.len(),
                    b == blocks@,
                    bi < k,
                    block_len == b[bi as int],
                    g == gap_state(b, bi as int),
                    start == g + 1,
                    gap_state(b, bi as int + 1) == g + block_len + 1,
                    gap_state(b, k as int) + 2 <= usize::MAX,
                    g + block_len + 1 <= gap_state(b, k as int),
                    1 <= progress,
                    gap_states@.len() == bi + 1,
                    forall|j: int| 0 <= j <= bi ==> #[trigger] gap_states@[j] == gap_state(b, j),
                    forall|j: int| 0 <= j <= bi ==> #[trigger] states@[gap_state(b, j)] == gap_entry(gap_state(b, j)),
                    forall|j: int, q: int|
                        0 <= j < bi && 1 <= q <= b[j] ==> #[trigger] states@[gap_state(b, j) + q] == dead_entry(),
                ensures
                    states@.len() == g + block_len + 1,
                    forall|q: int| 1 <= q <= block_len ==> #[trigger] states@[g + q] == dead_entry(),
                decreases block_len - progress,
            {
                let ghost s1 = states@;
                states.push(StateTransitions { on_blank: None, on_filled: None });
                filled_states.push((start, block_len));
                proof {
                    assert forall|j: int| 0 <= j <= bi implies #[trigger] states@[gap_state(b, j)] == gap_entry(
                        gap_state(b, j),
                    ) by {
                        if j < bi {
                            lemma_gap_mono(b, j, bi as int);
                        }
                        assert(states@[gap_state(b, j)] == s1[gap_state(b, j)]);
                    }
                    assert forall|j: int, q: int| 0 <= j < bi && 1 <= q <= b[j] implies #[trigger] states@[gap_state(
                        b,
                        j,
                    ) + q] == dead_entry() by {
                        lemma_gap_mono(b, j, bi as int);
                        assert(states@[gap_state(b, j) + q] == s1[gap_state(b, j) + q]);
                    }
                    assert forall|q: int| 1 <= q < progress + 1 implies #[trigger] states@[g + q] == dead_entry() by {
                        if q < progress {
                            assert(states@[g + q] == s1[g + q]);
                        }
                    }
                }
                if progress == block_len {
                    break;
                }
                progress += 1;
            }
            proof {
                assert(states@.len() == gap_state(b, bi as int + 1));
            }
            bi += 1;
        }
        let trailing = states.len();
        gap_states.push(trailing);
        let trailing_gap = gap_states[k];
        states.push(StateTransitions { on_blank: Some(trailing_gap), on_filled: None });
        proof {
            assert forall|j: int| 0 <= j <= k implies #[trigger] states@[gap_state(b, j)] == gap_entry(
                gap_state(b, j),
            ) by {
                if j < k {
                    lemma_gap_mono(b, j, k as int);
                }
            }
            assert forall|j: int, q: int| 0 <= j < k && 1 <= q <= b[j] implies #[trigger] states@[gap_state(b, j) + q]
                == dead_entry() by {
                lemma_gap_mono(b, j, k as int);
            }
        }
        let mut gi: usize = 0;
        while gi < k
            invariant
                k == b.len() == blocks@.len(),
                b == blocks@,
                gap_state(b, k as int) + 2 <= usize::MAX,
                gi <= k,
                states@.len() == gap_state(b, k as int) + 1,
                gap_states@.len() == k + 1,
                forall|j: int| 0 <= j <= k ==> #[trigger] gap_states@[j] == gap_state(b, j),
                forall|j: int|
                    0 <= j <= k ==> (#[trigger] states@[gap_state(b, j)]).on_blank == Some(gap_state(b, j) as usize),
                forall|j: int|
                    0 <= j <= k ==> (#[trigger] states@[gap_state(b, j)]).on_filled == if j < gi {
                        Some((gap_state(b, j) + 1) as usize)
                    } else {
                        None
                    },
                forall|j: int, q: int|
                    0 <= j < k && 1 <= q <= b[j] ==> #[trigger] states@[gap_state(b, j) + q] == dead_entry(),
            decreases k - gi,
        {
            let gap_state_index = gap_states[gi];
            proof {
                lemma_gap_mono(b, gi as int, k as int);
                lemma_sum_take_nonneg(b, gi as int);
            }
            let target = filled_state_index(blocks, gi, 1);
            let mut entry = states[gap_state_index];
            entry.on_filled = Some(target);
            states.set(gap_state_index, entry);
            proof {
                assert forall|j: int| 0 <= j <= k implies (#[trigger] states@[gap_state(b, j)]).on_blank == Some(
                    gap_state(b, j) as usize,
                ) && (states@[gap_state(b, j)]).on_filled == if j < gi + 1 {
                    Some((gap_state(b, j) + 1) as usize)
                } else {
                    None
                } by {
                    if j != gi {
                        lemma_state_distinct(b, j, 0, gi as int, 0);
                    }
                }
                assert forall|j: int, q: int| 0 <= j < k && 1 <= q <= b[j] implies #[trigger] states@[gap_state(
                    b,
                    j,
                ) + q] == dead_entry() by {
                    lemma_state_distinct(b, j, q, gi as int, 0);
                }
            }
            gi += 1;
        }
        let ghost after_gaps = states@;
        let mut i: usize = 0;
        while i < k
            invariant
                k == b.len() == blocks@.len(),
                b == blocks@,
                gap_state(b, k as int) + 2 <= usize::MAX,
                i <= k,
                states@.len() == gap_state(b, k as int) + 1,
                gap_states@.len() == k + 1,
                forall|j: int| 0 <= j <= k ==> #[trigger] gap_states@[j] == gap_state(b, j),
                forall|j: int| 0 <= j <= k ==> #[trigger] states@[gap_state(b, j)] == after_gaps[gap_state(b, j)],
                forall|j: int|
                    0 <= j <= k ==> (#[trigger] after_gaps[gap_state(b, j)]).on_blank == Some(
                        gap_state(b, j) as usize,
                    ),
                forall|j: int|
                    0 <= j <= k ==> (#[trigger] after_gaps[gap_state(b, j)]).on_filled == if j < k {
                        Some((gap_state(b, j) + 1) as usize)
                    } else {
                        None
                    },
                forall|j: int, q: int|
                    0 <= j < k && 1 <= q <= b[j] ==> #[trigger] states@[gap_state(b, j) + q] == if j < i {
                        block_entry(b, j, q)
                    } else {
                        dead_entry()
                    },
            decreases k - i,
        {
            let block_len = blocks[i];
            proof {
                lemma_gap_mono(b, i as int, k as int);
                lemma_sum_take_step(b, i as int);
                lemma_sum_take_nonneg(b, i as int);
            }
            let mut progress: usize = 1;
            while progress <= block_len
                invariant_except_break
                    forall|j: int, q: int|
                        0 <= j < k && 1 <= q <= b[j] ==> #[trigger] states@[gap_state(b, j) + q] == if j < i || (j == i
                            && q < progress) {
                            block_entry(b, j, q)
                        } else {
                            dead_entry()
                        },
                invariant
                    k == b.len() == blocks@.len(),
                    b == blocks@,
                    gap_state(b, k as int) + 2 <= usize::MAX,
                    i < k,
                    block_len == b[i as int],
                    gap_state(b, i as int) + block_len < gap_state(b, k as int),
                    gap_state(b, i as int + 1) == gap_state(b, i as int) + block_len + 1,
                    1 <= progress,
                    states@.len() == gap_state(b, k as int) + 1,
                    gap_states@.len() == k + 1,
                    forall|j: int| 0 <= j <= k ==> #[trigger] gap_states@[j] == gap_state(b, j),
                    forall|j: int| 0 <= j <= k ==> #[trigger] states@[gap_state(b, j)] == after_gaps[gap_state(b, j)],
                ensures
                    forall|j: int, q: int|
                        0 <= j < k && 1 <= q <= b[j] ==> #[trigger] states@[gap_state(b, j) + q] == if j <= i {
                            block_entry(b, j, q)
                        } else {
                            dead_entry()
                        },
                decreases block_len - progress,
            {
                let state = filled_state_index(blocks, i, progress);
                let ghost s0 = states@;
                if progress < block_len {
                    let next = filled_state_index(blocks, i, progress + 1);
                    let mut entry = states[state];
                    entry.on_filled = Some(next);
                    states.set(state, entry);
                } else {
                    let next_gap = gap_states[i + 1];
                    let mut entry = states[state];
                    entry.on_blank = Some(next_gap);
                    states.set(state, entry);
                }
                proof {
                    assert(s0[state as int] == dead_entry());
                    assert(states@[state as int] == block_entry(b, i as int, progress as int));
                    assert forall|j: int| 0 <= j <= k implies #[trigger] states@[gap_state(b, j)] == after_gaps[gap_state(
                        b,
                        j,
                    )] by {
                        lemma_state_distinct(b, j, 0, i as int, progress as int);
                    }
                    assert forall|j: int, q: int| 0 <= j < k && 1 <= q <= b[j] implies #[trigger] states@[gap_state(
                        b,
                        j,
                    ) + q] == if j < i || (j == i && q < progress + 1) {
                        block_entry(b, j, q)
                    } else {
                        dead_entry()
                    } by {
                        if j != i || q != progress {
                            lemma_state_distinct(b, j, q, i as int, progress as int);
                        }
                    }
                }
                if progress == block_len {
                    break;
                }
                progress += 1;
            }
            i += 1;
        }
        let mut accepting: Vec<usize> = vec![trailing_gap];
        if k > 0 {
            let last_block = blocks[k - 1];
            proof {
                lemma_gap_mono(b, k as int - 1, k as int);
            }
            accepting.push(filled_state_index(blocks, k - 1, last_block));
        }
        let a = Automaton { states, start: gap_states[0], accepting };
        proof {
            assert(gap_state(b, 0) == 0) by {
                assert(b.take(0) =~= Seq::<usize>::empty());
            }
            assert forall|j: int, p: int| 0 <= j < k && 1 <= p < b[j] implies #[trigger] a.states@[gap_state(b, j)
                + p] == (StateTransitions { on_blank: None, on_filled: Some((gap_state(b, j) + p + 1) as usize) }) by {
                assert(a.states@[gap_state(b, j) + p] == block_entry(b, j, p));
            }
            assert forall|j: int| 0 <= j < k && b[j] >= 1 implies #[trigger] a.states@[gap_state(b, j) + b[j]] == (
            StateTransitions { on_blank: Some(gap_state(b, j + 1) as usize), on_filled: None }) by {
                assert(a.states@[gap_state(b, j) + b[j]] == block_entry(b, j, b[j] as int));
            }
            if k > 0 {
                assert(a.accepting@ =~= seq![gap_state(b, k as int) as usize, (gap_state(b, k - 1) + b[k - 1]) as usize]);
            } else {
                assert(a.accepting@ =~= seq![gap_state(b, k as int) as usize]);
            }
        }
        a
    }
}

/// The clauses as sequences of literals.
spec fn clauses_view(c: Seq<Vec<i32>>) -> Seq<Seq<i32>> {
    c.map_values(|v: Vec<i32>| v@)
}

/// `[-a, -b]` for `a` the element at `i` of `vars` and every `b` after it.
spec fn pair_row(vars: Seq<i32>, i: int) -> Seq<Seq<i32>> {
    Seq::new((vars.len() - i - 1) as nat, |j: int| seq![(-vars[i]) as i32, (-vars[i + 1 + j]) as i32])
}

/// The pair rows of the first `i` elements of `vars`.
spec fn pairs_upto(vars: Seq<i32>, i: int) -> Seq<Seq<i32>>
    decreases i,
{
    if i <= 0 {
        Seq::empty()
    } else {
        pairs_upto(vars, i - 1) + pair_row(vars, i - 1)
    }
}

/// Exactly one of `vars` holds: the clause of all of them, and `[-a, -b]`
/// for each pair.
spec fn exactly_one_clauses(vars: Seq<i32>) -> Seq<Seq<i32>> {
    seq![vars] + pairs_upto(vars, vars.len() as int)
}

/// The clause of one transition: in state `cur` with the cell blank (or
/// filled), the next state is `next[ns]`; without a transition, the cell must
/// have the other value.
spec fn symbol_clause(cur: i32, cell: i32, next: Seq<i32>, ns: Option<usize>, filled: bool) -> Seq<i32> {
    let lit = if filled {
        (-cell) as i32
    } else {
        cell
    };
    match ns {
        Some(n) => seq![(-cur) as i32, lit, next[n as int]],
        None => seq![(-cur) as i32, lit],
    }
}

/// The transition clauses of the first `s` states at one position.
spec fn position_clauses(
    trans: Seq<StateTransitions>,
    cell: i32,
    cur: Seq<i32>,
    next: Seq<i32>,
    s: int,
) -> Seq<Seq<i32>>
    decreases s,
{
    if s <= 0 {
        Seq::empty()
    } else {
        position_clauses(trans, cell, cur, next, s - 1) + seq![
            symbol_clause(cur[s - 1], cell, next, trans[s - 1].on_blank, false),
            symbol_clause(cur[s - 1], cell, next, trans[s - 1].on_filled, true),
        ]
    }
}

/// The transition clauses of the first `p` positions of a line.
spec fn transition_clauses(
    trans: Seq<StateTransitions>,
    cells: Seq<i32>,
    sv: Seq<Seq<i32>>,
    p: int,
) -> Seq<Seq<i32>>
    decreases p,
{
    if p <= 0 {
        Seq::empty()
    } else {
        transition_clauses(trans, cells, sv, p - 1) + position_clauses(
            trans,
            cells[p - 1],
            sv[p - 1],
            sv[p],
            trans.len() as int,
        )
    }
}

/// One exactly-one constraint per position of the first `p` rows of state
/// variables.
spec fn uniqueness_clauses(sv: Seq<Seq<i32>>, p: int) -> Seq<Seq<i32>>
    decreases p,
{
    if p <= 0 {
        Seq::empty()
    } else {
        uniqueness_clauses(sv, p - 1) + exactly_one_clauses(sv[p - 1])
    }
}

/// Unit clauses fixing the states at the first position: the start state
/// holds, no other.
spec fn start_clauses(row: Seq<i32>, start: int) -> Seq<Seq<i32>> {
    Seq::new(row.len(), |s: int| seq![if s == start { row[s] } else { (-row[s]) as i32 }])
}

/// The variable of state `s` at position `p`, for state variables numbered
/// from `base`, `n` per position.
spec fn state_var(base: int, n: int, p: int, s: int) -> int {
    base + p * n + s
}

/// The state variables of a line of `len` cells and `n` states.
spec fn state_vars_from(base: int, len: int, n: int) -> Seq<Seq<i32>> {
    Seq::new((len + 1) as nat, |p: int| Seq::new(n as nat, |s: int| state_var(base, n, p, s) as i32))
}

/// All clauses of a line: the start state, one state per position, the
/// transitions, and an accepting state at the end.
spec fn line_clauses(a: Automaton, cells: Seq<i32>, sv: Seq<Seq<i32>>) -> Seq<Seq<i32>> {
    start_clauses(sv[0], a.start as int) + uniqueness_clauses(sv, sv.len() as int) + transition_clauses(
        a.states@,
        cells,
        sv,
        cells.len() as int,
    ) + seq![a.accepting@.map_values(|s: usize| sv[cells.len() as int][s as int])]
}

/// Every literal of every clause names a variable below `next`.
spec fn clauses_in_range(c: Seq<Seq<i32>>, next: int) -> bool {
    forall|i: int, j: int|
        0 <= i < c.len() && 0 <= j < c[i].len() ==> #[trigger] c[i][j] != 0 && -next < c[i][j] < next
}

/// Builds the CNF of a puzzle: one variable per cell (filled when true) and
/// one per state of each line automaton at each position.
#[derive(Debug)]
struct Encoder<'a> {
    puzzle: &'a Puzzle,
    clauses: Vec<Vec<i32>>,
    next_var: i32,
    cells: Vec<i32>,
}

impl<'a> Encoder<'a> {
    /// The encoder's bookkeeping: cell `i` has variable `i + 1`, and every
    /// clause uses variables below `next_var`.
    spec fn wf(&self) -> bool {
        let n = self.puzzle.spec_cols().len() * self.puzzle.spec_rows().len();
        &&& sat_fits(*self.puzzle)
        &&& self.cells@ == Seq::new(n as nat, |i: int| (i + 1) as i32)
        &&& n < self.next_var
        &&& clauses_in_range(clauses_view(self.clauses@), self.next_var as int)
    }

    fn new(puzzle: &'a Puzzle) -> (e: Self)
        requires
            sat_fits(*puzzle),
        ensures
            e.wf(),
            e.puzzle == puzzle,
            e.clauses@.len() == 0,
            e.next_var == puzzle.spec_cols().len() * puzzle.spec_rows().len() + 1,
    {
        let w = puzzle.width();
        let h = puzzle.height();
        proof {
            lemma_fits_bounds(*puzzle);
            assert(0 <= w * h) by (nonlinear_arith)
                requires
                    0 <= w,
                    0 <= h,
            ;
        }
        let n_cells = w * h;
        let mut next_var: i32 = 1;
        let mut cells: Vec<i32> = Vec::new();
        let mut i: usize = 0;
        while i < n_cells
            invariant
                n_cells < i32::MAX,
                i <= n_cells,
                next_var == i + 1,
                cells@ == Seq::new(i as nat, |x: int| (x + 1) as i32),
            decreases n_cells - i,
        {
            let var = next_var;
            next_var += 1;
            cells.push(var);
            proof {
                assert(cells@ =~= Seq::new((i + 1) as nat, |x: int| (x + 1) as i32));
            }
            i += 1;
        }
        let e = Encoder { puzzle, clauses: Vec::new(), next_var, cells };
        proof {
            assert(clauses_view(e.clauses@) =~= Seq::empty());
        }
        e
    }

    /// Takes the next fresh variable.
    fn alloc_var(&mut self) -> (v: i32)
        requires
            old(self).next_var < i32::MAX,
        ensures
            v == old(self).next_var,
            final(self).next_var == old(self).next_var + 1,
            final(self).clauses == old(self).clauses,
            final(self).cells == old(self).cells,
            final(self).puzzle == old(self).puzzle,
    {
        let var = self.next_var;
        self.next_var += 1;
        var
    }

    /// The variable of cell (`row`, `col`).
    fn cell_var(&self, row: usize, col: usize) -> (v: i32)
        requires
            self.wf(),
            row < self.puzzle.spec_rows().len(),
            col < self.puzzle.spec_cols().len(),
        ensures
            v == cell_pos(self.puzzle.spec_cols().len() as int, row as int, col as int) + 1,
    {
        let w = self.puzzle.width();
        proof {
            lemma_cell_pos_bounds(w as int, self.puzzle.spec_rows().len() as int, row as int, col as int);
        }
        self.cells[row * w + col]
    }

    /// Appends one clause.
    fn push_clause(&mut self, clause: Vec<i32>)
        requires
            forall|j: int| 0 <= j < clause@.len() ==> #[trigger] clause@[j] != 0 && -old(self).next_var < clause@[j]
                < old(self).next_var,
            old(self).wf(),
        ensures
            final(self).wf(),
            clauses_view(final(self).clauses@) == clauses_view(old(self).clauses@).push(clause@),
            final(self).next_var == old(self).next_var,
            final(self).cells == old(self).cells,
            final(self).puzzle == old(self).puzzle,
    {
        let ghost c0 = clauses_view(self.clauses@);
        self.clauses.push(clause);
        proof {
            assert(clauses_view(self.clauses@) =~= c0.push(clause@));
        }
    }
}

impl<'a> Encoder<'a> {
    /// Adds the clauses saying that exactly one of `vars` holds.
    fn exactly_one(&mut self, vars: &Vec<i32>)
        requires
            old(self).wf(),
            forall|j: int| 0 <= j < vars@.len() ==> 0 < #[trigger] vars@[j] < old(self).next_var,
        ensures
            final(self).wf(),
            clauses_view(final(self).clauses@) == clauses_view(old(self).clauses@) + exactly_one_clauses(vars@),
            final(self).next_var == old(self).next_var,
            final(self).cells == old(self).cells,
            final(self).puzzle == old(self).puzzle,
    {
        let ghost c0 = clauses_view(self.clauses@);
        let ghost v = vars@;
        let all = vars.clone();
        proof {
            assert(all@ =~= v);
        }
        self.push_clause(all);
        let n = vars.len();
        let mut i: usize = 0;
        while i < n
            invariant
                self.wf(),
                v == vars@,
                n == v.len(),
                i <= n,
                self.next_var == old(self).next_var,
                self.cells == old(self).cells,
                self.puzzle == old(self).puzzle,
                forall|j: int| 0 <= j < v.len() ==> 0 < #[trigger] v[j] < self.next_var,
                clauses_view(self.clauses@) == c0 + seq![v] + pairs_upto(v, i as int),
            decreases n - i,
        {
            let lhs = vars[i];
            let mut j: usize = i + 1;
            while j < n
                invariant
                    self.wf(),
                    v == vars@,
                    n == v.len(),
                    i < n,
                    i + 1 <= j <= n,
                    lhs == v[i as int],
                    self.next_var == old(self).next_var,
                    self.cells == old(self).cells,
                    self.puzzle == old(self).puzzle,
                    forall|j: int| 0 <= j < v.len() ==> 0 < #[trigger] v[j] < self.next_var,
                    clauses_view(self.clauses@) == c0 + seq![v] + pairs_upto(v, i as int) + pair_row(v, i as int).take(
                        j - i - 1,
                    ),
                decreases n - j,
            {
                let rhs = vars[j];
                let ghost cb = clauses_view(self.clauses@);
                let not_lhs = -lhs;
                let not_rhs = -rhs;
                self.push_clause(vec![not_lhs, not_rhs]);
                proof {
                    assert(pair_row(v, i as int).take(j - i) =~= pair_row(v, i as int).take(j - i - 1).push(
                        seq![(-lhs) as i32, (-rhs) as i32],
                    ));
                }
                j += 1;
            }
            proof {
                assert(pair_row(v, i as int).take(n - i - 1) =~= pair_row(v, i as int));
            }
            i += 1;
        }
        proof {
            assert(c0 + seq![v] + pairs_upto(v, n as int) =~= c0 + exactly_one_clauses(v));
        }
    }

    /// Allocates one variable per state and position of a line of `line_len`
    /// cells.
    fn alloc_state_vars(&mut self, line_len: usize, n_states: usize) -> (sv: Vec<Vec<i32>>)
        requires
            line_len < i32::MAX,
            old(self).next_var + (line_len + 1) * n_states <= i32::MAX,
        ensures
            sv@.map_values(|r: Vec<i32>| r@) == state_vars_from(old(self).next_var as int, line_len as int, n_states as int),
            final(self).next_var == old(self).next_var + (line_len + 1) * n_states,
            final(self).clauses == old(self).clauses,
            final(self).cells == old(self).cells,
            final(self).puzzle == old(self).puzzle,
    {
        let ghost base = self.next_var as int;
        let ghost n = n_states as int;
        let mut sv: Vec<Vec<i32>> = Vec::new();
        let mut p: usize = 0;
        while p <= line_len
            invariant
                p <= line_len + 1,
                line_len < i32::MAX,
                base + (line_len + 1) * n <= i32::MAX,
                n == n_states,
                self.next_var == base + p * n,
                self.clauses == old(self).clauses,
                self.cells == old(self).cells,
                self.puzzle == old(self).puzzle,
                sv@.len() == p,
                forall|q: int| 0 <= q < p ==> (#[trigger] sv@[q])@.len() == n,
                forall|q: int, s: int| 0 <= q < p && 0 <= s < n ==> #[trigger] sv@[q]@[s] == state_var(base, n, q, s),
            decreases line_len + 1 - p,
        {
            let mut row: Vec<i32> = Vec::new();
            let mut s: usize = 0;
            proof {
                assert((p + 1) * n <= (line_len + 1) * n) by (nonlinear_arith)
                    requires
                        p + 1 <= line_len + 1,
                        0 <= n,
                ;
                assert((p + 1) * n == p * n + n) by (nonlinear_arith);
            }
            while s < n_states
                invariant
                    p <= line_len,
                    n == n_states,
                    s <= n,
                    base + p * n + n <= i32::MAX,
                    self.next_var == base + p * n + s,
                    self.clauses == old(self).clauses,
                    self.cells == old(self).cells,
                    self.puzzle == old(self).puzzle,
                    row@.len() == s,
                    forall|t: int| 0 <= t < s ==> #[trigger] row@[t] == state_var(base, n, p as int, t),
                decreases n - s,
            {
                let var = self.alloc_var();
                row.push(var);
                s += 1;
            }
            sv.push(row);
            p += 1;
        }
        proof {
            let want = state_vars_from(base, line_len as int, n);
            assert forall|q: int| 0 <= q <= line_len implies sv@[q]@ =~= #[trigger] want[q] by {
                assert forall|t: int| 0 <= t < n implies sv@[q]@[t] == want[q][t] by {
                    assert(sv@[q]@[t] == state_var(base, n, q, t));
                }
            }
            assert(sv@.map_values(|r: Vec<i32>| r@) =~= want);
        }
        sv
    }
}

/// Every state of the automaton of clue `b` is the gap state of some block
/// or one of its block states.
proof fn lemma_state_cover(b: Seq<usize>, j: int, s: int) -> (jq: (int, int))
    requires
        0 <= j <= b.len(),
        gap_state(b, j) <= s <= gap_state(b, b.len() as int),
    ensures
        j <= jq.0 <= b.len(),
        0 <= jq.1,
        jq.0 < b.len() ==> jq.1 <= b[jq.0],
        jq.0 == b.len() ==> jq.1 == 0,
        s == gap_state(b, jq.0) + jq.1,
    decreases b.len() - j,
{
    if j == b.len() {
        (j, 0)
    } else {
        lemma_sum_take_step(b, j);
        if s <= gap_state(b, j) + b[j] {
            (j, s - gap_state(b, j))
        } else {
            lemma_state_cover(b, j + 1, s)
        }
    }
}

/// The start state, every transition target and every accepting state are
/// states of the automaton.
spec fn targets_ok(a: Automaton) -> bool {
    &&& a.start < a.states@.len()
    &&& forall|s: int|
        0 <= s < a.states@.len() ==> ((#[trigger] a.states@[s]).on_blank matches Some(n) ==> n < a.states@.len())
            && (a.states@[s].on_filled matches Some(n) ==> n < a.states@.len())
    &&& forall|i: int| 0 <= i < a.accepting@.len() ==> #[trigger] a.accepting@[i] < a.states@.len()
}

/// The automaton of a clue only refers to its own states.
proof fn lemma_automaton_targets(a: Automaton, b: Seq<usize>)
    requires
        automaton_of(a, b),
    ensures
        targets_ok(a),
{
    let k = b.len() as int;
    assert(gap_state(b, 0) == 0) by {
        assert(b.take(0) =~= Seq::<usize>::empty());
    }
    assert forall|s: int| 0 <= s < a.states@.len() implies ((#[trigger] a.states@[s]).on_blank matches Some(n) ==> n
        < a.states@.len()) && (a.states@[s].on_filled matches Some(n) ==> n < a.states@.len()) by {
        let (j, q) = lemma_state_cover(b, 0, s);
        if j < k {
            lemma_gap_mono(b, j, k);
            lemma_sum_take_step(b, j);
            if j + 1 < k {
                lemma_gap_mono(b, j + 1, k);
            }
            if q == 0 {
                assert(a.states@[gap_state(b, j)].on_blank == Some(gap_state(b, j) as usize));
                assert(a.states@[gap_state(b, j)].on_filled == Some((gap_state(b, j) + 1) as usize));
            } else if q < b[j] {
                assert(a.states@[gap_state(b, j) + q] == (StateTransitions {
                    on_blank: None,
                    on_filled: Some((gap_state(b, j) + q + 1) as usize),
                }));
            } else {
                assert(a.states@[gap_state(b, j) + b[j]] == (StateTransitions {
                    on_blank: Some(gap_state(b, j + 1) as usize),
                    on_filled: None,
                }));
            }
        } else {
            assert(a.states@[gap_state(b, k)].on_blank == Some(gap_state(b, k) as usize));
        }
    }
    if k > 0 {
        lemma_gap_mono(b, k - 1, k);
    }
}

/// The rows of state variables as sequences.
spec fn rows_view(sv: Seq<Vec<i32>>) -> Seq<Seq<i32>> {
    sv.map_values(|r: Vec<i32>| r@)
}

/// State variables lie between the first one and the next free variable.
proof fn lemma_state_var_bounds(base: int, len: int, n: int, p: int, s: int)
    requires
        0 <= p <= len,
        0 <= s < n,
    ensures
        base <= state_var(base, n, p, s) < base + (len + 1) * n,
{
    assert(0 <= p * n) by (nonlinear_arith)
        requires
            0 <= p,
            0 <= n,
    ;
    assert(p * n + s < (len + 1) * n) by (nonlinear_arith)
        requires
            0 <= p <= len,
            0 <= s < n,
    ;
}

/// The rows of `sv` are `len + 1` rows of `n` variables in `[lo, hi)`.
spec fn rows_ok(sv: Seq<Seq<i32>>, len: int, n: int, lo: int, hi: int) -> bool {
    &&& sv.len() == len + 1
    &&& forall|p: int| 0 <= p <= len ==> (#[trigger] sv[p]).len() == n
    &&& forall|p: int, s: int| 0 <= p <= len && 0 <= s < n ==> lo <= #[trigger] sv[p][s] < hi
}

impl<'a> Encoder<'a> {
    /// Fixes the states at the first position: the start state holds, no
    /// other.
    fn encode_start_state(&mut self, state_vars: &Vec<Vec<i32>>, start_state: usize)
        requires
            old(self).wf(),
            state_vars@.len() >= 1,
            forall|s: int|
                0 <= s < state_vars@[0]@.len() ==> 0 < #[trigger] state_vars@[0]@[s] < old(self).next_var,
        ensures
            final(self).wf(),
            clauses_view(final(self).clauses@) == clauses_view(old(self).clauses@) + start_clauses(
                state_vars@[0]@,
                start_state as int,
            ),
            final(self).next_var == old(self).next_var,
            final(self).cells == old(self).cells,
            final(self).puzzle == old(self).puzzle,
    {
        let ghost c0 = clauses_view(self.clauses@);
        let ghost row = state_vars@[0]@;
        let first = &state_vars[0];
        let mut state: usize = 0;
        while state < first.len()
            invariant
                self.wf(),
                row == first@,
                state <= row.len(),
                self.next_var == old(self).next_var,
                self.cells == old(self).cells,
                self.puzzle == old(self).puzzle,
                forall|s: int| 0 <= s < row.len() ==> 0 < #[trigger] row[s] < self.next_var,
                clauses_view(self.clauses@) == c0 + start_clauses(row, start_state as int).take(state as int),
            decreases row.len() - state,
        {
            let var = first[state];
            let lit = if state == start_state {
                var
            } else {
                -var
            };
            let unit = vec![lit];
            let ghost cb = clauses_view(self.clauses@);
            self.push_clause(unit);
            proof {
                assert(unit@ =~= seq![lit]);
                assert(start_clauses(row, start_state as int)[state as int] =~= seq![lit]);
                assert(clauses_view(self.clauses@) == cb.push(seq![lit]));
                assert(start_clauses(row, start_state as int).take(state + 1) =~= start_clauses(
                    row,
                    start_state as int,
                ).take(state as int).push(seq![lit]));
                assert(clauses_view(self.clauses@) =~= c0 + start_clauses(row, start_state as int).take(state + 1));
            }
            state += 1;
        }
        proof {
            assert(start_clauses(row, start_state as int).take(row.len() as int) =~= start_clauses(
                row,
                start_state as int,
            ));
        }
    }

    /// Exactly one state holds at each position.
    fn encode_state_uniqueness(&mut self, state_vars: &Vec<Vec<i32>>)
        requires
            old(self).wf(),
            forall|p: int, s: int|
                0 <= p < state_vars@.len() && 0 <= s < state_vars@[p]@.len() ==> 0 < #[trigger] state_vars@[p]@[s]
                    < old(self).next_var,
        ensures
            final(self).wf(),
            clauses_view(final(self).clauses@) == clauses_view(old(self).clauses@) + uniqueness_clauses(
                rows_view(state_vars@),
                state_vars@.len() as int,
            ),
            final(self).next_var == old(self).next_var,
            final(self).cells == old(self).cells,
            final(self).puzzle == old(self).puzzle,
    {
        let ghost c0 = clauses_view(self.clauses@);
        let ghost rows = rows_view(state_vars@);
        let mut p: usize = 0;
        while p < state_vars.len()
            invariant
                self.wf(),
                rows == rows_view(state_vars@),
                p <= state_vars@.len(),
                self.next_var == old(self).next_var,
                self.cells == old(self).cells,
                self.puzzle == old(self).puzzle,
                forall|q: int, s: int|
                    0 <= q < state_vars@.len() && 0 <= s < state_vars@[q]@.len() ==> 0 < #[trigger] state_vars@[q]@[s]
                        < self.next_var,
                clauses_view(self.clauses@) == c0 + uniqueness_clauses(rows, p as int),
            decreases state_vars@.len() - p,
        {
            let vars = &state_vars[p];
            self.exactly_one(vars);
            proof {
                assert(rows[p as int] == vars@);
                assert(c0 + uniqueness_clauses(rows, p as int) + exactly_one_clauses(vars@) =~= c0
                    + uniqueness_clauses(rows, p + 1));
            }
            p += 1;
        }
    }

    /// The clause of one transition (see `symbol_clause`).
    fn encode_symbol_transition(
        &mut self,
        current_state_var: i32,
        cell_var: i32,
        next_states: &Vec<i32>,
        next_state: Option<usize>,
        filled: bool,
    )
        requires
            old(self).wf(),
            0 < current_state_var < old(self).next_var,
            0 < cell_var < old(self).next_var,
            next_state matches Some(n) ==> n < next_states@.len() && 0 < next_states@[n as int]
                < old(self).next_var,
        ensures
            final(self).wf(),
            clauses_view(final(self).clauses@) == clauses_view(old(self).clauses@).push(
                symbol_clause(current_state_var, cell_var, next_states@, next_state, filled),
            ),
            final(self).next_var == old(self).next_var,
            final(self).cells == old(self).cells,
            final(self).puzzle == old(self).puzzle,
    {
        let cell_literal = if filled {
            -cell_var
        } else {
            cell_var
        };
        let not_current = -current_state_var;
        match next_state {
            Some(next) => {
                let target = next_states[next];
                self.push_clause(vec![not_current, cell_literal, target]);
            },
            None => {
                self.push_clause(vec![not_current, cell_literal]);
            },
        }
    }

    /// The transition clauses of every state at every position.
    fn encode_transitions(&mut self, automaton: &Automaton, cells: &[i32], state_vars: &Vec<Vec<i32>>)
        requires
            old(self).wf(),
            targets_ok(*automaton),
            rows_ok(
                rows_view(state_vars@),
                cells@.len() as int,
                automaton.states@.len() as int,
                1,
                old(self).next_var as int,
            ),
            forall|p: int| 0 <= p < cells@.len() ==> 0 < #[trigger] cells@[p] < old(self).next_var,
        ensures
            final(self).wf(),
            clauses_view(final(self).clauses@) == clauses_view(old(self).clauses@) + transition_clauses(
                automaton.states@,
                cells@,
                rows_view(state_vars@),
                cells@.len() as int,
            ),
            final(self).next_var == old(self).next_var,
            final(self).cells == old(self).cells,
            final(self).puzzle == old(self).puzzle,
    {
        let ghost c0 = clauses_view(self.clauses@);
        let ghost rows = rows_view(state_vars@);
        let ghost tr = automaton.states@;
        let n_states = automaton.states.len();
        let mut pos: usize = 0;
        while pos < cells.len()
            invariant
                self.wf(),
                rows == rows_view(state_vars@),
                tr == automaton.states@,
                n_states == tr.len(),
                targets_ok(*automaton),
                rows_ok(rows, cells@.len() as int, n_states as int, 1, self.next_var as int),
                forall|p: int| 0 <= p < cells@.len() ==> 0 < #[trigger] cells@[p] < self.next_var,
                pos <= cells@.len(),
                self.next_var == old(self).next_var,
                self.cells == old(self).cells,
                self.puzzle == old(self).puzzle,
                clauses_view(self.clauses@) == c0 + transition_clauses(tr, cells@, rows, pos as int),
            decreases cells@.len() - pos,
        {
            let cell_var = cells[pos];
            let current_states = &state_vars[pos];
            let next_states = &state_vars[pos + 1];
            proof {
                assert(rows[pos as int] == current_states@);
                assert(rows[pos + 1] == next_states@);
            }
            let ghost c1 = clauses_view(self.clauses@);
            let mut state: usize = 0;
            while state < n_states
                invariant
                    self.wf(),
                    rows == rows_view(state_vars@),
                    tr == automaton.states@,
                    n_states == tr.len(),
                    targets_ok(*automaton),
                    rows_ok(rows, cells@.len() as int, n_states as int, 1, self.next_var as int),
                    pos < cells@.len(),
                    cell_var == cells@[pos as int],
                    0 < cell_var < self.next_var,
                    current_states@ == rows[pos as int],
                    next_states@ == rows[pos + 1],
                    state <= n_states,
                    self.next_var == old(self).next_var,
                    self.cells == old(self).cells,
                    self.puzzle == old(self).puzzle,
                    clauses_view(self.clauses@) == c1 + position_clauses(
                        tr,
                        cell_var,
                        current_states@,
                        next_states@,
                        state as int,
                    ),
                decreases n_states - state,
            {
                let trans = automaton.states[state];
                let current = current_states[state];
                proof {
                    assert(0 < rows[pos as int][state as int] < self.next_var);
                    if let Some(nb) = trans.on_blank {
                        assert(0 < rows[pos + 1][nb as int] < self.next_var);
                    }
                    if let Some(nf) = trans.on_filled {
                        assert(0 < rows[pos + 1][nf as int] < self.next_var);
                    }
                }
                self.encode_symbol_transition(current, cell_var, next_states, trans.on_blank, false);
                self.encode_symbol_transition(current, cell_var, next_states, trans.on_filled, true);
                proof {
                    assert(c1 + position_clauses(tr, cell_var, current_states@, next_states@, state as int).push(
                        symbol_clause(current, cell_var, next_states@, trans.on_blank, false),
                    ).push(symbol_clause(current, cell_var, next_states@, trans.on_filled, true)) =~= c1
                        + position_clauses(tr, cell_var, current_states@, next_states@, state + 1));
                }
                state += 1;
            }
            proof {
                assert(c0 + transition_clauses(tr, cells@, rows, pos as int) + position_clauses(
                    tr,
                    cell_var,
                    current_states@,
                    next_states@,
                    n_states as int,
                ) =~= c0 + transition_clauses(tr, cells@, rows, pos + 1));
            }
            pos += 1;
        }
    }

    /// Some accepting state holds after the last cell.
    fn encode_accepting_states(&mut self, automaton: &Automaton, state_vars: &Vec<Vec<i32>>, line_len: usize)
        requires
            old(self).wf(),
            targets_ok(*automaton),
            rows_ok(
                rows_view(state_vars@),
                line_len as int,
                automaton.states@.len() as int,
                1,
                old(self).next_var as int,
            ),
        ensures
            final(self).wf(),
            clauses_view(final(self).clauses@) == clauses_view(old(self).clauses@).push(
                automaton.accepting@.map_values(|s: usize| rows_view(state_vars@)[line_len as int][s as int]),
            ),
            final(self).next_var == old(self).next_var,
            final(self).cells == old(self).cells,
            final(self).puzzle == old(self).puzzle,
    {
        let ghost rows = rows_view(state_vars@);
        let last = &state_vars[line_len];
        proof {
            assert(last@ == rows[line_len as int]);
        }
        let mut accept_clause: Vec<i32> = Vec::new();
        let mut i: usize = 0;
        while i < automaton.accepting.len()
            invariant
                targets_ok(*automaton),
                rows_ok(rows, line_len as int, automaton.states@.len() as int, 1, self.next_var as int),
                last@ == rows[line_len as int],
                i <= automaton.accepting@.len(),
                accept_clause@ == automaton.accepting@.take(i as int).map_values(|s: usize| rows[line_len as int][s as int]),
            decreases automaton.accepting@.len() - i,
        {
            let state = automaton.accepting[i];
            proof {
                assert(state < automaton.states@.len());
            }
            accept_clause.push(last[state]);
            proof {
                assert(automaton.accepting@.take(i + 1) =~= automaton.accepting@.take(i as int).push(state));
                assert(accept_clause@ =~= automaton.accepting@.take(i + 1).map_values(
                    |s: usize| rows[line_len as int][s as int],
                ));
            }
            i += 1;
        }
        proof {
            assert(automaton.accepting@.take(automaton.accepting@.len() as int) =~= automaton.accepting@);
            assert forall|j: int| 0 <= j < accept_clause@.len() implies #[trigger] accept_clause@[j] != 0 && -self.next_var
                < accept_clause@[j] < self.next_var by {
                assert(automaton.accepting@[j] < automaton.states@.len());
            }
        }
        self.push_clause(accept_clause);
    }
}

impl<'a> Encoder<'a> {
    /// Adds the clauses of one line with the given cell variables and clue.
    fn encode_line(&mut self, cells: &[i32], blocks: &[usize])
        requires
            old(self).wf(),
            cells@.len() < i32::MAX,
            forall|p: int| 0 <= p < cells@.len() ==> 0 < #[trigger] cells@[p] < old(self).next_var,
            gap_state(blocks@, blocks@.len() as int) + 2 <= usize::MAX,
            old(self).next_var + (cells@.len() + 1) * (gap_state(blocks@, blocks@.len() as int) + 1) <= i32::MAX,
        ensures
            final(self).wf(),
            final(self).next_var == old(self).next_var + (cells@.len() + 1) * (gap_state(
                blocks@,
                blocks@.len() as int,
            ) + 1),
            final(self).cells == old(self).cells,
            final(self).puzzle == old(self).puzzle,
            exists|a: Automaton|
                automaton_of(a, blocks@) && clauses_view(final(self).clauses@) == clauses_view(old(self).clauses@)
                    + #[trigger] line_clauses(
                    a,
                    cells@,
                    state_vars_from(
                        old(self).next_var as int,
                        cells@.len() as int,
                        gap_state(blocks@, blocks@.len() as int) + 1,
                    ),
                ),
    {
        let ghost c0 = clauses_view(self.clauses@);
        let ghost base = self.next_var as int;
        let automaton = Automaton::from_blocks(blocks);
        proof {
            lemma_automaton_targets(automaton, blocks@);
        }
        let n_states = automaton.states.len();
        let state_vars = self.alloc_state_vars(cells.len(), n_states);
        let ghost rows = rows_view(state_vars@);
        let ghost len = cells@.len() as int;
        proof {
            assert forall|p: int, s: int| 0 <= p <= len && 0 <= s < n_states implies 1 <= #[trigger] rows[p][s]
                < self.next_var by {
                lemma_state_var_bounds(base, len, n_states as int, p, s);
            }
            assert(rows_ok(rows, len, n_states as int, 1, self.next_var as int));
            assert forall|p: int, s: int|
                0 <= p < state_vars@.len() && 0 <= s < state_vars@[p]@.len() implies 0 < #[trigger] state_vars@[p]@[s]
                    < self.next_var by {
                assert(rows[p] == state_vars@[p]@);
            }
        }
        self.encode_start_state(&state_vars, automaton.start);
        self.encode_state_uniqueness(&state_vars);
        self.encode_transitions(&automaton, cells, &state_vars);
        self.encode_accepting_states(&automaton, &state_vars, cells.len());
        proof {
            assert(state_vars@[0]@ == rows[0]);
            assert(state_vars@.len() == len + 1);
            assert(clauses_view(self.clauses@) =~= c0 + line_clauses(automaton, cells@, rows));
        }
    }
}

/// Number of states of the automaton of clue `b`.
pub open spec fn n_states(b: Seq<usize>) -> int {
    gap_state(b, b.len() as int) + 1
}

/// Variables taken by the states of the first `id` lines (rows first).
pub open spec fn vars_used(puzzle: Puzzle, id: int) -> int
    decreases id,
{
    if id <= 0 {
        0
    } else {
        let w = puzzle.spec_cols().len() as int;
        let h = puzzle.spec_rows().len() as int;
        vars_used(puzzle, id - 1) + (line_len(w, h, id - 1) + 1) * n_states(clue_of(puzzle, id - 1))
    }
}

/// The encoding of the puzzle numbers its variables below `2^30`, so that
/// the SAT solver can double each literal in 32 bits, and its automata's
/// states with `usize`.
pub open spec fn encoding_fits(puzzle: Puzzle) -> bool {
    let w = puzzle.spec_cols().len() as int;
    let h = puzzle.spec_rows().len() as int;
    &&& w * h + 1 + vars_used(puzzle, w + h) <= 0x3fff_ffff
    &&& forall|id: int|
        0 <= id < w + h ==> gap_state(clue_of(puzzle, id), clue_of(puzzle, id).len() as int) + 2 <= usize::MAX
}

/// The puzzles the SAT solver takes: at least one column, and an encoding
/// whose variables are numbered below 2^30.
pub open spec fn sat_fits(puzzle: Puzzle) -> bool {
    &&& 0 < puzzle.spec_cols().len()
    &&& encoding_fits(puzzle)
}

/// Each line takes at least one variable per cell and one more.
proof fn lemma_vars_lower(puzzle: Puzzle, id: int)
    requires
        0 <= id <= puzzle.spec_cols().len() + puzzle.spec_rows().len(),
    ensures
        vars_used(puzzle, id) >= id,
        forall|k: int|
            0 <= k < id ==> vars_used(puzzle, id) >= line_len(
                puzzle.spec_cols().len() as int,
                puzzle.spec_rows().len() as int,
                k,
            ) + 1,
    decreases id,
{
    if id > 0 {
        lemma_vars_lower(puzzle, id - 1);
        let w = puzzle.spec_cols().len() as int;
        let h = puzzle.spec_rows().len() as int;
        let b = clue_of(puzzle, id - 1);
        let len = line_len(w, h, id - 1);
        lemma_sum_take_nonneg(b, b.len() as int);
        assert(len + 1 <= (len + 1) * n_states(b)) by (nonlinear_arith)
            requires
                0 <= len,
                1 <= n_states(b),
        ;
    }
}

/// The bounds an encoding that fits puts on the puzzle's size.
proof fn lemma_fits_bounds(puzzle: Puzzle)
    requires
        sat_fits(puzzle),
    ensures
        puzzle.spec_cols().len() * puzzle.spec_rows().len() < i32::MAX,
        puzzle.spec_cols().len() < i32::MAX,
        puzzle.spec_rows().len() < i32::MAX,
{
    let w = puzzle.spec_cols().len() as int;
    let h = puzzle.spec_rows().len() as int;
    lemma_vars_lower(puzzle, w + h);
    if h > 0 {
        assert(line_len(w, h, 0) == w);
    }
    assert(line_len(w, h, h) == h);
    assert(0 <= w * h) by (nonlinear_arith)
        requires
            0 <= w,
            0 <= h,
    ;
}

/// The lines before `id` take no more variables than the first `id2` lines.
proof fn lemma_vars_used_mono(puzzle: Puzzle, id: int, id2: int)
    requires
        0 <= id <= id2,
    ensures
        0 <= vars_used(puzzle, id) <= vars_used(puzzle, id2),
    decreases id2,
{
    if id2 > 0 {
        let w = puzzle.spec_cols().len() as int;
        let h = puzzle.spec_rows().len() as int;
        let b = clue_of(puzzle, id2 - 1);
        lemma_sum_take_nonneg(b, b.len() as int);
        assert(0 <= (line_len(w, h, id2 - 1) + 1) * n_states(b)) by (nonlinear_arith)
            requires
                0 <= line_len(w, h, id2 - 1),
                0 <= n_states(b),
        ;
        if id < id2 {
            lemma_vars_used_mono(puzzle, id, id2 - 1);
        } else {
            lemma_vars_used_mono(puzzle, id2 - 1, id2 - 1);
        }
    }
}

/// The cell variables of line `id`.
spec fn line_vars(puzzle: Puzzle, id: int) -> Seq<i32> {
    let w = puzzle.spec_cols().len() as int;
    let h = puzzle.spec_rows().len() as int;
    if id < h {
        Seq::new(w as nat, |c: int| (cell_pos(w, id, c) + 1) as i32)
    } else {
        Seq::new(h as nat, |r: int| (cell_pos(w, r, id - h) + 1) as i32)
    }
}

/// The clauses of line `id` for its automaton `a`.
spec fn encoded_line(puzzle: Puzzle, id: int, a: Automaton) -> Seq<Seq<i32>> {
    let w = puzzle.spec_cols().len() as int;
    let h = puzzle.spec_rows().len() as int;
    let b = clue_of(puzzle, id);
    line_clauses(a, line_vars(puzzle, id), state_vars_from(w * h + 1 + vars_used(puzzle, id), line_len(w, h, id), n_states(b)))
}

/// Clause `cl` is a clause of the encoding of one of the first `n` lines.
spec fn clause_of_lines(cl: Seq<i32>, puzzle: Puzzle, n: int) -> bool {
    exists|id: int, a: Automaton, t: int|
        0 <= id < n && automaton_of(a, clue_of(puzzle, id)) && 0 <= t < encoded_line(puzzle, id, a).len() && cl
            == #[trigger] encoded_line(puzzle, id, a)[t]
}

/// Every clause of `cv` comes from the encoding of one of the first `n`
/// lines.
spec fn from_lines(cv: Seq<Seq<i32>>, puzzle: Puzzle, n: int) -> bool {
    forall|q: int| 0 <= q < cv.len() ==> clause_of_lines(#[trigger] cv[q], puzzle, n)
}

/// The clauses of line `id` stand, in order, somewhere in `cv`.
spec fn line_encoded(cv: Seq<Seq<i32>>, puzzle: Puzzle, id: int) -> bool {
    exists|a: Automaton, lo: int|
        automaton_of(a, clue_of(puzzle, id)) && 0 <= lo && lo + encoded_line(puzzle, id, a).len() <= cv.len()
            && #[trigger] cv.subrange(lo, lo + encoded_line(puzzle, id, a).len()) == encoded_line(puzzle, id, a)
}

/// Appending clauses keeps every encoded line.
proof fn lemma_encoded_extend(cv: Seq<Seq<i32>>, extra: Seq<Seq<i32>>, puzzle: Puzzle, id: int)
    requires
        line_encoded(cv, puzzle, id),
    ensures
        line_encoded(cv + extra, puzzle, id),
{
    let (a, lo) = choose|a: Automaton, lo: int|
        automaton_of(a, clue_of(puzzle, id)) && 0 <= lo && lo + encoded_line(puzzle, id, a).len() <= cv.len()
            && #[trigger] cv.subrange(lo, lo + encoded_line(puzzle, id, a).len()) == encoded_line(puzzle, id, a);
    let lc = encoded_line(puzzle, id, a);
    assert((cv + extra).subrange(lo, lo + lc.len()) =~= cv.subrange(lo, lo + lc.len()));
}

impl<'a> Encoder<'a> {
    /// The cell variables of row `row`.
    fn row_vars(&self, row: usize) -> (v: Vec<i32>)
        requires
            self.wf(),
            row < self.puzzle.spec_rows().len(),
        ensures
            v@ == line_vars(*self.puzzle, row as int),
    {
        let w = self.puzzle.width();
        let mut vars: Vec<i32> = Vec::new();
        let mut col: usize = 0;
        while col < w
            invariant
                self.wf(),
                w == self.puzzle.spec_cols().len(),
                row < self.puzzle.spec_rows().len(),
                col <= w,
                vars@ == line_vars(*self.puzzle, row as int).take(col as int),
            decreases w - col,
        {
            let v = self.cell_var(row, col);
            vars.push(v);
            proof {
                assert(line_vars(*self.puzzle, row as int).take(col + 1) =~= line_vars(*self.puzzle, row as int).take(
                    col as int,
                ).push(v));
            }
            col += 1;
        }
        proof {
            assert(line_vars(*self.puzzle, row as int).take(w as int) =~= line_vars(*self.puzzle, row as int));
        }
        vars
    }

    /// The cell variables of column `col`.
    fn col_vars(&self, col: usize) -> (v: Vec<i32>)
        requires
            self.wf(),
            col < self.puzzle.spec_cols().len(),
        ensures
            v@ == line_vars(*self.puzzle, self.puzzle.spec_rows().len() + col),
    {
        let h = self.puzzle.height();
        let ghost id = self.puzzle.spec_rows().len() + col;
        let mut vars: Vec<i32> = Vec::new();
        let mut row: usize = 0;
        while row < h
            invariant
                self.wf(),
                h == self.puzzle.spec_rows().len(),
                id == h + col,
                col < self.puzzle.spec_cols().len(),
                row <= h,
                vars@ == line_vars(*self.puzzle, id).take(row as int),
            decreases h - row,
        {
            let v = self.cell_var(row, col);
            vars.push(v);
            proof {
                assert(line_vars(*self.puzzle, id).take(row + 1) =~= line_vars(*self.puzzle, id).take(row as int).push(v));
            }
            row += 1;
        }
        proof {
            assert(line_vars(*self.puzzle, id).take(h as int) =~= line_vars(*self.puzzle, id));
        }
        vars
    }

    /// Adds the clauses of every row, then of every column.
    fn encode(&mut self)
        requires
            old(self).wf(),
            old(self).clauses@.len() == 0,
            old(self).next_var == old(self).puzzle.spec_cols().len() * old(self).puzzle.spec_rows().len() + 1,
            encoding_fits(*old(self).puzzle),
        ensures
            final(self).wf(),
            final(self).puzzle == old(self).puzzle,
            final(self).cells == old(self).cells,
            final(self).next_var == old(self).next_var + vars_used(
                *old(self).puzzle,
                (old(self).puzzle.spec_cols().len() + old(self).puzzle.spec_rows().len()) as int,
            ),
            forall|id: int|
                0 <= id < old(self).puzzle.spec_cols().len() + old(self).puzzle.spec_rows().len() ==> line_encoded(
                    clauses_view(final(self).clauses@),
                    *old(self).puzzle,
                    id,
                ),
            from_lines(
                clauses_view(final(self).clauses@),
                *old(self).puzzle,
                (old(self).puzzle.spec_cols().len() + old(self).puzzle.spec_rows().len()) as int,
            ),
    {
        let puzzle = self.puzzle;
        let h = puzzle.height();
        let w = puzzle.width();
        let ghost total = w + h;
        let ghost base = self.next_var as int;
        proof {
            lemma_fits_bounds(*puzzle);
            assert((h > 0 ==> w <= w * h) && (w > 0 ==> h <= w * h)) by (nonlinear_arith);
        }
        let mut id: usize = 0;
        while id < w + h
            invariant
                self.wf(),
                self.puzzle == puzzle,
                self.cells == old(self).cells,
                w == puzzle.spec_cols().len(),
                h == puzzle.spec_rows().len(),
                sat_fits(*puzzle),
                w * h < i32::MAX,
                h > 0 ==> w <= w * h,
                w > 0 ==> h <= w * h,
                encoding_fits(*puzzle),
                base == w * h + 1,
                id <= w + h,
                self.next_var == base + vars_used(*puzzle, id as int),
                forall|j: int| 0 <= j < id ==> line_encoded(clauses_view(self.clauses@), *puzzle, j),
                from_lines(clauses_view(self.clauses@), *puzzle, id as int),
            decreases w + h - id,
        {
            let (vars, blocks) = if id < h {
                let rv = self.row_vars(id);
                let clues = puzzle.row_clues();
                proof {
                    assert(clues@.map_values(|c: Clue| c.spec_blocks())[id as int] == clues@[id as int].spec_blocks());
                }
                (rv, clues[id].blocks())
            } else {
                let cv = self.col_vars(id - h);
                let clues = puzzle.col_clues();
                proof {
                    assert(clues@.map_values(|c: Clue| c.spec_blocks())[id - h] == clues@[id - h].spec_blocks());
                }
                (cv, clues[id - h].blocks())
            };
            let ghost b = blocks@;
            proof {
                assert(b == clue_of(*puzzle, id as int));
                assert(vars@ == line_vars(*puzzle, id as int));
                assert(vars@.len() == line_len(w as int, h as int, id as int));
                lemma_vars_used_mono(*puzzle, id as int + 1, w + h);
                assert forall|p: int| 0 <= p < vars@.len() implies 0 < #[trigger] vars@[p] < self.next_var by {
                    if id < h {
                        lemma_cell_pos_bounds(w as int, h as int, id as int, p);
                    } else {
                        lemma_cell_pos_bounds(w as int, h as int, p, id - h);
                    }
                    lemma_vars_used_mono(*puzzle, 0, id as int);
                }
            }
            let ghost cv0 = clauses_view(self.clauses@);
            self.encode_line(vars.as_slice(), blocks);
            proof {
                let a = choose|a: Automaton|
                    automaton_of(a, b) && clauses_view(self.clauses@) == cv0 + #[trigger] line_clauses(
                        a,
                        vars@,
                        state_vars_from(base + vars_used(*puzzle, id as int), vars@.len() as int, gap_state(b, b.len() as int) + 1),
                    );
                let lc = encoded_line(*puzzle, id as int, a);
                assert(clauses_view(self.clauses@) == cv0 + lc);
                assert(clauses_view(self.clauses@).subrange(cv0.len() as int, (cv0.len() + lc.len()) as int) =~= lc);
                assert(line_encoded(clauses_view(self.clauses@), *puzzle, id as int));
                assert forall|j: int| 0 <= j < id + 1 implies line_encoded(clauses_view(self.clauses@), *puzzle, j) by {
                    if j < id {
                        lemma_encoded_extend(cv0, lc, *puzzle, j);
                    }
                }
                let cv1 = clauses_view(self.clauses@);
                assert forall|q: int| 0 <= q < cv1.len() implies clause_of_lines(#[trigger] cv1[q], *puzzle, id + 1) by {
                    if q < cv0.len() {
                        assert(cv1[q] == cv0[q]);
                        assert(clause_of_lines(cv0[q], *puzzle, id as int));
                    } else {
                        assert(cv1[q] == lc[q - cv0.len()]);
                    }
                }
            }
            id += 1;
        }
    }
}

/// `lit` holds under `model`: the model lists `lit` at the place of its
/// variable.
pub open spec fn lit_holds(model: Seq<i32>, lit: i32) -> bool {
    let v: int = if lit < 0 {
        -lit
    } else {
        lit as int
    };
    0 < v <= model.len() && model[v - 1] == lit
}

/// Some literal of `clause` holds under `model`.
pub open spec fn clause_holds(model: Seq<i32>, clause: Seq<i32>) -> bool {
    exists|j: int| 0 <= j < clause.len() && lit_holds(model, #[trigger] clause[j])
}

/// `model` gives each variable `1..=model.len()` a value: place `i` holds
/// `i + 1` (true) or `-(i + 1)` (false).
pub open spec fn is_assignment(model: Seq<i32>) -> bool {
    forall|i: int| 0 <= i < model.len() ==> #[trigger] model[i] == i + 1 || model[i] == -(i + 1)
}

/// Calls splr's `Certificate::try_from` on the clauses. splr documents
/// `SAT(v)` as a satisfying assignment listed in variable order (`v[i]` is
/// `i + 1` or `-(i + 1)`), and `UNSAT` as a proof that no assignment
/// satisfies the clauses; the contract states both. splr's own errors (a
/// time-out, an internal failure, lack of memory) come back as `Err`;
/// nothing states when they happen. `requires` rules out the literal 0
/// (`InvalidLiteral`) and keeps every variable below `2^30`: splr takes the
/// absolute value of each literal and doubles it in 32 bits.
#[verifier::external_body]
fn certificate(clauses: Vec<Vec<i32>>) -> (r: Result<Option<Vec<i32>>, splr::SolverError>)
    requires
        forall|i: int, j: int|
            0 <= i < clauses@.len() && 0 <= j < clauses@[i]@.len() ==> #[trigger] clauses@[i]@[j] != 0
                && -0x4000_0000 < clauses@[i]@[j] < 0x4000_0000,
    ensures
        r matches Ok(Some(m)) ==> is_assignment(m@) && forall|i: int|
            0 <= i < clauses@.len() ==> clause_holds(m@, #[trigger] clauses@[i]@),
        r matches Ok(None) ==> forall|m: Seq<i32>|
            is_assignment(m) ==> exists|i: int| 0 <= i < clauses@.len() && !clause_holds(m, #[trigger] clauses@[i]@),
{
    match splr::Certificate::try_from(clauses) {
        Ok(splr::Certificate::SAT(model)) => Ok(Some(model)),
        Ok(splr::Certificate::UNSAT) => Ok(None),
        Err(e) => Err(e),
    }
}

/// The clause that rules out the complete grid `cells` again: some cell must
/// take the other value.
spec fn blocking_clause(cells: Seq<Cell>) -> Seq<i32> {
    Seq::new(cells.len(), |i: int| if cells[i] == Cell::Filled { (-(i + 1)) as i32 } else { (i + 1) as i32 })
}

/// The value of variable `v` after reading the first `k` literals of
/// `model`: the sign of the last literal of `v` among them, false if none.
spec fn value_upto(model: Seq<i32>, v: int, k: int) -> bool
    decreases k,
{
    if k <= 0 {
        false
    } else {
        let lit = model[k - 1];
        let a: int = if lit < 0 {
            -lit
        } else {
            lit as int
        };
        if a == v {
            lit > 0
        } else {
            value_upto(model, v, k - 1)
        }
    }
}

/// In an assignment, variable `v` is true exactly when `v` is listed.
proof fn lemma_value_of_assignment(model: Seq<i32>, v: int, k: int)
    requires
        is_assignment(model),
        0 <= k <= model.len(),
        0 < v,
    ensures
        value_upto(model, v, k) == (v <= k && model[v - 1] == v),
    decreases k,
{
    if k > 0 {
        lemma_value_of_assignment(model, v, k - 1);
        assert(model[k - 1] == k || model[k - 1] == -k);
    }
}

/// `2` to the power `n`.
spec fn two_pow(n: nat) -> nat
    decreases n,
{
    if n == 0 {
        1
    } else {
        2 * two_pow((n - 1) as nat)
    }
}

/// Every cell is filled or blank.
spec fn binary(s: Seq<Cell>) -> bool {
    forall|i: int| 0 <= i < s.len() ==> #[trigger] s[i] != Cell::Unknown
}

/// A grid of filled and blank cells read as a binary number.
spec fn code(s: Seq<Cell>) -> int
    decreases s.len(),
{
    if s.len() == 0 {
        0
    } else {
        2 * code(s.drop_last()) + if s.last() == Cell::Filled {
            1int
        } else {
            0int
        }
    }
}

/// The code of `n` cells is below `2^n`.
proof fn lemma_code_bounds(s: Seq<Cell>)
    ensures
        0 <= code(s) < two_pow(s.len()),
    decreases s.len(),
{
    if s.len() > 0 {
        lemma_code_bounds(s.drop_last());
    }
}

/// Binary grids of one size with the same code are equal.
proof fn lemma_code_inj(a: Seq<Cell>, b: Seq<Cell>)
    requires
        a.len() == b.len(),
        binary(a),
        binary(b),
        code(a) == code(b),
    ensures
        a == b,
    decreases a.len(),
{
    if a.len() > 0 {
        let n = a.len() - 1;
        assert(a[n] != Cell::Unknown && b[n] != Cell::Unknown);
        assert(a.last() == b.last());
        lemma_code_inj(a.drop_last(), b.drop_last());
        assert(a =~= a.drop_last().push(a.last()));
        assert(b =~= b.drop_last().push(b.last()));
    } else {
        assert(a =~= b);
    }
}

/// Distinct integers in `[0, hi)` are at most `hi` many.
proof fn lemma_distinct_ints(v: Seq<int>, hi: int)
    requires
        0 <= hi,
        v.no_duplicates(),
        forall|i: int| 0 <= i < v.len() ==> 0 <= #[trigger] v[i] < hi,
    ensures
        v.len() <= hi,
{
    v.unique_seq_to_set();
    vstd::set_lib::lemma_int_range(0, hi);
    assert(v.to_set().subset_of(vstd::set_lib::set_int_range(0, hi)));
    vstd::set_lib::lemma_len_subset(v.to_set(), vstd::set_lib::set_int_range(0, hi));
}

/// Pairwise different binary grids of `n` cells are at most `2^n` many.
proof fn lemma_grid_count(g: Seq<Grid>, n: nat)
    requires
        forall|t: int| 0 <= t < g.len() ==> (#[trigger] g[t]).spec_cells().len() == n && binary(g[t].spec_cells()),
        forall|t: int, u: int| 0 <= t < u < g.len() ==> (#[trigger] g[t]).spec_cells() != (#[trigger] g[u]).spec_cells(),
    ensures
        g.len() <= two_pow(n),
{
    let codes = g.map_values(|x: Grid| code(x.spec_cells()));
    assert forall|i: int| 0 <= i < codes.len() implies 0 <= #[trigger] codes[i] < two_pow(n) by {
        lemma_code_bounds(g[i].spec_cells());
    }
    assert forall|i: int, j: int| 0 <= i < j < codes.len() implies codes[i] != codes[j] by {
        if codes[i] == codes[j] {
            lemma_code_inj(g[i].spec_cells(), g[j].spec_cells());
        }
    }
    lemma_distinct_ints(codes, two_pow(n) as int);
}

impl<'a> Encoder<'a> {
    /// Rules out the complete grid `grid` in later models.
    fn add_blocking_clause(&mut self, grid: &Grid)
        requires
            old(self).wf(),
            grid.wf(),
            grid.spec_width() == old(self).puzzle.spec_cols().len(),
            grid.spec_height() == old(self).puzzle.spec_rows().len(),
            binary(grid.spec_cells()),
        ensures
            final(self).wf(),
            clauses_view(final(self).clauses@) == clauses_view(old(self).clauses@).push(
                blocking_clause(grid.spec_cells()),
            ),
            final(self).next_var == old(self).next_var,
            final(self).cells == old(self).cells,
            final(self).puzzle == old(self).puzzle,
    {
        let w = grid.width();
        let h = grid.height();
        let ghost cells = grid.spec_cells();
        let ghost n = cells.len() as int;
        proof {
            grid.lemma_wf();
        }
        let mut clause: Vec<i32> = Vec::new();
        let mut row: usize = 0;
        while row < h
            invariant
                self.wf(),
                self.puzzle == old(self).puzzle,
                w == grid.spec_width() == self.puzzle.spec_cols().len(),
                h == grid.spec_height() == self.puzzle.spec_rows().len(),
                grid.wf(),
                cells == grid.spec_cells(),
                n == w * h,
                n == cells.len(),
                binary(cells),
                row <= h,
                clause@ == blocking_clause(cells).take(row * w),
            decreases h - row,
        {
            let mut col: usize = 0;
            while col < w
                invariant
                    self.wf(),
                    self.puzzle == old(self).puzzle,
                    w == grid.spec_width() == self.puzzle.spec_cols().len(),
                    h == grid.spec_height() == self.puzzle.spec_rows().len(),
                    grid.wf(),
                    cells == grid.spec_cells(),
                    n == w * h,
                    n == cells.len(),
                    binary(cells),
                    row < h,
                    col <= w,
                    clause@ == blocking_clause(cells).take(row * w + col),
                decreases w - col,
            {
                let var = self.cell_var(row, col);
                proof {
                    lemma_cell_pos_bounds(w as int, h as int, row as int, col as int);
                    assert(cells[cell_pos(w as int, row as int, col as int)] == grid.at(row as int, col as int));
                    assert(cells[cell_pos(w as int, row as int, col as int)] != Cell::Unknown);
                }
                let lit = match grid.cell(row, col) {
                    Cell::Filled => -var,
                    Cell::Blank => var,
                    Cell::Unknown => vstd::pervasive::unreached(),
                };
                clause.push(lit);
                proof {
                    assert(blocking_clause(cells).take(row * w + col + 1) =~= blocking_clause(cells).take(
                        row * w + col,
                    ).push(lit));
                }
                col += 1;
            }
            proof {
                assert((row + 1) * w == row * w + w) by (nonlinear_arith);
            }
            row += 1;
        }
        proof {
            assert(h * w == w * h) by (nonlinear_arith);
            assert(blocking_clause(cells).take(n) =~= blocking_clause(cells));
            assert forall|j: int| 0 <= j < clause@.len() implies #[trigger] clause@[j] != 0 && -self.next_var
                < clause@[j] < self.next_var by {
            }
        }
        self.push_clause(clause);
    }

    /// The grid that a model describes: a cell is filled when its variable
    /// is true.
    fn grid_from_model(&self, model: &Vec<i32>) -> (g: Grid)
        requires
            self.wf(),
        ensures
            g.wf(),
            g.spec_width() == self.puzzle.spec_cols().len(),
            g.spec_height() == self.puzzle.spec_rows().len(),
            g.spec_cells().len() == self.puzzle.spec_cols().len() * self.puzzle.spec_rows().len(),
            forall|i: int|
                0 <= i < g.spec_cells().len() ==> #[trigger] g.spec_cells()[i] == if value_upto(
                    model@,
                    i + 1,
                    model@.len() as int,
                ) {
                    Cell::Filled
                } else {
                    Cell::Blank
                },
    {
        let nv = self.next_var as usize;
        let mut values: Vec<bool> = vec![false; nv];
        let mut k: usize = 0;
        while k < model.len()
            invariant
                nv == self.next_var,
                values@.len() == nv,
                k <= model@.len(),
                forall|v: int| 0 <= v < nv ==> #[trigger] values@[v] == value_upto(model@, v, k as int),
            decreases model@.len() - k,
        {
            let lit = model[k];
            let index: usize = if lit < 0 {
                (0i64 - lit as i64) as usize
            } else {
                lit as usize
            };
            if index < values.len() {
                values.set(index, lit > 0);
            }
            k += 1;
        }
        let w = self.puzzle.width();
        let h = self.puzzle.height();
        proof {
            lemma_fits_bounds(*self.puzzle);
            assert(0 <= w * h) by (nonlinear_arith)
                requires
                    0 <= w,
                    0 <= h,
            ;
        }
        let mut grid = Grid::new(w, h);
        let mut row: usize = 0;
        while row < h
            invariant
                self.wf(),
                w == self.puzzle.spec_cols().len() > 0,
                h == self.puzzle.spec_rows().len(),
                w * h < i32::MAX,
                grid.wf(),
                grid.spec_width() == w,
                grid.spec_height() == h,
                grid.spec_cells().len() == w * h,
                nv == self.next_var,
                values@.len() == nv,
                forall|v: int| 0 <= v < nv ==> #[trigger] values@[v] == value_upto(model@, v, model@.len() as int),
                row <= h,
                forall|i: int|
                    0 <= i < row * w ==> #[trigger] grid.spec_cells()[i] == if value_upto(
                        model@,
                        i + 1,
                        model@.len() as int,
                    ) {
                        Cell::Filled
                    } else {
                        Cell::Blank
                    },
            decreases h - row,
        {
            let mut col: usize = 0;
            while col < w
                invariant
                    self.wf(),
                    w == self.puzzle.spec_cols().len() > 0,
                    h == self.puzzle.spec_rows().len(),
                    w * h < i32::MAX,
                    grid.wf(),
                    grid.spec_width() == w,
                    grid.spec_height() == h,
                    grid.spec_cells().len() == w * h,
                    nv == self.next_var,
                    values@.len() == nv,
                    forall|v: int| 0 <= v < nv ==> #[trigger] values@[v] == value_upto(model@, v, model@.len() as int),
                    row < h,
                    col <= w,
                    forall|i: int|
                        0 <= i < row * w + col ==> #[trigger] grid.spec_cells()[i] == if value_upto(
                            model@,
                            i + 1,
                            model@.len() as int,
                        ) {
                            Cell::Filled
                        } else {
                            Cell::Blank
                        },
                decreases w - col,
            {
                let var = self.cell_var(row, col) as usize;
                proof {
                    lemma_cell_pos_bounds(w as int, h as int, row as int, col as int);
                }
                let value = if values[var] {
                    Cell::Filled
                } else {
                    Cell::Blank
                };
                grid.set_cell(row, col, value);
                col += 1;
            }
            proof {
                assert((row + 1) * w == row * w + w) by (nonlinear_arith);
            }
            row += 1;
        }
        proof {
            assert(h * w == w * h) by (nonlinear_arith);
        }
        grid
    }

    /// A copy of the clauses.
    fn clauses_copy(&self) -> (c: Vec<Vec<i32>>)
        ensures
            clauses_view(c@) == clauses_view(self.clauses@),
    {
        let mut out: Vec<Vec<i32>> = Vec::new();
        let mut i: usize = 0;
        while i < self.clauses.len()
            invariant
                i <= self.clauses@.len(),
                clauses_view(out@) == clauses_view(self.clauses@).take(i as int),
            decreases self.clauses@.len() - i,
        {
            let copy = self.clauses[i].clone();
            proof {
                assert(copy@ =~= self.clauses@[i as int]@);
            }
            let ghost o0 = out@;
            out.push(copy);
            proof {
                assert(clauses_view(out@) =~= clauses_view(o0).push(copy@));
                assert(clauses_view(out@) =~= clauses_view(self.clauses@).take(i + 1));
            }
            i += 1;
        }
        proof {
            assert(clauses_view(self.clauses@).take(self.clauses@.len() as int) =~= clauses_view(self.clauses@));
        }
        out
    }
}

/// `cells` are the cell values of `model`: a cell is filled exactly when its
/// variable is listed as true.
pub open spec fn grid_of_model(cells: Seq<Cell>, model: Seq<i32>) -> bool {
    forall|i: int|
        0 <= i < cells.len() ==> #[trigger] cells[i] == if i + 1 <= model.len() && model[i] == i + 1 {
            Cell::Filled
        } else {
            Cell::Blank
        }
}

/// Every clause of the encoding of line `id` holds under `model`.
spec fn line_holds(puzzle: Puzzle, model: Seq<i32>, id: int) -> bool {
    exists|a: Automaton|
        automaton_of(a, clue_of(puzzle, id)) && forall|q: int|
            0 <= q < encoded_line(puzzle, id, a).len() ==> clause_holds(model, #[trigger] encoded_line(puzzle, id, a)[q])
}

/// Every clause of the encoding of each line holds under `model`.
pub(crate) closed spec fn lines_hold(puzzle: Puzzle, model: Seq<i32>) -> bool {
    forall|id: int|
        0 <= id < puzzle.spec_cols().len() + puzzle.spec_rows().len() ==> #[trigger] line_holds(puzzle, model, id)
}

/// A model of all clauses satisfies the clauses of every encoded line.
proof fn lemma_lines_hold(cv: Seq<Seq<i32>>, puzzle: Puzzle, model: Seq<i32>)
    requires
        forall|id: int|
            0 <= id < puzzle.spec_cols().len() + puzzle.spec_rows().len() ==> line_encoded(cv, puzzle, id),
        forall|i: int| 0 <= i < cv.len() ==> clause_holds(model, #[trigger] cv[i]),
    ensures
        lines_hold(puzzle, model),
{
    assert forall|id: int| 0 <= id < puzzle.spec_cols().len() + puzzle.spec_rows().len() implies #[trigger] line_holds(
        puzzle,
        model,
        id,
    ) by {
        assert(line_encoded(cv, puzzle, id));
        let (a, lo) = choose|a: Automaton, lo: int|
            automaton_of(a, clue_of(puzzle, id)) && 0 <= lo && lo + encoded_line(puzzle, id, a).len() <= cv.len()
                && #[trigger] cv.subrange(lo, lo + encoded_line(puzzle, id, a).len()) == encoded_line(puzzle, id, a);
        let lc = encoded_line(puzzle, id, a);
        assert forall|q: int| 0 <= q < lc.len() implies clause_holds(model, #[trigger] lc[q]) by {
            assert(cv.subrange(lo, lo + lc.len())[q] == cv[lo + q]);
        }
    }
}

/// The cells of some assignment under which every line's clauses hold.
pub closed spec fn has_model(puzzle: Puzzle, cells: Seq<Cell>) -> bool {
    exists|m: Seq<i32>| is_assignment(m) && grid_of_model(cells, m) && lines_hold(puzzle, m)
}

/// The blocking clauses of the grids found, in order.
spec fn blocking_clauses(found: Seq<Grid>) -> Seq<Seq<i32>> {
    found.map_values(|g: Grid| blocking_clause(g.spec_cells()))
}

/// What the solution loop keeps: the encoding of every line followed by one
/// blocking clause per grid found, and the grids themselves, complete,
/// pairwise different, each the cells of a model of every line.
spec fn search_state(enc: Seq<Seq<i32>>, cv: Seq<Seq<i32>>, puzzle: Puzzle, found: Seq<Grid>) -> bool {
    let n = (puzzle.spec_cols().len() * puzzle.spec_rows().len()) as nat;
    &&& forall|id: int|
        0 <= id < puzzle.spec_cols().len() + puzzle.spec_rows().len() ==> line_encoded(enc, puzzle, id)
    &&& cv == enc + blocking_clauses(found)
    &&& forall|t: int|
        0 <= t < found.len() ==> grid_shape(#[trigger] found[t], puzzle) && binary(found[t].spec_cells())
            && found[t].spec_cells().len() == n
    &&& forall|t: int| 0 <= t < found.len() ==> has_model(puzzle, (#[trigger] found[t]).spec_cells())
    &&& forall|t: int, u: int|
        0 <= t < u < found.len() ==> (#[trigger] found[t]).spec_cells() != (#[trigger] found[u]).spec_cells()
}

/// Enumerates solutions: asks the SAT solver for a model, reads its grid,
/// rules that grid out, and repeats until the clauses are unsatisfiable or
/// `max_sol` grids are found (`0`: no limit). An error of the SAT solver
/// ends the search with that error.
pub(super) fn solve(puzzle: &Puzzle, max_sol: usize) -> (r: Result<Solution, SolveError>)
    requires
        sat_fits(*puzzle),
        encoding_fits(*puzzle),
    ensures
        r matches Ok(s) ==> {
            &&& forall|i: int|
                0 <= i < s.grids().len() ==> grid_shape(#[trigger] s.grids()[i], *puzzle) && grid_complete(
                    s.grids()[i],
                )
            &&& forall|i: int, j: int|
                0 <= i < j < s.grids().len() ==> (#[trigger] s.grids()[i]).spec_cells() != (
                #[trigger] s.grids()[j]).spec_cells()
            &&& max_sol > 0 ==> s.grids().len() <= max_sol
            &&& forall|i: int| 0 <= i < s.grids().len() ==> has_model(*puzzle, (#[trigger] s.grids()[i]).spec_cells())
            &&& max_sol == 0 || s.grids().len() < max_sol ==> all_found(*puzzle, s.grids())
            &&& sorted_by_count(s)
        },
{
    let mut encoder = Encoder::new(puzzle);
    encoder.encode();
    let ghost enc = clauses_view(encoder.clauses@);
    let ghost n = (puzzle.spec_cols().len() * puzzle.spec_rows().len()) as nat;
    let mut solutions: Vec<Grid> = Vec::new();
    proof {
        lemma_grid_count(solutions@, n);
        assert(enc =~= enc + blocking_clauses(solutions@));
    }
    loop
        invariant
            encoder.wf(),
            encoder.puzzle == puzzle,
            n == puzzle.spec_cols().len() * puzzle.spec_rows().len(),
            search_state(enc, clauses_view(encoder.clauses@), *puzzle, solutions@),
            max_sol > 0 ==> solutions@.len() <= max_sol,
            solutions@.len() <= two_pow(n),
            encoding_fits(*puzzle),
            encoder.next_var <= 0x3fff_ffff,
            from_lines(enc, *puzzle, (puzzle.spec_cols().len() + puzzle.spec_rows().len()) as int),
        ensures
            (max_sol > 0 && solutions@.len() == max_sol) || all_found(*puzzle, solutions@),
        decreases two_pow(n) - solutions@.len(),
    {
        if max_sol > 0 && solutions.len() == max_sol {
            break;
        }
        let clauses = encoder.clauses_copy();
        let ghost cv = clauses_view(encoder.clauses@);
        proof {
            assert forall|i: int, j: int|
                0 <= i < clauses@.len() && 0 <= j < clauses@[i]@.len() implies #[trigger] clauses@[i]@[j] != 0
                && -0x4000_0000 < clauses@[i]@[j] < 0x4000_0000 by {
                assert(cv[i] == clauses@[i]@);
            }
        }
        let model = match certificate(clauses) {
            Err(e) => {
                return Err(SolveError::SatSolver(e));
            },
            Ok(None) => {
                proof {
                    let found = solutions@;
                    assert forall|g: Grid| clues_positive(*puzzle) && solves(g, *puzzle) implies exists|t: int|
                        0 <= t < found.len() && #[trigger] found[t].spec_cells() == g.spec_cells() by {
                        if !exists|t: int| 0 <= t < found.len() && #[trigger] found[t].spec_cells() == g.spec_cells() {
                            g.lemma_wf();
                            assert forall|t: int| 0 <= t < found.len() implies binary(
                                (#[trigger] found[t]).spec_cells(),
                            ) && found[t].spec_cells().len() == g.spec_cells().len() && found[t].spec_cells()
                                != g.spec_cells() by {
                                assert(grid_shape(found[t], *puzzle));
                            }
                            lemma_solution_model(*puzzle, g, enc, found);
                            let m = model_of(*puzzle, g);
                            let i = choose|i: int| 0 <= i < clauses@.len() && !clause_holds(m, #[trigger] clauses@[i]@);
                            assert(cv[i] == clauses@[i]@);
                            assert(clause_holds(m, cv[i]));
                        }
                    }
                }
                break;
            },
            Ok(Some(m)) => m,
        };
        proof {
            assert forall|i: int| 0 <= i < cv.len() implies clause_holds(model@, #[trigger] cv[i]) by {
                assert(clause_holds(model@, clauses@[i]@));
            }
        }
        let grid = encoder.grid_from_model(&model);
        let ghost old_sol = solutions@;
        proof {
            let m = model@;
            assert forall|i: int| 0 <= i < grid.spec_cells().len() implies #[trigger] grid.spec_cells()[i] == if i + 1
                <= m.len() && m[i] == i + 1 {
                Cell::Filled
            } else {
                Cell::Blank
            } by {
                lemma_value_of_assignment(m, i + 1, m.len() as int);
            }
            assert(grid_of_model(grid.spec_cells(), m));
            assert(binary(grid.spec_cells()));
            assert forall|id: int| 0 <= id < puzzle.spec_cols().len() + puzzle.spec_rows().len() implies line_encoded(
                cv,
                *puzzle,
                id,
            ) by {
                lemma_encoded_extend(enc, blocking_clauses(old_sol), *puzzle, id);
            }
            lemma_lines_hold(cv, *puzzle, m);
            assert(has_model(*puzzle, grid.spec_cells()));
            assert forall|t: int| 0 <= t < old_sol.len() implies (#[trigger] old_sol[t]).spec_cells()
                != grid.spec_cells() by {
                let old_cells = old_sol[t].spec_cells();
                let bc = blocking_clause(old_cells);
                assert(cv[enc.len() + t] == bc);
                assert(clause_holds(m, cv[enc.len() + t]));
                let j = choose|j: int| 0 <= j < bc.len() && lit_holds(m, #[trigger] bc[j]);
                assert(grid.spec_cells()[j] != old_cells[j]);
            }
        }
        encoder.add_blocking_clause(&grid);
        solutions.push(grid);
        proof {
            assert(blocking_clauses(solutions@) =~= blocking_clauses(old_sol).push(blocking_clause(grid.spec_cells())));
            assert(clauses_view(encoder.clauses@) =~= enc + blocking_clauses(solutions@));
            assert forall|t: int| 0 <= t < solutions@.len() implies grid_shape(#[trigger] solutions@[t], *puzzle)
                && binary(solutions@[t].spec_cells()) && solutions@[t].spec_cells().len() == n by {
                if t < old_sol.len() {
                    assert(solutions@[t] == old_sol[t]);
                }
            }
            assert forall|t: int| 0 <= t < solutions@.len() implies has_model(
                *puzzle,
                (#[trigger] solutions@[t]).spec_cells(),
            ) by {
                if t < old_sol.len() {
                    assert(solutions@[t] == old_sol[t]);
                }
            }
            assert forall|t: int, u: int| 0 <= t < u < solutions@.len() implies (#[trigger] solutions@[t]).spec_cells()
                != (#[trigger] solutions@[u]).spec_cells() by {
                assert(solutions@[t] == old_sol[t]);
                if u < old_sol.len() {
                    assert(solutions@[u] == old_sol[u]);
                }
            }
            lemma_grid_count(solutions@, n);
        }
    }
    proof {
        assert forall|i: int| 0 <= i < solutions@.len() implies grid_complete(#[trigger] solutions@[i]) by {
            assert(binary(solutions@[i].spec_cells()));
        }
    }
    let ghost found = solutions@;
    let s = into_solution(solutions);
    proof {
        assert(s.grids() == found);
        assert forall|i: int| 0 <= i < s.grids().len() implies has_model(*puzzle, (#[trigger] s.grids()[i]).spec_cells())
            by {
            assert(s.grids()[i] == found[i]);
        }
    }
    Ok(s)
}

/// Longer prefixes of a clue have larger sums.
proof fn lemma_sum_take_mono(b: Seq<usize>, j: int, k: int)
    requires
        0 <= j <= k <= b.len(),
    ensures
        sum_blocks(b.take(j)) <= sum_blocks(b.take(k)),
    decreases k - j,
{
    if j < k {
        lemma_sum_take_step(b, k - 1);
        lemma_sum_take_mono(b, j, k - 1);
    }
}

/// One line's share of the variables, and the variables of the lines after it.
proof fn lemma_line_share(puzzle: Puzzle, id: int)
    requires
        0 <= id < puzzle.spec_cols().len() + puzzle.spec_rows().len(),
    ensures
        n_states(clue_of(puzzle, id)) >= 1,
        vars_used(puzzle, id + 1) >= vars_used(puzzle, id) + n_states(clue_of(puzzle, id)),
        vars_used(puzzle, id + 1) <= vars_used(
            puzzle,
            (puzzle.spec_cols().len() + puzzle.spec_rows().len()) as int,
        ),
{
    let w = puzzle.spec_cols().len() as int;
    let h = puzzle.spec_rows().len() as int;
    let b = clue_of(puzzle, id);
    lemma_sum_take_nonneg(b, b.len() as int);
    assert(n_states(b) <= (line_len(w, h, id) + 1) * n_states(b)) by (nonlinear_arith)
        requires
            0 <= line_len(w, h, id),
            1 <= n_states(b),
    ;
    lemma_vars_used_mono(puzzle, id + 1, w + h);
}

/// Tells whether the SAT encoding of a puzzle fits (`encoding_fits`): its
/// variables must be numbered below 2^30.
pub fn sat_encoding_fits(puzzle: &Puzzle) -> (r: bool)
    ensures
        r == encoding_fits(*puzzle),
{
    let w = puzzle.width();
    let h = puzzle.height();
    let ghost total = (w + h) as int;
    let cells = match w.checked_mul(h) {
        Some(c) => c,
        None => {
            proof {
                assert(vars_used(*puzzle, 0) == 0);
                lemma_vars_used_mono(*puzzle, 0, total);
            }
            return false;
        },
    };
    if cells >= 1073741823usize {
        proof {
            assert(vars_used(*puzzle, 0) == 0);
            lemma_vars_used_mono(*puzzle, 0, total);
        }
        return false;
    }
    proof {
        assert((h > 0 ==> w <= w * h) && (w > 0 ==> h <= w * h)) by (nonlinear_arith);
        assert(w + h <= usize::MAX) by (nonlinear_arith)
            requires
                w * h < 1073741823,
        ;
    }
    let limit: u64 = 1073741823u64 - (cells + 1) as u64;
    let mut used: u64 = 0;
    let mut id: usize = 0;
    while id < w + h
        invariant
            w == puzzle.spec_cols().len(),
            h == puzzle.spec_rows().len(),
            cells == w * h < 1073741823,
            h > 0 ==> w <= cells,
            w > 0 ==> h <= cells,
            w + h <= usize::MAX,
            total == w + h,
            limit == 0x3fff_ffff - (w * h + 1),
            id <= w + h,
            used == vars_used(*puzzle, id as int),
            used <= limit,
        decreases w + h - id,
    {
        let blocks = if id < h {
            let clues = puzzle.row_clues();
            proof {
                assert(clues@.map_values(|c: Clue| c.spec_blocks())[id as int] == clues@[id as int].spec_blocks());
            }
            clues[id].blocks()
        } else {
            let clues = puzzle.col_clues();
            proof {
                assert(clues@.map_values(|c: Clue| c.spec_blocks())[id - h] == clues@[id - h].spec_blocks());
            }
            clues[id - h].blocks()
        };
        let ghost b = blocks@;
        proof {
            assert(b == clue_of(*puzzle, id as int));
            lemma_line_share(*puzzle, id as int);
        }
        let len: usize = if id < h {
            w
        } else {
            h
        };
        if blocks.len() as u64 >= limit {
            proof {
                lemma_sum_take_nonneg(b, b.len() as int);
                lemma_vars_used_mono(*puzzle, id as int, total);
            }
            return false;
        }
        let mut states: u64 = blocks.len() as u64 + 1;
        proof {
            assert(b.take(0) =~= Seq::<usize>::empty());
        }
        let mut j: usize = 0;
        while j < blocks.len()
            invariant
                w == puzzle.spec_cols().len(),
                h == puzzle.spec_rows().len(),
                total == w + h,
                id < w + h,
                b == blocks@,
                b == clue_of(*puzzle, id as int),
                used == vars_used(*puzzle, id as int),
                limit == 0x3fff_ffff - (w * h + 1),
                j <= b.len(),
                states == b.len() + 1 + sum_blocks(b.take(j as int)),
                states <= limit,
            decreases b.len() - j,
        {
            proof {
                lemma_sum_take_step(b, j as int);
            }
            let block = blocks[j] as u64;
            if block > limit - states {
                proof {
                    lemma_sum_take_mono(b, j as int + 1, b.len() as int);
                    lemma_line_share(*puzzle, id as int);
                    lemma_vars_used_mono(*puzzle, id as int, total);
                }
                return false;
            }
            states = states + block;
            j += 1;
        }
        if states > limit {
            proof {
                lemma_sum_take_nonneg(b, b.len() as int);
                lemma_vars_used_mono(*puzzle, id as int, total);
            }
            return false;
        }
        proof {
            assert(b.take(b.len() as int) =~= b);
            assert(states == n_states(b));
            assert(len < 1073741823);
            assert((len + 1) * states <= 2147483647 * 2147483647) by (nonlinear_arith)
                requires
                    len < 2147483647,
                    states <= 2147483647,
            ;
        }
        let need: u64 = (len as u64 + 1) * states;
        if need > limit - used {
            proof {
                lemma_vars_used_mono(*puzzle, id as int + 1, total);
            }
            return false;
        }
        used = used + need;
        id += 1;
    }
    proof {
        assert forall|i: int| 0 <= i < total implies gap_state(clue_of(*puzzle, i), clue_of(*puzzle, i).len() as int) + 2
            <= usize::MAX by {
            lemma_line_share(*puzzle, i);
            lemma_vars_used_mono(*puzzle, 0, i);
        }
    }
    true
}

/// Every clause of `c` holds under `m`.
spec fn all_hold(m: Seq<i32>, c: Seq<Seq<i32>>) -> bool {
    forall|q: int| 0 <= q < c.len() ==> clause_holds(m, #[trigger] c[q])
}

/// The clauses of both parts of a concatenation hold when those of the whole
/// do.
proof fn lemma_all_hold_concat(m: Seq<i32>, x: Seq<Seq<i32>>, y: Seq<Seq<i32>>)
    requires
        all_hold(m, x + y),
    ensures
        all_hold(m, x),
        all_hold(m, y),
{
    assert forall|q: int| 0 <= q < x.len() implies clause_holds(m, #[trigger] x[q]) by {
        assert((x + y)[q] == x[q]);
    }
    assert forall|q: int| 0 <= q < y.len() implies clause_holds(m, #[trigger] y[q]) by {
        assert((x + y)[x.len() + q] == y[q]);
    }
}

/// A positive variable and its negation do not both hold.
proof fn lemma_lit_neg(m: Seq<i32>, v: i32)
    requires
        v > 0,
        lit_holds(m, v),
    ensures
        !lit_holds(m, (-v) as i32),
{
}

/// Under the pair clauses of the first `i` variables, no two of those
/// variables and later ones hold together.
proof fn lemma_pairs_hold(m: Seq<i32>, vars: Seq<i32>, i: int)
    requires
        0 <= i <= vars.len(),
        all_hold(m, pairs_upto(vars, i)),
        forall|t: int| 0 <= t < vars.len() ==> #[trigger] vars[t] > 0,
    ensures
        forall|s1: int, s2: int|
            0 <= s1 < i && s1 < s2 < vars.len() && #[trigger] lit_holds(m, vars[s1]) ==> !#[trigger] lit_holds(
                m,
                vars[s2],
            ),
    decreases i,
{
    if i > 0 {
        let row = pair_row(vars, i - 1);
        lemma_all_hold_concat(m, pairs_upto(vars, i - 1), row);
        lemma_pairs_hold(m, vars, i - 1);
        assert forall|s1: int, s2: int|
            0 <= s1 < i && s1 < s2 < vars.len() && #[trigger] lit_holds(m, vars[s1]) implies !#[trigger] lit_holds(
            m,
            vars[s2],
        ) by {
            if s1 == i - 1 {
                let cl = row[s2 - i];
                assert(cl == seq![(-vars[i - 1]) as i32, (-vars[s2]) as i32]);
                assert(clause_holds(m, cl));
                let jj = choose|jj: int| 0 <= jj < cl.len() && lit_holds(m, #[trigger] cl[jj]);
                lemma_lit_neg(m, vars[i - 1]);
                if lit_holds(m, vars[s2]) {
                    lemma_lit_neg(m, vars[s2]);
                }
            }
        }
    }
}

/// The two transition clauses of state `t` at one position hold.
spec fn sym_holds(m: Seq<i32>, trans: Seq<StateTransitions>, cell: i32, cur: Seq<i32>, next: Seq<i32>, t: int) -> bool {
    &&& clause_holds(m, symbol_clause(cur[t], cell, next, trans[t].on_blank, false))
    &&& clause_holds(m, symbol_clause(cur[t], cell, next, trans[t].on_filled, true))
}

/// The clauses of the first `s` states at a position give each of them its
/// transition clauses.
proof fn lemma_position_hold(
    m: Seq<i32>,
    trans: Seq<StateTransitions>,
    cell: i32,
    cur: Seq<i32>,
    next: Seq<i32>,
    s: int,
)
    requires
        0 <= s,
        all_hold(m, position_clauses(trans, cell, cur, next, s)),
    ensures
        forall|t: int| 0 <= t < s ==> #[trigger] sym_holds(m, trans, cell, cur, next, t),
    decreases s,
{
    if s > 0 {
        let last = seq![
            symbol_clause(cur[s - 1], cell, next, trans[s - 1].on_blank, false),
            symbol_clause(cur[s - 1], cell, next, trans[s - 1].on_filled, true),
        ];
        lemma_all_hold_concat(m, position_clauses(trans, cell, cur, next, s - 1), last);
        lemma_position_hold(m, trans, cell, cur, next, s - 1);
        assert(clause_holds(m, last[0]));
        assert(clause_holds(m, last[1]));
    }
}

/// The transition clauses of state `t` at position `i` of a line hold.
spec fn step_holds(m: Seq<i32>, trans: Seq<StateTransitions>, cells: Seq<i32>, sv: Seq<Seq<i32>>, i: int, t: int) -> bool {
    sym_holds(m, trans, cells[i], sv[i], sv[i + 1], t)
}

/// The transition clauses of the first `p` positions give every state at
/// those positions its transition clauses.
proof fn lemma_transitions_hold(m: Seq<i32>, trans: Seq<StateTransitions>, cells: Seq<i32>, sv: Seq<Seq<i32>>, p: int)
    requires
        0 <= p,
        all_hold(m, transition_clauses(trans, cells, sv, p)),
    ensures
        forall|i: int, t: int| 0 <= i < p && 0 <= t < trans.len() ==> #[trigger] step_holds(m, trans, cells, sv, i, t),
    decreases p,
{
    if p > 0 {
        lemma_all_hold_concat(
            m,
            transition_clauses(trans, cells, sv, p - 1),
            position_clauses(trans, cells[p - 1], sv[p - 1], sv[p], trans.len() as int),
        );
        lemma_transitions_hold(m, trans, cells, sv, p - 1);
        lemma_position_hold(m, trans, cells[p - 1], sv[p - 1], sv[p], trans.len() as int);
        assert forall|i: int, t: int| 0 <= i < p && 0 <= t < trans.len() implies #[trigger] step_holds(
            m,
            trans,
            cells,
            sv,
            i,
            t,
        ) by {
            if i == p - 1 {
                assert(sym_holds(m, trans, cells[p - 1], sv[p - 1], sv[p], t));
            }
        }
    }
}

/// In state `cur`, a cell of known value leads through its transition to a
/// next state that holds; a missing transition cannot be taken.
proof fn lemma_step(m: Seq<i32>, cell: i32, filled: bool, cur: i32, next: Seq<i32>, tr: StateTransitions)
    requires
        cur > 0,
        cell > 0,
        lit_holds(m, cur),
        filled ==> lit_holds(m, cell),
        !filled ==> !lit_holds(m, cell),
        clause_holds(m, symbol_clause(cur, cell, next, tr.on_blank, false)),
        clause_holds(m, symbol_clause(cur, cell, next, tr.on_filled, true)),
    ensures
        filled ==> (tr.on_filled matches Some(ns) && lit_holds(m, next[ns as int])),
        !filled ==> (tr.on_blank matches Some(ns) && lit_holds(m, next[ns as int])),
{
    lemma_lit_neg(m, cur);
    if filled {
        lemma_lit_neg(m, cell);
        let cl = symbol_clause(cur, cell, next, tr.on_filled, true);
        let jj = choose|jj: int| 0 <= jj < cl.len() && lit_holds(m, #[trigger] cl[jj]);
        assert(jj == 2);
    } else {
        let cl = symbol_clause(cur, cell, next, tr.on_blank, false);
        let jj = choose|jj: int| 0 <= jj < cl.len() && lit_holds(m, #[trigger] cl[jj]);
        assert(jj == 2);
    }
}

/// The facts about one line that its run rests on: `a` is the automaton of
/// `b` (blocks of at least one cell), `cells` are the line's variables and
/// agree with `line`, `sv` its state variables, and the start, transition,
/// uniqueness (at the end) and accepting clauses hold under `m`.
spec fn run_ctx(a: Automaton, b: Seq<usize>, m: Seq<i32>, cells: Seq<i32>, line: Seq<Cell>, sv: Seq<Seq<i32>>) -> bool {
    let n = a.states@.len() as int;
    let len = line.len() as int;
    &&& automaton_of(a, b)
    &&& forall|i: int| 0 <= i < b.len() ==> #[trigger] b[i] >= 1
    &&& gap_state(b, b.len() as int) + 2 <= usize::MAX
    &&& cells.len() == len
    &&& sv.len() == len + 1
    &&& forall|p: int| 0 <= p <= len ==> (#[trigger] sv[p]).len() == n
    &&& forall|p: int, s: int| 0 <= p <= len && 0 <= s < n ==> #[trigger] sv[p][s] > 0
    &&& forall|p: int| 0 <= p < len ==> #[trigger] cells[p] > 0
    &&& forall|p: int| 0 <= p < len ==> (line[p] == Cell::Filled <==> lit_holds(m, #[trigger] cells[p]))
    &&& forall|i: int, t: int| 0 <= i < len && 0 <= t < n ==> #[trigger] step_holds(m, a.states@, cells, sv, i, t)
    &&& forall|s1: int, s2: int|
        0 <= s1 < n && 0 <= s2 < n && #[trigger] lit_holds(m, sv[len][s1]) && #[trigger] lit_holds(m, sv[len][s2])
            ==> s1 == s2
    &&& exists|i: int| 0 <= i < a.accepting@.len() && lit_holds(m, sv[len][#[trigger] a.accepting@[i] as int])
}

/// State `c` of block `j` (`c == 0`: its gap state) exists for clue `b`.
spec fn block_pos(b: Seq<usize>, j: int, c: int) -> bool {
    &&& 0 <= j <= b.len()
    &&& 0 <= c
    &&& j < b.len() ==> c <= b[j]
    &&& j == b.len() ==> c == 0
}

/// A state of block `j` lies among the automaton's states.
proof fn lemma_block_pos_bound(b: Seq<usize>, j: int, c: int)
    requires
        block_pos(b, j, c),
    ensures
        0 <= gap_state(b, j) + c <= gap_state(b, b.len() as int),
{
    lemma_sum_take_nonneg(b, j);
    if j < b.len() {
        lemma_gap_mono(b, j, b.len() as int);
    }
}

/// If the run over a line is in state `c` of block `j` before position `p`,
/// the rest of the line, after `c` filled cells, shows the blocks from `j`
/// on.
proof fn lemma_run_suffix(
    a: Automaton,
    b: Seq<usize>,
    m: Seq<i32>,
    cells: Seq<i32>,
    line: Seq<Cell>,
    sv: Seq<Seq<i32>>,
    p: int,
    j: int,
    c: int,
)
    requires
        run_ctx(a, b, m, cells, line, sv),
        0 <= p <= line.len(),
        block_pos(b, j, c),
        lit_holds(m, sv[p][gap_state(b, j) + c]),
    ensures
        runs_after(line.skip(p), c as nat) == b.skip(j),
    decreases line.len() - p,
{
    let k = b.len() as int;
    let len = line.len() as int;
    let n = a.states@.len() as int;
    let q = gap_state(b, j) + c;
    lemma_block_pos_bound(b, j, c);
    if p == len {
        let i = choose|i: int| 0 <= i < a.accepting@.len() && lit_holds(m, sv[len][#[trigger] a.accepting@[i] as int]);
        let s = a.accepting@[i] as int;
        assert(line.skip(p) =~= Seq::<Cell>::empty());
        if k == 0 || i == 0 {
            assert(s == gap_state(b, k));
            assert(s == q);
            if j != k || c != 0 {
                lemma_state_distinct(b, j, c, k, 0);
            }
            assert(b.skip(j) =~= Seq::<usize>::empty());
        } else {
            lemma_gap_mono(b, k - 1, k);
            assert(s == gap_state(b, k - 1) + b[k - 1]);
            assert(s == q);
            if j != k - 1 || c != b[k - 1] {
                lemma_state_distinct(b, j, c, k - 1, b[k - 1] as int);
            }
            assert(b.skip(j) =~= seq![b[k - 1]]);
        }
    } else {
        let tr = a.states@[q];
        let filled = line[p] == Cell::Filled;
        assert(step_holds(m, a.states@, cells, sv, p, q));
        assert(cells[p] > 0);
        assert(sv[p][q] > 0);
        lemma_step(m, cells[p], filled, sv[p][q], sv[p + 1], tr);
        let s0 = line.skip(p);
        assert(s0[0] == line[p]);
        assert(s0.drop_first() =~= line.skip(p + 1));
        if j < k {
            lemma_gap_mono(b, j, k);
            lemma_sum_take_step(b, j);
            if j + 1 < k {
                lemma_gap_mono(b, j + 1, k);
            }
        }
        if c == 0 && j < k {
            assert(a.states@[gap_state(b, j)].on_blank == Some(gap_state(b, j) as usize));
            assert(a.states@[gap_state(b, j)].on_filled == Some((gap_state(b, j) + 1) as usize));
            assert(b[j] >= 1);
            if filled {
                lemma_run_suffix(a, b, m, cells, line, sv, p + 1, j, 1);
            } else {
                lemma_run_suffix(a, b, m, cells, line, sv, p + 1, j, 0);
            }
        } else if c == 0 {
            assert(a.states@[gap_state(b, k)].on_blank == Some(gap_state(b, k) as usize));
            assert(a.states@[gap_state(b, k)].on_filled is None);
            lemma_run_suffix(a, b, m, cells, line, sv, p + 1, j, 0);
        } else if c < b[j] {
            assert(a.states@[gap_state(b, j) + c] == (StateTransitions {
                on_blank: None,
                on_filled: Some((gap_state(b, j) + c + 1) as usize),
            }));
            lemma_run_suffix(a, b, m, cells, line, sv, p + 1, j, c + 1);
        } else {
            assert(a.states@[gap_state(b, j) + b[j]] == (StateTransitions {
                on_blank: Some(gap_state(b, j + 1) as usize),
                on_filled: None,
            }));
            lemma_run_suffix(a, b, m, cells, line, sv, p + 1, j + 1, 0);
            assert(b.skip(j) =~= seq![b[j]] + b.skip(j + 1));
        }
    }
}

/// Every block of every clue is at least one cell long.
pub open spec fn clues_positive(puzzle: Puzzle) -> bool {
    forall|id: int, i: int|
        0 <= id < puzzle.spec_rows().len() + puzzle.spec_cols().len() && 0 <= i < clue_of(puzzle, id).len()
            ==> #[trigger] clue_of(puzzle, id)[i] >= 1
}

/// Line `id` of a grid read from a model of line `id`'s clauses shows the
/// runs of its clue.
proof fn lemma_line_model_runs(puzzle: Puzzle, grid: Grid, m: Seq<i32>, id: int)
    requires
        sat_fits(puzzle),
        encoding_fits(puzzle),
        clues_positive(puzzle),
        grid_shape(grid, puzzle),
        grid_of_model(grid.spec_cells(), m),
        line_holds(puzzle, m, id),
        0 <= id < puzzle.spec_cols().len() + puzzle.spec_rows().len(),
    ensures
        runs(line_of(grid, id)) == clue_of(puzzle, id),
{
    let w = puzzle.spec_cols().len() as int;
    let h = puzzle.spec_rows().len() as int;
    let b = clue_of(puzzle, id);
    let k = b.len() as int;
    let a = choose|a: Automaton|
        automaton_of(a, b) && forall|q: int|
            0 <= q < encoded_line(puzzle, id, a).len() ==> clause_holds(m, #[trigger] encoded_line(puzzle, id, a)[q]);
    let len = line_len(w, h, id);
    let nst = n_states(b);
    let base = w * h + 1 + vars_used(puzzle, id);
    let cells = line_vars(puzzle, id);
    let sv = state_vars_from(base, len, nst);
    let line = line_of(grid, id);
    let trans = a.states@;
    assert(encoded_line(puzzle, id, a) == line_clauses(a, cells, sv));
    assert(all_hold(m, line_clauses(a, cells, sv))) by {
        assert forall|q: int| 0 <= q < line_clauses(a, cells, sv).len() implies clause_holds(
            m,
            #[trigger] line_clauses(a, cells, sv)[q],
        ) by {
            assert(clause_holds(m, encoded_line(puzzle, id, a)[q]));
        }
    }
    let start = start_clauses(sv[0], a.start as int);
    let uniq = uniqueness_clauses(sv, sv.len() as int);
    let tc = transition_clauses(trans, cells, sv, cells.len() as int);
    let acc = seq![a.accepting@.map_values(|s: usize| sv[cells.len() as int][s as int])];
    lemma_all_hold_concat(m, start + uniq + tc, acc);
    lemma_all_hold_concat(m, start + uniq, tc);
    lemma_all_hold_concat(m, start, uniq);
    // sizes and variable ranges
    grid.lemma_wf();
    lemma_sum_take_nonneg(b, k);
    lemma_line_share(puzzle, id);
    assert(vars_used(puzzle, id + 1) == vars_used(puzzle, id) + (len + 1) * nst);
    lemma_fits_bounds(puzzle);
    assert(0 <= w * h) by (nonlinear_arith)
        requires
            0 <= w,
            0 <= h,
    ;
    lemma_vars_used_mono(puzzle, id, id + 1);
    assert(trans.len() == nst);
    assert(cells.len() == len);
    assert(line.len() == len);
    assert forall|p: int, s: int| 0 <= p <= len && 0 <= s < nst implies #[trigger] sv[p][s] > 0
        && sv[p][s] == state_var(base, nst, p, s) by {
        lemma_state_var_bounds(base, len, nst, p, s);
        assert(base + (len + 1) * nst == w * h + 1 + vars_used(puzzle, id + 1));
        assert(w * h + 1 + vars_used(puzzle, id + 1) <= i32::MAX);
        assert(0 < state_var(base, nst, p, s) <= i32::MAX);
        assert(sv[p] == Seq::new(nst as nat, |s2: int| state_var(base, nst, p, s2) as i32));
    }
    assert forall|p: int| 0 <= p < len implies #[trigger] cells[p] > 0 && (line[p] == Cell::Filled <==> lit_holds(
        m,
        cells[p],
    )) by {
        if id < h {
            lemma_cell_pos_bounds(w, h, id, p);
            assert(line[p] == grid.at(id, p));
        } else {
            lemma_cell_pos_bounds(w, h, p, id - h);
            assert(line[p] == grid.at(p, id - h));
        }
    }
    // the start state holds at the first position
    assert(clause_holds(m, start[0]));
    assert(gap_state(b, 0) == 0) by {
        assert(b.take(0) =~= Seq::<usize>::empty());
    }
    assert(lit_holds(m, sv[0][0])) by {
        let cl = start[0];
        let jj = choose|jj: int| 0 <= jj < cl.len() && lit_holds(m, #[trigger] cl[jj]);
    }
    // one state at the last position
    let last = exactly_one_clauses(sv[len]);
    lemma_all_hold_concat(m, uniqueness_clauses(sv, len), last);
    lemma_all_hold_concat(m, seq![sv[len]], pairs_upto(sv[len], nst));
    lemma_pairs_hold(m, sv[len], nst);
    assert forall|s1: int, s2: int|
        0 <= s1 < nst && 0 <= s2 < nst && #[trigger] lit_holds(m, sv[len][s1]) && #[trigger] lit_holds(m, sv[len][s2])
        implies s1 == s2 by {
        if s1 < s2 {
            assert(!lit_holds(m, sv[len][s2]));
        } else if s2 < s1 {
            assert(!lit_holds(m, sv[len][s1]));
        }
    }
    // the transitions
    lemma_transitions_hold(m, trans, cells, sv, len);
    // an accepting state at the end
    assert(clause_holds(m, acc[0]));
    assert(exists|i: int| 0 <= i < a.accepting@.len() && lit_holds(m, sv[len][#[trigger] a.accepting@[i] as int])) by {
        let cl = acc[0];
        let jj = choose|jj: int| 0 <= jj < cl.len() && lit_holds(m, #[trigger] cl[jj]);
        assert(cl[jj] == sv[len][a.accepting@[jj] as int]);
    }
    assert forall|i: int| 0 <= i < k implies #[trigger] b[i] >= 1 by {
        assert(clue_of(puzzle, id)[i] >= 1);
    }
    assert(run_ctx(a, b, m, cells, line, sv));
    lemma_run_suffix(a, b, m, cells, line, sv, 0, 0, 0);
    assert(line.skip(0) =~= line);
    assert(b.skip(0) =~= b);
}

/// A grid read from a model of the encoding solves the puzzle: every row and
/// every column shows the runs of its clue.
pub proof fn lemma_model_grid_solves(puzzle: Puzzle, grid: Grid)
    requires
        sat_fits(puzzle),
        encoding_fits(puzzle),
        clues_positive(puzzle),
        grid_shape(grid, puzzle),
        has_model(puzzle, grid.spec_cells()),
    ensures
        solves(grid, puzzle),
{
    let m = choose|m: Seq<i32>| is_assignment(m) && grid_of_model(grid.spec_cells(), m) && lines_hold(puzzle, m);
    assert forall|i: int| 0 <= i < grid.spec_cells().len() implies grid.spec_cells()[i] != Cell::Unknown by {
        assert(grid_of_model(grid.spec_cells(), m));
    }
    assert forall|id: int| 0 <= id < puzzle.spec_cols().len() + puzzle.spec_rows().len() implies runs(
        #[trigger] line_of(grid, id),
    ) == clue_of(puzzle, id) by {
        assert(line_holds(puzzle, m, id));
        lemma_line_model_runs(puzzle, grid, m, id);
    }
}

/// The block and the number of its cells read so far after the first `p`
/// cells of `line`, for the run that goes on to the next block at each blank
/// cell after a filled one.
spec fn prefix_state(line: Seq<Cell>, p: int) -> (int, int)
    decreases p,
{
    if p <= 0 {
        (0, 0)
    } else {
        let (j, c) = prefix_state(line, p - 1);
        if line[p - 1] == Cell::Filled {
            (j, c + 1)
        } else if c > 0 {
            (j + 1, 0)
        } else {
            (j, 0)
        }
    }
}

/// With `cnt` filled cells pending, the first run is at least `cnt` long.
proof fn lemma_runs_after_first(s: Seq<Cell>, cnt: nat)
    requires
        cnt > 0,
        cnt + s.len() <= usize::MAX,
    ensures
        runs_after(s, cnt).len() > 0,
        runs_after(s, cnt)[0] >= cnt,
    decreases s.len(),
{
    if s.len() > 0 && s[0] == Cell::Filled {
        lemma_runs_after_first(s.drop_first(), cnt + 1);
    }
}

/// Along a line that shows clue `b`, the state after each prefix is a state
/// of the clue's automaton, and the rest of the line shows the blocks still
/// to come.
proof fn lemma_prefix_state(line: Seq<Cell>, b: Seq<usize>, p: int)
    requires
        runs(line) == b,
        line.len() < i32::MAX,
        0 <= p <= line.len(),
    ensures
        block_pos(b, prefix_state(line, p).0, prefix_state(line, p).1),
        runs_after(line.skip(p), prefix_state(line, p).1 as nat) == b.skip(prefix_state(line, p).0),
        prefix_state(line, p).1 <= p,
    decreases p,
{
    let k = b.len() as int;
    if p == 0 {
        assert(line.skip(0) =~= line);
        assert(b.skip(0) =~= b);
    } else {
        lemma_prefix_state(line, b, p - 1);
        let (j, c) = prefix_state(line, p - 1);
        let s = line.skip(p - 1);
        assert(s[0] == line[p - 1]);
        assert(s.drop_first() =~= line.skip(p));
        if line[p - 1] == Cell::Filled {
            lemma_runs_after_first(line.skip(p), (c + 1) as nat);
            assert(b.skip(j).len() > 0);
            assert(b.skip(j)[0] == b[j]);
        } else if c > 0 {
            assert(b.skip(j).len() > 0);
            assert(b.skip(j)[0] == b[j]);
            assert(b.skip(j + 1) =~= b.skip(j).drop_first());
            assert(runs_after(s, c as nat) == seq![c as usize] + runs_after(line.skip(p), 0));
            assert(runs_after(line.skip(p), 0) =~= runs_after(s, c as nat).drop_first());
        }
    }
}

/// The automaton state after the first `p` cells of `line`.
spec fn run_state(line: Seq<Cell>, b: Seq<usize>, p: int) -> int {
    gap_state(b, prefix_state(line, p).0) + prefix_state(line, p).1
}

/// Every step of the run over a line showing `b` follows a transition of the
/// clue's automaton, and the run ends in an accepting state.
proof fn lemma_run_transitions(a: Automaton, line: Seq<Cell>, b: Seq<usize>)
    requires
        automaton_of(a, b),
        forall|i: int| 0 <= i < b.len() ==> #[trigger] b[i] >= 1,
        gap_state(b, b.len() as int) + 2 <= usize::MAX,
        runs(line) == b,
        line.len() < i32::MAX,
    ensures
        forall|p: int|
            0 <= p < line.len() && line[p] == Cell::Filled ==> (#[trigger] a.states@[run_state(line, b, p)]).on_filled
                == Some(run_state(line, b, p + 1) as usize),
        forall|p: int|
            0 <= p < line.len() && line[p] != Cell::Filled ==> (#[trigger] a.states@[run_state(line, b, p)]).on_blank
                == Some(run_state(line, b, p + 1) as usize),
        forall|p: int| 0 <= p <= line.len() ==> 0 <= #[trigger] run_state(line, b, p) <= gap_state(b, b.len() as int),
        exists|i: int| 0 <= i < a.accepting@.len() && #[trigger] a.accepting@[i] == run_state(line, b, line.len() as int),
{
    let k = b.len() as int;
    let len = line.len() as int;
    assert forall|p: int| 0 <= p <= len implies 0 <= #[trigger] run_state(line, b, p) <= gap_state(b, k) by {
        lemma_prefix_state(line, b, p);
        lemma_block_pos_bound(b, prefix_state(line, p).0, prefix_state(line, p).1);
    }
    assert forall|p: int|
        0 <= p < len implies (line[p] == Cell::Filled ==> (#[trigger] a.states@[run_state(line, b, p)]).on_filled
        == Some(run_state(line, b, p + 1) as usize)) && (line[p] != Cell::Filled ==> a.states@[run_state(
        line,
        b,
        p,
    )].on_blank == Some(run_state(line, b, p + 1) as usize)) by {
        lemma_prefix_state(line, b, p);
        lemma_prefix_state(line, b, p + 1);
        let (j, c) = prefix_state(line, p);
        lemma_block_pos_bound(b, j, c);
        if j < k {
            lemma_gap_mono(b, j, k);
            lemma_sum_take_step(b, j);
            if j + 1 < k {
                lemma_gap_mono(b, j + 1, k);
            }
        }
        if line[p] == Cell::Filled {
            if c == 0 {
                assert(a.states@[gap_state(b, j)].on_filled == Some((gap_state(b, j) + 1) as usize));
            } else {
                assert(a.states@[gap_state(b, j) + c] == (StateTransitions {
                    on_blank: None,
                    on_filled: Some((gap_state(b, j) + c + 1) as usize),
                }));
            }
        } else if c == 0 {
            assert(a.states@[gap_state(b, j)].on_blank == Some(gap_state(b, j) as usize));
        } else {
            let s = line.skip(p);
            assert(s[0] == line[p]);
            assert(s.drop_first() =~= line.skip(p + 1));
            assert(b.skip(j).len() > 0);
            assert(b.skip(j)[0] == b[j]);
            assert(c == b[j]);
            assert(a.states@[gap_state(b, j) + b[j]] == (StateTransitions {
                on_blank: Some(gap_state(b, j + 1) as usize),
                on_filled: None,
            }));
        }
    }
    lemma_prefix_state(line, b, len);
    let (j, c) = prefix_state(line, len);
    assert(line.skip(len) =~= Seq::<Cell>::empty());
    lemma_block_pos_bound(b, j, c);
    if c == 0 {
        assert(b.skip(j).len() == 0);
        assert(j == k);
        assert(a.accepting@[0] == run_state(line, b, len));
    } else {
        assert(b.skip(j) =~= seq![c as usize]);
        assert(j == k - 1);
        assert(b[k - 1] == b.skip(j)[0]);
        assert(b[k - 1] == c);
        assert(k > 0);
        assert(a.accepting@[1] == run_state(line, b, len));
    }
}

/// The clauses of both parts hold, so those of their concatenation do.
proof fn lemma_all_hold_join(m: Seq<i32>, x: Seq<Seq<i32>>, y: Seq<Seq<i32>>)
    requires
        all_hold(m, x),
        all_hold(m, y),
    ensures
        all_hold(m, x + y),
{
    assert forall|q: int| 0 <= q < (x + y).len() implies clause_holds(m, #[trigger] (x + y)[q]) by {
        if q < x.len() {
            assert((x + y)[q] == x[q]);
        } else {
            assert((x + y)[q] == y[q - x.len()]);
        }
    }
}

/// Exactly variable `t0` of `vars` holds, and the negation of every other one.
spec fn one_holds(m: Seq<i32>, vars: Seq<i32>, t0: int) -> bool {
    &&& 0 <= t0 < vars.len()
    &&& forall|t: int| 0 <= t < vars.len() ==> (lit_holds(m, #[trigger] vars[t]) <==> t == t0)
    &&& forall|t: int| 0 <= t < vars.len() ==> (lit_holds(m, (-#[trigger] vars[t]) as i32) <==> t != t0)
}

/// When only `vars[t0]` holds, every pair clause holds.
proof fn lemma_pairs_all_hold(m: Seq<i32>, vars: Seq<i32>, t0: int, i: int)
    requires
        one_holds(m, vars, t0),
        0 <= i <= vars.len(),
    ensures
        all_hold(m, pairs_upto(vars, i)),
    decreases i,
{
    if i > 0 {
        lemma_pairs_all_hold(m, vars, t0, i - 1);
        let row = pair_row(vars, i - 1);
        assert forall|q: int| 0 <= q < row.len() implies clause_holds(m, #[trigger] row[q]) by {
            let cl = row[q];
            assert(cl == seq![(-vars[i - 1]) as i32, (-vars[i + q]) as i32]);
            if i - 1 != t0 {
                assert(lit_holds(m, cl[0]));
            } else {
                assert(lit_holds(m, cl[1]));
            }
        }
        lemma_all_hold_join(m, pairs_upto(vars, i - 1), row);
    }
}

/// When only `vars[t0]` holds, the exactly-one clauses hold.
proof fn lemma_exactly_one_hold(m: Seq<i32>, vars: Seq<i32>, t0: int)
    requires
        one_holds(m, vars, t0),
    ensures
        all_hold(m, exactly_one_clauses(vars)),
{
    lemma_pairs_all_hold(m, vars, t0, vars.len() as int);
    assert(lit_holds(m, vars[t0]));
    assert(clause_holds(m, vars));
    assert(all_hold(m, seq![vars])) by {
        assert forall|q: int| 0 <= q < 1 implies clause_holds(m, #[trigger] seq![vars][q]) by {
            assert(seq![vars][q] == vars);
        }
    }
    lemma_all_hold_join(m, seq![vars], pairs_upto(vars, vars.len() as int));
}

/// The uniqueness clauses of the first `p` positions hold when each
/// position's exactly-one clauses do.
proof fn lemma_uniq_all_hold(m: Seq<i32>, sv: Seq<Seq<i32>>, p: int)
    requires
        0 <= p,
        forall|i: int| 0 <= i < p ==> all_hold(m, exactly_one_clauses(#[trigger] sv[i])),
    ensures
        all_hold(m, uniqueness_clauses(sv, p)),
    decreases p,
{
    if p > 0 {
        lemma_uniq_all_hold(m, sv, p - 1);
        assert(all_hold(m, exactly_one_clauses(sv[p - 1])));
        lemma_all_hold_join(m, uniqueness_clauses(sv, p - 1), exactly_one_clauses(sv[p - 1]));
    }
}

/// The clauses of the first `s` states at a position hold when each state's
/// transition clauses do.
proof fn lemma_position_all_hold(
    m: Seq<i32>,
    trans: Seq<StateTransitions>,
    cell: i32,
    cur: Seq<i32>,
    next: Seq<i32>,
    s: int,
)
    requires
        0 <= s,
        forall|t: int| 0 <= t < s ==> #[trigger] sym_holds(m, trans, cell, cur, next, t),
    ensures
        all_hold(m, position_clauses(trans, cell, cur, next, s)),
    decreases s,
{
    if s > 0 {
        lemma_position_all_hold(m, trans, cell, cur, next, s - 1);
        let last = seq![
            symbol_clause(cur[s - 1], cell, next, trans[s - 1].on_blank, false),
            symbol_clause(cur[s - 1], cell, next, trans[s - 1].on_filled, true),
        ];
        assert(sym_holds(m, trans, cell, cur, next, s - 1));
        assert forall|q: int| 0 <= q < 2 implies clause_holds(m, #[trigger] last[q]) by {}
        lemma_all_hold_join(m, position_clauses(trans, cell, cur, next, s - 1), last);
    }
}

/// The transition clauses of the first `p` positions hold when every state's
/// transition clauses at each position do.
proof fn lemma_transitions_all_hold(m: Seq<i32>, trans: Seq<StateTransitions>, cells: Seq<i32>, sv: Seq<Seq<i32>>, p: int)
    requires
        0 <= p,
        forall|i: int, t: int| 0 <= i < p && 0 <= t < trans.len() ==> #[trigger] step_holds(m, trans, cells, sv, i, t),
    ensures
        all_hold(m, transition_clauses(trans, cells, sv, p)),
    decreases p,
{
    if p > 0 {
        lemma_transitions_all_hold(m, trans, cells, sv, p - 1);
        assert forall|t: int| 0 <= t < trans.len() implies #[trigger] sym_holds(
            m,
            trans,
            cells[p - 1],
            sv[p - 1],
            sv[p],
            t,
        ) by {
            assert(step_holds(m, trans, cells, sv, p - 1, t));
        }
        lemma_position_all_hold(m, trans, cells[p - 1], sv[p - 1], sv[p], trans.len() as int);
        lemma_all_hold_join(
            m,
            transition_clauses(trans, cells, sv, p - 1),
            position_clauses(trans, cells[p - 1], sv[p - 1], sv[p], trans.len() as int),
        );
    }
}

/// Under a model that follows the run over a line showing `b` (its state
/// variables true exactly for the run's states, its cell variables for the
/// filled cells), every clause of the line holds.
proof fn lemma_line_clauses_hold(a: Automaton, b: Seq<usize>, m: Seq<i32>, cells: Seq<i32>, line: Seq<Cell>, sv: Seq<Seq<i32>>)
    requires
        automaton_of(a, b),
        forall|i: int| 0 <= i < b.len() ==> #[trigger] b[i] >= 1,
        gap_state(b, b.len() as int) + 2 <= usize::MAX,
        runs(line) == b,
        line.len() < i32::MAX,
        cells.len() == line.len(),
        sv.len() == line.len() + 1,
        forall|p: int| 0 <= p <= line.len() ==> (#[trigger] sv[p]).len() == a.states@.len(),
        forall|p: int, s: int|
            0 <= p <= line.len() && 0 <= s < a.states@.len() ==> (lit_holds(m, #[trigger] sv[p][s]) <==> s == run_state(
                line,
                b,
                p,
            )),
        forall|p: int, s: int|
            0 <= p <= line.len() && 0 <= s < a.states@.len() ==> (lit_holds(m, (-#[trigger] sv[p][s]) as i32) <==> s
                != run_state(line, b, p)),
        forall|p: int| 0 <= p < line.len() ==> (lit_holds(m, #[trigger] cells[p]) <==> line[p] == Cell::Filled),
        forall|p: int| 0 <= p < line.len() ==> (lit_holds(m, (-#[trigger] cells[p]) as i32) <==> line[p] != Cell::Filled),
    ensures
        all_hold(m, line_clauses(a, cells, sv)),
{
    let len = line.len() as int;
    let n = a.states@.len() as int;
    let trans = a.states@;
    lemma_run_transitions(a, line, b);
    // start
    let start = start_clauses(sv[0], a.start as int);
    assert(gap_state(b, 0) == 0) by {
        assert(b.take(0) =~= Seq::<usize>::empty());
    }
    assert(run_state(line, b, 0) == 0);
    assert forall|q: int| 0 <= q < start.len() implies clause_holds(m, #[trigger] start[q]) by {
        assert(lit_holds(m, start[q][0]));
    }
    // uniqueness
    assert forall|i: int| 0 <= i < len + 1 implies all_hold(m, exactly_one_clauses(#[trigger] sv[i])) by {
        assert(0 <= run_state(line, b, i) <= gap_state(b, b.len() as int));
        lemma_exactly_one_hold(m, sv[i], run_state(line, b, i));
    }
    lemma_uniq_all_hold(m, sv, len + 1);
    // transitions
    assert forall|i: int, t: int| 0 <= i < len && 0 <= t < trans.len() implies #[trigger] step_holds(
        m,
        trans,
        cells,
        sv,
        i,
        t,
    ) by {
        let cl1 = symbol_clause(sv[i][t], cells[i], sv[i + 1], trans[t].on_blank, false);
        let cl2 = symbol_clause(sv[i][t], cells[i], sv[i + 1], trans[t].on_filled, true);
        if t != run_state(line, b, i) {
            assert(lit_holds(m, cl1[0]));
            assert(lit_holds(m, cl2[0]));
        } else {
            let nxt = run_state(line, b, i + 1);
            assert(0 <= nxt <= gap_state(b, b.len() as int));
            if line[i] == Cell::Filled {
                assert(lit_holds(m, cl1[1]));
                assert(trans[t].on_filled == Some(nxt as usize));
                assert(lit_holds(m, cl2[2]));
            } else {
                assert(lit_holds(m, cl2[1]));
                assert(trans[t].on_blank == Some(nxt as usize));
                assert(lit_holds(m, cl1[2]));
            }
        }
    }
    lemma_transitions_all_hold(m, trans, cells, sv, len);
    // accepting
    let accl = a.accepting@.map_values(|s: usize| sv[len][s as int]);
    let acc = seq![accl];
    let i = choose|i: int| 0 <= i < a.accepting@.len() && #[trigger] a.accepting@[i] == run_state(line, b, len);
    assert(lit_holds(m, accl[i]));
    assert forall|q: int| 0 <= q < acc.len() implies clause_holds(m, #[trigger] acc[q]) by {
        assert(acc[q] == accl);
    }
    let uniq = uniqueness_clauses(sv, sv.len() as int);
    let tc = transition_clauses(trans, cells, sv, cells.len() as int);
    lemma_all_hold_join(m, start, uniq);
    lemma_all_hold_join(m, start + uniq, tc);
    lemma_all_hold_join(m, start + uniq + tc, acc);
}

/// The first state variable of line `id`.
spec fn line_base(puzzle: Puzzle, id: int) -> int {
    let w = puzzle.spec_cols().len() as int;
    let h = puzzle.spec_rows().len() as int;
    w * h + 1 + vars_used(puzzle, id)
}

/// The variable of the state that the run over line `id` of `grid` is in
/// after `p` cells.
spec fn run_var(puzzle: Puzzle, grid: Grid, id: int, p: int) -> int {
    let b = clue_of(puzzle, id);
    state_var(line_base(puzzle, id), n_states(b), p, run_state(line_of(grid, id), b, p))
}

/// Variable `v` is true in the model of a solution `grid`: a cell variable
/// when its cell is filled, a state variable when the run of its line is in
/// that state.
spec fn var_true(puzzle: Puzzle, grid: Grid, v: int) -> bool {
    let w = puzzle.spec_cols().len() as int;
    let h = puzzle.spec_rows().len() as int;
    if v <= w * h {
        grid.spec_cells()[v - 1] == Cell::Filled
    } else {
        exists|id: int, p: int|
            0 <= id < w + h && 0 <= p <= line_len(w, h, id) && v == #[trigger] run_var(puzzle, grid, id, p)
    }
}

/// The number of variables of the encoding of `puzzle`.
spec fn total_vars(puzzle: Puzzle) -> int {
    let w = puzzle.spec_cols().len() as int;
    let h = puzzle.spec_rows().len() as int;
    w * h + vars_used(puzzle, w + h)
}

/// The assignment that a solution `grid` gives every variable.
spec fn model_of(puzzle: Puzzle, grid: Grid) -> Seq<i32> {
    Seq::new(
        total_vars(puzzle) as nat,
        |i: int|
            if var_true(puzzle, grid, i + 1) {
                (i + 1) as i32
            } else {
                (-(i + 1)) as i32
            },
    )
}

/// The model of a grid is an assignment, and a literal of it holds as its
/// variable's value says.
proof fn lemma_model_lit(puzzle: Puzzle, grid: Grid, v: int)
    requires
        sat_fits(puzzle),
        encoding_fits(puzzle),
        1 <= v <= total_vars(puzzle),
    ensures
        is_assignment(model_of(puzzle, grid)),
        lit_holds(model_of(puzzle, grid), v as i32) == var_true(puzzle, grid, v),
        lit_holds(model_of(puzzle, grid), (-v) as i32) == !var_true(puzzle, grid, v),
{
    let w = puzzle.spec_cols().len() as int;
    let h = puzzle.spec_rows().len() as int;
    assert(0 <= w * h) by (nonlinear_arith)
        requires
            0 <= w,
            0 <= h,
    ;
    lemma_vars_used_mono(puzzle, 0, w + h);
    let m = model_of(puzzle, grid);
    assert(m[v - 1] == if var_true(puzzle, grid, v) {
        v as i32
    } else {
        (-v) as i32
    });
}

/// Two state variables of one line are equal only for the same position and
/// state.
proof fn lemma_state_var_inj(base: int, n: int, p1: int, s1: int, p2: int, s2: int)
    requires
        0 <= p1,
        0 <= p2,
        0 <= s1 < n,
        0 <= s2 < n,
        state_var(base, n, p1, s1) == state_var(base, n, p2, s2),
    ensures
        p1 == p2,
        s1 == s2,
{
    if p1 < p2 {
        assert(p1 * n + s1 < p2 * n + s2) by (nonlinear_arith)
            requires
                p1 < p2,
                0 <= s1 < n,
                0 <= s2,
        ;
    } else if p2 < p1 {
        assert(p2 * n + s2 < p1 * n + s1) by (nonlinear_arith)
            requires
                p2 < p1,
                0 <= s2 < n,
                0 <= s1,
        ;
    }
}

/// The state variables of line `id` lie above the cell variables, below the
/// next line's first variable, and within the encoding.
proof fn lemma_line_vars_range(puzzle: Puzzle, id: int, p: int, s: int)
    requires
        sat_fits(puzzle),
        encoding_fits(puzzle),
        0 <= id < puzzle.spec_cols().len() + puzzle.spec_rows().len(),
        0 <= p <= line_len(puzzle.spec_cols().len() as int, puzzle.spec_rows().len() as int, id),
        0 <= s < n_states(clue_of(puzzle, id)),
    ensures
        puzzle.spec_cols().len() * puzzle.spec_rows().len() < line_base(puzzle, id) <= state_var(
            line_base(puzzle, id),
            n_states(clue_of(puzzle, id)),
            p,
            s,
        ) < line_base(puzzle, id + 1) <= total_vars(puzzle) + 1,
{
    let w = puzzle.spec_cols().len() as int;
    let h = puzzle.spec_rows().len() as int;
    let b = clue_of(puzzle, id);
    let len = line_len(w, h, id);
    lemma_vars_used_mono(puzzle, id, id + 1);
    lemma_line_share(puzzle, id);
    assert(vars_used(puzzle, id + 1) == vars_used(puzzle, id) + (len + 1) * n_states(b));
    lemma_state_var_bounds(line_base(puzzle, id), len, n_states(b), p, s);
}

/// A state variable of line `id` is true in the model of a solution exactly
/// for the state its run is in.
proof fn lemma_var_true_state(puzzle: Puzzle, grid: Grid, id: int, p: int, s: int)
    requires
        sat_fits(puzzle),
        encoding_fits(puzzle),
        clues_positive(puzzle),
        solves(grid, puzzle),
        0 <= id < puzzle.spec_cols().len() + puzzle.spec_rows().len(),
        0 <= p <= line_len(puzzle.spec_cols().len() as int, puzzle.spec_rows().len() as int, id),
        0 <= s < n_states(clue_of(puzzle, id)),
    ensures
        var_true(puzzle, grid, state_var(line_base(puzzle, id), n_states(clue_of(puzzle, id)), p, s)) == (s
            == run_state(line_of(grid, id), clue_of(puzzle, id), p)),
{
    let w = puzzle.spec_cols().len() as int;
    let h = puzzle.spec_rows().len() as int;
    let b = clue_of(puzzle, id);
    let v = state_var(line_base(puzzle, id), n_states(b), p, s);
    lemma_line_vars_range(puzzle, id, p, s);
    assert(w * h == puzzle.spec_cols().len() * puzzle.spec_rows().len());
    if s == run_state(line_of(grid, id), b, p) {
        assert(v == run_var(puzzle, grid, id, p));
    }
    if var_true(puzzle, grid, v) {
        let (id2, p2) = choose|id2: int, p2: int|
            0 <= id2 < w + h && 0 <= p2 <= line_len(w, h, id2) && v == #[trigger] run_var(puzzle, grid, id2, p2);
        let b2 = clue_of(puzzle, id2);
        let line2 = line_of(grid, id2);
        grid.lemma_wf();
        assert(runs(line2) == b2);
        assert(line2.len() == line_len(w, h, id2));
        lemma_vars_lower(puzzle, w + h);
        lemma_vars_used_mono(puzzle, 0, w + h);
        lemma_prefix_state(line2, b2, p2);
        lemma_block_pos_bound(b2, prefix_state(line2, p2).0, prefix_state(line2, p2).1);
        let s2 = run_state(line2, b2, p2);
        lemma_line_vars_range(puzzle, id2, p2, s2);
        if id2 < id {
            lemma_vars_used_mono(puzzle, id2 + 1, id);
        } else if id < id2 {
            lemma_vars_used_mono(puzzle, id + 1, id2);
        }
        assert(id2 == id);
        lemma_state_var_inj(line_base(puzzle, id), n_states(b), p, s, p2, s2);
    }
}

/// Under the model of a solution, every clause of the encoding of line `id`
/// holds.
proof fn lemma_model_satisfies_line(puzzle: Puzzle, grid: Grid, id: int, a: Automaton)
    requires
        sat_fits(puzzle),
        encoding_fits(puzzle),
        clues_positive(puzzle),
        solves(grid, puzzle),
        0 <= id < puzzle.spec_cols().len() + puzzle.spec_rows().len(),
        automaton_of(a, clue_of(puzzle, id)),
    ensures
        all_hold(model_of(puzzle, grid), encoded_line(puzzle, id, a)),
{
    let w = puzzle.spec_cols().len() as int;
    let h = puzzle.spec_rows().len() as int;
    let b = clue_of(puzzle, id);
    let len = line_len(w, h, id);
    let nst = n_states(b);
    let base = line_base(puzzle, id);
    let cells = line_vars(puzzle, id);
    let sv = state_vars_from(base, len, nst);
    let line = line_of(grid, id);
    let m = model_of(puzzle, grid);
    grid.lemma_wf();
    lemma_fits_bounds(puzzle);
    assert(0 <= w * h) by (nonlinear_arith)
        requires
            0 <= w,
            0 <= h,
    ;
    lemma_vars_used_mono(puzzle, 0, w + h);
    assert(line.len() == len);
    assert(a.states@.len() == nst);
    assert forall|i: int| 0 <= i < b.len() implies #[trigger] b[i] >= 1 by {
        assert(clue_of(puzzle, id)[i] >= 1);
    }
    assert forall|p: int, s: int| 0 <= p <= len && 0 <= s < a.states@.len() implies (lit_holds(
        m,
        #[trigger] sv[p][s],
    ) <==> s == run_state(line, b, p)) && (lit_holds(m, (-sv[p][s]) as i32) <==> s != run_state(line, b, p)) by {
        let v = state_var(base, nst, p, s);
        lemma_line_vars_range(puzzle, id, p, s);
        assert(sv[p][s] == v as i32);
        assert(sv[p][s] as int == v);
        lemma_model_lit(puzzle, grid, v);
        lemma_var_true_state(puzzle, grid, id, p, s);
    }
    assert forall|p: int| 0 <= p < len implies (lit_holds(m, #[trigger] cells[p]) <==> line[p] == Cell::Filled) && (
    lit_holds(m, (-cells[p]) as i32) <==> line[p] != Cell::Filled) by {
        let (r, c) = if id < h {
            (id, p)
        } else {
            (p, id - h)
        };
        lemma_cell_pos_bounds(w, h, r, c);
        let v = cell_pos(w, r, c) + 1;
        assert(cells[p] as int == v);
        assert(line[p] == grid.at(r, c));
        lemma_model_lit(puzzle, grid, v);
    }
    assert forall|p: int| 0 <= p <= len implies (#[trigger] sv[p]).len() == a.states@.len() by {}
    lemma_line_clauses_hold(a, b, m, cells, line, sv);
}

/// Under the model of a solution that differs from every grid of `found`,
/// each of their blocking clauses holds.
proof fn lemma_model_blocks(puzzle: Puzzle, grid: Grid, found: Seq<Grid>)
    requires
        sat_fits(puzzle),
        encoding_fits(puzzle),
        solves(grid, puzzle),
        forall|t: int|
            0 <= t < found.len() ==> binary((#[trigger] found[t]).spec_cells()) && found[t].spec_cells().len()
                == grid.spec_cells().len() && found[t].spec_cells() != grid.spec_cells(),
    ensures
        all_hold(model_of(puzzle, grid), blocking_clauses(found)),
{
    let m = model_of(puzzle, grid);
    let w = puzzle.spec_cols().len() as int;
    let h = puzzle.spec_rows().len() as int;
    grid.lemma_wf();
    lemma_fits_bounds(puzzle);
    assert(0 <= w * h) by (nonlinear_arith)
        requires
            0 <= w,
            0 <= h,
    ;
    lemma_vars_used_mono(puzzle, 0, w + h);
    assert forall|t: int| 0 <= t < found.len() implies clause_holds(m, #[trigger] blocking_clauses(found)[t]) by {
        let f = found[t].spec_cells();
        let g = grid.spec_cells();
        assert(f.len() == g.len());
        let i = choose|i: int| 0 <= i < f.len() && f[i] != g[i];
        if !(0 <= i < f.len() && f[i] != g[i]) {
            assert(f =~= g);
        }
        let bc = blocking_clause(f);
        assert(blocking_clauses(found)[t] == bc);
        lemma_model_lit(puzzle, grid, i + 1);
        assert(g[i] != Cell::Unknown);
        assert(f[i] != Cell::Unknown);
        assert(lit_holds(m, bc[i]));
    }
}

/// Every solution of `puzzle` is among `found`, compared by cells, when the
/// clues' blocks are all at least one cell long.
pub open spec fn all_found(puzzle: Puzzle, found: Seq<Grid>) -> bool {
    clues_positive(puzzle) ==> forall|g: Grid|
        solves(g, puzzle) ==> exists|t: int| 0 <= t < found.len() && #[trigger] found[t].spec_cells() == g.spec_cells()
}

/// The model of a solution that differs from every grid found satisfies the
/// encoding and the blocking clauses of those grids.
proof fn lemma_solution_model(puzzle: Puzzle, grid: Grid, enc: Seq<Seq<i32>>, found: Seq<Grid>)
    requires
        sat_fits(puzzle),
        encoding_fits(puzzle),
        clues_positive(puzzle),
        solves(grid, puzzle),
        from_lines(enc, puzzle, (puzzle.spec_cols().len() + puzzle.spec_rows().len()) as int),
        forall|t: int|
            0 <= t < found.len() ==> binary((#[trigger] found[t]).spec_cells()) && found[t].spec_cells().len()
                == grid.spec_cells().len() && found[t].spec_cells() != grid.spec_cells(),
    ensures
        is_assignment(model_of(puzzle, grid)),
        all_hold(model_of(puzzle, grid), enc + blocking_clauses(found)),
{
    let m = model_of(puzzle, grid);
    let w = puzzle.spec_cols().len() as int;
    let h = puzzle.spec_rows().len() as int;
    assert(0 <= w * h) by (nonlinear_arith)
        requires
            0 <= w,
            0 <= h,
    ;
    lemma_vars_used_mono(puzzle, 0, w + h);
    assert(w + h > 0);
    lemma_line_share(puzzle, 0);
    lemma_model_lit(puzzle, grid, 1);
    assert forall|q: int| 0 <= q < enc.len() implies clause_holds(m, #[trigger] enc[q]) by {
        assert(clause_of_lines(enc[q], puzzle, w + h));
        let (id, a, t) = choose|id: int, a: Automaton, t: int|
            0 <= id < w + h && automaton_of(a, clue_of(puzzle, id)) && 0 <= t < encoded_line(puzzle, id, a).len()
                && enc[q] == #[trigger] encoded_line(puzzle, id, a)[t];
        lemma_model_satisfies_line(puzzle, grid, id, a);
        assert(clause_holds(m, encoded_line(puzzle, id, a)[t]));
    }
    lemma_model_blocks(puzzle, grid, found);
    lemma_all_hold_join(m, enc, blocking_clauses(found));
}

} // verus!
