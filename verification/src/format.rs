//! Grids as JSON arrays of rows of booleans (`true` for a filled cell).
use vstd::prelude::*;

use vstd::string::StringExecFns;

use crate::solver::{grid_complete, Solution};
use crate::types::{cell_pos, lemma_cell_pos_bounds, Cell, Clue, Grid, Puzzle};

verus! {

#[verifier::external_type_specification]
#[verifier::external_body]
pub struct ExJsonError(serde_json::Error);

/// Why a grid could not be written or read.
#[derive(Debug)]
pub enum FormatError {
    UnknownCell,
    InvalidGrid(String),
    Json(serde_json::Error),
}

/// The rows of a list of lists, as sequences.
pub open spec fn rows_view(rows: Seq<Vec<bool>>) -> Seq<Seq<bool>> {
    rows.map_values(|r: Vec<bool>| r@)
}

/// The rows of a grid: `true` for a filled cell.
pub open spec fn grid_rows(grid: Grid) -> Seq<Seq<bool>> {
    Seq::new(
        grid.spec_height(),
        |r: int| Seq::new(grid.spec_width(), |c: int| grid.at(r, c) == Cell::Filled),
    )
}

/// A JSON array in serde_json's compact form: `[`, the items separated by
/// commas with no space, `]`.
pub open spec fn json_list(items: Seq<Seq<char>>) -> Seq<char> {
    "["@ + comma_joined(items) + "]"@
}

/// A boolean in JSON.
pub open spec fn bool_json(b: bool) -> Seq<char> {
    if b {
        "true"@
    } else {
        "false"@
    }
}

/// The JSON text serde_json writes for a list of rows of booleans: an array
/// of arrays of `true` and `false`.
pub open spec fn json_of_rows(rows: Seq<Seq<bool>>) -> Seq<char> {
    json_list(rows.map_values(|r: Seq<bool>| json_list(r.map_values(|b: bool| bool_json(b)))))
}

/// The rows of booleans serde_json reads from a text, or `None` when the
/// text is not such a JSON array.
pub uninterp spec fn rows_of_json(text: Seq<char>) -> Option<Seq<Seq<bool>>>;

/// Writes rows of booleans with `serde_json::to_string`. The contract names
/// the text and states that `serde_json::from_str` reads the same rows back.
/// serde_json's serializer fails only when its writer does, and here the
/// writer is a vector in memory, so the `expect` never fires.
#[verifier::external_body]
fn rows_to_json(rows: &Vec<Vec<bool>>) -> (s: String)
    ensures
        s@ == json_of_rows(rows_view(rows@)),
        rows_of_json(s@) == Some(rows_view(rows@)),
{
    serde_json::to_string(rows).expect("serializing into memory does not fail")
}

/// Reads rows of booleans with `serde_json::from_str`; the contract ties the
/// outcome to `rows_of_json`.
#[verifier::external_body]
fn rows_from_json(text: &str) -> (r: Result<Vec<Vec<bool>>, serde_json::Error>)
    ensures
        r is Ok <==> rows_of_json(text@) is Some,
        r matches Ok(v) ==> Some(rows_view(v@)) == rows_of_json(text@),
{
    serde_json::from_str(text)
}

/// The decimal digits of `n`, most significant first, with no sign and no
/// leading zero.
pub open spec fn decimal(n: nat) -> Seq<char>
    decreases n,
{
    if n < 10 {
        seq![(48 + n) as char]
    } else {
        decimal(n / 10) + seq![(48 + n % 10) as char]
    }
}

/// The text of one decimal digit.
fn digit_text(d: usize) -> (s: &'static str)
    requires
        d < 10,
    ensures
        s@ == seq![(48 + d) as char],
{
    proof {
        reveal_strlit("0");
        reveal_strlit("1");
        reveal_strlit("2");
        reveal_strlit("3");
        reveal_strlit("4");
        reveal_strlit("5");
        reveal_strlit("6");
        reveal_strlit("7");
        reveal_strlit("8");
        reveal_strlit("9");
    }
    match d {
        0 => "0",
        1 => "1",
        2 => "2",
        3 => "3",
        4 => "4",
        5 => "5",
        6 => "6",
        7 => "7",
        8 => "8",
        _ => "9",
    }
}

/// A number in decimal.
pub(crate) fn usize_text(n: usize) -> (s: String)
    ensures
        s@ == decimal(n as nat),
    decreases n,
{
    if n < 10 {
        String::from_str(digit_text(n))
    } else {
        let mut s = usize_text(n / 10);
        s.append(digit_text(n % 10));
        s
    }
}

/// The message "row {row} has width {found} but expected {expected}", with
/// each number in decimal.
pub open spec fn width_mismatch_text(row: usize, found: usize, expected: usize) -> Seq<char> {
    "row "@ + decimal(row as nat) + " has width "@ + decimal(found as nat) + " but expected "@ + decimal(
        expected as nat,
    )
}

/// The message for a row whose length differs from the first row's.
fn width_mismatch(row: usize, found: usize, expected: usize) -> (s: String)
    ensures
        s@ == width_mismatch_text(row, found, expected),
{
    let mut s = String::from_str("row ");
    let a = usize_text(row);
    s.append(a.as_str());
    s.append(" has width ");
    let b = usize_text(found);
    s.append(b.as_str());
    s.append(" but expected ");
    let c = usize_text(expected);
    s.append(c.as_str());
    s
}

/// Index of the first row whose length differs from the first row's (the
/// number of rows when there is none).
pub open spec fn first_mismatch(rows: Seq<Seq<bool>>, i: int) -> int
    decreases rows.len() - i,
{
    if i >= rows.len() || i < 0 {
        rows.len() as int
    } else if rows[i].len() != rows[0].len() {
        i
    } else {
        first_mismatch(rows, i + 1)
    }
}

/// Rows that match the first row's length do not move the first mismatch.
proof fn lemma_first_mismatch(rows: Seq<Seq<bool>>, j: int, i: int)
    requires
        0 <= j <= i <= rows.len(),
        forall|r: int| j <= r < i ==> (#[trigger] rows[r]).len() == rows[0].len(),
    ensures
        first_mismatch(rows, j) == first_mismatch(rows, i),
    decreases i - j,
{
    if j < i {
        lemma_first_mismatch(rows, j + 1, i);
    }
}

/// The message of the `InvalidGrid` error about rows of booleans: the first
/// row of another length than the first, or, for rows too many to count as
/// cells, the row count against the width.
pub open spec fn rows_error(rows: Seq<Seq<bool>>) -> Seq<char> {
    let i = first_mismatch(rows, 0);
    if i < rows.len() {
        width_mismatch_text(i as usize, rows[i].len() as usize, rows[0].len() as usize)
    } else {
        width_mismatch_text(rows.len() as usize, rows[0].len() as usize, rows[0].len() as usize)
    }
}

/// The rows of a solved grid; `UnknownCell` when a cell is undecided.
pub fn grid_to_json_type(grid: &Grid) -> (r: Result<Vec<Vec<bool>>, FormatError>)
    requires
        grid.wf(),
        grid.spec_width() > 0,
    ensures
        r is Ok <==> grid_complete(*grid),
        r is Err ==> r matches Err(FormatError::UnknownCell),
        r matches Ok(rows) ==> rows_view(rows@) == grid_rows(*grid),
{
    let h = grid.height();
    let w = grid.width();
    let mut rows: Vec<Vec<bool>> = Vec::new();
    let mut r: usize = 0;
    while r < h
        invariant
            grid.wf(),
            w == grid.spec_width() > 0,
            h == grid.spec_height(),
            r <= h,
            rows_view(rows@) == grid_rows(*grid).take(r as int),
            forall|r2: int, c2: int| 0 <= r2 < r && 0 <= c2 < w ==> grid.at(r2, c2) != Cell::Unknown,
        decreases h - r,
    {
        let mut row: Vec<bool> = Vec::new();
        let mut c: usize = 0;
        while c < w
            invariant
                grid.wf(),
                w == grid.spec_width() > 0,
                h == grid.spec_height(),
                r < h,
                c <= w,
                row@ == grid_rows(*grid)[r as int].take(c as int),
                forall|c2: int| 0 <= c2 < c ==> grid.at(r as int, c2) != Cell::Unknown,
            decreases w - c,
        {
            let cell = *grid.cell(r, c);
            match cell {
                Cell::Filled => row.push(true),
                Cell::Blank => row.push(false),
                Cell::Unknown => {
                    proof {
                        grid.lemma_wf();
                        lemma_cell_pos_bounds(w as int, h as int, r as int, c as int);
                    }
                    return Err(FormatError::UnknownCell);
                },
            }
            proof {
                assert(row@ =~= grid_rows(*grid)[r as int].take(c + 1));
            }
            c += 1;
        }
        let ghost r0 = rows@;
        let ghost row_view = row@;
        rows.push(row);
        proof {
            assert(rows_view(rows@) =~= rows_view(r0).push(row_view));
            assert(grid_rows(*grid)[r as int].take(w as int) =~= grid_rows(*grid)[r as int]);
            assert(rows_view(rows@) =~= grid_rows(*grid).take(r + 1));
        }
        r += 1;
    }
    proof {
        grid.lemma_wf();
        assert(grid_rows(*grid).take(h as int) =~= grid_rows(*grid));
        assert forall|i: int| 0 <= i < grid.spec_cells().len() implies grid.spec_cells()[i] != Cell::Unknown by {
            crate::types::lemma_cell_pos_onto(w as int, h as int, i);
            assert(grid.at(i / (w as int), i % (w as int)) != Cell::Unknown);
        }
    }
    Ok(rows)
}

/// All rows have the length of the first one.
pub open spec fn rows_rectangular(rows: Seq<Seq<bool>>) -> bool {
    forall|r: int| 0 <= r < rows.len() ==> (#[trigger] rows[r]).len() == rows[0].len()
}

/// Rows of booleans that make a grid: all of one length, and not more cells
/// than a grid can hold.
pub open spec fn rows_grid_ok(rows: Seq<Seq<bool>>) -> bool {
    &&& rows_rectangular(rows)
    &&& rows.len() == 0 || rows.len() * rows[0].len() <= usize::MAX
}

/// `g` is the grid of the rows: as wide as the first row, and with a cell
/// filled exactly where its row holds `true`; a grid of width 0 has no rows.
pub open spec fn grid_of_rows(g: Grid, rows: Seq<Seq<bool>>) -> bool {
    &&& g.wf()
    &&& g.spec_width() == if rows.len() == 0 {
        0
    } else {
        rows[0].len()
    }
    &&& g.spec_width() > 0 ==> g.spec_height() == rows.len() && grid_rows(g) == rows
    &&& g.spec_width() == 0 ==> g.spec_height() == 0 && g.spec_cells().len() == 0
}

/// A grid from rows of booleans; `InvalidGrid` when the rows differ in
/// length, or hold more cells than a grid can.
pub fn grid_from_json_type(json: Vec<Vec<bool>>) -> (r: Result<Grid, FormatError>)
    ensures
        r is Ok <==> rows_grid_ok(rows_view(json@)),
        r is Err ==> (r matches Err(FormatError::InvalidGrid(m)) && m@ == rows_error(rows_view(json@))),
        r matches Ok(g) ==> grid_of_rows(g, rows_view(json@)),
{
    let ghost rv = rows_view(json@);
    let height = json.len();
    let width = if height > 0 {
        json[0].len()
    } else {
        0
    };
    let mut i: usize = 0;
    while i < height
        invariant
            rv == rows_view(json@),
            height == json@.len(),
            width == if height == 0 {
                0
            } else {
                json@[0]@.len()
            },
            i <= height,
            forall|r: int| 0 <= r < i ==> (#[trigger] json@[r])@.len() == width,
        decreases height - i,
    {
        if json[i].len() != width {
            proof {
                assert(rv[i as int] == json@[i as int]@);
                assert(rv[0] == json@[0]@);
                assert forall|r: int| 0 <= r < i implies (#[trigger] rv[r]).len() == rv[0].len() by {
                    assert(rv[r] == json@[r]@);
                }
                lemma_first_mismatch(rv, 0, i as int);
                assert(!rows_rectangular(rv));
            }
            return Err(FormatError::InvalidGrid(width_mismatch(i, json[i].len(), width)));
        }
        i += 1;
    }
    proof {
        assert forall|r: int| 0 <= r < rv.len() implies (#[trigger] rv[r]).len() == rv[0].len() by {
            assert(rv[r] == json@[r]@);
        }
    }
    let total = match width.checked_mul(height) {
        Some(t) => t,
        None => {
            proof {
                lemma_first_mismatch(rv, 0, rv.len() as int);
                assert(rv[0] == json@[0]@);
                assert(json@.len() * json@[0]@.len() == width * height) by (nonlinear_arith)
                    requires
                        height == json@.len(),
                        width == json@[0]@.len(),
                ;
            }
            return Err(FormatError::InvalidGrid(width_mismatch(height, width, width)));
        },
    };
    let mut grid = Grid::new(width, height);
    let mut r: usize = 0;
    while r < height
        invariant
            rv == rows_view(json@),
            height == json@.len(),
            forall|r2: int| 0 <= r2 < height ==> (#[trigger] json@[r2])@.len() == width,
            total == width * height,
            grid.wf(),
            grid.spec_width() == width,
            width > 0 ==> grid.spec_height() == height,
            width == 0 ==> grid.spec_height() == 0,
            grid.spec_cells().len() == width * height,
            r <= height,
            forall|r2: int, c2: int|
                0 <= r2 < r && 0 <= c2 < width ==> grid.at(r2, c2) == if json@[r2]@[c2] {
                    Cell::Filled
                } else {
                    Cell::Blank
                },
        decreases height - r,
    {
        let row = &json[r];
        let mut c: usize = 0;
        while c < row.len()
            invariant
                height == json@.len(),
                forall|r2: int| 0 <= r2 < height ==> (#[trigger] json@[r2])@.len() == width,
                row@ == json@[r as int]@,
                grid.wf(),
                grid.spec_width() == width,
                width > 0 ==> grid.spec_height() == height,
                width == 0 ==> grid.spec_height() == 0,
            width == 0 ==> grid.spec_height() == 0,
                grid.spec_cells().len() == width * height,
                r < height,
                c <= width,
                forall|r2: int, c2: int|
                    0 <= r2 < r && 0 <= c2 < width ==> grid.at(r2, c2) == if json@[r2]@[c2] {
                        Cell::Filled
                    } else {
                        Cell::Blank
                    },
                forall|c2: int|
                    0 <= c2 < c ==> grid.at(r as int, c2) == if json@[r as int]@[c2] {
                        Cell::Filled
                    } else {
                        Cell::Blank
                    },
            decreases width - c,
        {
            let filled = row[c];
            let value = if filled {
                Cell::Filled
            } else {
                Cell::Blank
            };
            let ghost g0 = grid;
            proof {
                lemma_cell_pos_bounds(width as int, height as int, r as int, c as int);
            }
            grid.set_cell(r, c, value);
            proof {
                assert forall|r2: int, c2: int|
                    0 <= r2 < r && 0 <= c2 < width implies grid.at(r2, c2) == if json@[r2]@[c2] {
                    Cell::Filled
                } else {
                    Cell::Blank
                } by {
                    crate::types::lemma_cell_pos_inj_neq(width as int, r2, c2, r as int, c as int);
                    lemma_cell_pos_bounds(width as int, height as int, r2, c2);
                    assert(g0.at(r2, c2) == if json@[r2]@[c2] {
                        Cell::Filled
                    } else {
                        Cell::Blank
                    });
                }
                assert forall|c2: int| 0 <= c2 < c + 1 implies grid.at(r as int, c2) == if json@[r as int]@[c2] {
                    Cell::Filled
                } else {
                    Cell::Blank
                } by {
                    if c2 < c {
                        crate::types::lemma_cell_pos_inj_neq(width as int, r as int, c2, r as int, c as int);
                        lemma_cell_pos_bounds(width as int, height as int, r as int, c2);
                        assert(g0.at(r as int, c2) == if json@[r as int]@[c2] {
                            Cell::Filled
                        } else {
                            Cell::Blank
                        });
                    }
                }
            }
            c += 1;
        }
        r += 1;
    }
    proof {
        if height > 0 {
            assert(rv[0] == json@[0]@);
            assert(height * width <= usize::MAX) by (nonlinear_arith)
                requires
                    total == width * height,
                    total <= usize::MAX,
            ;
        }
        if width > 0 {
            assert forall|r2: int| 0 <= r2 < height implies (#[trigger] grid_rows(grid)[r2]) == rv[r2] by {
                assert(grid_rows(grid)[r2] =~= rv[r2]);
            }
            assert(grid_rows(grid) =~= rv);
        }
    }
    Ok(grid)
}

/// A solved grid as JSON; `UnknownCell` when a cell is undecided.
pub fn grid_to_json(grid: &Grid) -> (r: Result<String, FormatError>)
    requires
        grid.wf(),
        grid.spec_width() > 0,
    ensures
        r is Ok <==> grid_complete(*grid),
        r is Err ==> r matches Err(FormatError::UnknownCell),
        r matches Ok(s) ==> s@ == json_of_rows(grid_rows(*grid)) && rows_of_json(s@) == Some(grid_rows(*grid)),
{
    let rows = match grid_to_json_type(grid) {
        Ok(rows) => rows,
        Err(e) => {
            return Err(e);
        },
    };
    Ok(rows_to_json(&rows))
}

/// A grid read from JSON rows of booleans.
pub fn grid_from_json(s: &str) -> (r: Result<Grid, FormatError>)
    ensures
        r matches Err(FormatError::Json(_)) <==> rows_of_json(s@) is None,
        r is Ok <==> (rows_of_json(s@) matches Some(rows) && rows_grid_ok(rows)),
        r matches Err(FormatError::InvalidGrid(m)) ==> (rows_of_json(s@) matches Some(rows) && m@ == rows_error(rows)),
        r matches Ok(g) ==> (rows_of_json(s@) matches Some(rows) && grid_of_rows(g, rows)),
{
    let json = match rows_from_json(s) {
        Ok(j) => j,
        Err(e) => {
            return Err(FormatError::Json(e));
        },
    };
    proof {
        if json@.len() > 0 {
            assert(rows_view(json@)[0] == json@[0]@);
        }
    }
    grid_from_json_type(json)
}

/// A solution as read from JSON: its status, and its grids as rows of
/// booleans.
pub enum SolutionJson {
    NoSolution { grids: Vec<Vec<Vec<bool>>> },
    Unique { grids: Vec<Vec<Vec<bool>>> },
    Multiple { grids: Vec<Vec<Vec<bool>>> },
}

/// The grids of a solution read from JSON, as rows of booleans.
pub open spec fn grids_view(grids: Seq<Vec<Vec<bool>>>) -> Seq<Seq<Seq<bool>>> {
    grids.map_values(|g: Vec<Vec<bool>>| rows_view(g@))
}

/// Index of the first list of rows from `i` on that makes no grid (the
/// number of lists when all do).
pub open spec fn first_bad_grid(grids: Seq<Seq<Seq<bool>>>, i: int) -> int
    decreases grids.len() - i,
{
    if i >= grids.len() || i < 0 {
        grids.len() as int
    } else if !rows_grid_ok(grids[i]) {
        i
    } else {
        first_bad_grid(grids, i + 1)
    }
}

/// Lists of rows that all make grids do not move the first bad one.
proof fn lemma_first_bad_grid(grids: Seq<Seq<Seq<bool>>>, j: int, i: int)
    requires
        0 <= j <= i <= grids.len(),
        forall|k: int| j <= k < i ==> rows_grid_ok(#[trigger] grids[k]),
    ensures
        first_bad_grid(grids, j) == first_bad_grid(grids, i),
    decreases i - j,
{
    if j < i {
        lemma_first_bad_grid(grids, j + 1, i);
    }
}

/// A solution from its JSON form. `none` gives no solution; `unique` the grid
/// of its first list of rows, and `InvalidGrid` when there is none; `multiple`
/// the grids of all its lists. A list of rows that makes no grid gives that
/// list's `InvalidGrid` error, the first such list for `multiple`.
pub fn solution_from_json_type(json: SolutionJson) -> (r: Result<Solution, FormatError>)
    ensures
        json is NoSolution ==> r matches Ok(Solution::NoSolution),
        json matches SolutionJson::Unique { grids } ==> if grids@.len() == 0 {
            r matches Err(FormatError::InvalidGrid(m)) && m@ == "unique solution has no grid"@
        } else if rows_grid_ok(rows_view(grids@[0]@)) {
            r matches Ok(Solution::Unique(g)) && grid_of_rows(g, rows_view(grids@[0]@))
        } else {
            r matches Err(FormatError::InvalidGrid(m)) && m@ == rows_error(rows_view(grids@[0]@))
        },
        json matches SolutionJson::Multiple { grids } ==> ({
            let gv = grids_view(grids@);
            let k = first_bad_grid(gv, 0);
            if k == gv.len() {
                r matches Ok(Solution::Multiple(v)) && v@.len() == gv.len() && forall|i: int|
                    0 <= i < gv.len() ==> grid_of_rows(#[trigger] v@[i], gv[i])
            } else {
                r matches Err(FormatError::InvalidGrid(m)) && m@ == rows_error(gv[k])
            }
        }),
{
    match json {
        SolutionJson::NoSolution { .. } => Ok(Solution::NoSolution),
        SolutionJson::Unique { grids } => {
            let mut grids = grids;
            if grids.len() == 0 {
                return Err(FormatError::InvalidGrid(String::from_str("unique solution has no grid")));
            }
            let first = grids.swap_remove(0);
            match grid_from_json_type(first) {
                Ok(g) => Ok(Solution::Unique(g)),
                Err(e) => Err(e),
            }
        },
        SolutionJson::Multiple { grids } => match grids_from_json_types(grids) {
            Ok(out) => Ok(Solution::Multiple(out)),
            Err(e) => Err(e),
        },
    }
}

/// The grids of lists of rows, or the error of the first list that makes
/// no grid.
fn grids_from_json_types(grids: Vec<Vec<Vec<bool>>>) -> (r: Result<Vec<Grid>, FormatError>)
    ensures
        ({
            let gv = grids_view(grids@);
            let k = first_bad_grid(gv, 0);
            if k == gv.len() {
                r matches Ok(v) && v@.len() == gv.len() && forall|i: int|
                    0 <= i < gv.len() ==> grid_of_rows(#[trigger] v@[i], gv[i])
            } else {
                r matches Err(FormatError::InvalidGrid(m)) && m@ == rows_error(gv[k])
            }
        }),
{
    let ghost gv = grids_view(grids@);
    let n = grids.len();
    let mut rest = grids;
    let mut out: Vec<Grid> = Vec::new();
    let mut i: usize = 0;
    while i < n
        invariant
            gv == grids_view(grids@),
            n == gv.len(),
            i <= n,
            rest@.len() == n - i,
            forall|k: int| 0 <= k < n - i ==> rows_view((#[trigger] rest@[k])@) == gv[k + i],
            out@.len() == i,
            forall|k: int| 0 <= k < i ==> rows_grid_ok(#[trigger] gv[k]),
            forall|k: int| 0 <= k < i ==> grid_of_rows(#[trigger] out@[k], gv[k]),
        decreases n - i,
    {
        let rows = rest.remove(0);
        proof {
            assert(rows_view(rows@) == gv[i as int]);
        }
        match grid_from_json_type(rows) {
            Ok(g) => {
                out.push(g);
            },
            Err(e) => {
                proof {
                    lemma_first_bad_grid(gv, 0, i as int);
                    assert(!rows_grid_ok(gv[i as int]));
                    assert(first_bad_grid(gv, i as int) == i);
                }
                return Err(e);
            },
        }
        i += 1;
    }
    proof {
        lemma_first_bad_grid(gv, 0, n as int);
    }
    Ok(out)
}

/// A puzzle as read from JSON: its row clues and its column clues.
pub struct PuzzleJson {
    pub row_clues: Vec<Vec<usize>>,
    pub col_clues: Vec<Vec<usize>>,
}

/// Clues from lists of block lengths.
fn clues_from_lists(lists: Vec<Vec<usize>>) -> (v: Vec<Clue>)
    ensures
        v@.map_values(|c: Clue| c.spec_blocks()) == lists_view(lists@),
{
    let ghost lv = lists_view(lists@);
    let n = lists.len();
    let mut rest = lists;
    let mut v: Vec<Clue> = Vec::new();
    let mut i: usize = 0;
    while i < n
        invariant
            n == lv.len(),
            i <= n,
            rest@.len() == n - i,
            forall|k: int| 0 <= k < n - i ==> (#[trigger] rest@[k])@ == lv[k + i],
            v@.map_values(|c: Clue| c.spec_blocks()) == lv.take(i as int),
        decreases n - i,
    {
        let blocks = rest.remove(0);
        proof {
            assert(blocks@ == lv[i as int]);
        }
        let ghost v0 = v@;
        let c = Clue::new(blocks);
        v.push(c);
        proof {
            assert(v@ == v0.push(c));
            assert(v@.map_values(|c: Clue| c.spec_blocks()) =~= v0.map_values(|c: Clue| c.spec_blocks()).push(
                c.spec_blocks(),
            ));
            assert(lv.take(i + 1) =~= lv.take(i as int).push(lv[i as int]));
        }
        i += 1;
    }
    proof {
        assert(lv.take(n as int) =~= lv);
    }
    v
}

/// A puzzle from its JSON form: a row clue for each list of `row_clues` and a
/// column clue for each list of `col_clues`.
pub fn puzzle_from_json_type(json: PuzzleJson) -> (p: Puzzle)
    ensures
        p.spec_rows() == lists_view(json.row_clues@),
        p.spec_cols() == lists_view(json.col_clues@),
{
    Puzzle::new(clues_from_lists(json.row_clues), clues_from_lists(json.col_clues))
}

/// Lists of block lengths, as sequences.
pub open spec fn lists_view(lists: Seq<Vec<usize>>) -> Seq<Seq<usize>> {
    lists.map_values(|l: Vec<usize>| l@)
}

/// The JSON text serde_json writes for a list of lists of block lengths: an
/// array of arrays of decimal numbers.
pub open spec fn json_of_clues(clues: Seq<Seq<usize>>) -> Seq<char> {
    json_list(clues.map_values(|c: Seq<usize>| json_list(c.map_values(|n: usize| decimal(n as nat)))))
}

/// Writes lists of block lengths with `serde_json::to_string`; the contract
/// names the text. The serializer fails only when its writer does, and the
/// writer is a vector in memory.
#[verifier::external_body]
fn clues_to_json(clues: &Vec<Vec<usize>>) -> (s: String)
    ensures
        s@ == json_of_clues(lists_view(clues@)),
{
    serde_json::to_string(clues).expect("serializing into memory does not fail")
}

/// The block lists of a sequence of clues.
fn block_lists(clues: &[Clue]) -> (v: Vec<Vec<usize>>)
    ensures
        lists_view(v@) == clues@.map_values(|c: Clue| c.spec_blocks()),
{
    let mut v: Vec<Vec<usize>> = Vec::new();
    let mut i: usize = 0;
    while i < clues.len()
        invariant
            i <= clues@.len(),
            lists_view(v@) == clues@.map_values(|c: Clue| c.spec_blocks()).take(i as int),
        decreases clues@.len() - i,
    {
        let blocks = vstd::slice::slice_to_vec(clues[i].blocks());
        let ghost v0 = v@;
        v.push(blocks);
        proof {
            assert(lists_view(v@) =~= lists_view(v0).push(blocks@));
            assert(lists_view(v@) =~= clues@.map_values(|c: Clue| c.spec_blocks()).take(i + 1));
        }
        i += 1;
    }
    proof {
        assert(clues@.map_values(|c: Clue| c.spec_blocks()).take(i as int) =~= clues@.map_values(
            |c: Clue| c.spec_blocks(),
        ));
    }
    v
}

/// The JSON object of a puzzle: its row clues, then its column clues.
pub open spec fn puzzle_json(puzzle: Puzzle) -> Seq<char> {
    "{\"row_clues\":"@ + json_of_clues(puzzle.spec_rows()) + ",\"col_clues\":"@ + json_of_clues(
        puzzle.spec_cols(),
    ) + "}"@
}

/// A puzzle as a JSON object with the fields `row_clues` and `col_clues`.
pub fn puzzle_to_json(puzzle: &Puzzle) -> (s: String)
    ensures
        s@ == puzzle_json(*puzzle),
{
    let rows = block_lists(puzzle.row_clues());
    let cols = block_lists(puzzle.col_clues());
    let row_text = clues_to_json(&rows);
    let col_text = clues_to_json(&cols);
    let mut s = String::from_str("{\"row_clues\":");
    s.append(row_text.as_str());
    s.append(",\"col_clues\":");
    s.append(col_text.as_str());
    s.append("}");
    s
}

/// Texts separated by commas.
pub open spec fn comma_joined(items: Seq<Seq<char>>) -> Seq<char>
    decreases items.len(),
{
    if items.len() == 0 {
        Seq::empty()
    } else if items.len() == 1 {
        items[0]
    } else {
        comma_joined(items.drop_last()) + ","@ + items.last()
    }
}

/// The views of a list of strings.
pub open spec fn texts_view(texts: Seq<String>) -> Seq<Seq<char>> {
    texts.map_values(|t: String| t@)
}

/// A JSON array whose elements are the given texts.
fn json_array(texts: &Vec<String>) -> (s: String)
    ensures
        s@ == "["@ + comma_joined(texts_view(texts@)) + "]"@,
{
    let ghost tv = texts_view(texts@);
    let mut s = String::from_str("[");
    let mut i: usize = 0;
    while i < texts.len()
        invariant
            tv == texts_view(texts@),
            i <= texts@.len(),
            s@ == "["@ + comma_joined(tv.take(i as int)),
        decreases texts@.len() - i,
    {
        proof {
            assert(tv.take(i + 1).drop_last() =~= tv.take(i as int));
            assert(tv.take(i + 1).last() == texts@[i as int]@);
        }
        if i > 0 {
            s.append(",");
        } else {
            assert(tv.take(i as int) =~= Seq::<Seq<char>>::empty());
        }
        s.append(texts[i].as_str());
        i += 1;
    }
    assert(tv.take(i as int) =~= tv);
    s.append("]");
    s
}

/// The status word of a solution.
pub open spec fn status_word(solution: Solution) -> Seq<char> {
    match solution {
        Solution::NoSolution => "none"@,
        Solution::Unique(_) => "unique"@,
        Solution::Multiple(_) => "multiple"@,
    }
}

/// The JSON object of a solution: its status word and the array of its grids.
pub open spec fn solution_json(solution: Solution) -> Seq<char> {
    "{\"status\":\""@ + status_word(solution) + "\",\"grids\":"@ + "["@ + comma_joined(
        solution.grids().map_values(|g: Grid| json_of_rows(grid_rows(g))),
    ) + "]"@ + "}"@
}

/// Every grid held by a solution has cells for its columns and rows.
pub open spec fn solution_grids_wf(solution: Solution) -> bool {
    forall|i: int|
        0 <= i < solution.grids().len() ==> (#[trigger] solution.grids()[i]).wf()
            && solution.grids()[i].spec_width() > 0
}

/// The JSON texts of grids, in order; `UnknownCell` at the first grid with
/// an undecided cell.
fn grid_texts(grids: &Vec<Grid>) -> (r: Result<Vec<String>, FormatError>)
    requires
        forall|i: int| 0 <= i < grids@.len() ==> (#[trigger] grids@[i]).wf() && grids@[i].spec_width() > 0,
    ensures
        r is Ok <==> forall|i: int| 0 <= i < grids@.len() ==> grid_complete(#[trigger] grids@[i]),
        r is Err ==> r matches Err(FormatError::UnknownCell),
        r matches Ok(t) ==> texts_view(t@) == grids@.map_values(|g: Grid| json_of_rows(grid_rows(g))),
{
    let ghost target = grids@.map_values(|g: Grid| json_of_rows(grid_rows(g)));
    let mut texts: Vec<String> = Vec::new();
    let mut i: usize = 0;
    while i < grids.len()
        invariant
            target == grids@.map_values(|g: Grid| json_of_rows(grid_rows(g))),
            forall|j: int| 0 <= j < grids@.len() ==> (#[trigger] grids@[j]).wf() && grids@[j].spec_width() > 0,
            i <= grids@.len(),
            forall|j: int| 0 <= j < i ==> grid_complete(#[trigger] grids@[j]),
            texts_view(texts@) == target.take(i as int),
        decreases grids@.len() - i,
    {
        let text = match grid_to_json(&grids[i]) {
            Ok(t) => t,
            Err(e) => {
                return Err(e);
            },
        };
        let ghost t0 = texts@;
        texts.push(text);
        proof {
            assert(texts_view(texts@) =~= texts_view(t0).push(text@));
            assert(texts_view(texts@) =~= target.take(i + 1));
        }
        i += 1;
    }
    assert(target.take(i as int) =~= target);
    Ok(texts)
}

/// A solution as a JSON object with the fields `status` and `grids`;
/// `UnknownCell` when a grid has an undecided cell.
pub fn solution_to_json(solution: &Solution) -> (r: Result<String, FormatError>)
    requires
        solution_grids_wf(*solution),
    ensures
        r is Ok <==> forall|i: int| 0 <= i < solution.grids().len() ==> grid_complete(#[trigger] solution.grids()[i]),
        r is Err ==> r matches Err(FormatError::UnknownCell),
        r matches Ok(s) ==> s@ == solution_json(*solution),
{
    let (status, texts) = match solution {
        Solution::NoSolution => {
            let texts: Vec<String> = Vec::new();
            assert(texts_view(texts@) =~= solution.grids().map_values(|g: Grid| json_of_rows(grid_rows(g))));
            ("none", texts)
        },
        Solution::Unique(grid) => {
            assert(solution.grids()[0] == *grid);
            let text = match grid_to_json(grid) {
                Ok(t) => t,
                Err(e) => {
                    return Err(e);
                },
            };
            let mut texts: Vec<String> = Vec::new();
            texts.push(text);
            assert(texts_view(texts@) =~= solution.grids().map_values(|g: Grid| json_of_rows(grid_rows(g))));
            ("unique", texts)
        },
        Solution::Multiple(grids) => {
            assert(solution.grids() == grids@);
            let texts = match grid_texts(grids) {
                Ok(t) => t,
                Err(e) => {
                    return Err(e);
                },
            };
            ("multiple", texts)
        },
    };
    let array = json_array(&texts);
    let mut s = String::from_str("{\"status\":\"");
    s.append(status);
    s.append("\",\"grids\":");
    s.append(array.as_str());
    s.append("}");
    Ok(s)
}

/// A cell as an optional boolean: `None` while undecided.
pub open spec fn cell_value(cell: Cell) -> Option<bool> {
    match cell {
        Cell::Filled => Some(true),
        Cell::Blank => Some(false),
        Cell::Unknown => None,
    }
}

/// The rows of a grid, each cell as an optional boolean.
pub open spec fn partial_rows(grid: Grid) -> Seq<Seq<Option<bool>>> {
    Seq::new(
        grid.spec_height(),
        |r: int| Seq::new(grid.spec_width(), |c: int| cell_value(grid.at(r, c))),
    )
}

/// An optional boolean in JSON: `null` for `None`.
pub open spec fn option_json(c: Option<bool>) -> Seq<char> {
    match c {
        Some(b) => bool_json(b),
        None => "null"@,
    }
}

/// The JSON text serde_json writes for rows of optional booleans: an array
/// of arrays of `true`, `false` and `null`.
pub open spec fn json_of_partial_rows(rows: Seq<Seq<Option<bool>>>) -> Seq<char> {
    json_list(rows.map_values(|r: Seq<Option<bool>>| json_list(r.map_values(|c: Option<bool>| option_json(c)))))
}

/// Writes rows of optional booleans with `serde_json::to_string`; the
/// contract names the text. The serializer fails only when its writer does,
/// and the writer is a vector in memory.
#[verifier::external_body]
fn partial_rows_to_json(rows: &Vec<Vec<Option<bool>>>) -> (s: String)
    ensures
        s@ == json_of_partial_rows(rows@.map_values(|r: Vec<Option<bool>>| r@)),
{
    serde_json::to_string(rows).expect("serializing into memory does not fail")
}

/// A grid that may hold undecided cells as JSON rows in which a filled cell
/// is `true`, a blank one `false` and an undecided one `null`.
pub fn partial_grid_to_json(grid: &Grid) -> (s: String)
    requires
        grid.wf(),
        grid.spec_width() > 0,
    ensures
        s@ == json_of_partial_rows(partial_rows(*grid)),
{
    let h = grid.height();
    let w = grid.width();
    let ghost target = partial_rows(*grid);
    let mut rows: Vec<Vec<Option<bool>>> = Vec::new();
    let mut r: usize = 0;
    while r < h
        invariant
            grid.wf(),
            target == partial_rows(*grid),
            w == grid.spec_width() > 0,
            h == grid.spec_height(),
            r <= h,
            rows@.map_values(|v: Vec<Option<bool>>| v@) == target.take(r as int),
        decreases h - r,
    {
        let mut row: Vec<Option<bool>> = Vec::new();
        let mut c: usize = 0;
        while c < w
            invariant
                grid.wf(),
                target == partial_rows(*grid),
                w == grid.spec_width() > 0,
                h == grid.spec_height(),
                r < h,
                c <= w,
                row@ == target[r as int].take(c as int),
            decreases w - c,
        {
            let value = match *grid.cell(r, c) {
                Cell::Filled => Some(true),
                Cell::Blank => Some(false),
                Cell::Unknown => None,
            };
            row.push(value);
            proof {
                assert(row@ =~= target[r as int].take(c + 1));
            }
            c += 1;
        }
        let ghost r0 = rows@;
        let ghost row_view = row@;
        rows.push(row);
        proof {
            assert(rows@.map_values(|v: Vec<Option<bool>>| v@) =~= r0.map_values(
                |v: Vec<Option<bool>>| v@,
            ).push(row_view));
            assert(target[r as int].take(w as int) =~= target[r as int]);
            assert(rows@.map_values(|v: Vec<Option<bool>>| v@) =~= target.take(r + 1));
        }
        r += 1;
    }
    assert(target.take(h as int) =~= target);
    partial_rows_to_json(&rows)
}

/// The rows of a grid with at least one column describe the grid: reading
/// them back gives its width, height and cells.
pub proof fn lemma_rows_roundtrip(grid: Grid, other: Grid)
    requires
        grid.wf(),
        other.wf(),
        grid.spec_width() > 0,
        other.spec_width() == grid.spec_width(),
        other.spec_height() == grid.spec_height(),
        grid_rows(other) == grid_rows(grid),
        grid_complete(grid),
        grid_complete(other),
    ensures
        other.spec_cells() == grid.spec_cells(),
{
    grid.lemma_wf();
    other.lemma_wf();
    let w = grid.spec_width() as int;
    let h = grid.spec_height() as int;
    assert forall|i: int| 0 <= i < grid.spec_cells().len() implies other.spec_cells()[i] == grid.spec_cells()[i] by {
        crate::types::lemma_cell_pos_onto(w, h, i);
        let r = i / w;
        let c = i % w;
        assert(grid_rows(other)[r][c] == grid_rows(grid)[r][c]);
        assert(grid.at(r, c) == grid.spec_cells()[i]);
        assert(other.at(r, c) == other.spec_cells()[i]);
        assert(grid.spec_cells()[i] != Cell::Unknown);
        assert(other.spec_cells()[i] != Cell::Unknown);
        assert(grid_rows(grid)[r][c] == (grid.at(r, c) == Cell::Filled));
        assert(grid_rows(other)[r][c] == (other.at(r, c) == Cell::Filled));
    }
    assert(other.spec_cells() =~= grid.spec_cells());
}

} // verus!
