//! The command-line tool's own logic: clues of a grid given as rows of
//! booleans, and the tool's arguments and errors.
use std::path::PathBuf;

use vstd::prelude::*;

use crate::codec::lemma_runs_step;
use vstd::string::StringExecFns;

use crate::format::{decimal, json_of_partial_rows, partial_grid_to_json, partial_rows, usize_text, FormatError};
use crate::types::{runs, runs_after, Cell, Grid};

verus! {

#[verifier::external_type_specification]
#[verifier::external_body]
pub struct ExPathBuf(std::path::PathBuf);

/// What went wrong in a command.
#[derive(Debug)]
pub enum CliError {
    Io(std::io::Error),
    Format(FormatError),
    Parse(String),
    Validation(String),
    ImageDecode(String),
}

/// Which solver the `solve` command runs.
#[derive(Debug, Clone, Copy, PartialEq, Eq, Structural)]
pub enum Solver {
    Linear,
    Backtracking,
}

/// Arguments of the `solve` command.
#[derive(Debug)]
pub struct SolveArgs {
    pub solver: Solver,
    pub input: Option<PathBuf>,
    pub output: Option<PathBuf>,
}

/// Arguments of the `grid-to-puzzle` command.
#[derive(Debug)]
pub struct GridToPuzzleArgs {
    pub input: Option<PathBuf>,
    pub output: Option<PathBuf>,
}

/// A line of booleans as cells: `true` filled, `false` blank.
pub open spec fn bool_cells(line: Seq<bool>) -> Seq<Cell> {
    line.map_values(|b: bool| if b { Cell::Filled } else { Cell::Blank })
}

/// The lengths of the runs of `true` in a line, in order.
pub fn compute_clue(line: &[bool]) -> (clues: Vec<usize>)
    ensures
        clues@ == runs(bool_cells(line@)),
{
    let ghost cells = bool_cells(line@);
    let mut clues: Vec<usize> = Vec::new();
    let mut count: usize = 0;
    let mut i: usize = 0;
    proof {
        assert(cells.skip(0) =~= cells);
        assert(clues@ + runs(cells) =~= runs(cells));
    }
    while i < line.len()
        invariant
            cells == bool_cells(line@),
            i <= line@.len(),
            count <= i,
            clues@ + runs_after(cells.skip(i as int), count as nat) == runs(cells),
        decreases line@.len() - i,
    {
        let ghost rest = cells.skip(i as int);
        proof {
            lemma_runs_step(rest, count as nat);
            assert(rest.drop_first() =~= cells.skip(i + 1));
            assert(rest[0] == cells[i as int]);
        }
        if line[i] {
            count += 1;
        } else if count > 0 {
            let ghost c0 = clues@;
            clues.push(count);
            proof {
                assert(clues@ + runs_after(cells.skip(i + 1), 0) =~= c0 + (seq![count] + runs_after(
                    cells.skip(i + 1),
                    0,
                )));
            }
            count = 0;
        }
        i += 1;
    }
    proof {
        assert(cells.skip(i as int) =~= Seq::<Cell>::empty());
    }
    if count > 0 {
        let ghost c0 = clues@;
        clues.push(count);
        proof {
            assert(clues@ =~= c0 + seq![count]);
        }
    } else {
        proof {
            assert(clues@ =~= clues@ + Seq::<usize>::empty());
        }
    }
    clues
}

/// The grid has a first row, that row is not empty, and every row has its
/// length.
pub open spec fn grid_rectangular(grid: Seq<Seq<bool>>) -> bool {
    &&& grid.len() > 0
    &&& grid[0].len() > 0
    &&& forall|r: int| 0 <= r < grid.len() ==> (#[trigger] grid[r]).len() == grid[0].len()
}

/// The rows of a grid of booleans, as sequences.
pub open spec fn bool_rows(grid: Seq<Vec<bool>>) -> Seq<Seq<bool>> {
    grid.map_values(|r: Vec<bool>| r@)
}

/// The message of the `Parse` error about a grid of booleans that is empty,
/// has an empty first row, or is not rectangular.
pub open spec fn grid_shape_error(grid: Seq<Seq<bool>>) -> Seq<char> {
    if grid.len() == 0 {
        "grid must not be empty"@
    } else if grid[0].len() == 0 {
        "grid rows must not be empty"@
    } else {
        "all rows must have the same length"@
    }
}

/// The number of columns of a non-empty rectangular grid; a `Parse` error
/// otherwise.
pub fn validate_grid(grid: &[Vec<bool>]) -> (r: Result<usize, CliError>)
    ensures
        r is Ok <==> grid_rectangular(bool_rows(grid@)),
        r matches Ok(cols) ==> cols == grid@[0]@.len(),
        r is Err ==> r matches Err(CliError::Parse(_)),
        r matches Err(CliError::Parse(m)) ==> m@ == grid_shape_error(bool_rows(grid@)),
{
    let ghost rows = bool_rows(grid@);
    if grid.len() == 0 {
        return Err(CliError::Parse("grid must not be empty".to_owned()));
    }
    let cols = grid[0].len();
    proof {
        assert(rows[0] == grid@[0]@);
    }
    if cols == 0 {
        return Err(CliError::Parse("grid rows must not be empty".to_owned()));
    }
    let mut i: usize = 0;
    while i < grid.len()
        invariant
            rows == bool_rows(grid@),
            cols == rows[0].len(),
            cols > 0,
            grid@.len() > 0,
            i <= grid@.len(),
            forall|r: int| 0 <= r < i ==> (#[trigger] rows[r]).len() == cols,
        decreases grid@.len() - i,
    {
        proof {
            assert(rows[i as int] == grid@[i as int]@);
        }
        if grid[i].len() != cols {
            return Err(CliError::Parse("all rows must have the same length".to_owned()));
        }
        i += 1;
    }
    Ok(cols)
}

/// Column `c` of a grid of booleans.
pub open spec fn bool_column(grid: Seq<Seq<bool>>, c: int) -> Seq<bool> {
    Seq::new(grid.len(), |r: int| grid[r][c])
}

/// The row clues and the column clues of a rectangular grid of booleans
/// with `cols` columns.
pub fn grid_clues(grid: &[Vec<bool>], cols: usize) -> (clues: (Vec<Vec<usize>>, Vec<Vec<usize>>))
    requires
        forall|r: int| 0 <= r < grid@.len() ==> (#[trigger] grid@[r])@.len() == cols,
    ensures
        clues.0@.len() == grid@.len(),
        clues.1@.len() == cols,
        forall|r: int| 0 <= r < grid@.len() ==> (#[trigger] clues.0@[r])@ == runs(bool_cells(grid@[r]@)),
        forall|c: int| 0 <= c < cols ==> (#[trigger] clues.1@[c])@ == runs(bool_cells(bool_column(bool_rows(grid@), c))),
{
    let rows = grid.len();
    let mut row_clues: Vec<Vec<usize>> = Vec::new();
    let mut r: usize = 0;
    while r < rows
        invariant
            rows == grid@.len(),
            r <= rows,
            row_clues@.len() == r,
            forall|i: int| 0 <= i < r ==> (#[trigger] row_clues@[i])@ == runs(bool_cells(grid@[i]@)),
        decreases rows - r,
    {
        row_clues.push(compute_clue(grid[r].as_slice()));
        r += 1;
    }
    let mut col_clues: Vec<Vec<usize>> = Vec::new();
    let mut c: usize = 0;
    while c < cols
        invariant
            rows == grid@.len(),
            forall|i: int| 0 <= i < grid@.len() ==> (#[trigger] grid@[i])@.len() == cols,
            c <= cols,
            col_clues@.len() == c,
            forall|j: int| 0 <= j < c ==> (#[trigger] col_clues@[j])@ == runs(bool_cells(bool_column(bool_rows(grid@), j))),
        decreases cols - c,
    {
        let mut col: Vec<bool> = Vec::new();
        let mut r2: usize = 0;
        while r2 < rows
            invariant
                rows == grid@.len(),
                forall|i: int| 0 <= i < grid@.len() ==> (#[trigger] grid@[i])@.len() == cols,
                c < cols,
                r2 <= rows,
                col@ == bool_column(bool_rows(grid@), c as int).take(r2 as int),
            decreases rows - r2,
        {
            let v = grid[r2][c];
            col.push(v);
            proof {
                assert(bool_rows(grid@)[r2 as int] == grid@[r2 as int]@);
                assert(col@ =~= bool_column(bool_rows(grid@), c as int).take(r2 + 1));
            }
            r2 += 1;
        }
        proof {
            assert(bool_column(bool_rows(grid@), c as int).take(rows as int) =~= bool_column(bool_rows(grid@), c as int));
        }
        col_clues.push(compute_clue(col.as_slice()));
        c += 1;
    }
    (row_clues, col_clues)
}

/// The JSON text the `solve` command writes for the propagation solver's
/// outcome: the propagated grid, with `null` for each undecided cell, under
/// status `ok`, or status `contradiction` when propagation failed.
pub fn linear_solve_json(outcome: Option<Grid>) -> (s: String)
    requires
        outcome matches Some(g) ==> g.wf() && g.spec_width() > 0,
    ensures
        outcome is None ==> s@ == "{\"status\":\"contradiction\"}"@,
        outcome matches Some(g) ==> s@ == "{\"status\":\"ok\",\"grid\":"@ + json_of_partial_rows(
            partial_rows(g),
        ) + "}"@,
{
    match outcome {
        None => String::from_str("{\"status\":\"contradiction\"}"),
        Some(grid) => {
            let mut s = String::from_str("{\"status\":\"ok\",\"grid\":");
            let rows = partial_grid_to_json(&grid);
            s.append(rows.as_str());
            s.append("}");
            s
        },
    }
}

/// The message for an argument outside its range: "{name} must be between
/// {lo} and {hi}, got {got}", with the numbers in decimal.
pub open spec fn range_message(name: Seq<char>, lo: nat, hi: nat, got: nat) -> Seq<char> {
    name + " must be between "@ + decimal(lo) + " and "@ + decimal(hi) + ", got "@ + decimal(got)
}

/// The message for an argument outside its range.
fn out_of_range(name: &str, lo: u32, hi: u32, got: u32) -> (s: String)
    ensures
        s@ == range_message(name@, lo as nat, hi as nat, got as nat),
{
    let mut s = String::from_str(name);
    s.append(" must be between ");
    let a = usize_text(lo as usize);
    s.append(a.as_str());
    s.append(" and ");
    let b = usize_text(hi as usize);
    s.append(b.as_str());
    s.append(", got ");
    let c = usize_text(got as usize);
    s.append(c.as_str());
    s
}

/// Checks the grid size of the `convert` command: width, then height, each
/// from 5 to 50.
pub fn validate_grid_size(grid_width: u32, grid_height: u32) -> (r: Result<(), CliError>)
    ensures
        r is Ok <==> 5 <= grid_width <= 50 && 5 <= grid_height <= 50,
        !(5 <= grid_width <= 50) ==> (r matches Err(CliError::Validation(m)) && m@ == range_message(
            "grid_width"@,
            5,
            50,
            grid_width as nat,
        )),
        5 <= grid_width <= 50 && !(5 <= grid_height <= 50) ==> (r matches Err(CliError::Validation(m)) && m@
            == range_message("grid_height"@, 5, 50, grid_height as nat)),
{
    if grid_width < 5 || grid_width > 50 {
        return Err(CliError::Validation(out_of_range("grid_width", 5, 50, grid_width)));
    }
    if grid_height < 5 || grid_height > 50 {
        return Err(CliError::Validation(out_of_range("grid_height", 5, 50, grid_height)));
    }
    Ok(())
}

/// Checks the noise removal size of the `convert` command: at most 20.
pub fn validate_noise_removal(noise_removal: u32) -> (r: Result<(), CliError>)
    ensures
        r is Ok <==> noise_removal <= 20,
        noise_removal > 20 ==> (r matches Err(CliError::Validation(m)) && m@ == range_message(
            "noise_removal"@,
            0,
            20,
            noise_removal as nat,
        )),
{
    if noise_removal > 20 {
        return Err(CliError::Validation(out_of_range("noise_removal", 0, 20, noise_removal)));
    }
    Ok(())
}

} // verus!
