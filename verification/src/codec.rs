//! Clues of solved grids, and grid identifiers: a grid's cells packed into
//! bytes, compressed with gzip and written in URL-safe base64.
use std::io::{Read, Write};

use base64::engine::general_purpose::URL_SAFE_NO_PAD;
use base64::Engine;
use flate2::read::GzDecoder;
use flate2::write::GzEncoder;
use flate2::Compression;
use vstd::prelude::*;

use crate::solver::grid_complete;
use crate::types::{cell_pos, lemma_cell_pos_bounds, runs, runs_after, Cell, Clue, Grid, Puzzle};

verus! {

#[verifier::external_type_specification]
#[verifier::external_body]
pub struct ExIoError(std::io::Error);

#[verifier::external_type_specification]
#[verifier::external_body]
pub struct ExDecodeError(base64::DecodeError);

/// Why a grid could not be turned into a puzzle or an identifier, or an
/// identifier into a grid.
#[derive(Debug)]
pub enum CodecError {
    InvalidGrid(String),
    InvalidId(String),
    Io(std::io::Error),
    Base64(base64::DecodeError),
}

/// Counting `count` filled cells before `line` and then reading its first
/// cell.
pub proof fn lemma_runs_step(line: Seq<Cell>, count: nat)
    requires
        line.len() > 0,
    ensures
        line[0] == Cell::Filled ==> runs_after(line, count) == runs_after(line.drop_first(), count + 1),
        line[0] != Cell::Filled && count > 0 ==> runs_after(line, count) == seq![count as usize] + runs_after(
            line.drop_first(),
            0,
        ),
        line[0] != Cell::Filled && count == 0 ==> runs_after(line, count) == runs_after(line.drop_first(), 0),
{
}

/// The lengths of the runs of filled cells of a line, in order.
fn compute_clue(cells: &[Cell]) -> (clues: Vec<usize>)
    ensures
        clues@ == runs(cells@),
{
    let mut clues: Vec<usize> = Vec::new();
    let mut count: usize = 0;
    let mut i: usize = 0;
    proof {
        assert(cells@.skip(0) =~= cells@);
        assert(clues@ + runs(cells@) =~= runs(cells@));
    }
    while i < cells.len()
        invariant
            i <= cells@.len(),
            count <= i,
            clues@ + runs_after(cells@.skip(i as int), count as nat) == runs(cells@),
        decreases cells@.len() - i,
    {
        let ghost rest = cells@.skip(i as int);
        proof {
            lemma_runs_step(rest, count as nat);
            assert(rest.drop_first() =~= cells@.skip(i + 1));
        }
        if cells[i] == Cell::Filled {
            count += 1;
        } else if count > 0 {
            let ghost c0 = clues@;
            clues.push(count);
            proof {
                assert(clues@ + runs_after(cells@.skip(i + 1), 0) =~= c0 + (seq![count] + runs_after(
                    cells@.skip(i + 1),
                    0,
                )));
            }
            count = 0;
        }
        i += 1;
    }
    proof {
        assert(cells@.skip(i as int) =~= Seq::<Cell>::empty());
    }
    if count > 0 {
        let ghost c0 = clues@;
        clues.push(count);
        proof {
            assert(clues@ =~= c0 + seq![count]);
        }
    } else {
        proof {
            assert(clues@ =~= clues@ + Seq::<usize>::empty());
        }
    }
    clues
}

/// The grid has at least one row and one column and no unknown cell.
pub open spec fn grid_valid(grid: Grid) -> bool {
    grid.spec_width() > 0 && grid.spec_height() > 0 && grid_complete(grid)
}

/// The message of the `InvalidGrid` error about `grid`.
pub open spec fn grid_error(grid: Grid) -> Seq<char> {
    if grid.spec_width() == 0 || grid.spec_height() == 0 {
        "grid dimensions must be positive"@
    } else if !grid_complete(grid) {
        "grid contains unknown cells"@
    } else {
        "grid width must fit in one byte"@
    }
}

/// Accepts a grid with at least one row and column and no unknown cell.
fn validate_grid(grid: &Grid) -> (r: Result<(), CodecError>)
    requires
        grid.wf(),
    ensures
        r is Ok <==> grid_valid(*grid),
        r is Err ==> r matches Err(CodecError::InvalidGrid(_)),
        r matches Err(CodecError::InvalidGrid(m)) ==> m@ == grid_error(*grid),
{
    if grid.width() == 0 || grid.height() == 0 {
        return Err(CodecError::InvalidGrid("grid dimensions must be positive".to_owned()));
    }
    let h = grid.height();
    let w = grid.width();
    proof {
        grid.lemma_wf();
    }
    let mut row: usize = 0;
    while row < h
        invariant
            grid.wf(),
            w == grid.spec_width() > 0,
            h == grid.spec_height() > 0,
            row <= h,
            forall|r2: int, c2: int| 0 <= r2 < row && 0 <= c2 < w ==> grid.at(r2, c2) != Cell::Unknown,
        decreases h - row,
    {
        let mut col: usize = 0;
        while col < w
            invariant
                grid.wf(),
                w == grid.spec_width() > 0,
                h == grid.spec_height() > 0,
                row < h,
                col <= w,
                forall|r2: int, c2: int| 0 <= r2 < row && 0 <= c2 < w ==> grid.at(r2, c2) != Cell::Unknown,
                forall|c2: int| 0 <= c2 < col ==> grid.at(row as int, c2) != Cell::Unknown,
            decreases w - col,
        {
            if *grid.cell(row, col) == Cell::Unknown {
                proof {
                    lemma_cell_pos_bounds(w as int, h as int, row as int, col as int);
                    grid.lemma_wf();
                }
                return Err(CodecError::InvalidGrid("grid contains unknown cells".to_owned()));
            }
            col += 1;
        }
        row += 1;
    }
    proof {
        grid.lemma_wf();
        assert forall|i: int| 0 <= i < grid.spec_cells().len() implies grid.spec_cells()[i] != Cell::Unknown by {
            crate::types::lemma_cell_pos_onto(w as int, h as int, i);
            assert(grid.at(i / (w as int), i % (w as int)) != Cell::Unknown);
        }
    }
    Ok(())
}

/// Row `row` of the grid as a list of cells.
fn row_cells(grid: &Grid, row: usize) -> (v: Vec<Cell>)
    requires
        grid.wf(),
        grid.spec_width() > 0,
        row < grid.spec_height(),
    ensures
        v@ == grid.row_line(row as int),
{
    let w = grid.width();
    let mut v: Vec<Cell> = Vec::new();
    let mut col: usize = 0;
    while col < w
        invariant
            grid.wf(),
            w == grid.spec_width(),
            row < grid.spec_height(),
            col <= w,
            v@ == grid.row_line(row as int).take(col as int),
        decreases w - col,
    {
        let c = *grid.cell(row, col);
        v.push(c);
        proof {
            assert(v@ =~= grid.row_line(row as int).take(col + 1));
        }
        col += 1;
    }
    proof {
        assert(grid.row_line(row as int).take(w as int) =~= grid.row_line(row as int));
    }
    v
}

/// Column `col` of the grid as a list of cells.
fn col_cells(grid: &Grid, col: usize) -> (v: Vec<Cell>)
    requires
        grid.wf(),
        grid.spec_width() > 0,
        col < grid.spec_width(),
    ensures
        v@ == grid.col_line(col as int),
{
    let h = grid.height();
    let mut v: Vec<Cell> = Vec::new();
    let mut row: usize = 0;
    while row < h
        invariant
            grid.wf(),
            h == grid.spec_height(),
            col < grid.spec_width(),
            row <= h,
            v@ == grid.col_line(col as int).take(row as int),
        decreases h - row,
    {
        let c = *grid.cell(row, col);
        v.push(c);
        proof {
            assert(v@ =~= grid.col_line(col as int).take(row + 1));
        }
        row += 1;
    }
    proof {
        assert(grid.col_line(col as int).take(h as int) =~= grid.col_line(col as int));
    }
    v
}

/// The puzzle whose clues a solved grid shows: each row and column clue is
/// the list of run lengths of that line. Fails on an empty or unsolved grid.
pub fn grid_to_puzzle(grid: &Grid) -> (r: Result<Puzzle, CodecError>)
    requires
        grid.wf(),
    ensures
        r is Ok <==> grid_valid(*grid),
        r is Err ==> r matches Err(CodecError::InvalidGrid(_)),
        r matches Err(CodecError::InvalidGrid(m)) ==> m@ == grid_error(*grid),
        r matches Ok(p) ==> {
            &&& p.spec_rows().len() == grid.spec_height()
            &&& p.spec_cols().len() == grid.spec_width()
            &&& forall|row: int| 0 <= row < grid.spec_height() ==> #[trigger] p.spec_rows()[row] == runs(grid.row_line(row))
            &&& forall|col: int| 0 <= col < grid.spec_width() ==> #[trigger] p.spec_cols()[col] == runs(grid.col_line(col))
        },
{
    match validate_grid(grid) {
        Ok(()) => {},
        Err(e) => {
            return Err(e);
        },
    }
    let h = grid.height();
    let w = grid.width();
    let mut row_clues: Vec<Clue> = Vec::new();
    let mut row: usize = 0;
    while row < h
        invariant
            grid.wf(),
            w == grid.spec_width() > 0,
            h == grid.spec_height(),
            row <= h,
            row_clues@.len() == row,
            forall|r2: int| 0 <= r2 < row ==> #[trigger] row_clues@[r2].spec_blocks() == runs(grid.row_line(r2)),
        decreases h - row,
    {
        let cells = row_cells(grid, row);
        row_clues.push(Clue::new(compute_clue(cells.as_slice())));
        row += 1;
    }
    let mut col_clues: Vec<Clue> = Vec::new();
    let mut col: usize = 0;
    while col < w
        invariant
            grid.wf(),
            w == grid.spec_width() > 0,
            h == grid.spec_height(),
            col <= w,
            col_clues@.len() == col,
            forall|c2: int| 0 <= c2 < col ==> #[trigger] col_clues@[c2].spec_blocks() == runs(grid.col_line(c2)),
        decreases w - col,
    {
        let cells = col_cells(grid, col);
        col_clues.push(Clue::new(compute_clue(cells.as_slice())));
        col += 1;
    }
    Ok(Puzzle::new(row_clues, col_clues))
}

/// The payload of a grid's identifier: its width as one byte, then one
/// `'1'` (filled) or `'0'` byte per cell, row by row.
pub open spec fn payload_of(grid: Grid) -> Seq<u8> {
    seq![grid.spec_width() as u8] + Seq::new(
        grid.spec_cells().len(),
        |i: int| if grid.spec_cells()[i] == Cell::Filled { 49u8 } else { 48u8 },
    )
}

/// A payload describes a grid: a positive width byte, at least one cell
/// byte, whole rows, and only `'0'` and `'1'` cell bytes.
pub open spec fn payload_ok(p: Seq<u8>) -> bool {
    &&& p.len() >= 2
    &&& p[0] > 0
    &&& (p.len() - 1) % (p[0] as int) == 0
    &&& forall|i: int| 1 <= i < p.len() ==> #[trigger] p[i] == 48u8 || p[i] == 49u8
}

/// The cells a payload describes.
pub open spec fn payload_cells(p: Seq<u8>) -> Seq<Cell> {
    Seq::new((p.len() - 1) as nat, |i: int| if p[i + 1] == 49u8 { Cell::Filled } else { Cell::Blank })
}

/// The payload bytes of a grid's identifier; fails on an empty or unsolved
/// grid, or one wider than 255 cells.
pub fn grid_payload(grid: &Grid) -> (r: Result<Vec<u8>, CodecError>)
    requires
        grid.wf(),
    ensures
        r is Ok <==> grid_valid(*grid) && grid.spec_width() <= 255,
        r is Err ==> r matches Err(CodecError::InvalidGrid(_)),
        r matches Err(CodecError::InvalidGrid(m)) ==> m@ == grid_error(*grid),
        r matches Ok(p) ==> p@ == payload_of(*grid),
{
    match validate_grid(grid) {
        Ok(()) => {},
        Err(e) => {
            return Err(e);
        },
    }
    if grid.width() > 255 {
        return Err(CodecError::InvalidGrid("grid width must fit in one byte".to_owned()));
    }
    let h = grid.height();
    let w = grid.width();
    let ghost cells = grid.spec_cells();
    proof {
        grid.lemma_wf();
    }
    let mut payload: Vec<u8> = Vec::new();
    payload.push(w as u8);
    let mut row: usize = 0;
    while row < h
        invariant
            grid.wf(),
            w == grid.spec_width() <= 255,
            w > 0,
            h == grid.spec_height(),
            cells == grid.spec_cells(),
            cells.len() == w * h,
            row <= h,
            payload@ == payload_of(*grid).take(row * w + 1),
        decreases h - row,
    {
        let mut col: usize = 0;
        while col < w
            invariant
                grid.wf(),
                w == grid.spec_width() <= 255,
                w > 0,
                h == grid.spec_height(),
                cells == grid.spec_cells(),
                cells.len() == w * h,
                row < h,
                col <= w,
                payload@ == payload_of(*grid).take(row * w + col + 1),
            decreases w - col,
        {
            proof {
                lemma_cell_pos_bounds(w as int, h as int, row as int, col as int);
            }
            let byte: u8 = if *grid.cell(row, col) == Cell::Filled {
                49
            } else {
                48
            };
            payload.push(byte);
            proof {
                assert(payload@ =~= payload_of(*grid).take(row * w + col + 2));
            }
            col += 1;
        }
        proof {
            assert((row + 1) * w == row * w + w) by (nonlinear_arith);
        }
        row += 1;
    }
    proof {
        assert(h * w == w * h) by (nonlinear_arith);
        assert(payload_of(*grid).take(h * w + 1) =~= payload_of(*grid));
    }
    Ok(payload)
}

/// The message of the `InvalidId` error about payload `p`: the first of its
/// defects in the order width byte, width, cells, whole rows, cell bytes.
pub open spec fn payload_error(p: Seq<u8>) -> Seq<char> {
    if p.len() == 0 {
        "missing width byte"@
    } else if p[0] == 0 {
        "width must be positive"@
    } else if p.len() == 1 {
        "missing cell payload"@
    } else if (p.len() - 1) % (p[0] as int) != 0 {
        "payload bit length is incompatible with width"@
    } else {
        "payload contains non-binary data"@
    }
}

/// Reads a grid back from payload bytes (see `payload_ok`); fails with
/// `InvalidId` on any other payload.
pub fn grid_from_payload(payload: &[u8]) -> (r: Result<Grid, CodecError>)
    ensures
        r is Ok <==> payload_ok(payload@),
        r is Err ==> r matches Err(CodecError::InvalidId(_)),
        r matches Err(CodecError::InvalidId(m)) ==> m@ == payload_error(payload@),
        r matches Ok(g) ==> {
            &&& g.wf()
            &&& g.spec_width() == payload@[0]
            &&& g.spec_height() == (payload@.len() - 1) / (payload@[0] as int)
            &&& g.spec_cells() == payload_cells(payload@)
        },
{
    if payload.len() == 0 {
        return Err(CodecError::InvalidId("missing width byte".to_owned()));
    }
    let width_byte = payload[0];
    if width_byte == 0 {
        return Err(CodecError::InvalidId("width must be positive".to_owned()));
    }
    let n = payload.len() - 1;
    if n == 0 {
        return Err(CodecError::InvalidId("missing cell payload".to_owned()));
    }
    let width = width_byte as usize;
    if n % width != 0 {
        return Err(CodecError::InvalidId("payload bit length is incompatible with width".to_owned()));
    }
    let height = n / width;
    proof {
        assert(width * height == n) by (nonlinear_arith)
            requires
                width > 0,
                n % width == 0,
                height == n / width,
        ;
    }
    let mut grid = Grid::new(width, height);
    let mut bit_index: usize = 0;
    while bit_index < n
        invariant
            n == payload@.len() - 1,
            n > 0,
            width == payload@[0] > 0,
            (payload@.len() - 1) % (payload@[0] as int) == 0,
            width * height == n,
            grid.wf(),
            grid.spec_width() == width,
            grid.spec_height() == height,
            grid.spec_cells().len() == n,
            bit_index <= n,
            forall|i: int| 1 <= i <= bit_index ==> #[trigger] payload@[i] == 48u8 || payload@[i] == 49u8,
            forall|i: int| 0 <= i < bit_index ==> #[trigger] grid.spec_cells()[i] == payload_cells(payload@)[i],
        decreases n - bit_index,
    {
        let bit_char = payload[bit_index + 1];
        let filled = if bit_char == 48u8 {
            false
        } else if bit_char == 49u8 {
            true
        } else {
            return Err(CodecError::InvalidId("payload contains non-binary data".to_owned()));
        };
        let row = bit_index / width;
        let col = bit_index % width;
        proof {
            crate::types::lemma_cell_pos_onto(width as int, height as int, bit_index as int);
        }
        let value = if filled {
            Cell::Filled
        } else {
            Cell::Blank
        };
        grid.set_cell(row, col, value);
        bit_index += 1;
    }
    proof {
        assert(grid.spec_cells() =~= payload_cells(payload@));
    }
    Ok(grid)
}

/// The payload of a grid reads back as the same grid.
pub proof fn lemma_payload_roundtrip(grid: Grid)
    requires
        grid.wf(),
        grid_valid(grid),
        grid.spec_width() <= 255,
    ensures
        payload_ok(payload_of(grid)),
        payload_of(grid)[0] == grid.spec_width(),
        (payload_of(grid).len() - 1) / (payload_of(grid)[0] as int) == grid.spec_height(),
        payload_cells(payload_of(grid)) == grid.spec_cells(),
{
    grid.lemma_wf();
    let p = payload_of(grid);
    let w = grid.spec_width() as int;
    let h = grid.spec_height() as int;
    assert(p.len() - 1 == w * h);
    assert((w * h) % w == 0 && (w * h) / w == h) by (nonlinear_arith)
        requires
            w > 0,
    ;
    assert(w * h >= 1) by (nonlinear_arith)
        requires
            w > 0,
            h > 0,
    ;
    assert forall|i: int| 0 <= i < grid.spec_cells().len() implies payload_cells(p)[i] == grid.spec_cells()[i] by {
        assert(grid.spec_cells()[i] != Cell::Unknown);
    }
    assert(payload_cells(p) =~= grid.spec_cells());
}

/// What gzip (flate2's `GzEncoder` at the default level) makes of `data`.
pub uninterp spec fn gzip_of(data: Seq<u8>) -> Seq<u8>;

/// What gunzip (flate2's `GzDecoder`) reads from `data`, or `None` when it
/// is not a gzip stream.
pub uninterp spec fn gunzip_of(data: Seq<u8>) -> Option<Seq<u8>>;

/// The URL-safe base64 symbol for a six-bit value: `A`-`Z`, `a`-`z`,
/// `0`-`9`, `-`, `_`.
pub open spec fn base64_symbol(v: int) -> char {
    if v < 26 {
        (65 + v) as char
    } else if v < 52 {
        (97 + v - 26) as char
    } else if v < 62 {
        (48 + v - 52) as char
    } else if v == 62 {
        '-'
    } else {
        '_'
    }
}

/// The URL-safe, unpadded base64 text of `data` (base64's
/// `URL_SAFE_NO_PAD`): each group of three bytes becomes four symbols of
/// six bits each, most significant first; a last group of one or two bytes
/// becomes two or three symbols, its missing low bits zero, with no padding.
pub open spec fn base64_of(data: Seq<u8>) -> Seq<char>
    decreases data.len(),
{
    if data.len() == 0 {
        Seq::empty()
    } else if data.len() == 1 {
        seq![base64_symbol(data[0] as int / 4), base64_symbol((data[0] % 4) * 16)]
    } else if data.len() == 2 {
        seq![
            base64_symbol(data[0] as int / 4),
            base64_symbol((data[0] % 4) * 16 + data[1] / 16),
            base64_symbol((data[1] % 16) * 4),
        ]
    } else {
        seq![
            base64_symbol(data[0] as int / 4),
            base64_symbol((data[0] % 4) * 16 + data[1] / 16),
            base64_symbol((data[1] % 16) * 4 + data[2] / 64),
            base64_symbol(data[2] as int % 64),
        ] + base64_of(data.skip(3))
    }
}

/// The bytes that URL-safe, unpadded base64 text stands for, or `None` when
/// it is not such text.
pub uninterp spec fn unbase64_of(text: Seq<char>) -> Option<Seq<u8>>;

/// Compresses `data` with flate2's `GzEncoder` (default level, empty header:
/// no name, time 0) into a vector. The contract names the result and states
/// that gzip is lossless: decompressing it gives `data` back. The encoder
/// reports only the errors of its writer, and writing into a vector in
/// memory does not fail, so the `expect`s never fire.
#[verifier::external_body]
fn gzip_compress(data: &[u8]) -> (r: Vec<u8>)
    ensures
        r@ == gzip_of(data@),
        gunzip_of(r@) == Some(data@),
{
    let mut encoder = GzEncoder::new(Vec::new(), Compression::default());
    encoder.write_all(data).expect("writing into memory does not fail");
    encoder.finish().expect("writing into memory does not fail")
}

/// Decompresses a gzip stream with flate2's `GzDecoder` and `read_to_end`;
/// the contract ties the outcome to `gunzip_of`.
#[verifier::external_body]
fn gzip_decompress(data: &[u8]) -> (r: Result<Vec<u8>, std::io::Error>)
    ensures
        r is Ok <==> gunzip_of(data@) is Some,
        r matches Ok(v) ==> Some(v@) == gunzip_of(data@),
{
    let mut decoder = GzDecoder::new(data);
    let mut payload = Vec::new();
    decoder.read_to_end(&mut payload)?;
    Ok(payload)
}

/// Encodes bytes with base64's `URL_SAFE_NO_PAD` engine. The contract names
/// the text and states that the same engine decodes it back to `data`.
#[verifier::external_body]
fn base64_encode(data: &[u8]) -> (s: String)
    ensures
        s@ == base64_of(data@),
        unbase64_of(s@) == Some(data@),
{
    URL_SAFE_NO_PAD.encode(data)
}

/// Decodes text with base64's `URL_SAFE_NO_PAD` engine; the contract ties
/// the outcome to `unbase64_of`.
#[verifier::external_body]
fn base64_decode(text: &str) -> (r: Result<Vec<u8>, base64::DecodeError>)
    ensures
        r is Ok <==> unbase64_of(text@) is Some,
        r matches Ok(v) ==> Some(v@) == unbase64_of(text@),
{
    URL_SAFE_NO_PAD.decode(text)
}

/// The payload an identifier carries: its base64 decoded, then gunzipped.
pub open spec fn id_payload(id: Seq<char>) -> Option<Seq<u8>> {
    match unbase64_of(id) {
        Some(c) => gunzip_of(c),
        None => None,
    }
}

/// The identifier of a solved grid: its payload (see `payload_of`), gzipped
/// and written in URL-safe base64. Fails on an empty or unsolved grid or one
/// wider than 255 cells; succeeds on every other grid.
pub fn grid_to_id(grid: &Grid) -> (r: Result<String, CodecError>)
    requires
        grid.wf(),
    ensures
        !(grid_valid(*grid) && grid.spec_width() <= 255) <==> r matches Err(CodecError::InvalidGrid(_)),
        grid_valid(*grid) && grid.spec_width() <= 255 ==> r is Ok,
        r matches Err(CodecError::InvalidGrid(m)) ==> m@ == grid_error(*grid),
        r matches Ok(s) ==> s@ == base64_of(gzip_of(payload_of(*grid))) && id_payload(s@) == Some(
            payload_of(*grid),
        ),
{
    let payload = match grid_payload(grid) {
        Ok(p) => p,
        Err(e) => {
            return Err(e);
        },
    };
    let compressed = gzip_compress(payload.as_slice());
    Ok(base64_encode(compressed.as_slice()))
}

/// Reads a grid from its identifier: base64, then gunzip, then the payload
/// (see `grid_from_payload`).
pub fn id_to_grid(id: &str) -> (r: Result<Grid, CodecError>)
    ensures
        r matches Err(CodecError::Base64(_)) <==> unbase64_of(id@) is None,
        r matches Err(CodecError::Io(_)) <==> (unbase64_of(id@) is Some && id_payload(id@) is None),
        r matches Err(CodecError::InvalidId(_)) <==> (id_payload(id@) matches Some(p) && !payload_ok(p)),
        r matches Err(CodecError::InvalidId(m)) ==> m@ == payload_error(id_payload(id@)->0),
        r is Ok <==> (id_payload(id@) matches Some(p) && payload_ok(p)),
        r matches Ok(g) ==> {
            let p = id_payload(id@)->0;
            &&& g.wf()
            &&& g.spec_width() == p[0]
            &&& g.spec_height() == (p.len() - 1) / (p[0] as int)
            &&& g.spec_cells() == payload_cells(p)
        },
{
    let compressed = match base64_decode(id) {
        Ok(c) => c,
        Err(e) => {
            return Err(CodecError::Base64(e));
        },
    };
    let payload = match gzip_decompress(compressed.as_slice()) {
        Ok(p) => p,
        Err(e) => {
            return Err(CodecError::Io(e));
        },
    };
    grid_from_payload(payload.as_slice())
}

/// An identifier made from a solved grid reads back as that grid: same
/// width, height and cells.
pub proof fn lemma_id_roundtrip(grid: Grid, id: Seq<char>)
    requires
        grid.wf(),
        grid_valid(grid),
        grid.spec_width() <= 255,
        id_payload(id) == Some(payload_of(grid)),
    ensures
        id_payload(id) matches Some(p) && payload_ok(p) && p[0] == grid.spec_width() && (p.len() - 1) / (
        p[0] as int) == grid.spec_height() && payload_cells(p) == grid.spec_cells(),
{
    lemma_payload_roundtrip(grid);
}

} // verus!
