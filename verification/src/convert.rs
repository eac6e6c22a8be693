//! The cell-level steps of turning a picture into a grid: dropping small
//! connected groups of dark cells, and building the grid.
use vstd::prelude::*;

use crate::types::{cell_pos, lemma_cell_pos_bounds, Cell, Grid};

verus! {

/// A `height` by `width` table of cells.
pub open spec fn table_shape<T>(t: Seq<Seq<T>>, width: int, height: int) -> bool {
    &&& t.len() == height
    &&& forall|r: int| 0 <= r < height ==> (#[trigger] t[r]).len() == width
}

/// The rows of a table of booleans, as sequences.
pub open spec fn table_view(t: Seq<Vec<bool>>) -> Seq<Seq<bool>> {
    t.map_values(|r: Vec<bool>| r@)
}

/// Cells (`r`, `c`) and (`r2`, `c2`) are side by side or one above the other.
pub open spec fn adjacent(r: int, c: int, r2: int, c2: int) -> bool {
    (r == r2 && (c == c2 + 1 || c2 == c + 1)) || (c == c2 && (r == r2 + 1 || r2 == r + 1))
}

/// The cells next to (`r`, `c`) that lie in a `height` by `width` table:
/// the one above, the one below, the one to the left, the one to the right,
/// in that order.
pub open spec fn neighbor_seq(r: usize, c: usize, height: usize, width: usize) -> Seq<(usize, usize)> {
    (if r > 0 {
        seq![((r - 1) as usize, c)]
    } else {
        Seq::empty()
    }) + (if r + 1 < height {
        seq![((r + 1) as usize, c)]
    } else {
        Seq::empty()
    }) + (if c > 0 {
        seq![(r, (c - 1) as usize)]
    } else {
        Seq::empty()
    }) + (if c + 1 < width {
        seq![(r, (c + 1) as usize)]
    } else {
        Seq::empty()
    })
}

/// The cells next to (`r`, `c`) inside a `height` by `width` table: above,
/// below, left, right, in that order.
pub fn neighbors_4(r: usize, c: usize, height: usize, width: usize) -> (v: Vec<(usize, usize)>)
    requires
        r < height,
        c < width,
    ensures
        v@ == neighbor_seq(r, c, height, width),
        v@.len() <= 4,
        forall|i: int| 0 <= i < v@.len() ==> (#[trigger] v@[i]).0 < height && v@[i].1 < width && adjacent(
            r as int,
            c as int,
            v@[i].0 as int,
            v@[i].1 as int,
        ),
        forall|r2: int, c2: int|
            0 <= r2 < height && 0 <= c2 < width && adjacent(r as int, c as int, r2, c2) ==> v@.contains(
                (r2 as usize, c2 as usize),
            ),
{
    let mut arr: Vec<(usize, usize)> = Vec::new();
    if r > 0 {
        arr.push((r - 1, c));
    }
    if r + 1 < height {
        arr.push((r + 1, c));
    }
    if c > 0 {
        arr.push((r, c - 1));
    }
    if c + 1 < width {
        arr.push((r, c + 1));
    }
    proof {
        assert forall|r2: int, c2: int|
            0 <= r2 < height && 0 <= c2 < width && adjacent(r as int, c as int, r2, c2) implies arr@.contains(
            (r2 as usize, c2 as usize),
        ) by {
            let want = (r2 as usize, c2 as usize);
            if r2 == r - 1 && c2 == c {
                assert(arr@[0] == want);
            } else if r2 == r + 1 && c2 == c {
                let k = if r > 0 {
                    1int
                } else {
                    0int
                };
                assert(arr@[k] == want);
            } else if r2 == r && c2 == c - 1 {
                let k = (if r > 0 {
                    1int
                } else {
                    0int
                }) + (if r + 1 < height {
                    1int
                } else {
                    0int
                });
                assert(arr@[k] == want);
            } else {
                assert(arr@[arr@.len() - 1] == want);
            }
        }
        assert(arr@ =~= neighbor_seq(r, c, height, width));
    }
    arr
}

/// Cell (`r`, `c`) of a grid built from a table: filled for `true`, blank
/// for `false`, and unknown where the table has no value.
pub open spec fn table_cell(t: Seq<Seq<bool>>, r: int, c: int) -> Cell {
    if 0 <= r < t.len() && 0 <= c < t[r].len() {
        if t[r][c] {
            Cell::Filled
        } else {
            Cell::Blank
        }
    } else {
        Cell::Unknown
    }
}

/// A grid from a table of booleans: `true` cells filled, `false` cells
/// blank, and the cells past the end of a short row, or below the last row,
/// unknown.
pub fn cells_to_grid(cells: &Vec<Vec<bool>>, width: usize, height: usize) -> (g: Grid)
    requires
        width * height <= usize::MAX,
        cells@.len() <= height,
        forall|r: int| 0 <= r < cells@.len() ==> (#[trigger] cells@[r])@.len() <= width,
    ensures
        g.wf(),
        g.spec_width() == width,
        width > 0 ==> g.spec_height() == height,
        g.spec_cells().len() == width * height,
        forall|r: int, c: int| 0 <= r < height && 0 <= c < width ==> g.at(r, c) == table_cell(table_view(cells@), r, c),
{
    let ghost t = table_view(cells@);
    let mut grid = Grid::new(width, height);
    proof {
        assert forall|r2: int, c2: int| 0 <= r2 < height && 0 <= c2 < width implies grid.at(r2, c2) == Cell::Unknown by {
            lemma_cell_pos_bounds(width as int, height as int, r2, c2);
        }
    }
    let mut r: usize = 0;
    while r < cells.len()
        invariant
            t == table_view(cells@),
            cells@.len() <= height,
            forall|r2: int| 0 <= r2 < cells@.len() ==> (#[trigger] cells@[r2])@.len() <= width,
            grid.wf(),
            grid.spec_width() == width,
            width > 0 ==> grid.spec_height() == height,
            grid.spec_cells().len() == width * height,
            r <= cells@.len(),
            forall|r2: int, c2: int|
                0 <= r2 < r && 0 <= c2 < width ==> grid.at(r2, c2) == table_cell(t, r2, c2),
            forall|r2: int, c2: int| r <= r2 < height && 0 <= c2 < width ==> grid.at(r2, c2) == Cell::Unknown,
        decreases cells@.len() - r,
    {
        let row = &cells[r];
        proof {
            assert(t[r as int] == row@);
        }
        let mut c: usize = 0;
        while c < row.len()
            invariant
                t == table_view(cells@),
                r < cells@.len() <= height,
                row@ == t[r as int],
                row@.len() <= width,
                grid.wf(),
                grid.spec_width() == width,
                width > 0 ==> grid.spec_height() == height,
                grid.spec_cells().len() == width * height,
                c <= row@.len(),
                forall|r2: int, c2: int|
                    0 <= r2 < r && 0 <= c2 < width ==> grid.at(r2, c2) == table_cell(t, r2, c2),
                forall|r2: int, c2: int| r < r2 < height && 0 <= c2 < width ==> grid.at(r2, c2) == Cell::Unknown,
                forall|c2: int| 0 <= c2 < c ==> grid.at(r as int, c2) == table_cell(t, r as int, c2),
                forall|c2: int| c <= c2 < width ==> grid.at(r as int, c2) == Cell::Unknown,
            decreases row@.len() - c,
        {
            let filled = row[c];
            let value = if filled {
                Cell::Filled
            } else {
                Cell::Blank
            };
            let ghost g0 = grid;
            proof {
                lemma_cell_pos_bounds(width as int, height as int, r as int, c as int);
            }
            grid.set_cell(r, c, value);
            proof {
                assert forall|r2: int, c2: int| 0 <= r2 < height && 0 <= c2 < width && (r2 != r || c2 != c) implies grid.at(
                    r2,
                    c2,
                ) == g0.at(r2, c2) by {
                    crate::types::lemma_cell_pos_inj_neq(width as int, r2, c2, r as int, c as int);
                    lemma_cell_pos_bounds(width as int, height as int, r2, c2);
                }
            }
            c += 1;
        }
        proof {
            assert forall|c2: int| 0 <= c2 < width implies grid.at(r as int, c2) == table_cell(t, r as int, c2) by {
                if c2 >= row@.len() {
                    assert(grid.at(r as int, c2) == Cell::Unknown);
                }
            }
        }
        r += 1;
    }
    proof {
        assert forall|r2: int, c2: int| 0 <= r2 < height && 0 <= c2 < width implies grid.at(r2, c2) == table_cell(
            t,
            r2,
            c2,
        ) by {
            if r2 >= cells@.len() {
                assert(grid.at(r2, c2) == Cell::Unknown);
            }
        }
    }
    grid
}

/// A `height` by `width` table of labels.
pub open spec fn labels_view(t: Seq<Vec<usize>>) -> Seq<Seq<usize>> {
    t.map_values(|r: Vec<usize>| r@)
}

/// Cell (`r`, `c`) lies in a `height` by `width` table.
pub open spec fn in_table(p: (usize, usize), width: int, height: int) -> bool {
    p.0 < height && p.1 < width
}

/// `p` steps from cell to side-by-side cell through `true` cells of `t`.
pub open spec fn true_path(t: Seq<Seq<bool>>, p: Seq<(usize, usize)>, width: int, height: int) -> bool {
    &&& p.len() > 0
    &&& forall|i: int| 0 <= i < p.len() ==> in_table(#[trigger] p[i], width, height) && t[p[i].0 as int][p[i].1 as int]
    &&& forall|i: int|
        #![trigger p[i]]
        0 <= i < p.len() - 1 ==> adjacent(p[i].0 as int, p[i].1 as int, p[i + 1].0 as int, p[i + 1].1 as int)
}

/// Cells `a` and `b` are joined by a path of side-by-side `true` cells.
pub open spec fn linked(t: Seq<Seq<bool>>, a: (usize, usize), b: (usize, usize), width: int, height: int) -> bool {
    exists|p: Seq<(usize, usize)>| #[trigger] true_path(t, p, width, height) && p[0] == a && p.last() == b
}

/// A `true` cell is joined to itself.
proof fn lemma_linked_refl(t: Seq<Seq<bool>>, a: (usize, usize), width: int, height: int)
    requires
        in_table(a, width, height),
        t[a.0 as int][a.1 as int],
    ensures
        linked(t, a, a, width, height),
{
    assert(true_path(t, seq![a], width, height));
}

/// A path extends by a side-by-side `true` cell.
proof fn lemma_linked_step(t: Seq<Seq<bool>>, a: (usize, usize), b: (usize, usize), c: (usize, usize), width: int, height: int)
    requires
        linked(t, a, b, width, height),
        in_table(c, width, height),
        t[c.0 as int][c.1 as int],
        adjacent(b.0 as int, b.1 as int, c.0 as int, c.1 as int),
    ensures
        linked(t, a, c, width, height),
{
    let p = choose|p: Seq<(usize, usize)>| #[trigger] true_path(t, p, width, height) && p[0] == a && p.last() == b;
    let q = p.push(c);
    assert forall|i: int| 0 <= i < q.len() - 1 implies adjacent(
        #[trigger] q[i].0 as int,
        q[i].1 as int,
        q[i + 1].0 as int,
        q[i + 1].1 as int,
    ) by {
        if i < p.len() - 1 {
            assert(q[i] == p[i] && q[i + 1] == p[i + 1]);
        }
    }
    assert(true_path(t, q, width, height));
}

/// Paths run both ways.
proof fn lemma_linked_symm(t: Seq<Seq<bool>>, a: (usize, usize), b: (usize, usize), width: int, height: int)
    requires
        linked(t, a, b, width, height),
    ensures
        linked(t, b, a, width, height),
{
    let p = choose|p: Seq<(usize, usize)>| #[trigger] true_path(t, p, width, height) && p[0] == a && p.last() == b;
    let q = p.reverse();
    assert forall|i: int| 0 <= i < q.len() - 1 implies adjacent(
        #[trigger] q[i].0 as int,
        q[i].1 as int,
        q[i + 1].0 as int,
        q[i + 1].1 as int,
    ) by {
        let j = p.len() - 2 - i;
        assert(q[i] == p[j + 1] && q[i + 1] == p[j]);
        assert(adjacent(p[j].0 as int, p[j].1 as int, p[j + 1].0 as int, p[j + 1].1 as int));
    }
    assert forall|i: int| 0 <= i < q.len() implies in_table(#[trigger] q[i], width, height) && t[q[i].0 as int][q[i].1 as int] by {
        assert(q[i] == p[p.len() - 1 - i]);
    }
    assert(true_path(t, q, width, height));
}

/// Paths join end to end.
proof fn lemma_linked_trans(
    t: Seq<Seq<bool>>,
    a: (usize, usize),
    b: (usize, usize),
    c: (usize, usize),
    width: int,
    height: int,
)
    requires
        linked(t, a, b, width, height),
        linked(t, b, c, width, height),
    ensures
        linked(t, a, c, width, height),
{
    let p = choose|p: Seq<(usize, usize)>| #[trigger] true_path(t, p, width, height) && p[0] == a && p.last() == b;
    let p2 = choose|p: Seq<(usize, usize)>| #[trigger] true_path(t, p, width, height) && p[0] == b && p.last() == c;
    let q = p + p2.drop_first();
    assert forall|i: int| 0 <= i < q.len() implies in_table(#[trigger] q[i], width, height) && t[q[i].0 as int][q[i].1 as int] by {
        if i >= p.len() {
            assert(q[i] == p2[i - p.len() + 1]);
        }
    }
    assert forall|i: int| 0 <= i < q.len() - 1 implies adjacent(
        #[trigger] q[i].0 as int,
        q[i].1 as int,
        q[i + 1].0 as int,
        q[i + 1].1 as int,
    ) by {
        if i < p.len() - 1 {
            assert(q[i] == p[i] && q[i + 1] == p[i + 1]);
        } else if i == p.len() - 1 {
            assert(q[i] == p.last());
            assert(q[i + 1] == p2[1]);
            assert(p2[0] == b);
            assert(adjacent(p2[0].0 as int, p2[0].1 as int, p2[1].0 as int, p2[1].1 as int));
        } else {
            let j = i - p.len() + 1;
            assert(q[i] == p2[j] && q[i + 1] == p2[j + 1]);
            assert(adjacent(p2[j].0 as int, p2[j].1 as int, p2[j + 1].0 as int, p2[j + 1].1 as int));
        }
    }
    if p2.len() == 1 {
        assert(q =~= p);
    } else {
        assert(q.last() == p2.last());
    }
    assert(true_path(t, q, width, height));
}

/// The row-major index of a cell, as an integer.
spec fn cell_index(p: (usize, usize), width: int) -> int {
    cell_pos(width, p.0 as int, p.1 as int)
}

/// Distinct cells of a table are at most as many as its cells.
proof fn lemma_cells_bound(v: Seq<(usize, usize)>, width: int, height: int)
    requires
        0 <= width,
        0 <= height,
        v.no_duplicates(),
        forall|i: int| 0 <= i < v.len() ==> in_table(#[trigger] v[i], width, height),
    ensures
        v.len() <= width * height,
{
    let codes = v.map_values(|p: (usize, usize)| cell_index(p, width));
    assert forall|i: int| 0 <= i < codes.len() implies 0 <= #[trigger] codes[i] < width * height by {
        lemma_cell_pos_bounds(width, height, v[i].0 as int, v[i].1 as int);
    }
    assert forall|i: int, j: int| 0 <= i < j < codes.len() implies codes[i] != codes[j] by {
        if v[i].0 != v[j].0 || v[i].1 != v[j].1 {
            crate::types::lemma_cell_pos_inj_neq(width, v[i].0 as int, v[i].1 as int, v[j].0 as int, v[j].1 as int);
        } else {
            assert(v[i] == v[j]);
        }
    }
    assert(0 <= width * height) by (nonlinear_arith)
        requires
            0 <= width,
            0 <= height,
    ;
    codes.unique_seq_to_set();
    vstd::set_lib::lemma_int_range(0, width * height);
    assert(codes.to_set().subset_of(vstd::set_lib::set_int_range(0, width * height)));
    vstd::set_lib::lemma_len_subset(codes.to_set(), vstd::set_lib::set_int_range(0, width * height));
}

/// Two disjoint lists of distinct cells of a table hold at most as many
/// cells as the table.
proof fn lemma_pair_bound(a: Seq<(usize, usize)>, b: Seq<(usize, usize)>, width: int, height: int)
    requires
        0 <= width,
        0 <= height,
        a.no_duplicates(),
        b.no_duplicates(),
        forall|x: (usize, usize)| !(a.contains(x) && b.contains(x)),
        forall|i: int| 0 <= i < a.len() ==> in_table(#[trigger] a[i], width, height),
        forall|i: int| 0 <= i < b.len() ==> in_table(#[trigger] b[i], width, height),
    ensures
        a.len() + b.len() <= width * height,
{
    assert forall|i: int, j: int| 0 <= i < a.len() && 0 <= j < b.len() implies a[i] != b[j] by {
        if a[i] == b[j] {
            assert(a.contains(a[i]) && b.contains(a[i]));
        }
    }
    vstd::seq_lib::lemma_no_dup_in_concat(a, b);
    assert forall|i: int| 0 <= i < (a + b).len() implies in_table(#[trigger] (a + b)[i], width, height) by {
        if i >= a.len() {
            assert((a + b)[i] == b[i - a.len()]);
        }
    }
    lemma_cells_bound(a + b, width, height);
}

/// Labels the group of `true` cells that `start` belongs to, as far as it
/// reaches unlabeled cells, with `label`; returns the cells labeled. Every
/// `true` neighbour of a returned cell ends up labeled.
pub fn flood_fill(
    cells: &Vec<Vec<bool>>,
    labels: &mut Vec<Vec<usize>>,
    start: (usize, usize),
    label: usize,
    height: usize,
    width: usize,
) -> (component: Vec<(usize, usize)>)
    requires
        table_shape(table_view(cells@), width as int, height as int),
        table_shape(labels_view(old(labels)@), width as int, height as int),
        in_table(start, width as int, height as int),
        table_view(cells@)[start.0 as int][start.1 as int],
        labels_view(old(labels)@)[start.0 as int][start.1 as int] == 0,
        label > 0,
    ensures
        table_shape(labels_view(final(labels)@), width as int, height as int),
        component@.contains(start),
        component@.no_duplicates(),
        forall|i: int|
            0 <= i < component@.len() ==> in_table(#[trigger] component@[i], width as int, height as int)
                && table_view(cells@)[component@[i].0 as int][component@[i].1 as int]
                && labels_view(old(labels)@)[component@[i].0 as int][component@[i].1 as int] == 0,
        forall|r: int, c: int|
            0 <= r < height && 0 <= c < width ==> #[trigger] labels_view(final(labels)@)[r][c] == if component@.contains(
                (r as usize, c as usize),
            ) {
                label
            } else {
                labels_view(old(labels)@)[r][c]
            },
        forall|i: int, r2: int, c2: int|
            0 <= i < component@.len() && 0 <= r2 < height && 0 <= c2 < width && #[trigger] adjacent(
                (component@[i]).0 as int,
                component@[i].1 as int,
                r2,
                c2,
            ) && table_view(cells@)[r2][c2] ==> labels_view(final(labels)@)[r2][c2] != 0,
        forall|i: int|
            0 <= i < component@.len() ==> linked(
                table_view(cells@),
                start,
                #[trigger] component@[i],
                width as int,
                height as int,
            ),
{
    let ghost t = table_view(cells@);
    let ghost l0 = labels_view(labels@);
    let mut stack: Vec<(usize, usize)> = Vec::new();
    stack.push(start);
    let mut component: Vec<(usize, usize)> = Vec::new();
    labels[start.0].set(start.1, label);
    proof {
        assert(labels_view(labels@) =~= l0.update(start.0 as int, l0[start.0 as int].update(start.1 as int, label)));
        assert(stack@[0] == start);
        lemma_linked_refl(t, start, width as int, height as int);
        assert forall|r: int, c: int| 0 <= r < height && 0 <= c < width implies #[trigger] labels_view(labels@)[r][c]
            == if component@.contains((r as usize, c as usize)) || stack@.contains((r as usize, c as usize)) {
            label
        } else {
            l0[r][c]
        } by {
            if stack@.contains((r as usize, c as usize)) {
                let i = choose|i: int| 0 <= i < stack@.len() && stack@[i] == (r as usize, c as usize);
                assert(i == 0);
            }
            if r == start.0 && c == start.1 {
                assert(stack@[0] == (r as usize, c as usize));
            }
        }
    }
    loop
        invariant
            t == table_view(cells@),
            table_shape(t, width as int, height as int),
            table_shape(labels_view(labels@), width as int, height as int),
            table_shape(l0, width as int, height as int),
            label > 0,
            component@.no_duplicates(),
            stack@.no_duplicates(),
            forall|x: (usize, usize)| !(component@.contains(x) && stack@.contains(x)),
            component@.contains(start) || stack@.contains(start),
            forall|i: int| 0 <= i < component@.len() ==> linked(t, start, #[trigger] component@[i], width as int, height as int),
            forall|i: int| 0 <= i < stack@.len() ==> linked(t, start, #[trigger] stack@[i], width as int, height as int),
            forall|i: int|
                0 <= i < component@.len() ==> in_table(#[trigger] component@[i], width as int, height as int)
                    && t[component@[i].0 as int][component@[i].1 as int] && l0[component@[i].0 as int][component@[i].1 as int]
                    == 0,
            forall|i: int|
                0 <= i < stack@.len() ==> in_table(#[trigger] stack@[i], width as int, height as int)
                    && t[stack@[i].0 as int][stack@[i].1 as int] && l0[stack@[i].0 as int][stack@[i].1 as int] == 0,
            forall|r: int, c: int|
                0 <= r < height && 0 <= c < width ==> #[trigger] labels_view(labels@)[r][c] == if component@.contains(
                    (r as usize, c as usize),
                ) || stack@.contains((r as usize, c as usize)) {
                    label
                } else {
                    l0[r][c]
                },
            forall|i: int, r2: int, c2: int|
                0 <= i < component@.len() && 0 <= r2 < height && 0 <= c2 < width && #[trigger] adjacent(
                    (component@[i]).0 as int,
                    component@[i].1 as int,
                    r2,
                    c2,
                ) && t[r2][c2] ==> labels_view(labels@)[r2][c2] != 0,
        ensures
            stack@.len() == 0,
        decreases width * height - component@.len() - stack@.len(), stack@.len(),
    {
        proof {
            lemma_pair_bound(component@, stack@, width as int, height as int);
        }
        let ghost s0 = stack@;
        let ghost c0 = component@;
        let (r, c) = match stack.pop() {
            Some(p) => p,
            None => {
                break;
            },
        };
        proof {
            assert(s0 == stack@.push((r, c)));
            assert(s0[s0.len() - 1] == (r, c));
            assert(linked(t, start, s0[s0.len() - 1], width as int, height as int));
            assert forall|x: (usize, usize)| #[trigger] s0.contains(x) == (stack@.contains(x) || x == (r, c)) by {
                crate::solver::line_solver::placement::lemma_push_contains(stack@, (r, c), x);
            }
        }
        component.push((r, c));
        proof {
            assert forall|x: (usize, usize)| #[trigger] component@.contains(x) == (c0.contains(x) || x == (r, c)) by {
                crate::solver::line_solver::placement::lemma_push_contains(c0, (r, c), x);
            }
            assert(!c0.contains((r, c)));
            crate::solver::line_solver::placement::lemma_push_no_duplicates(c0, (r, c));
            assert(!stack@.contains((r, c))) by {
                if stack@.contains((r, c)) {
                    let i = choose|i: int| 0 <= i < stack@.len() && stack@[i] == (r, c);
                    assert(s0[i] == (r, c));
                    assert(s0[s0.len() - 1] == (r, c));
                }
            }
            assert forall|i: int| 0 <= i < stack@.len() implies s0[i] == #[trigger] stack@[i] by {
            }
        }
        let neighbors = neighbors_4(r, c, height, width);
        let mut k: usize = 0;
        while k < neighbors.len()
            invariant
                t == table_view(cells@),
                table_shape(t, width as int, height as int),
                table_shape(labels_view(labels@), width as int, height as int),
                table_shape(l0, width as int, height as int),
                label > 0,
                component@.no_duplicates(),
                stack@.no_duplicates(),
                forall|x: (usize, usize)| !(component@.contains(x) && stack@.contains(x)),
                component@.contains(start) || stack@.contains(start),
                linked(t, start, (r, c), width as int, height as int),
                forall|i: int| 0 <= i < component@.len() ==> linked(t, start, #[trigger] component@[i], width as int, height as int),
                forall|i: int| 0 <= i < stack@.len() ==> linked(t, start, #[trigger] stack@[i], width as int, height as int),
                component@.len() >= 1,
                component@[component@.len() - 1] == (r, c),
                component@.len() == c0.len() + 1,
                stack@.len() + 1 >= s0.len(),
                r < height,
                c < width,
                k <= neighbors@.len(),
                forall|i: int| 0 <= i < neighbors@.len() ==> in_table(#[trigger] neighbors@[i], width as int, height as int),
                forall|i: int|
                    0 <= i < neighbors@.len() ==> adjacent(
                        r as int,
                        c as int,
                        (#[trigger] neighbors@[i]).0 as int,
                        neighbors@[i].1 as int,
                    ),
                forall|i: int|
                    0 <= i < component@.len() ==> in_table(#[trigger] component@[i], width as int, height as int)
                        && t[component@[i].0 as int][component@[i].1 as int] && l0[component@[i].0 as int][component@[i].1 as int]
                        == 0,
                forall|i: int|
                    0 <= i < stack@.len() ==> in_table(#[trigger] stack@[i], width as int, height as int)
                        && t[stack@[i].0 as int][stack@[i].1 as int] && l0[stack@[i].0 as int][stack@[i].1 as int] == 0,
                forall|rr: int, cc: int|
                    0 <= rr < height && 0 <= cc < width ==> #[trigger] labels_view(labels@)[rr][cc] == if component@.contains(
                        (rr as usize, cc as usize),
                    ) || stack@.contains((rr as usize, cc as usize)) {
                        label
                    } else {
                        l0[rr][cc]
                    },
                forall|i: int, r2: int, c2: int|
                    0 <= i < component@.len() - 1 && 0 <= r2 < height && 0 <= c2 < width && #[trigger] adjacent(
                        (component@[i]).0 as int,
                        component@[i].1 as int,
                        r2,
                        c2,
                    ) && t[r2][c2] ==> labels_view(labels@)[r2][c2] != 0,
                forall|j: int|
                    0 <= j < k && t[(#[trigger] neighbors@[j]).0 as int][neighbors@[j].1 as int] ==> labels_view(
                        labels@,
                    )[neighbors@[j].0 as int][neighbors@[j].1 as int] != 0,
            decreases neighbors@.len() - k,
        {
            let (nr, nc) = neighbors[k];
            proof {
                assert(in_table(neighbors@[k as int], width as int, height as int));
                assert(t[nr as int] == cells@[nr as int]@);
                assert(labels_view(labels@)[nr as int] == labels@[nr as int]@);
            }
            if cells[nr][nc] && labels[nr][nc] == 0 {
                let ghost lb = labels_view(labels@);
                let ghost sb = stack@;
                labels[nr].set(nc, label);
                stack.push((nr, nc));
                proof {
                    assert(labels_view(labels@) =~= lb.update(nr as int, lb[nr as int].update(nc as int, label)));
                    assert forall|x: (usize, usize)| #[trigger] stack@.contains(x) == (sb.contains(x) || x == (nr, nc)) by {
                        crate::solver::line_solver::placement::lemma_push_contains(sb, (nr, nc), x);
                    }
                    assert(!sb.contains((nr, nc)) && !component@.contains((nr, nc))) by {
                        assert(lb[nr as int][nc as int] == 0);
                    }
                    crate::solver::line_solver::placement::lemma_push_no_duplicates(sb, (nr, nc));
                    assert forall|rr: int, cc: int| 0 <= rr < height && 0 <= cc < width implies #[trigger] labels_view(
                        labels@,
                    )[rr][cc] == if component@.contains((rr as usize, cc as usize)) || stack@.contains(
                        (rr as usize, cc as usize),
                    ) {
                        label
                    } else {
                        l0[rr][cc]
                    } by {
                        if rr == nr && cc == nc {
                            assert(stack@.contains((rr as usize, cc as usize)));
                        } else {
                            assert(labels_view(labels@)[rr][cc] == lb[rr][cc]);
                            assert((rr as usize, cc as usize) != (nr, nc));
                        }
                    }
                    assert forall|i: int| 0 <= i < stack@.len() implies in_table(#[trigger] stack@[i], width as int, height as int)
                        && t[stack@[i].0 as int][stack@[i].1 as int] && l0[stack@[i].0 as int][stack@[i].1 as int] == 0 by {
                        if i < sb.len() {
                            assert(stack@[i] == sb[i]);
                        } else {
                            assert(lb[nr as int][nc as int] == 0);
                        }
                    }
                    assert(adjacent(r as int, c as int, neighbors@[k as int].0 as int, neighbors@[k as int].1 as int));
                    lemma_linked_step(t, start, (r, c), (nr, nc), width as int, height as int);
                    assert forall|i: int| 0 <= i < stack@.len() implies linked(t, start, #[trigger] stack@[i], width as int, height as int) by {
                        if i < sb.len() {
                            assert(stack@[i] == sb[i]);
                        }
                    }
                }
            }
            k += 1;
        }
        proof {
            lemma_pair_bound(component@, stack@, width as int, height as int);
            let last = component@.len() - 1;
            assert forall|i: int, r2: int, c2: int|
                0 <= i < component@.len() && 0 <= r2 < height && 0 <= c2 < width && #[trigger] adjacent(
                    (component@[i]).0 as int,
                    component@[i].1 as int,
                    r2,
                    c2,
                ) && t[r2][c2] implies labels_view(labels@)[r2][c2] != 0 by {
                if i == last {
                    assert(neighbors@.contains((r2 as usize, c2 as usize)));
                    let j = choose|j: int| 0 <= j < neighbors@.len() && neighbors@[j] == (r2 as usize, c2 as usize);
                    assert(t[(neighbors@[j]).0 as int][neighbors@[j].1 as int]);
                }
            }
        }
    }
    proof {
        assert forall|r: int, c: int| 0 <= r < height && 0 <= c < width implies #[trigger] labels_view(labels@)[r][c]
            == if component@.contains((r as usize, c as usize)) {
            label
        } else {
            l0[r][c]
        } by {
            assert(!stack@.contains((r as usize, c as usize)));
        }
        assert(component@.contains(start));
    }
    component
}

/// `lab` labels the `true` cells of `t` with `1..=comps.len()`, gives
/// side-by-side `true` cells the same label, and `comps[k]` lists the cells
/// labeled `k + 1`, each once, all joined by paths of side-by-side `true`
/// cells: the classes are the connected groups of `true` cells.
pub open spec fn noise_partition(
    t: Seq<Seq<bool>>,
    lab: Seq<Seq<usize>>,
    comps: Seq<Seq<(usize, usize)>>,
    width: int,
    height: int,
) -> bool {
    &&& table_shape(lab, width, height)
    &&& forall|r: int, c: int|
        0 <= r < height && 0 <= c < width ==> (#[trigger] lab[r][c] > 0) == t[r][c] && lab[r][c] <= comps.len()
    &&& forall|r: int, c: int, r2: int, c2: int|
        0 <= r < height && 0 <= c < width && 0 <= r2 < height && 0 <= c2 < width && #[trigger] adjacent(r, c, r2, c2)
            && t[r][c] && t[r2][c2] ==> lab[r][c] == lab[r2][c2]
    &&& forall|k: int| 0 <= k < comps.len() ==> (#[trigger] comps[k]).no_duplicates()
    &&& forall|k: int, i: int|
        0 <= k < comps.len() && 0 <= i < comps[k].len() ==> in_table(#[trigger] comps[k][i], width, height)
    &&& forall|k: int, r: int, c: int|
        0 <= k < comps.len() && 0 <= r < height && 0 <= c < width ==> (#[trigger] comps[k].contains(
            (r as usize, c as usize),
        )) == (lab[r][c] == k + 1)
    &&& forall|k: int, i: int, j: int|
        0 <= k < comps.len() && 0 <= i < comps[k].len() && 0 <= j < comps[k].len() ==> linked(
            t,
            #[trigger] comps[k][i],
            #[trigger] comps[k][j],
            width,
            height,
        )
}

/// A `height` by `width` table of zero labels.
fn zero_labels(width: usize, height: usize) -> (labels: Vec<Vec<usize>>)
    ensures
        table_shape(labels_view(labels@), width as int, height as int),
        forall|r: int, c: int| 0 <= r < height && 0 <= c < width ==> #[trigger] labels_view(labels@)[r][c] == 0,
{
    let mut labels: Vec<Vec<usize>> = Vec::new();
    let mut r: usize = 0;
    while r < height
        invariant
            r <= height,
            labels@.len() == r,
            forall|i: int| 0 <= i < r ==> (#[trigger] labels@[i])@.len() == width,
            forall|i: int, c: int| 0 <= i < r && 0 <= c < width ==> #[trigger] labels@[i]@[c] == 0,
        decreases height - r,
    {
        labels.push(vec![0usize; width]);
        r += 1;
    }
    labels
}

/// Clears the groups of side-by-side `true` cells smaller than `min_size`.
pub fn remove_noise(cells: Vec<Vec<bool>>, width: usize, height: usize, min_size: usize) -> (out: Vec<Vec<bool>>)
    requires
        table_shape(table_view(cells@), width as int, height as int),
        width * height < usize::MAX,
    ensures
        table_shape(table_view(out@), width as int, height as int),
        exists|lab: Seq<Seq<usize>>, comps: Seq<Seq<(usize, usize)>>|
            noise_partition(table_view(cells@), lab, comps, width as int, height as int) && forall|r: int, c: int|
                0 <= r < height && 0 <= c < width ==> #[trigger] table_view(out@)[r][c] == (table_view(cells@)[r][c]
                    && comps[lab[r][c] - 1].len() >= min_size),
{
    let ghost t = table_view(cells@);
    let mut cells = cells;
    let mut labels = zero_labels(width, height);
    let mut label: usize = 0;
    let mut components: Vec<Vec<(usize, usize)>> = Vec::new();
    let mut row: usize = 0;
    while row < height
        invariant
            t == table_view(cells@),
            table_shape(t, width as int, height as int),
            table_shape(labels_view(labels@), width as int, height as int),
            row <= height,
            width * height < usize::MAX,
            label <= row * width,
            label == components@.len(),
            forall|r: int, c: int|
                0 <= r < height && 0 <= c < width ==> (#[trigger] labels_view(labels@)[r][c] > 0 ==> t[r][c])
                    && labels_view(labels@)[r][c] <= label,
            forall|r: int, c: int| 0 <= r < row && 0 <= c < width && #[trigger] t[r][c] ==> labels_view(labels@)[r][c] > 0,
            forall|r: int, c: int, r2: int, c2: int|
                0 <= r < height && 0 <= c < width && 0 <= r2 < height && 0 <= c2 < width && #[trigger] adjacent(
                    r,
                    c,
                    r2,
                    c2,
                ) && labels_view(labels@)[r][c] > 0 && t[r2][c2] ==> labels_view(labels@)[r2][c2] == labels_view(labels@)[r][c],
            forall|k: int| 0 <= k < components@.len() ==> (#[trigger] components@[k])@.no_duplicates(),
            forall|k: int, i: int|
                0 <= k < components@.len() && 0 <= i < components@[k]@.len() ==> in_table(
                    #[trigger] components@[k]@[i],
                    width as int,
                    height as int,
                ),
            forall|k: int, r: int, c: int|
                0 <= k < components@.len() && 0 <= r < height && 0 <= c < width ==> (#[trigger] components@[k]@.contains(
                    (r as usize, c as usize),
                )) == (labels_view(labels@)[r][c] == k + 1),
            forall|k: int, i: int, j: int|
                0 <= k < components@.len() && 0 <= i < components@[k]@.len() && 0 <= j < components@[k]@.len()
                    ==> linked(t, #[trigger] components@[k]@[i], #[trigger] components@[k]@[j], width as int, height as int),
        decreases height - row,
    {
        let mut col: usize = 0;
        while col < width
            invariant
                t == table_view(cells@),
                table_shape(t, width as int, height as int),
                table_shape(labels_view(labels@), width as int, height as int),
                row < height,
                col <= width,
                width * height < usize::MAX,
                label <= row * width + col,
                label == components@.len(),
                forall|r: int, c: int|
                    0 <= r < height && 0 <= c < width ==> (#[trigger] labels_view(labels@)[r][c] > 0 ==> t[r][c])
                        && labels_view(labels@)[r][c] <= label,
                forall|r: int, c: int|
                    0 <= r < height && 0 <= c < width && (r < row || (r == row && c < col)) && #[trigger] t[r][c]
                        ==> labels_view(labels@)[r][c] > 0,
                forall|r: int, c: int, r2: int, c2: int|
                    0 <= r < height && 0 <= c < width && 0 <= r2 < height && 0 <= c2 < width && #[trigger] adjacent(
                        r,
                        c,
                        r2,
                        c2,
                    ) && labels_view(labels@)[r][c] > 0 && t[r2][c2] ==> labels_view(labels@)[r2][c2] == labels_view(
                        labels@,
                    )[r][c],
                forall|k: int| 0 <= k < components@.len() ==> (#[trigger] components@[k])@.no_duplicates(),
                forall|k: int, i: int|
                    0 <= k < components@.len() && 0 <= i < components@[k]@.len() ==> in_table(
                        #[trigger] components@[k]@[i],
                        width as int,
                        height as int,
                    ),
                forall|k: int, r: int, c: int|
                    0 <= k < components@.len() && 0 <= r < height && 0 <= c < width ==> (
                    #[trigger] components@[k]@.contains((r as usize, c as usize))) == (labels_view(labels@)[r][c] == k
                        + 1),
                forall|k: int, i: int, j: int|
                    0 <= k < components@.len() && 0 <= i < components@[k]@.len() && 0 <= j < components@[k]@.len()
                        ==> linked(t, #[trigger] components@[k]@[i], #[trigger] components@[k]@[j], width as int, height as int),
            decreases width - col,
        {
            proof {
                assert(t[row as int] == cells@[row as int]@);
                assert(labels_view(labels@)[row as int] == labels@[row as int]@);
            }
            if cells[row][col] && labels[row][col] == 0 {
                let ghost lb = labels_view(labels@);
                let ghost cb = components@;
                proof {
                    assert(row * width + col < width * height) by (nonlinear_arith)
                        requires
                            row < height,
                            col < width,
                    ;
                }
                label += 1;
                let component = flood_fill(&cells, &mut labels, (row, col), label, height, width);
                components.push(component);
                proof {
                    let lv = labels_view(labels@);
                    assert forall|r: int, c: int, r2: int, c2: int|
                        0 <= r < height && 0 <= c < width && 0 <= r2 < height && 0 <= c2 < width && #[trigger] adjacent(
                            r,
                            c,
                            r2,
                            c2,
                        ) && lv[r][c] > 0 && t[r2][c2] implies lv[r2][c2] == lv[r][c] by {
                        if lb[r][c] > 0 {
                            assert(lb[r2][c2] == lb[r][c]);
                        } else {
                            assert(component@.contains((r as usize, c as usize)));
                            let i = choose|i: int| 0 <= i < component@.len() && component@[i] == (r as usize, c as usize);
                            assert(adjacent(component@[i].0 as int, component@[i].1 as int, r2, c2));
                            if lb[r2][c2] > 0 {
                                assert(adjacent(r2, c2, r, c));
                                assert(lb[r][c] == lb[r2][c2]);
                            }
                        }
                    }
                    assert forall|k: int, r: int, c: int|
                        0 <= k < components@.len() && 0 <= r < height && 0 <= c < width implies (
                        #[trigger] components@[k]@.contains((r as usize, c as usize))) == (lv[r][c] == k + 1) by {
                        if k < cb.len() {
                            assert(components@[k] == cb[k]);
                            if component@.contains((r as usize, c as usize)) {
                                let i = choose|i: int| 0 <= i < component@.len() && component@[i] == (r as usize, c as usize);
                                assert(lb[component@[i].0 as int][component@[i].1 as int] == 0);
                            }
                        }
                    }
                    assert forall|k: int, i: int|
                        0 <= k < components@.len() && 0 <= i < components@[k]@.len() implies in_table(
                        #[trigger] components@[k]@[i],
                        width as int,
                        height as int,
                    ) by {
                        if k < cb.len() {
                            assert(components@[k] == cb[k]);
                        }
                    }
                    assert forall|k: int| 0 <= k < components@.len() implies (#[trigger] components@[k])@.no_duplicates() by {
                        if k < cb.len() {
                            assert(components@[k] == cb[k]);
                        }
                    }
                    assert forall|k: int, i: int, j: int|
                        0 <= k < components@.len() && 0 <= i < components@[k]@.len() && 0 <= j < components@[k]@.len()
                            implies linked(t, #[trigger] components@[k]@[i], #[trigger] components@[k]@[j], width as int, height as int) by {
                        if k < cb.len() {
                            assert(components@[k] == cb[k]);
                        } else {
                            assert(components@[k]@ == component@);
                            assert(linked(t, (row, col), component@[i], width as int, height as int));
                            assert(linked(t, (row, col), component@[j], width as int, height as int));
                            lemma_linked_symm(t, (row, col), component@[i], width as int, height as int);
                            lemma_linked_trans(t, component@[i], (row, col), component@[j], width as int, height as int);
                        }
                    }
                }
            }
            col += 1;
        }
        proof {
            assert((row + 1) * width == row * width + width) by (nonlinear_arith);
        }
        row += 1;
    }
    let ghost lab = labels_view(labels@);
    let ghost comps = components@.map_values(|v: Vec<(usize, usize)>| v@);
    proof {
        assert(noise_partition(t, lab, comps, width as int, height as int)) by {
            assert forall|k: int| 0 <= k < comps.len() implies (#[trigger] comps[k]).no_duplicates() by {
                assert(comps[k] == components@[k]@);
            }
            assert forall|k: int, i: int| 0 <= k < comps.len() && 0 <= i < comps[k].len() implies in_table(
                #[trigger] comps[k][i],
                width as int,
                height as int,
            ) by {
                assert(comps[k] == components@[k]@);
            }
            assert forall|k: int, r: int, c: int|
                0 <= k < comps.len() && 0 <= r < height && 0 <= c < width implies (#[trigger] comps[k].contains(
                (r as usize, c as usize),
            )) == (lab[r][c] == k + 1) by {
                assert(comps[k] == components@[k]@);
            }
            assert forall|r: int, c: int, r2: int, c2: int|
                0 <= r < height && 0 <= c < width && 0 <= r2 < height && 0 <= c2 < width && #[trigger] adjacent(
                    r,
                    c,
                    r2,
                    c2,
                ) && t[r][c] && t[r2][c2] implies lab[r][c] == lab[r2][c2] by {
                assert(lab[r][c] > 0);
            }
            assert forall|k: int, i: int, j: int|
                0 <= k < comps.len() && 0 <= i < comps[k].len() && 0 <= j < comps[k].len() implies linked(
                t,
                #[trigger] comps[k][i],
                #[trigger] comps[k][j],
                width as int,
                height as int,
            ) by {
                assert(comps[k] == components@[k]@);
            }
        }
    }
    let mut k: usize = 0;
    while k < components.len()
        invariant
            table_shape(table_view(cells@), width as int, height as int),
            noise_partition(t, lab, comps, width as int, height as int),
            comps == components@.map_values(|v: Vec<(usize, usize)>| v@),
            k <= components@.len(),
            forall|r: int, c: int|
                0 <= r < height && 0 <= c < width ==> #[trigger] table_view(cells@)[r][c] == (t[r][c] && (lab[r][c]
                    > k || comps[lab[r][c] - 1].len() >= min_size)),
        decreases components@.len() - k,
    {
        let component = &components[k];
        if component.len() < min_size {
            let mut i: usize = 0;
            while i < component.len()
                invariant
                    table_shape(table_view(cells@), width as int, height as int),
                    noise_partition(t, lab, comps, width as int, height as int),
                    comps == components@.map_values(|v: Vec<(usize, usize)>| v@),
                    k < components@.len(),
                    component@ == comps[k as int],
                    component@.len() < min_size,
                    i <= component@.len(),
                    forall|r: int, c: int|
                        0 <= r < height && 0 <= c < width ==> #[trigger] table_view(cells@)[r][c] == (t[r][c] && (
                        lab[r][c] > k || comps[lab[r][c] - 1].len() >= min_size) && !(lab[r][c] == k + 1
                            && component@.take(i as int).contains((r as usize, c as usize)))),
                decreases component@.len() - i,
            {
                let (r, c) = component[i];
                proof {
                    assert(in_table(comps[k as int][i as int], width as int, height as int));
                }
                let ghost tb = table_view(cells@);
                proof {
                    assert(tb[r as int] == cells@[r as int]@);
                }
                cells[r].set(c, false);
                proof {
                    assert(table_view(cells@) =~= tb.update(r as int, tb[r as int].update(c as int, false)));
                    assert forall|rr: int, cc: int| 0 <= rr < height && 0 <= cc < width implies #[trigger] table_view(
                        cells@,
                    )[rr][cc] == (t[rr][cc] && (lab[rr][cc] > k || comps[lab[rr][cc] - 1].len() >= min_size) && !(
                    lab[rr][cc] == k + 1 && component@.take(i + 1).contains((rr as usize, cc as usize)))) by {
                        crate::solver::line_solver::placement::lemma_push_contains(
                            component@.take(i as int),
                            (r, c),
                            (rr as usize, cc as usize),
                        );
                        assert(component@.take(i + 1) == component@.take(i as int).push((r, c)));
                        assert(comps[k as int].contains((r, c)));
                    }
                }
                i += 1;
            }
            proof {
                assert(component@.take(component@.len() as int) == component@);
                assert forall|rr: int, cc: int| 0 <= rr < height && 0 <= cc < width implies #[trigger] table_view(cells@)[rr][cc]
                    == (t[rr][cc] && (lab[rr][cc] > k + 1 || comps[lab[rr][cc] - 1].len() >= min_size)) by {
                    if lab[rr][cc] == k + 1 {
                        assert(comps[k as int].contains((rr as usize, cc as usize)));
                        assert(component@.take(component@.len() as int).contains((rr as usize, cc as usize)));
                    }
                }
            }
        }
        k += 1;
    }
    cells
}

} // verus!
