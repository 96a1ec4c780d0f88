//! Row-by-row storage of a grid's cells, shared by both grid types.

use crate::cell::Cell;
use crate::maze::{
    adds_passage, blank, cell_of, cells_view, in_bounds, lemma_put, linked, neighbor_at, put,
    shaped, unwired, wired, wired_cell,
};
use vstd::prelude::*;

verus! {

/// The neighbor coordinate (`r`, `c`) when it lies in the grid.
fn neighbor_if_inside(rows: i32, cols: i32, r: i64, c: i64) -> (n: Option<(i32, i32)>)
    requires
        0 <= rows,
        0 <= cols,
    ensures
        n == neighbor_at(rows as int, cols as int, r as int, c as int),
{
    if 0 <= r && r < rows as i64 && 0 <= c && c < cols as i64 {
        Some((r as i32, c as i32))
    } else {
        None
    }
}

/// Cells for every coordinate of a `rows` by `cols` grid, with no links and
/// no neighbors.
pub fn blank_cells(rows: i32, cols: i32) -> (v: Vec<Vec<Cell>>)
    requires
        0 <= rows,
        0 <= cols,
        rows * cols <= i32::MAX,
    ensures
        shaped(cells_view(v@), rows as int, cols as int),
        blank(cells_view(v@), rows as int, cols as int),
        unwired(cells_view(v@), rows as int, cols as int),
{
    let mut outer: Vec<Vec<Cell>> = Vec::new();
    let mut r: i32 = 0;
    while r < rows
        invariant
            0 <= r <= rows,
            0 <= cols,
            outer@.len() == r,
            forall|i: int| 0 <= i < r ==> (#[trigger] outer@[i])@.len() == cols,
            forall|i: int, j: int|
                0 <= i < r && 0 <= j < cols ==> (#[trigger] outer@[i]@[j])@.row == i
                    && outer@[i]@[j]@.column == j && outer@[i]@[j]@.links.len() == 0
                    && outer@[i]@[j]@.neighbor_seq().len() == 0,
        decreases rows - r,
    {
        let mut inner: Vec<Cell> = Vec::new();
        let mut c: i32 = 0;
        while c < cols
            invariant
                0 <= r < rows,
                0 <= c <= cols,
                0 <= cols,
                inner@.len() == c,
                forall|j: int|
                    0 <= j < c ==> (#[trigger] inner@[j])@.row == r && inner@[j]@.column == j
                        && inner@[j]@.links.len() == 0 && inner@[j]@.neighbor_seq().len() == 0,
            decreases cols - c,
        {
            inner.push(Cell::new(r, c));
            c = c + 1;
        }
        outer.push(inner);
        r = r + 1;
    }
    outer
}

/// Sets the four neighbor fields of every cell from the grid's bounds,
/// leaving the links as they are.
pub fn wire_cells(cells: &mut Vec<Vec<Cell>>, rows: i32, cols: i32)
    requires
        shaped(cells_view(old(cells)@), rows as int, cols as int),
    ensures
        shaped(cells_view(final(cells)@), rows as int, cols as int),
        wired(cells_view(final(cells)@), rows as int, cols as int),
        forall|r: int, c: int|
            0 <= r < rows && 0 <= c < cols ==> (#[trigger] cells_view(final(cells)@)[r][c]).links
                == cells_view(old(cells)@)[r][c].links,
{
    let mut r: usize = 0;
    while r < rows as usize
        invariant
            0 <= rows,
            0 <= cols,
            r <= rows,
            shaped(cells_view(cells@), rows as int, cols as int),
            shaped(cells_view(old(cells)@), rows as int, cols as int),
            forall|i: int, j: int|
                0 <= i < r && 0 <= j < cols ==> wired_cell(
                    #[trigger] cells_view(cells@)[i][j],
                    rows as int,
                    cols as int,
                ),
            forall|i: int, j: int|
                0 <= i < rows && 0 <= j < cols ==> (#[trigger] cells_view(cells@)[i][j]).links
                    == cells_view(old(cells)@)[i][j].links,
        decreases rows - r,
    {
        let mut c: usize = 0;
        while c < cols as usize
            invariant
                0 <= rows,
                0 <= cols,
                r < rows,
                c <= cols,
                shaped(cells_view(cells@), rows as int, cols as int),
                shaped(cells_view(old(cells)@), rows as int, cols as int),
                forall|i: int, j: int|
                    (0 <= i < r && 0 <= j < cols) || (i == r && 0 <= j < c) ==> wired_cell(
                        #[trigger] cells_view(cells@)[i][j],
                        rows as int,
                        cols as int,
                    ),
                forall|i: int, j: int|
                    0 <= i < rows && 0 <= j < cols ==> (#[trigger] cells_view(cells@)[i][j]).links
                        == cells_view(old(cells)@)[i][j].links,
            decreases cols - c,
        {
            proof {
                assert(cells_view(cells@)[r as int].len() == cols);
                assert(cells_view(cells@)[r as int] == cells@[r as int]@.map_values(|x: Cell| x@));
            }
            let mut cell = cells[r][c].copy();
            assert(cells_view(cells@)[r as int][c as int] == cell@);
            let ri = r as i64;
            let ci = c as i64;
            cell.north = neighbor_if_inside(rows, cols, ri - 1, ci);
            cell.south = neighbor_if_inside(rows, cols, ri + 1, ci);
            cell.east = neighbor_if_inside(rows, cols, ri, ci + 1);
            cell.west = neighbor_if_inside(rows, cols, ri, ci - 1);
            let ghost before = cells_view(cells@);
            cells[r].set(c, cell);
            proof {
                assert(cells_view(cells@) =~~= put(before, (r as i32, c as i32), cell@));
                lemma_put(before, rows as int, cols as int, (r as i32, c as i32), cell@);
            }
            c = c + 1;
        }
        r = r + 1;
    }
}

/// Why a cell could not be written back into a grid.
#[derive(PartialEq, Eq, Structural, Clone, Copy, Debug)]
pub enum BoundsError {
    /// The cell's row lies outside the grid.
    Row,
    /// The cell's row lies inside, its column outside.
    Column,
}

/// The cell at `p`, or `None` when `p` lies outside the grid.
pub fn lookup(cells: &Vec<Vec<Cell>>, rows: i32, cols: i32, p: (i32, i32)) -> (r: Option<&Cell>)
    requires
        shaped(cells_view(cells@), rows as int, cols as int),
    ensures
        r is Some <==> in_bounds(rows as int, cols as int, p),
        r is Some ==> r->Some_0@ == cell_of(cells_view(cells@), p),
{
    let (r, c) = p;
    if r >= rows || r < 0 {
        return None;
    }
    if c >= cols || c < 0 {
        return None;
    }
    proof {
        assert(cells_view(cells@)[r as int].len() == cols);
    }
    Some(&cells[r as usize][c as usize])
}

/// Writes `cell` at its own coordinate, or reports which of its
/// coordinates lies outside the grid.
pub fn store(cells: &mut Vec<Vec<Cell>>, rows: i32, cols: i32, cell: Cell) -> (r: Result<(), BoundsError>)
    requires
        shaped(cells_view(old(cells)@), rows as int, cols as int),
    ensures
        r == Err::<(), BoundsError>(BoundsError::Row) <==> !(0 <= cell.row < rows),
        r == Err::<(), BoundsError>(BoundsError::Column) <==> 0 <= cell.row < rows && !(0 <= cell.column < cols),
        r is Ok <==> in_bounds(rows as int, cols as int, cell@.at()),
        r is Ok ==> cells_view(final(cells)@) == put(cells_view(old(cells)@), cell@.at(), cell@),
        r is Err ==> final(cells)@ == old(cells)@,
        shaped(cells_view(final(cells)@), rows as int, cols as int),
{
    let (r, c) = (cell.row, cell.column);
    if r >= rows || r < 0 {
        return Err(BoundsError::Row);
    }
    if c >= cols || c < 0 {
        return Err(BoundsError::Column);
    }
    let ghost before = cells_view(cells@);
    let ghost v = cell@;
    proof {
        assert(cells_view(cells@)[r as int].len() == cols);
    }
    cells[r as usize].set(c as usize, cell);
    proof {
        assert(cells_view(cells@) =~~= put(before, (r, c), v));
        lemma_put(before, rows as int, cols as int, (r, c), v);
    }
    Ok(())
}

/// Opens a passage between the cells at `a` and `b`, recorded on both.
pub fn carve(cells: &mut Vec<Vec<Cell>>, rows: i32, cols: i32, a: (i32, i32), b: (i32, i32))
    requires
        shaped(cells_view(old(cells)@), rows as int, cols as int),
        in_bounds(rows as int, cols as int, a),
        in_bounds(rows as int, cols as int, b),
    ensures
        adds_passage(cells_view(old(cells)@), cells_view(final(cells)@), rows as int, cols as int, a, b),
{
    let ghost g0 = cells_view(cells@);
    let mut first = lookup(cells, rows, cols, a).unwrap().copy();
    first.link(b);
    let _ = store(cells, rows, cols, first);
    let ghost g1 = cells_view(cells@);
    proof {
        lemma_put(g0, rows as int, cols as int, a, first@);
    }
    let mut second = lookup(cells, rows, cols, b).unwrap().copy();
    second.link(a);
    let _ = store(cells, rows, cols, second);
    proof {
        lemma_put(g1, rows as int, cols as int, b, second@);
        let g2 = cells_view(cells@);
        assert forall|p: (i32, i32), q: (i32, i32)| in_bounds(rows as int, cols as int, p) implies (
        #[trigger] linked(g2, p, q) <==> linked(g0, p, q) || (p == a && q == b) || (p == b && q
            == a)) by {
            assert(g2[p.0 as int][p.1 as int] == cell_of(g2, p));
        }
    }
}

/// Writes back `cell`, which has gained a link to `n`, and records the
/// passage on the cell at `n` too.
pub fn commit_passage(cells: &mut Vec<Vec<Cell>>, rows: i32, cols: i32, cell: Cell, n: (i32, i32))
    requires
        shaped(cells_view(old(cells)@), rows as int, cols as int),
        in_bounds(rows as int, cols as int, cell@.at()),
        in_bounds(rows as int, cols as int, n),
        cell@.same_place(cell_of(cells_view(old(cells)@), cell@.at())),
        cell@.link_set() == cell_of(cells_view(old(cells)@), cell@.at()).link_set().insert(n),
    ensures
        adds_passage(cells_view(old(cells)@), cells_view(final(cells)@), rows as int, cols as int, cell@.at(), n),
{
    let ghost g0 = cells_view(cells@);
    let a = cell.coords();
    let ghost v = cell@;
    let _ = store(cells, rows, cols, cell);
    let ghost g1 = cells_view(cells@);
    proof {
        lemma_put(g0, rows as int, cols as int, a, v);
    }
    let mut second = lookup(cells, rows, cols, n).unwrap().copy();
    second.link(a);
    let _ = store(cells, rows, cols, second);
    proof {
        lemma_put(g1, rows as int, cols as int, n, second@);
        let g2 = cells_view(cells@);
        assert forall|p: (i32, i32), q: (i32, i32)| in_bounds(rows as int, cols as int, p) implies (
        #[trigger] linked(g2, p, q) <==> linked(g0, p, q) || (p == a && q == n) || (p == n && q
            == a)) by {
            assert(g2[p.0 as int][p.1 as int] == cell_of(g2, p));
        }
    }
}

/// A cell-by-cell copy of `cells`.
pub fn copy_cells(cells: &Vec<Vec<Cell>>) -> (r: Vec<Vec<Cell>>)
    ensures
        cells_view(r@) == cells_view(cells@),
{
    let mut outer: Vec<Vec<Cell>> = Vec::new();
    let mut i: usize = 0;
    while i < cells.len()
        invariant
            i <= cells@.len(),
            outer@.len() == i,
            forall|k: int| 0 <= k < i ==> (#[trigger] outer@[k])@.map_values(|c: Cell| c@) == cells@[k]@.map_values(|c: Cell| c@),
        decreases cells@.len() - i,
    {
        let mut inner: Vec<Cell> = Vec::new();
        let mut j: usize = 0;
        while j < cells[i].len()
            invariant
                i < cells@.len(),
                j <= cells@[i as int]@.len(),
                inner@.len() == j,
                forall|k: int| 0 <= k < j ==> (#[trigger] inner@[k])@ == cells@[i as int]@[k]@,
            decreases cells@[i as int]@.len() - j,
        {
            inner.push(cells[i][j].copy());
            j = j + 1;
        }
        assert(inner@.map_values(|c: Cell| c@) =~= cells@[i as int]@.map_values(|c: Cell| c@));
        outer.push(inner);
        i = i + 1;
    }
    assert(cells_view(outer@) =~= cells_view(cells@));
    outer
}

} // verus!
