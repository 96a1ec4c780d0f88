//! A grid whose cells are stored densely, row by row.

use crate::cell::{is_step, next_cell, Cell, CellView, Direction};
use crate::maze::{blank, cell_of, cells_view, in_bounds, put, shaped, unwired, wired};
use crate::random::RandomSource;
use crate::text::{blank_labels, draw, grid_text, repeat_char, uniform_labels};
use crate::store::{blank_cells, lookup, store, wire_cells, BoundsError};
use vstd::prelude::*;

verus! {

/// The four coordinates one step from a cell.
#[derive(Debug)]
pub struct Neighbors {
    pub north_cell: (i32, i32),
    pub east_cell: (i32, i32),
    pub south_cell: (i32, i32),
    pub west_cell: (i32, i32),
}

/// The coordinates one step north, east, south and west of `current`.
pub fn get_neighbor_coords(current: (i32, i32)) -> (r: Neighbors)
    requires
        i32::MIN < current.0 < i32::MAX,
        i32::MIN < current.1 < i32::MAX,
    ensures
        is_step(current, Direction::North, r.north_cell),
        is_step(current, Direction::East, r.east_cell),
        is_step(current, Direction::South, r.south_cell),
        is_step(current, Direction::West, r.west_cell),
{
    Neighbors {
        north_cell: next_cell(current, Direction::North),
        east_cell: next_cell(current, Direction::East),
        south_cell: next_cell(current, Direction::South),
        west_cell: next_cell(current, Direction::West),
    }
}

/// A rectangular grid of `rows` by `columns` cells.
#[derive(Debug, PartialEq, Eq)]
pub struct Grid {
    pub rows: i32,
    pub columns: i32,
    pub grid: Vec<Vec<Cell>>,
}

impl Grid {
    /// The cells, row by row.
    pub open spec fn cells(&self) -> Seq<Seq<CellView>> {
        cells_view(self.grid@)
    }

    /// Whether every coordinate of the grid holds exactly one cell, and no
    /// other coordinate is stored.
    pub open spec fn wf(&self) -> bool {
        shaped(self.cells(), self.rows as int, self.columns as int)
    }

    /// A grid of `rows` by `columns` cells, wired to their neighbors, with
    /// no passages.
    pub fn new(rows: i32, columns: i32) -> (r: Grid)
        requires
            0 <= rows,
            0 <= columns,
            rows * columns <= i32::MAX,
        ensures
            r.wf(),
            r.rows == rows,
            r.columns == columns,
            wired(r.cells(), rows as int, columns as int),
            blank(r.cells(), rows as int, columns as int),
    {
        let mut grd_init = Grid { rows, columns, grid: Vec::new() };
        grd_init.prepare_grid();
        grd_init.configure_cells();
        grd_init
    }

    /// A grid holding `cells`, with as many rows as `cells` has and as many
    /// columns as its first row has.
    pub fn from_cells(cells: Vec<Vec<Cell>>) -> (r: Grid)
        requires
            1 <= cells@.len() <= i32::MAX,
            shaped(cells_view(cells@), cells@.len() as int, cells@[0]@.len() as int),
        ensures
            r.wf(),
            r.rows == cells@.len(),
            r.columns == cells@[0]@.len(),
            r.cells() == cells_view(cells@),
    {
        proof {
            let rows = cells@.len() as int;
            let cols = cells@[0]@.len() as int;
            assert(cells_view(cells@)[0].len() == cols);
            assert(cols <= rows * cols) by (nonlinear_arith)
                requires
                    rows >= 1,
                    cols >= 0,
            ;
        }
        let rows = cells.len() as i32;
        let columns = cells[0].len() as i32;
        Grid { rows, columns, grid: cells }
    }

    /// A grid of `rows` by `columns` holding `cells`.
    pub fn from_cells_sized(cells: Vec<Vec<Cell>>, rows: i32, columns: i32) -> (r: Grid)
        requires
            shaped(cells_view(cells@), rows as int, columns as int),
        ensures
            r.wf(),
            r.rows == rows,
            r.columns == columns,
            r.cells() == cells_view(cells@),
    {
        Grid { rows, columns, grid: cells }
    }

    /// A cursor over the cells in row-major order.
    pub fn iter(&self) -> (r: IterGrid<'_>)
        ensures
            r.source() == self,
            r.position() == Some((0i32, 0i32)),
    {
        IterGrid::new(self)
    }

    /// Fills the grid with a fresh cell, with no links and no neighbors, for
    /// every coordinate.
    pub fn prepare_grid(&mut self)
        requires
            0 <= old(self).rows,
            0 <= old(self).columns,
            old(self).rows * old(self).columns <= i32::MAX,
        ensures
            final(self).wf(),
            final(self).rows == old(self).rows,
            final(self).columns == old(self).columns,
            blank(final(self).cells(), final(self).rows as int, final(self).columns as int),
            unwired(final(self).cells(), final(self).rows as int, final(self).columns as int),
    {
        self.grid = blank_cells(self.rows, self.columns);
    }

    /// Sets each cell's neighbors from the grid's bounds, leaving its links
    /// as they are.
    pub fn configure_cells(&mut self)
        requires
            old(self).wf(),
        ensures
            final(self).wf(),
            final(self).rows == old(self).rows,
            final(self).columns == old(self).columns,
            wired(final(self).cells(), final(self).rows as int, final(self).columns as int),
            forall|r: int, c: int|
                0 <= r < old(self).rows && 0 <= c < old(self).columns ==> (#[trigger] final(self).cells()[r][c]).links == old(self).cells()[r][c].links,
    {
        wire_cells(&mut self.grid, self.rows, self.columns);
    }

    /// The cell at `row_col`, or `None` when it lies outside the grid.
    pub fn get_item(&self, row_col: (i32, i32)) -> (r: Option<&Cell>)
        requires
            self.wf(),
        ensures
            r is Some <==> in_bounds(self.rows as int, self.columns as int, row_col),
            r is Some ==> r->Some_0@ == cell_of(self.cells(), row_col),
            item_view(r) == item_at(self.cells(), self.rows as int, self.columns as int, row_col),
    {
        lookup(&self.grid, self.rows, self.columns, row_col)
    }

    /// Writes `cll` back at its own coordinate; rejects a coordinate outside
    /// the grid, naming the row first.
    pub fn replace_cell(&mut self, cll: Cell) -> (r: Result<(), BoundsError>)
        requires
            old(self).wf(),
        ensures
            r == Err::<(), BoundsError>(BoundsError::Row) <==> !(0 <= cll.row < old(self).rows),
            r == Err::<(), BoundsError>(BoundsError::Column) <==> 0 <= cll.row < old(self).rows
                && !(0 <= cll.column < old(self).columns),
            r is Ok <==> in_bounds(old(self).rows as int, old(self).columns as int, cll@.at()),
            r is Ok ==> final(self).cells() == put(old(self).cells(), cll@.at(), cll@),
            r is Err ==> final(self).cells() == old(self).cells(),
            final(self).wf(),
            final(self).rows == old(self).rows,
            final(self).columns == old(self).columns,
    {
        store(&mut self.grid, self.rows, self.columns, cll)
    }

    /// The number of cells.
    pub fn size(&self) -> (r: i32)
        requires
            self.wf(),
        ensures
            r == self.rows * self.columns,
    {
        self.rows * self.columns
    }

    /// A cell at a coordinate whose row and column are drawn independently
    /// and uniformly from `rng`.
    pub fn random_cell(&self, rng: &mut RandomSource) -> (r: &Cell)
        requires
            self.wf(),
            self.rows >= 1,
            self.columns >= 1,
        ensures
            in_bounds(self.rows as int, self.columns as int, r@.at()),
            r@ == cell_of(self.cells(), r@.at()),
    {
        let rownum = rng.below(self.rows as usize) as i32;
        let colnum = rng.below(self.columns as usize) as i32;
        proof {
            assert(self.cells()[rownum as int][colnum as int].row == rownum);
        }
        self.get_item((rownum, colnum)).unwrap()
    }

    /// A copy of a cell at a coordinate whose row and column are drawn
    /// independently and uniformly from `rng`.
    pub fn random_cell_cloned(&self, rng: &mut RandomSource) -> (r: Cell)
        requires
            self.wf(),
            self.rows >= 1,
            self.columns >= 1,
        ensures
            in_bounds(self.rows as int, self.columns as int, r@.at()),
            r@ == cell_of(self.cells(), r@.at()),
    {
        self.random_cell(rng).copy()
    }

    /// Mutable access to a cell at a coordinate whose row and column are
    /// drawn independently and uniformly from `rng`. What is written through
    /// it lands in the grid at that coordinate.
    pub fn random_cell_mut(&mut self, rng: &mut RandomSource) -> (r: &mut Cell)
        requires
            old(self).wf(),
            old(self).rows >= 1,
            old(self).columns >= 1,
        ensures
            in_bounds(old(self).rows as int, old(self).columns as int, r@.at()),
            r@ == cell_of(old(self).cells(), r@.at()),
            final(self).rows == old(self).rows,
            final(self).columns == old(self).columns,
            final(self).grid@ == old(self).grid@.update(r@.row as int, final(self).grid@[r@.row as int]),
            final(self).grid@[r@.row as int]@ == old(self).grid@[r@.row as int]@.update(
                r@.column as int,
                *final(r),
            ),
    {
        let rownum = rng.below(self.rows as usize);
        let colnum = rng.below(self.columns as usize);
        proof {
            assert(self.cells()[rownum as int].len() == self.columns);
            assert(self.cells()[rownum as int][colnum as int].row == rownum);
        }
        &mut self.grid[rownum][colnum]
    }

    /// The grid drawn as text, three characters per cell.
    pub fn to_text(&self) -> (r: String)
        requires
            self.wf(),
        ensures
            r@ == grid_text(
                self.cells(),
                uniform_labels(self.rows as int, self.columns as int, repeat_char(' ', 3)),
                self.columns as nat,
                3,
            ),
    {
        let labels = blank_labels(self.rows, self.columns, 3);
        draw(&self.grid, self.rows, self.columns, &labels, 3)
    }

    /// The rows of cells, in order.
    pub fn each_row(&self) -> (r: &Vec<Vec<Cell>>)
        ensures
            cells_view(r@) == self.cells(),
    {
        &self.grid
    }
}

/// The value of the cell that a lookup found, if any.
pub open spec fn item_view(r: Option<&Cell>) -> Option<CellView> {
    match r {
        Some(c) => Some(c@),
        None => None,
    }
}

/// The cell stored at `p`, or `None` when `p` lies outside the grid.
pub open spec fn item_at(g: Seq<Seq<CellView>>, rows: int, cols: int, p: (i32, i32)) -> Option<CellView> {
    if in_bounds(rows, cols, p) {
        Some(cell_of(g, p))
    } else {
        None
    }
}

/// Looking a coordinate up twice gives the same cell, or `None` both times:
/// what `get_item` returns is fixed by the grid and the coordinate, and a
/// lookup changes neither.
pub proof fn lemma_get_item_idempotent(grid: &Grid, row_col: (i32, i32), first: Option<&Cell>, second: Option<&Cell>)
    requires
        item_view(first) == item_at(grid.cells(), grid.rows as int, grid.columns as int, row_col),
        item_view(second) == item_at(grid.cells(), grid.rows as int, grid.columns as int, row_col),
    ensures
        item_view(first) == item_view(second),
{
}

/// A cursor over the cells of a [`Grid`] in row-major order.
pub struct IterGrid<'a> {
    grid: &'a Grid,
    row_col: Option<(i32, i32)>,
}

/// The coordinate after `p` in row-major order, or `None` after the last.
pub open spec fn successor(p: (i32, i32), rows: int, cols: int) -> Option<(i32, i32)> {
    let (r, c) = if p.1 < cols - 1 {
        (p.0 as int, p.1 + 1)
    } else {
        (p.0 + 1, 0int)
    };
    if r < rows {
        Some((r as i32, c as i32))
    } else {
        None
    }
}

impl<'a> IterGrid<'a> {
    /// The grid walked over.
    pub closed spec fn source(&self) -> &'a Grid {
        self.grid
    }

    /// The coordinate of the next cell, or `None` when the walk is over.
    pub closed spec fn position(&self) -> Option<(i32, i32)> {
        self.row_col
    }

    fn new(grid: &'a Grid) -> (r: IterGrid<'a>)
        ensures
            r.source() == grid,
            r.position() == Some((0i32, 0i32)),
    {
        IterGrid { grid, row_col: Some((0, 0)) }
    }

    /// The cell at the current position, moving on to the next one; `None`
    /// once every cell has been handed out.
    pub fn next(&mut self) -> (r: Option<&'a Cell>)
        requires
            old(self).source().wf(),
        ensures
            final(self).source() == old(self).source(),
            match old(self).position() {
                None => r is None && final(self).position() is None,
                Some(p) => {
                    let g = old(self).source();
                    &&& r is Some <==> in_bounds(g.rows as int, g.columns as int, p)
                    &&& r is Some ==> r->Some_0@ == cell_of(g.cells(), p)
                    &&& final(self).position() == successor(
                        p,
                        g.rows as int,
                        g.columns as int,
                    )
                },
            },
    {
        match self.row_col {
            None => None,
            Some((row, col)) => {
                let next_cell = self.grid.get_item((row, col));
                if col < self.grid.columns - 1 {
                    if row < self.grid.rows {
                        self.row_col = Some((row, col + 1));
                    } else {
                        self.row_col = None;
                    }
                } else if row < self.grid.rows - 1 {
                    self.row_col = Some((row + 1, 0));
                } else {
                    self.row_col = None;
                }
                next_cell
            },
        }
    }
}

} // verus!
