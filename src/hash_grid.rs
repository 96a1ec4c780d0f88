//! A grid that holds, besides its cells, the distance map it displays.

use crate::cell::{Cell, CellView};
use crate::distances::{is_bfs_map, is_path_back, keys_unique, links_inside, map_of, DistanceMap};
use crate::label::{label_for, label_text};
use crate::maze::{
    blank, cell_of, cells_view, in_bounds, links_symmetric, put, shaped, unwired, wired,
};
use crate::random::RandomSource;
use crate::text::{draw, grid_text, labels_view};
use crate::store::{blank_cells, lookup, store, wire_cells, BoundsError};
pub use crate::grid::{get_neighbor_coords, Neighbors};
use vstd::prelude::*;

verus! {

/// Whether `goal` is recorded in `m` at the greatest distance.
pub open spec fn is_farthest(m: Map<(i32, i32), u32>, goal: (i32, i32)) -> bool {
    &&& m.contains_key(goal)
    &&& forall|k: (i32, i32)| #[trigger] m.contains_key(k) ==> m[k] <= m[goal]
}

/// A rectangular grid of `rows` by `columns` cells, each replaced whole
/// when it changes, with the distance map shown in its cells, if any.
#[derive(Debug, PartialEq, Eq)]
pub struct HashGrid {
    pub rows: i32,
    pub columns: i32,
    pub grid: Vec<Vec<Cell>>,
    pub distances: Option<DistanceMap>,
}

impl HashGrid {
    /// The cells, row by row.
    pub open spec fn cells(&self) -> Seq<Seq<CellView>> {
        cells_view(self.grid@)
    }

    /// Whether every coordinate of the grid holds exactly one cell, and no
    /// other coordinate is stored.
    pub open spec fn wf(&self) -> bool {
        shaped(self.cells(), self.rows as int, self.columns as int)
    }

    /// The cell that distances are measured from: the bottom-left corner.
    pub open spec fn corner(&self) -> (i32, i32) {
        ((self.rows - 1) as i32, 0i32)
    }

    /// A grid of `rows` by `columns` cells, wired to their neighbors, with
    /// no passages and no distance map.
    pub fn new(rows: i32, columns: i32) -> (r: HashGrid)
        requires
            0 <= rows,
            0 <= columns,
            rows * columns <= i32::MAX,
        ensures
            r.wf(),
            r.rows == rows,
            r.columns == columns,
            wired(r.cells(), rows as int, columns as int),
            blank(r.cells(), rows as int, columns as int),
            r.distances is None,
    {
        let mut grd_init = HashGrid { rows, columns, grid: Vec::new(), distances: None };
        grd_init.prepare_grid();
        grd_init.configure_cells();
        grd_init
    }

    /// The number of cells stored.
    pub fn len(&self) -> (r: usize)
        requires
            self.wf(),
        ensures
            r == self.rows * self.columns,
    {
        (self.rows * self.columns) as usize
    }

    /// A grid holding `cells`, with as many rows as `cells` has and as many
    /// columns as its first row has, and no distance map.
    pub fn from_cells(cells: Vec<Vec<Cell>>) -> (r: HashGrid)
        requires
            1 <= cells@.len() <= i32::MAX,
            shaped(cells_view(cells@), cells@.len() as int, cells@[0]@.len() as int),
        ensures
            r.wf(),
            r.rows == cells@.len(),
            r.columns == cells@[0]@.len(),
            r.cells() == cells_view(cells@),
            r.distances is None,
    {
        proof {
            let rows = cells@.len() as int;
            let cols = cells@[0]@.len() as int;
            assert(cells_view(cells@)[0].len() == cols);
            assert(cols <= rows * cols) by (nonlinear_arith)
                requires
                    rows >= 1,
                    cols >= 0,
            ;
        }
        let rows = cells.len() as i32;
        let columns = cells[0].len() as i32;
        HashGrid { rows, columns, grid: cells, distances: None }
    }

    /// Fills the grid with a fresh cell, with no links and no neighbors, for
    /// every coordinate.
    pub fn prepare_grid(&mut self)
        requires
            0 <= old(self).rows,
            0 <= old(self).columns,
            old(self).rows * old(self).columns <= i32::MAX,
        ensures
            final(self).wf(),
            final(self).rows == old(self).rows,
            final(self).columns == old(self).columns,
            final(self).distances == old(self).distances,
            blank(final(self).cells(), final(self).rows as int, final(self).columns as int),
            unwired(final(self).cells(), final(self).rows as int, final(self).columns as int),
    {
        self.grid = blank_cells(self.rows, self.columns);
    }

    /// Sets each cell's neighbors from the grid's bounds, leaving its links
    /// as they are.
    pub fn configure_cells(&mut self)
        requires
            old(self).wf(),
        ensures
            final(self).wf(),
            final(self).rows == old(self).rows,
            final(self).columns == old(self).columns,
            final(self).distances == old(self).distances,
            wired(final(self).cells(), final(self).rows as int, final(self).columns as int),
            forall|r: int, c: int|
                0 <= r < old(self).rows && 0 <= c < old(self).columns ==> (#[trigger] final(self).cells()[r][c]).links
                    == old(self).cells()[r][c].links,
    {
        wire_cells(&mut self.grid, self.rows, self.columns);
    }

    /// The cell at `row_col`, or `None` when it lies outside the grid.
    pub fn get_item(&self, row_col: (i32, i32)) -> (r: Option<&Cell>)
        requires
            self.wf(),
        ensures
            r is Some <==> in_bounds(self.rows as int, self.columns as int, row_col),
            r is Some ==> r->Some_0@ == cell_of(self.cells(), row_col),
    {
        lookup(&self.grid, self.rows, self.columns, row_col)
    }

    /// Writes `cll` back at its own coordinate; rejects a coordinate outside
    /// the grid, naming the row first.
    pub fn replace_cell(&mut self, cll: Cell) -> (r: Result<(), BoundsError>)
        requires
            old(self).wf(),
        ensures
            r == Err::<(), BoundsError>(BoundsError::Row) <==> !(0 <= cll.row < old(self).rows),
            r == Err::<(), BoundsError>(BoundsError::Column) <==> 0 <= cll.row < old(self).rows
                && !(0 <= cll.column < old(self).columns),
            r is Ok <==> in_bounds(old(self).rows as int, old(self).columns as int, cll@.at()),
            r is Ok ==> final(self).cells() == put(old(self).cells(), cll@.at(), cll@),
            r is Err ==> final(self).cells() == old(self).cells(),
            final(self).wf(),
            final(self).rows == old(self).rows,
            final(self).columns == old(self).columns,
            final(self).distances == old(self).distances,
    {
        store(&mut self.grid, self.rows, self.columns, cll)
    }

    /// The number of cells.
    pub fn size(&self) -> (r: i32)
        requires
            self.wf(),
        ensures
            r == self.rows * self.columns,
    {
        self.rows * self.columns
    }

    /// A cell at a coordinate whose row and column are drawn independently
    /// and uniformly from `rng`; `None` only for a grid without cells.
    pub fn random_cell(&self, rng: &mut RandomSource) -> (r: Option<&Cell>)
        requires
            self.wf(),
        ensures
            r is Some <==> self.rows >= 1 && self.columns >= 1,
            r is Some ==> in_bounds(self.rows as int, self.columns as int, r->Some_0@.at()),
            r is Some ==> r->Some_0@ == cell_of(self.cells(), r->Some_0@.at()),
    {
        if self.rows < 1 || self.columns < 1 {
            return None;
        }
        let rownum = rng.below(self.rows as usize) as i32;
        let colnum = rng.below(self.columns as usize) as i32;
        proof {
            assert(self.cells()[rownum as int][colnum as int].row == rownum);
        }
        self.get_item((rownum, colnum))
    }

    /// The grid drawn as text, four characters per cell, each cell showing
    /// its label.
    pub fn to_text(&self) -> (r: String)
        requires
            self.wf(),
            self.distances matches Some(dm) ==> dm.wf(),
        ensures
            r@ == grid_text(self.cells(), self.shown_labels(), self.columns as nat, 4),
    {
        let mut labels: Vec<Vec<String>> = Vec::new();
        let mut i: i32 = 0;
        while i < self.rows
            invariant
                self.wf(),
                self.distances matches Some(dm) ==> dm.wf(),
                0 <= i <= self.rows,
                labels@.len() == i,
                forall|k: int| 0 <= k < i ==> (#[trigger] labels@[k])@.len() == self.columns,
                forall|k: int, j: int|
                    0 <= k < i && 0 <= j < self.columns ==> (#[trigger] labels@[k]@[j])@ == label_text(
                        self.shown_distance((k as i32, j as i32)),
                    ),
            decreases self.rows - i,
        {
            let mut row: Vec<String> = Vec::new();
            let mut j: i32 = 0;
            while j < self.columns
                invariant
                    self.wf(),
                    self.distances matches Some(dm) ==> dm.wf(),
                    0 <= i < self.rows,
                    0 <= j <= self.columns,
                    row@.len() == j,
                    forall|t: int|
                        0 <= t < j ==> (#[trigger] row@[t])@ == label_text(self.shown_distance((i, t as i32))),
                decreases self.columns - j,
            {
                row.push(self.get_cell_body(&(i, j)));
                j = j + 1;
            }
            labels.push(row);
            i = i + 1;
        }
        proof {
            assert forall|k: int| 0 <= k < self.rows implies (#[trigger] labels_view(labels@)[k]) =~= self.shown_labels()[k] by {
                assert forall|j: int| 0 <= j < self.columns implies labels_view(labels@)[k][j] == self.shown_labels()[k][j] by {
                    assert(labels@[k]@[j]@ == label_text(self.shown_distance((k as i32, j as i32))));
                }
            }
            assert(labels_view(labels@) =~= self.shown_labels());
        }
        draw(&self.grid, self.rows, self.columns, &labels, 4)
    }

    /// Shows the breadth-first distances from the bottom-left corner.
    pub fn build_distance_map(&mut self)
        requires
            old(self).wf(),
            old(self).rows >= 1,
            old(self).columns >= 1,
            links_inside(old(self).cells(), old(self).rows as int, old(self).columns as int),
        ensures
            final(self).rows == old(self).rows,
            final(self).columns == old(self).columns,
            final(self).grid@ == old(self).grid@,
            final(self).distances matches Some(dm) && dm.wf() && dm.root() == old(self).corner()
                && is_bfs_map(old(self).cells(), old(self).rows as int, old(self).columns as int, old(self).corner(), dm.distances()),
    {
        let start = (self.rows - 1, 0);
        self.distances = Some(DistanceMap::from_hashgrid(start, self));
    }

    /// Shows only the trail from the cell farthest from the bottom-left
    /// corner back to that corner, each cell with its distance.
    pub fn build_breadcrumbs_to_longest(&mut self)
        requires
            old(self).wf(),
            old(self).rows >= 1,
            old(self).columns >= 1,
            links_symmetric(old(self).cells(), old(self).rows as int, old(self).columns as int),
        ensures
            final(self).rows == old(self).rows,
            final(self).columns == old(self).columns,
            final(self).grid@ == old(self).grid@,
            final(self).distances matches Some(dm) && dm.wf() && dm.root() == old(self).corner()
                && exists|m: Map<(i32, i32), u32>, goal: (i32, i32), path: Seq<((i32, i32), u32)>|
                    is_bfs_map(old(self).cells(), old(self).rows as int, old(self).columns as int, old(self).corner(), m)
                        && is_farthest(m, goal)
                        && is_path_back(old(self).cells(), old(self).corner(), m, goal, path)
                        && dm.distances() == map_of(path),
    {
        let start = (self.rows - 1, 0);
        let dm = DistanceMap::from_hashgrid(start, self);
        let ghost m = dm.distances();
        let entries = dm.entries();
        let mut endpoint = start;
        let mut maxval: u32 = 0;
        let mut i: usize = 0;
        while i < entries.len()
            invariant
                keys_unique(entries@),
                map_of(entries@) == m,
                m.contains_key(endpoint),
                m[endpoint] == maxval,
                i <= entries@.len(),
                forall|t: int| 0 <= t < i ==> (#[trigger] entries@[t]).1 <= maxval,
            decreases entries@.len() - i,
        {
            if entries[i].1 > maxval {
                maxval = entries[i].1;
                endpoint = entries[i].0;
                proof {
                    crate::distances::lemma_map_of_index(entries@, i as int);
                }
            }
            i = i + 1;
        }
        proof {
            assert forall|k: (i32, i32)| #[trigger] m.contains_key(k) implies m[k] <= m[endpoint] by {
                crate::distances::lemma_map_of_contains(entries@, k);
                let t = choose|t: int| 0 <= t < entries@.len() && (#[trigger] entries@[t]).0 == k;
                crate::distances::lemma_map_of_index(entries@, t);
            }
        }
        let breadcrumbs = dm.path_to(endpoint, self);
        proof {
            crate::distances::lemma_path_keys_unique(self.cells(), start, m, endpoint, breadcrumbs@);
        }
        self.distances = Some(DistanceMap::new(start, breadcrumbs));
    }

    /// The distance shown for `p`: its entry in the distance map shown, if
    /// any.
    pub open spec fn shown_distance(&self, p: (i32, i32)) -> Option<u32> {
        match self.distances {
            Some(dm) => if dm.distances().contains_key(p) {
                Some(dm.distances()[p])
            } else {
                None
            },
            None => None,
        }
    }

    /// The labels of all cells, row by row.
    pub open spec fn shown_labels(&self) -> Seq<Seq<Seq<char>>> {
        Seq::new(
            self.rows as nat,
            |r: int| Seq::new(self.columns as nat, |c: int| label_text(self.shown_distance((r as i32, c as i32)))),
        )
    }

    /// The text shown in the cell at `cell_loc`: its distance in the
    /// distance map shown, or blanks.
    pub fn get_cell_body(&self, cell_loc: &(i32, i32)) -> (r: String)
        requires
            self.distances matches Some(dm) ==> dm.wf(),
        ensures
            r@ == label_text(self.shown_distance(*cell_loc)),
    {
        match &self.distances {
            None => label_for(None),
            Some(dist) => {
                if dist.has_entry(*cell_loc) {
                    label_for(dist.get(*cell_loc))
                } else {
                    label_for(None)
                }
            },
        }
    }
}

} // verus!
