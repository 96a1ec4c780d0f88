use mazes::cell::{Cell, Direction};
use mazes::grid::Grid;
use mazes::hash_grid::HashGrid;
use mazes::BoundsError;

#[test]
fn iter() {
    let new_grid = Grid::new(2, 2);
    let mut iter = new_grid.iter();
    assert_eq!(iter.next().map(|cl| (cl.row, cl.column)), Some((0, 0)));
    assert_eq!(iter.next().map(|cl| (cl.row, cl.column)), Some((0, 1)));
    assert_eq!(iter.next().map(|cl| (cl.row, cl.column)), Some((1, 0)));
    assert_eq!(iter.next().map(|cl| (cl.row, cl.column)), Some((1, 1)));
    assert_eq!(iter.next().map(|cl| (cl.row, cl.column)), None);
}

#[test]
fn test_from_coords() {
    let grid = Grid::new(3, 2);
    let mut seen = Vec::new();
    let mut iter = grid.iter();
    while let Some(cl) = iter.next() {
        seen.push(cl.coords());
    }
    assert_eq!(seen, vec![(0, 0), (0, 1), (1, 0), (1, 1), (2, 0), (2, 1)]);
}

#[test]
fn new_grid_wires_neighbors_from_bounds() {
    let grid = Grid::new(3, 4);
    let corner = grid.get_item((0, 0)).unwrap();
    assert_eq!(corner.north, None);
    assert_eq!(corner.west, None);
    assert_eq!(corner.east, Some((0, 1)));
    assert_eq!(corner.south, Some((1, 0)));
    let inner = grid.get_item((1, 2)).unwrap();
    assert_eq!(inner.neighbors(), vec![(0, 2), (1, 3), (2, 2), (1, 1)]);
    let far = grid.get_item((2, 3)).unwrap();
    assert_eq!(far.east, None);
    assert_eq!(far.south, None);
    assert!(!far.has_links());
}

#[test]
fn get_item_out_of_bounds_is_none() {
    let grid = Grid::new(2, 3);
    assert!(grid.get_item((2, 0)).is_none());
    assert!(grid.get_item((0, 3)).is_none());
    assert!(grid.get_item((-1, 0)).is_none());
    assert!(grid.get_item((0, -1)).is_none());
    assert!(grid.get_item((1, 2)).is_some());
}

#[test]
fn get_item_twice_gives_same_cell() {
    let mut grid = Grid::new(3, 3);
    let mut cell = grid.get_item((1, 1)).unwrap().copy();
    cell.link((1, 2));
    grid.replace_cell(cell).unwrap();
    let first = grid.get_item((1, 1)).unwrap();
    let second = grid.get_item((1, 1)).unwrap();
    assert_eq!(first.coords(), second.coords());
    assert_eq!(first.links, second.links);
    assert_eq!(first.neighbors(), second.neighbors());
    assert!(grid.get_item((5, 5)).is_none() && grid.get_item((5, 5)).is_none());
}

#[test]
fn replace_cell_writes_at_its_coordinate() {
    let mut grid = Grid::new(2, 2);
    let mut cell = grid.get_item((0, 1)).unwrap().copy();
    cell.link((1, 1));
    assert_eq!(grid.replace_cell(cell), Ok(()));
    assert!(grid.get_item((0, 1)).unwrap().direction_has_link(Direction::South));
    assert!(!grid.get_item((0, 0)).unwrap().has_links());
}

#[test]
fn replace_cell_rejects_out_of_bounds() {
    let mut grid = Grid::new(2, 2);
    assert_eq!(grid.replace_cell(Cell::new(2, 0)), Err(BoundsError::Row));
    assert_eq!(grid.replace_cell(Cell::new(-1, 0)), Err(BoundsError::Row));
    assert_eq!(grid.replace_cell(Cell::new(0, 2)), Err(BoundsError::Column));
    assert_eq!(grid.replace_cell(Cell::new(1, -3)), Err(BoundsError::Column));
}

#[test]
fn size_counts_cells() {
    assert_eq!(Grid::new(3, 5).size(), 15);
    assert_eq!(HashGrid::new(4, 6).size(), 24);
    assert_eq!(HashGrid::new(4, 6).len(), 24);
    assert_eq!(Grid::new(0, 5).size(), 0);
}

#[test]
fn each_row_lists_rows_in_order() {
    let grid = Grid::new(2, 3);
    let rows = grid.each_row();
    assert_eq!(rows.len(), 2);
    assert_eq!(rows[1].len(), 3);
    assert_eq!(rows[1][2].coords(), (1, 2));
}

#[test]
fn from_cells_takes_dimensions_from_cells() {
    let cells = vec![vec![Cell::new(0, 0), Cell::new(0, 1), Cell::new(0, 2)]];
    let grid = Grid::from_cells(cells);
    assert_eq!((grid.rows, grid.columns), (1, 3));
    let hgrid = HashGrid::from_cells(vec![vec![Cell::new(0, 0)], vec![Cell::new(1, 0)]]);
    assert_eq!((hgrid.rows, hgrid.columns), (2, 1));
    assert!(hgrid.distances.is_none());
}

#[test]
fn hash_grid_replace_and_get() {
    let mut hgrid = HashGrid::new(2, 2);
    let mut cell = hgrid.get_item((1, 0)).unwrap().copy();
    cell.link((1, 1));
    assert_eq!(hgrid.replace_cell(cell), Ok(()));
    assert!(hgrid.get_item((1, 0)).unwrap().direction_has_link(Direction::East));
    assert_eq!(hgrid.replace_cell(Cell::new(3, 0)), Err(BoundsError::Row));
    assert!(hgrid.get_item((2, 2)).is_none());
}

#[test]
fn blank_grid_text_has_every_wall() {
    let grid = Grid::new(2, 2);
    assert_eq!(grid.to_text(), "+---+---+\n|   |   |\n+---+---+\n|   |   |\n+---+---+\n");
}

#[test]
fn maze_text_opens_passages() {
    let mut grid = Grid::new(2, 2);
    for (a, b) in [((0, 0), (0, 1)), ((1, 0), (1, 1)), ((1, 1), (0, 1))] {
        let mut first = grid.get_item(a).unwrap().copy();
        first.link(b);
        grid.replace_cell(first).unwrap();
        let mut second = grid.get_item(b).unwrap().copy();
        second.link(a);
        grid.replace_cell(second).unwrap();
    }
    assert_eq!(grid.to_text(), "+---+---+\n|       |\n+---+   +\n|       |\n+---+---+\n");
    let mut hgrid = HashGrid::new(2, 2);
    for r in 0..2 {
        for c in 0..2 {
            hgrid.replace_cell(grid.get_item((r, c)).unwrap().copy()).unwrap();
        }
    }
    assert_eq!(hgrid.to_text(), "+----+----+\n|         |\n+----+    +\n|         |\n+----+----+\n");
    hgrid.build_distance_map();
    assert_eq!(hgrid.to_text(), "+----+----+\n| 03   02 |\n+----+    +\n| 00   01 |\n+----+----+\n");
}
