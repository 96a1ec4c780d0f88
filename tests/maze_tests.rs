use mazes::algorithms::{aldous_broder, binary_tree, binary_tree_cell, sidewinder, walk_step};
use mazes::cell::{Cell, Direction};
use mazes::distances::DistanceMap;
use mazes::grid::Grid;
use mazes::hash_grid::HashGrid;
use mazes::random::RandomSource;

fn grid_cells(grid: &Grid) -> Vec<&Cell> {
    let mut out = Vec::new();
    let mut iter = grid.iter();
    while let Some(c) = iter.next() {
        out.push(c);
    }
    out
}

fn hash_cells(hgrid: &HashGrid) -> Vec<&Cell> {
    let mut out = Vec::new();
    for r in 0..hgrid.rows {
        for c in 0..hgrid.columns {
            out.push(hgrid.get_item((r, c)).unwrap());
        }
    }
    out
}

fn passage_count(cells: &[&Cell]) -> usize {
    let ends: usize = cells.iter().map(|c| c.links.len()).sum();
    ends / 2
}

fn assert_links_are_neighbors_and_matched(cells: &[&Cell]) {
    for c in cells {
        for l in &c.links {
            assert!(c.neighbors().contains(l), "link of {:?} to {:?}", c.coords(), l);
            let other = cells.iter().find(|o| o.coords() == *l).unwrap();
            assert!(other.links.contains(&c.coords()));
        }
    }
}

fn assert_grid_maze(grid: &Grid) {
    let cells = grid_cells(grid);
    let n = (grid.rows * grid.columns) as usize;
    assert_eq!(passage_count(&cells), n - 1);
    assert_links_are_neighbors_and_matched(&cells);
    let dm = DistanceMap::from_grid((0, 0), grid);
    assert_eq!(dm.entries().len(), n);
}

fn assert_hash_maze(hgrid: &HashGrid) {
    let cells = hash_cells(hgrid);
    let n = (hgrid.rows * hgrid.columns) as usize;
    assert_eq!(passage_count(&cells), n - 1);
    assert_links_are_neighbors_and_matched(&cells);
    let dm = DistanceMap::from_hashgrid((0, 0), hgrid);
    assert_eq!(dm.entries().len(), n);
}

#[test]
fn binary_tree_east_else_north_on_four_by_four() {
    let grid = Grid::new(4, 4);
    let mut rng = RandomSource::replaying(vec![1]);
    let maze = binary_tree(&grid, &mut rng);
    for r in 0..4 {
        for c in 0..4 {
            let cell = maze.get_item((r, c)).unwrap();
            let mut expected: Vec<(i32, i32)> = Vec::new();
            if c < 3 {
                expected.push((r, c + 1));
            }
            if c > 0 {
                expected.push((r, c - 1));
            }
            if c == 3 && r > 0 {
                expected.push((r - 1, 3));
            }
            if c == 3 && r < 3 {
                expected.push((r + 1, 3));
            }
            let mut got = cell.links.clone();
            got.sort();
            expected.sort();
            assert_eq!(got, expected, "cell ({}, {})", r, c);
        }
    }
    assert_grid_maze(&maze);
}

#[test]
fn binary_tree_north_first_on_three_by_three() {
    let grid = Grid::new(3, 3);
    let mut rng = RandomSource::replaying(vec![0]);
    let maze = binary_tree(&grid, &mut rng);
    assert!(maze.get_item((2, 0)).unwrap().direction_has_link(Direction::North));
    assert!(maze.get_item((1, 1)).unwrap().direction_has_link(Direction::North));
    assert!(!maze.get_item((1, 1)).unwrap().direction_has_link(Direction::East));
    assert!(maze.get_item((0, 0)).unwrap().direction_has_link(Direction::East));
    assert_grid_maze(&maze);
}

#[test]
fn binary_tree_cell_picks_north_or_east() {
    let grid = Grid::new(2, 2);
    let mut rng = RandomSource::replaying(vec![1]);
    let mut cell = grid.get_item((1, 0)).unwrap().copy();
    assert_eq!(binary_tree_cell(&mut cell, &mut rng), Some((1, 1)));
    assert_eq!(cell.links, vec![(1, 1)]);
    let mut corner = grid.get_item((0, 1)).unwrap().copy();
    assert_eq!(binary_tree_cell(&mut corner, &mut rng), None);
    assert!(!corner.has_links());
}

#[test]
fn binary_tree_spans_random_grids() {
    for seed in 0..20u64 {
        let grid = Grid::new(1 + (seed % 5) as i32, 1 + (seed % 7) as i32);
        let mut rng = RandomSource::seeded(seed);
        let maze = binary_tree(&grid, &mut rng);
        assert_grid_maze(&maze);
    }
}

#[test]
fn sidewinder_spans_random_grids() {
    for seed in 0..20u64 {
        let grid = Grid::new(1 + (seed % 6) as i32, 1 + (seed % 4) as i32);
        let mut rng = RandomSource::seeded(seed);
        let maze = sidewinder(&grid, &mut rng);
        assert_grid_maze(&maze);
    }
}

#[test]
fn sidewinder_top_row_is_one_corridor() {
    for seed in 0..10u64 {
        let grid = Grid::new(5, 6);
        let mut rng = RandomSource::seeded(seed);
        let maze = sidewinder(&grid, &mut rng);
        for c in 0..6 {
            let cell = maze.get_item((0, c)).unwrap();
            assert!(!cell.direction_has_link(Direction::North));
            if c < 5 {
                assert!(cell.direction_has_link(Direction::East));
            }
        }
    }
}

#[test]
fn sidewinder_closing_every_cell_goes_north() {
    let grid = Grid::new(3, 3);
    let mut rng = RandomSource::replaying(vec![0]);
    let maze = sidewinder(&grid, &mut rng);
    for r in 1..3 {
        for c in 0..3 {
            let cell = maze.get_item((r, c)).unwrap();
            assert!(cell.direction_has_link(Direction::North));
            assert!(!cell.direction_has_link(Direction::East));
        }
    }
    assert_grid_maze(&maze);
}

#[test]
fn aldous_broder_three_by_three_always_spans() {
    for seed in 0..200u64 {
        let mut hgrid = HashGrid::new(3, 3);
        let mut rng = RandomSource::seeded(seed);
        assert!(aldous_broder(&mut hgrid, &mut rng, u64::MAX));
        assert_hash_maze(&hgrid);
        assert_eq!(passage_count(&hash_cells(&hgrid)), 8);
    }
}

#[test]
fn aldous_broder_spans_other_sizes() {
    for seed in 0..20u64 {
        let mut hgrid = HashGrid::new(1 + (seed % 4) as i32, 1 + (seed % 5) as i32);
        let mut rng = RandomSource::seeded(seed);
        assert!(aldous_broder(&mut hgrid, &mut rng, u64::MAX));
        assert_hash_maze(&hgrid);
    }
}

#[test]
fn aldous_broder_gives_up_after_step_limit() {
    let mut hgrid = HashGrid::new(4, 4);
    let mut rng = RandomSource::seeded(3);
    assert!(!aldous_broder(&mut hgrid, &mut rng, 2));
    let cells = hash_cells(&hgrid);
    assert!(passage_count(&cells) <= 2);
    assert!(cells.iter().any(|c| !c.has_links()));
    assert_links_are_neighbors_and_matched(&cells);
}

#[test]
fn one_by_one_grid_has_no_passages() {
    let grid = Grid::new(1, 1);
    let mut rng = RandomSource::seeded(1);
    for maze in [binary_tree(&grid, &mut rng), sidewinder(&grid, &mut rng)] {
        assert!(!maze.get_item((0, 0)).unwrap().has_links());
        let dm = DistanceMap::from_grid((0, 0), &maze);
        assert_eq!(dm.entries(), &vec![((0, 0), 0)]);
    }
    let mut hgrid = HashGrid::new(1, 1);
    assert!(aldous_broder(&mut hgrid, &mut rng, 10));
    assert!(!hgrid.get_item((0, 0)).unwrap().has_links());
    let dm = DistanceMap::from_hashgrid((0, 0), &hgrid);
    assert_eq!(dm.entries(), &vec![((0, 0), 0)]);
    assert_eq!(dm.get((0, 0)), Some(0));
}

#[test]
fn sidewinder_runs_have_one_passage_north() {
    for seed in 0..20u64 {
        let grid = Grid::new(6, 7);
        let mut rng = RandomSource::seeded(seed);
        let maze = sidewinder(&grid, &mut rng);
        for r in 1..6 {
            let mut norths = 0;
            for c in 0..7 {
                let cell = maze.get_item((r, c)).unwrap();
                if cell.direction_has_link(Direction::North) {
                    norths += 1;
                }
                if !cell.direction_has_link(Direction::East) {
                    assert_eq!(norths, 1, "row {} run ending at {}", r, c);
                    norths = 0;
                }
            }
        }
    }
}

#[test]
fn walk_step_carves_only_into_unvisited_cells() {
    let mut hgrid = HashGrid::new(2, 2);
    assert!(walk_step(&mut hgrid, (0, 0), (0, 1)));
    assert_eq!(hgrid.get_item((0, 0)).unwrap().links, vec![(0, 1)]);
    assert_eq!(hgrid.get_item((0, 1)).unwrap().links, vec![(0, 0)]);
    assert!(!walk_step(&mut hgrid, (1, 1), (0, 1)));
    assert!(!hgrid.get_item((1, 1)).unwrap().has_links());
    assert_eq!(hgrid.get_item((0, 1)).unwrap().links, vec![(0, 0)]);
}

#[test]
fn aldous_broder_first_step_always_carves() {
    for seed in 0..20u64 {
        let mut hgrid = HashGrid::new(3, 3);
        let mut rng = RandomSource::seeded(seed);
        assert!(!aldous_broder(&mut hgrid, &mut rng, 1));
        assert_eq!(passage_count(&hash_cells(&hgrid)), 1);
    }
}
