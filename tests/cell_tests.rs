use mazes::cell::{neighbor_cells, next_cell, Cell, Direction};
use mazes::grid::Grid;
use mazes::random::RandomSource;

#[test]
fn next_cell_steps_one_way() {
    assert_eq!(next_cell((3, 4), Direction::North), (2, 4));
    assert_eq!(next_cell((3, 4), Direction::East), (3, 5));
    assert_eq!(next_cell((3, 4), Direction::South), (4, 4));
    assert_eq!(next_cell((3, 4), Direction::West), (3, 3));
}

#[test]
fn neighbor_cells_keeps_non_negative_steps() {
    let at_corner = neighbor_cells((0, 0));
    assert_eq!(at_corner, vec![(Direction::East, (0, 1)), (Direction::South, (1, 0))]);
    let inside = neighbor_cells((2, 1));
    assert_eq!(
        inside,
        vec![
            (Direction::North, (1, 1)),
            (Direction::East, (2, 2)),
            (Direction::South, (3, 1)),
            (Direction::West, (2, 0)),
        ]
    );
}

#[test]
fn neighbor_direction_by_delta() {
    let cell = Cell::new(2, 2);
    assert_eq!(cell.neighbor_direction((1, 2)), Some(Direction::North));
    assert_eq!(cell.neighbor_direction((3, 2)), Some(Direction::South));
    assert_eq!(cell.neighbor_direction((2, 1)), Some(Direction::West));
    assert_eq!(cell.neighbor_direction((2, 3)), Some(Direction::East));
    assert_eq!(cell.neighbor_direction((3, 3)), None);
    assert_eq!(cell.neighbor_direction((2, 2)), None);
    assert_eq!(cell.neighbor_direction((0, 2)), None);
}

#[test]
fn link_records_one_direction_once() {
    let mut cell = Cell::new(0, 0);
    assert!(!cell.has_links());
    cell.link((0, 1));
    cell.link((0, 1));
    assert!(cell.has_links());
    assert_eq!(cell.links, vec![(0, 1)]);
    assert!(cell.is_linked_to((0, 1)));
    assert!(!cell.is_linked_to((1, 0)));
}

#[test]
fn add_neighbor_sets_direction_and_links() {
    let mut cell = Cell::new(1, 1);
    assert_eq!(cell.add_neighbor((1, 2)), Some(()));
    assert_eq!(cell.east, Some((1, 2)));
    assert!(cell.direction_has_link(Direction::East));
    assert_eq!(cell.add_neighbor((3, 3)), None);
    assert_eq!(cell.links, vec![(1, 2)]);
    assert_eq!(cell.match_direction(&Direction::East), Some((1, 2)));
    assert_eq!(cell.match_direction(&Direction::West), None);
}

#[test]
fn direction_has_link_needs_neighbor_and_link() {
    let grid = Grid::new(2, 2);
    let mut cell = grid.get_item((0, 0)).unwrap().copy();
    assert!(!cell.direction_has_link(Direction::East));
    cell.link((0, 1));
    assert!(cell.direction_has_link(Direction::East));
    assert!(!cell.direction_has_link(Direction::South));
    let mut lonely = Cell::new(0, 0);
    lonely.link((0, 1));
    assert!(!lonely.direction_has_link(Direction::East));
}

#[test]
fn neighbors_in_fixed_order() {
    let grid = Grid::new(3, 3);
    assert_eq!(grid.get_item((1, 1)).unwrap().neighbors(), vec![(0, 1), (1, 2), (2, 1), (1, 0)]);
    assert_eq!(grid.get_item((2, 0)).unwrap().neighbors(), vec![(1, 0), (2, 1)]);
    assert!(Cell::new(0, 0).neighbors().is_empty());
}

#[test]
fn random_neighbor_picks_a_neighbor() {
    let grid = Grid::new(3, 3);
    let cell = grid.get_item((1, 1)).unwrap();
    let mut rng = RandomSource::replaying(vec![0, 1, 2, 3]);
    assert_eq!(cell.random_neighbor(&mut rng), Some((0, 1)));
    assert_eq!(cell.random_neighbor(&mut rng), Some((1, 2)));
    assert_eq!(cell.random_neighbor(&mut rng), Some((2, 1)));
    assert_eq!(cell.random_neighbor(&mut rng), Some((1, 0)));
    let mut seeded = RandomSource::seeded(7);
    for _ in 0..20 {
        let n = cell.random_neighbor(&mut seeded).unwrap();
        assert!(cell.neighbors().contains(&n));
    }
    assert_eq!(Cell::new(0, 0).random_neighbor(&mut seeded), None);
}

#[test]
fn copy_keeps_every_field() {
    let grid = Grid::new(2, 2);
    let mut cell = grid.get_item((1, 1)).unwrap().copy();
    cell.link((0, 1));
    let copied = cell.copy();
    assert_eq!(copied.coords(), (1, 1));
    assert_eq!(copied.links, vec![(0, 1)]);
    assert_eq!(copied.north, Some((0, 1)));
    assert_eq!(copied.west, Some((1, 0)));
}

#[test]
fn replaying_source_cycles_modulo_bound() {
    let mut rng = RandomSource::replaying(vec![5, 2]);
    assert_eq!(rng.below(3), 2);
    assert_eq!(rng.below(3), 2);
    assert_eq!(rng.below(4), 1);
    assert_eq!(rng.below(10), 2);
    let mut real = RandomSource::new();
    for _ in 0..50 {
        assert!(real.below(6) < 6);
    }
}
